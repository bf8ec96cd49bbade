//! Block sizes of the buddy zones and the alignment arithmetic the buddy
//! allocator relies on.
use vstd::prelude::*;
use vstd::arithmetic::power2::{pow2, lemma2_to64, lemma2_to64_rest, lemma_pow2_unfold};
use vstd::arithmetic::div_mod::{
    lemma_fundamental_div_mod, lemma_fundamental_div_mod_converse, lemma_mod_breakdown,
    lemma_mod_pos_bound,
};

verus! {

/// Size in bytes of the smallest page the memory managers hand out.
pub const BASIC_PAGE_SIZE: usize = 0x1000;

/// Half the address space: the largest power of two a `usize` holds.
pub open spec fn half_space() -> int {
    (usize::MAX as int + 1) / 2
}

/// Number of pages in a block of zone `level` (2^level).
pub open spec fn level_pages(level: nat) -> nat
    decreases level,
{
    if level == 0 {
        1
    } else {
        2 * level_pages((level - 1) as nat)
    }
}

/// Number of bytes in a block of zone `level`.
pub open spec fn level_bytes(level: nat) -> nat {
    level_pages(level) * 4096
}

/// `x` rounded down to a multiple of `m`.
pub open spec fn round_down(x: int, m: int) -> int {
    x - x % m
}

/// The start of the zone-`level` block that holds the address `x`.
pub open spec fn block_start(x: int, level: nat) -> int {
    round_down(x, level_bytes(level) as int)
}

/// The buddy of the zone-`level` block starting at `x`: the other half of the
/// zone-`level + 1` block that holds it.
pub open spec fn buddy_of(x: int, level: nat) -> int {
    let s = level_bytes(level) as int;
    if x % (2 * s) == 0 {
        x + s
    } else {
        x - s
    }
}

/// The zone-`level` block that starts at `b` holds the address `x`.
pub open spec fn block_holds(b: int, level: nat, x: int) -> bool {
    b <= x < b + level_bytes(level)
}

pub proof fn lemma_level_pages_pos(level: nat)
    ensures
        level_pages(level) >= 1,
        level_bytes(level) >= 4096,
    decreases level,
{
    if level > 0 {
        lemma_level_pages_pos((level - 1) as nat);
    }
}

pub proof fn lemma_level_next(level: nat)
    ensures
        level_pages(level + 1) == 2 * level_pages(level),
        level_bytes(level + 1) == 2 * level_bytes(level),
{
    assert(level_pages(level + 1) == 2 * level_pages(level));
    assert(level_bytes(level + 1) == level_pages(level + 1) * 4096);
    assert(2 * level_pages(level) * 4096 == 2 * (level_pages(level) * 4096)) by (nonlinear_arith);
}

pub proof fn lemma_level_pages_mono(a: nat, b: nat)
    requires
        a <= b,
    ensures
        level_pages(a) <= level_pages(b),
        level_bytes(a) <= level_bytes(b),
    decreases b - a,
{
    if a < b {
        lemma_level_pages_mono(a, (b - 1) as nat);
        lemma_level_pages_pos((b - 1) as nat);
        lemma_level_next((b - 1) as nat);
    }
}

/// Strictly growing: a larger zone has strictly larger blocks.
pub proof fn lemma_level_pages_strict(a: nat, b: nat)
    requires
        a < b,
    ensures
        level_pages(a) < level_pages(b),
{
    lemma_level_pages_mono(a, (b - 1) as nat);
    lemma_level_pages_pos((b - 1) as nat);
    lemma_level_next((b - 1) as nat);
}

/// The block sizes are the powers of two.
pub proof fn lemma_level_pages_pow2(level: nat)
    ensures
        level_pages(level) == pow2(level),
    decreases level,
{
    if level == 0 {
        lemma2_to64();
    } else {
        lemma_level_pages_pow2((level - 1) as nat);
        lemma_pow2_unfold(level);
    }
}

pub proof fn lemma_level_pages_63()
    ensures
        level_pages(63) == 0x8000_0000_0000_0000,
{
    lemma_level_pages_pow2(63);
    lemma2_to64_rest();
}

/// Half the address space is a block size: 2^63 bytes, or 2^31 on a
/// 32-bit machine.
pub proof fn lemma_half_space()
    ensures
        half_space() == level_pages(63) || half_space() == level_pages(31),
        half_space() >= level_pages(31),
        usize::MAX == 2 * half_space() - 1,
{
    lemma_level_pages_63();
    lemma_level_pages_31();
    assert(usize::MAX == 0xffff_ffff || usize::MAX == 0xffff_ffff_ffff_ffffint);
}

pub proof fn lemma_level_pages_31()
    ensures
        level_pages(31) == 0x8000_0000,
{
    lemma_level_pages_pow2(31);
    lemma2_to64();
}

/// A smaller block size than another comes from a lower zone.
pub proof fn lemma_level_pages_lt(a: nat, b: nat)
    requires
        level_pages(a) < level_pages(b),
    ensures
        a < b,
{
    if a >= b {
        lemma_level_pages_mono(b, a);
    }
}

/// Block sizes divide the larger block sizes.
pub proof fn lemma_level_pages_divides(a: nat, b: nat)
    requires
        a <= b,
    ensures
        level_pages(b) % level_pages(a) == 0,
        level_bytes(b) as int % (level_bytes(a) as int) == 0,
    decreases b - a,
{
    lemma_level_pages_pos(a);
    if a == b {
        lemma_fundamental_div_mod_converse(level_pages(a) as int, level_pages(a) as int, 1, 0);
        lemma_fundamental_div_mod_converse(level_bytes(a) as int, level_bytes(a) as int, 1, 0);
    } else {
        lemma_level_pages_divides(a, (b - 1) as nat);
        lemma_level_next((b - 1) as nat);
        let q = level_pages((b - 1) as nat) as int / level_pages(a) as int;
        lemma_fundamental_div_mod(level_pages((b - 1) as nat) as int, level_pages(a) as int);
        assert(level_pages(b) == (2 * q) * level_pages(a) + 0) by (nonlinear_arith)
            requires
                level_pages((b - 1) as nat) == level_pages(a) * q + 0,
                level_pages(b) == 2 * level_pages((b - 1) as nat),
        ;
        lemma_fundamental_div_mod_converse(level_pages(b) as int, level_pages(a) as int, 2 * q, 0);
        assert(level_bytes(b) == (2 * q) * level_bytes(a) + 0) by (nonlinear_arith)
            requires
                level_pages(b) == (2 * q) * level_pages(a) + 0,
                level_bytes(b) == level_pages(b) * 4096,
                level_bytes(a) == level_pages(a) * 4096,
        ;
        lemma_fundamental_div_mod_converse(level_bytes(b) as int, level_bytes(a) as int, 2 * q, 0);
    }
}

/// `x % (2s)` is `x % s`, or `x % s + s`.
pub proof fn lemma_mod_double(x: int, s: int)
    requires
        x >= 0,
        s > 0,
    ensures
        x % (2 * s) == x % s || x % (2 * s) == x % s + s,
        0 <= x % s < s,
        0 <= x % (2 * s) < 2 * s,
{
    lemma_mod_breakdown(x, s, 2);
    assert(s * 2 == 2 * s);
    lemma_mod_pos_bound(x / s, 2);
    lemma_mod_pos_bound(x, s);
    lemma_mod_pos_bound(x, 2 * s);
    let q = (x / s) % 2;
    assert(q == 0 || q == 1);
    if q == 0 {
        assert(s * q == 0) by (nonlinear_arith)
            requires
                q == 0,
        ;
    } else {
        assert(s * q == s) by (nonlinear_arith)
            requires
                q == 1,
        ;
    }
}

/// Facts on `x` rounded down to a multiple of `m`.
pub proof fn lemma_round_down(x: int, m: int)
    requires
        x >= 0,
        m > 0,
    ensures
        round_down(x, m) % m == 0,
        0 <= round_down(x, m) <= x < round_down(x, m) + m,
{
    lemma_fundamental_div_mod(x, m);
    lemma_mod_pos_bound(x, m);
    lemma_mod_pos_bound(x, 2 * m);
    let q = x / m;
    assert(round_down(x, m) == q * m) by (nonlinear_arith)
        requires
            x == m * q + x % m,
    ;
    assert(q >= 0) by (nonlinear_arith)
        requires
            x == m * q + x % m,
            0 <= x % m < m,
            x >= 0,
            m > 0,
    ;
    lemma_fundamental_div_mod_converse(q * m, m, q, 0);
}

/// The only multiple of `m` in `[b, b + m)` is `b`, when `b` is one.
pub proof fn lemma_round_down_in_block(b: int, m: int, x: int)
    requires
        b >= 0,
        m > 0,
        b % m == 0,
        b <= x < b + m,
    ensures
        round_down(x, m) == b,
{
    lemma_fundamental_div_mod(b, m);
    let q = b / m;
    assert(x == q * m + (x - b)) by (nonlinear_arith)
        requires
            b == m * q + 0,
    ;
    lemma_fundamental_div_mod_converse(x, m, q, x - b);
}

/// The buddy arithmetic on a block start `x` aligned to `s`: the buddy is
/// aligned to `s`, and the smaller of the two is `x` rounded down to `2s`.
pub proof fn lemma_buddy_pair(x: int, s: int)
    requires
        x >= 0,
        s > 0,
        x % s == 0,
    ensures
        ({
            let b = if x % (2 * s) == 0 { x + s } else { x - s };
            let lo = if x <= b { x } else { b };
            &&& b >= 0
            &&& b % s == 0
            &&& b != x
            &&& lo == round_down(x, 2 * s)
            &&& lo % (2 * s) == 0
            &&& (x == lo || x == lo + s)
            &&& (b == lo || b == lo + s)
        }),
{
    lemma_mod_double(x, s);
    lemma_round_down(x, 2 * s);
    let r = x % (2 * s);
    assert(r == 0 || r == s);
    if r == 0 {
        let b = x + s;
        lemma_fundamental_div_mod(x, 2 * s);
        let q = x / (2 * s);
        assert(b == q * s * 2 + s) by (nonlinear_arith)
            requires
                x == (2 * s) * q + 0,
                b == x + s,
        ;
        assert(b == (q * 2 + 1) * s + 0) by (nonlinear_arith)
            requires
                x == (2 * s) * q + 0,
                b == x + s,
        ;
        lemma_fundamental_div_mod_converse(b, s, q * 2 + 1, 0);
    } else {
        let b = x - s;
        lemma_fundamental_div_mod(x, 2 * s);
        let q = x / (2 * s);
        assert(b == (2 * s) * q) by (nonlinear_arith)
            requires
                x == (2 * s) * q + s,
                b == x - s,
        ;
        assert(b == (q * 2) * s + 0) by (nonlinear_arith)
            requires
                b == (2 * s) * q,
        ;
        assert(q >= 0) by (nonlinear_arith)
            requires
                x == (2 * s) * q + s,
                x >= 0,
                s > 0,
                s < 2 * s,
        ;
        lemma_fundamental_div_mod_converse(b, s, q * 2, 0);
    }
}

/// The buddy of a block's buddy is the block itself.
pub proof fn lemma_buddy_involution(x: int, level: nat)
    requires
        x >= 0,
        x % (level_bytes(level) as int) == 0,
    ensures
        buddy_of(buddy_of(x, level), level) == x,
{
    let s = level_bytes(level) as int;
    lemma_level_pages_pos(level);
    lemma_buddy_pair(x, s);
    let b = buddy_of(x, level);
    lemma_buddy_pair(b, s);
    let lo = round_down(x, 2 * s);
    lemma_fundamental_div_mod(lo, 2 * s);
    let q = lo / (2 * s);
    assert(lo == q * (2 * s)) by (nonlinear_arith)
        requires
            lo == (2 * s) * q + 0,
    ;
    if b == lo {
        lemma_fundamental_div_mod_converse(b, 2 * s, q, 0);
    } else {
        lemma_fundamental_div_mod_converse(b, 2 * s, q, s);
    }
    assert(round_down(b, 2 * s) == lo);
}

/// Rounding down to `s` and then to `2s` is rounding down to `2s`.
pub proof fn lemma_round_down_twice(x: int, s: int)
    requires
        x >= 0,
        s > 0,
    ensures
        round_down(round_down(x, s), 2 * s) == round_down(x, 2 * s),
        round_down(x, s) - round_down(x, 2 * s) == 0 || round_down(x, s) - round_down(x, 2
            * s) == s,
{
    lemma_round_down(x, s);
    let y = round_down(x, s);
    lemma_mod_double(x, s);
    lemma_mod_double(y, s);
    lemma_fundamental_div_mod(x, 2 * s);
    let q = x / (2 * s);
    let r = x % (2 * s);
    // x = 2s*q + r with r = x % s or x % s + s, hence y = 2s*q + (r - x % s).
    assert(y == (2 * s) * q + (r - x % s));
    let r2 = r - x % s;
    assert(0 <= r2 < 2 * s);
    assert(y == q * (2 * s) + r2) by (nonlinear_arith)
        requires
            y == (2 * s) * q + r2,
    ;
    lemma_fundamental_div_mod_converse(y, 2 * s, q, r2);
}

/// The start of the zone-`level` block that holds `x` is aligned to that
/// zone, at most `x`, and the block holds `x`.
pub proof fn lemma_block_start(x: int, level: nat)
    requires
        x >= 0,
    ensures
        block_start(x, level) % (level_bytes(level) as int) == 0,
        block_holds(block_start(x, level), level, x),
        block_start(x, level) >= 0,
{
    lemma_level_pages_pos(level);
    lemma_round_down(x, level_bytes(level) as int);
}

/// One step up the tree of blocks: the zone-`level + 1` block that holds `x`
/// is made of the zone-`level` block that holds `x` and its buddy.
pub proof fn lemma_block_step(x: int, level: nat)
    requires
        x >= 0,
    ensures
        ({
            let p = block_start(x, level);
            let b = buddy_of(p, level);
            let s = level_bytes(level) as int;
            let up = block_start(x, level + 1);
            &&& b >= 0
            &&& b % s == 0
            &&& b != p
            &&& up == (if p <= b { p } else { b })
            &&& (p == up || p == up + s)
            &&& (b == up || b == up + s)
            &&& up + 2 * s == up + level_bytes(level + 1)
            &&& p + s <= up + 2 * s
            &&& b + s <= up + 2 * s
        }),
{
    let s = level_bytes(level) as int;
    lemma_level_pages_pos(level);
    lemma_level_next(level);
    lemma_block_start(x, level);
    let p = block_start(x, level);
    lemma_buddy_pair(p, s);
    lemma_round_down_twice(x, s);
    assert(level_bytes(level + 1) as int == 2 * s);
}

/// The blocks that hold `x` are nested: the zone-`i` one lies inside the
/// zone-`m` one for `i <= m`.
pub proof fn lemma_block_nested(x: int, i: nat, m: nat)
    requires
        x >= 0,
        i <= m,
    ensures
        block_start(x, m) <= block_start(x, i),
        block_start(x, i) + level_bytes(i) <= block_start(x, m) + level_bytes(m),
    decreases m - i,
{
    if i < m {
        lemma_block_nested(x, i, (m - 1) as nat);
        lemma_block_step(x, (m - 1) as nat);
        lemma_block_step(x, i);
        lemma_block_start(x, i);
        lemma_block_start(x, (m - 1) as nat);
        lemma_level_next((m - 1) as nat);
    }
}

/// An address aligned to a block size is the start of its own block.
pub proof fn lemma_block_start_aligned(x: int, level: nat)
    requires
        x >= 0,
        x % (level_bytes(level) as int) == 0,
    ensures
        block_start(x, level) == x,
{
}

/// Half the address space, counted in pages, is a block size too.
pub proof fn lemma_half_space_pages()
    ensures
        half_space() == level_bytes(51) || half_space() == level_bytes(19),
{
    lemma_half_space();
    lemma_level_pages_pow2(51);
    lemma_level_pages_pow2(19);
    lemma2_to64();
    lemma2_to64_rest();
}

/// The zone-`m` buddy on the way down to `x` holds the address `y`.
pub open spec fn buddy_holds(x: int, m: nat, y: int) -> bool {
    block_holds(buddy_of(block_start(x, m), m), m, y)
}

/// A block on the way down to `x` lies inside every larger one.
pub proof fn lemma_block_holds_nested(x: int, i: nat, m: nat, y: int)
    requires
        x >= 0,
        i <= m,
        block_holds(block_start(x, i), i, y),
    ensures
        block_holds(block_start(x, m), m, y),
{
    lemma_block_nested(x, i, m);
}

/// The zone-`m + 1` block on the way down to `x` is exactly its zone-`m`
/// block and that block's buddy, which do not meet.
pub proof fn lemma_buddy_geometry(x: int, m: nat, y: int)
    requires
        x >= 0,
    ensures
        buddy_holds(x, m, y) ==> block_holds(block_start(x, m + 1), m + 1, y) && !block_holds(
            block_start(x, m),
            m,
            y,
        ),
        block_holds(block_start(x, m + 1), m + 1, y) ==> block_holds(block_start(x, m), m, y)
            || buddy_holds(x, m, y),
{
    lemma_block_step(x, m);
    lemma_level_next(m);
}

/// A block on the way down to `x` is the zone-`k` block that holds `x`,
/// together with the buddies met on the way from zone `k` to it.
pub proof fn lemma_path_cover(x: int, k: nat, t: nat, y: int)
    requires
        x >= 0,
        k <= t,
        block_holds(block_start(x, t), t, y),
    ensures
        block_holds(block_start(x, k), k, y) || exists|m: nat| k <= m < t && #[trigger] buddy_holds(
            x,
            m,
            y,
        ),
    decreases t - k,
{
    if k < t {
        lemma_buddy_geometry(x, (t - 1) as nat, y);
        if buddy_holds(x, (t - 1) as nat, y) {
        } else {
            lemma_path_cover(x, k, (t - 1) as nat, y);
        }
    }
}

/// A buddy met on the way down to `x` lies inside the larger blocks on that
/// way, and outside the smaller ones.
pub proof fn lemma_buddy_placement(x: int, m: nat, t: nat, y: int)
    requires
        x >= 0,
        buddy_holds(x, m, y),
    ensures
        m < t ==> block_holds(block_start(x, t), t, y),
        t <= m ==> !block_holds(block_start(x, t), t, y),
{
    lemma_buddy_geometry(x, m, y);
    if m < t {
        lemma_block_holds_nested(x, m + 1, t, y);
    }
    if t <= m && block_holds(block_start(x, t), t, y) {
        lemma_block_holds_nested(x, t, m, y);
    }
}

/// A block that starts at a multiple of its size below a bound aligned to
/// that size ends below the bound too.
pub proof fn lemma_block_below(x: int, level: nat, bound: int)
    requires
        0 <= x < bound,
        bound % (level_bytes(level) as int) == 0,
    ensures
        block_start(x, level) + level_bytes(level) <= bound,
{
    lemma_block_start(x, level);
    let s = level_bytes(level) as int;
    lemma_level_pages_pos(level);
    let b = block_start(x, level);
    lemma_fundamental_div_mod(b, s);
    lemma_fundamental_div_mod(bound, s);
    let qb = b / s;
    let qn = bound / s;
    assert(qb < qn) by (nonlinear_arith)
        requires
            b == s * qb + 0,
            bound == s * qn + 0,
            b < bound,
            s > 0,
    ;
    assert(b + s <= bound) by (nonlinear_arith)
        requires
            b == s * qb + 0,
            bound == s * qn + 0,
            qb < qn,
            s > 0,
    ;
}

/// A block of zone `level` has more pages than the zone's number.
pub proof fn lemma_level_pages_ge(level: nat)
    ensures
        level_pages(level) >= level + 1,
    decreases level,
{
    if level > 0 {
        lemma_level_pages_ge((level - 1) as nat);
        lemma_level_next((level - 1) as nat);
    }
}

} // verus!
