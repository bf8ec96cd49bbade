//! What the buddy allocator's operations do to the set of free addresses,
//! to the count of free pages, and to the disjointness of the free blocks.
use vstd::prelude::*;
use crate::buddy::{
    block_ok, blocks_disjoint, buddy_ok, coalesce_ok, coalesced, free_request_ok, request_fits, split_block, order_of, rounds_in_usize, picks_aligned,
    picks_holding, lemma_order_from_le, lemma_align_divides, lemma_wf_split, free_from, free_pages, is_free, listed, merge_top, merged,
    merges_at, pages_from, zones_wf, Zones,
};
use crate::levels::{
    block_holds, block_start, buddy_holds, buddy_of, half_space, lemma_block_below,
    lemma_block_holds_nested, lemma_block_start, lemma_block_start_aligned,
    lemma_buddy_placement, lemma_half_space, lemma_half_space_pages, lemma_level_next,
    lemma_level_pages_divides, lemma_level_pages_mono,
    lemma_level_pages_pos, lemma_path_cover, level_bytes, level_pages, lemma_block_step,
    lemma_level_pages_ge,
    lemma_level_pages_strict, lemma_round_down_in_block, lemma_block_nested,
    lemma_buddy_involution, lemma_buddy_pair,
};

verus! {

/// Pushing `v` on a zone lists `v` besides what the zone listed.
pub proof fn lemma_push_front_contains(s: Seq<usize>, v: usize)
    ensures
        forall|w: usize| (seq![v] + s).contains(w) <==> (w == v || s.contains(w)),
        (seq![v] + s).len() == s.len() + 1,
        s.no_duplicates() && !s.contains(v) ==> (seq![v] + s).no_duplicates(),
{
    let t = seq![v] + s;
    assert forall|w: usize| t.contains(w) <==> (w == v || s.contains(w)) by {
        if t.contains(w) {
            let j = choose|j: int| 0 <= j < t.len() && t[j] == w;
            if j > 0 {
                assert(s[j - 1] == w);
            }
        }
        if s.contains(w) {
            let j = choose|j: int| 0 <= j < s.len() && s[j] == w;
            assert(t[j + 1] == w);
        }
        if w == v {
            assert(t[0] == w);
        }
    }
    if s.no_duplicates() && !s.contains(v) {
        assert forall|a: int, b: int| 0 <= a < t.len() && 0 <= b < t.len() && a != b implies t[a]
            != t[b] by {
            if a == 0 {
                assert(s[b - 1] == t[b]);
            } else if b == 0 {
                assert(s[a - 1] == t[a]);
            } else {
                assert(t[a] == s[a - 1] && t[b] == s[b - 1]);
            }
        }
    }
}

/// Taking the first copy of `v` out of a zone keeps the rest.
pub proof fn lemma_remove_value_contains(s: Seq<usize>, v: usize)
    ensures
        forall|w: usize| s.remove_value(v).contains(w) ==> s.contains(w),
        forall|w: usize| s.contains(w) && w != v ==> s.remove_value(v).contains(w),
        s.contains(v) ==> s.remove_value(v).len() == s.len() - 1,
        !s.contains(v) ==> s.remove_value(v) == s,
        s.no_duplicates() ==> s.remove_value(v).no_duplicates() && !s.remove_value(v).contains(v),
{
    s.index_of_first_ensures(v);
    match s.index_of_first(v) {
        Some(i) => {
            let t = s.remove(i);
            s.remove_ensures(i);
            assert forall|w: usize| t.contains(w) implies s.contains(w) by {
                let j = choose|j: int| 0 <= j < t.len() && t[j] == w;
                if j < i {
                    assert(s[j] == w);
                } else {
                    assert(s[j + 1] == w);
                }
            }
            assert forall|w: usize| s.contains(w) && w != v implies t.contains(w) by {
                let j = choose|j: int| 0 <= j < s.len() && s[j] == w;
                if j < i {
                    assert(t[j] == w);
                } else {
                    assert(j != i);
                    assert(t[j - 1] == w);
                }
            }
            if s.no_duplicates() {
                assert forall|a: int, b: int|
                    0 <= a < t.len() && 0 <= b < t.len() && a != b implies t[a] != t[b] by {
                    let sa = if a < i {
                        a
                    } else {
                        a + 1
                    };
                    let sb = if b < i {
                        b
                    } else {
                        b + 1
                    };
                    assert(t[a] == s[sa] && t[b] == s[sb]);
                }
                if t.contains(v) {
                    let j = choose|j: int| 0 <= j < t.len() && t[j] == v;
                    let sj = if j < i {
                        j
                    } else {
                        j + 1
                    };
                    assert(s[sj] == v && sj != i);
                }
            }
        },
        None => {},
    }
}

/// Some free block holds `y` exactly when some listed block does.
pub proof fn lemma_is_free_listed(z: Zones, y: int)
    ensures
        is_free(z, y) <==> exists|i: int, w: usize|
            #![trigger listed(z, i, w), block_holds(w as int, i as nat, y)]
            listed(z, i, w) && block_holds(w as int, i as nat, y),
{
    if is_free(z, y) {
        let (i, j) = choose|i: int, j: int|
            #![trigger z[i][j]]
            0 <= i < z.len() && 0 <= j < z[i].len() && block_holds(z[i][j] as int, i as nat, y);
        assert(z[i].contains(z[i][j]));
        assert(listed(z, i, z[i][j]));
    }
    if exists|i: int, w: usize|
        #![trigger listed(z, i, w), block_holds(w as int, i as nat, y)]
        listed(z, i, w) && block_holds(w as int, i as nat, y) {
        let (i, w) = choose|i: int, w: usize|
            #![trigger listed(z, i, w), block_holds(w as int, i as nat, y)]
            listed(z, i, w) && block_holds(w as int, i as nat, y);
        let j = choose|j: int| 0 <= j < z[i].len() && z[i][j] == w;
        assert(block_holds(z[i][j] as int, i as nat, y));
    }
}

/// Coalescing from zone `m` that is in range stops at a zone that exists, each
/// zone passed on the way holding the buddy it merges with.
pub proof fn lemma_merge_top(z: Zones, x: int, m: nat)
    requires
        coalesce_ok(z, x, m),
    ensures
        m <= merge_top(z, x, m) < z.len(),
        !merges_at(z, x, merge_top(z, x, m)),
        coalesce_ok(z, x, merge_top(z, x, m)),
        forall|i: nat| m <= i < merge_top(z, x, m) ==> #[trigger] merges_at(z, x, i),
        forall|i: nat|
            m <= i <= merge_top(z, x, m) ==> block_start(x, i) + level_bytes(i) <= usize::MAX
                && 2 * level_bytes(i) <= usize::MAX,
    decreases z.len() - m,
{
    if merges_at(z, x, m) {
        lemma_merge_top(z, x, m + 1);
    }
}

/// Which blocks the zones list after a free: the merged block, and the
/// blocks listed before but the buddies it absorbed.
pub proof fn lemma_merged_listed(z: Zones, x: int, k: nat)
    requires
        coalesce_ok(z, x, k),
    ensures
        ({
            let t = merge_top(z, x, k);
            let z2 = merged(z, x, k);
            &&& z2.len() == z.len()
            &&& listed(z2, t as int, block_start(x, t) as usize)
            &&& forall|i: int, w: usize|
                #![trigger listed(z2, i, w)]
                listed(z2, i, w) ==> (i == t && w == block_start(x, t) as usize) || listed(z, i, w)
            &&& forall|i: int, w: usize|
                #![trigger listed(z, i, w)]
                listed(z, i, w) && !(k <= i < t && w == buddy_of(
                    block_start(x, i as nat),
                    i as nat,
                ) as usize) ==> listed(z2, i, w)
        }),
{
    let t = merge_top(z, x, k);
    let z2 = merged(z, x, k);
    lemma_merge_top(z, x, k);
    assert forall|i: int| #![trigger z2[i]] 0 <= i < z.len() implies {
        &&& forall|w: usize|
            z2[i].contains(w) ==> (i == t && w == block_start(x, t) as usize) || z[i].contains(w)
        &&& forall|w: usize|
            z[i].contains(w) && !(k <= i < t && w == buddy_of(
                block_start(x, i as nat),
                i as nat,
            ) as usize) ==> z2[i].contains(w)
    } by {
        if k <= i < t {
            lemma_remove_value_contains(
                z[i],
                buddy_of(block_start(x, i as nat), i as nat) as usize,
            );
        } else if i == t {
            lemma_push_front_contains(z[i], block_start(x, t) as usize);
        }
    }
    lemma_push_front_contains(z[t as int], block_start(x, t) as usize);
}

/// A free leaves free exactly the addresses free before and the freed block.
pub proof fn lemma_merged_free(z: Zones, x: int, k: nat, y: int)
    requires
        x >= 0,
        x % level_bytes(k) as int == 0,
        coalesce_ok(z, x, k),
    ensures
        is_free(merged(z, x, k), y) <==> is_free(z, y) || block_holds(x, k, y),
{
    let t = merge_top(z, x, k);
    let z2 = merged(z, x, k);
    let p = block_start(x, t);
    lemma_merge_top(z, x, k);
    lemma_merged_listed(z, x, k);
    lemma_is_free_listed(z, y);
    lemma_is_free_listed(z2, y);
    lemma_block_start_aligned(x, k);
    lemma_block_start(x, t);
    if block_holds(x, k, y) {
        lemma_block_holds_nested(x, k, t, y);
        assert(listed(z2, t as int, p as usize) && block_holds(p as usize as int, t, y));
    }
    if is_free(z, y) {
        let (i, w) = choose|i: int, w: usize|
            #![trigger listed(z, i, w), block_holds(w as int, i as nat, y)]
            listed(z, i, w) && block_holds(w as int, i as nat, y);
        if k <= i < t && w == buddy_of(block_start(x, i as nat), i as nat) as usize {
            lemma_block_step(x, i as nat);
            assert(buddy_holds(x, i as nat, y));
            lemma_buddy_placement(x, i as nat, t, y);
            assert(listed(z2, t as int, p as usize) && block_holds(p as usize as int, t, y));
        } else {
            assert(listed(z2, i, w));
        }
    }
    if is_free(z2, y) {
        let (i, w) = choose|i: int, w: usize|
            #![trigger listed(z2, i, w), block_holds(w as int, i as nat, y)]
            listed(z2, i, w) && block_holds(w as int, i as nat, y);
        if listed(z, i, w) {
        } else {
            assert(i == t && w == p as usize);
            lemma_path_cover(x, k, t, y);
            if !block_holds(block_start(x, k), k, y) {
                let m = choose|m: nat| k <= m < t && #[trigger] buddy_holds(x, m, y);
                assert(merges_at(z, x, m));
                lemma_block_step(x, m);
                let b = buddy_of(block_start(x, m), m);
                assert(listed(z, m as int, b as usize));
                assert(block_holds(b as usize as int, m, y));
            }
        }
    }
}

/// After a free, the freed address is free from its zone up.
pub proof fn lemma_merged_frees_block(z: Zones, x: int, k: nat)
    requires
        x >= 0,
        x % level_bytes(k) as int == 0,
        coalesce_ok(z, x, k),
    ensures
        free_from(merged(z, x, k), x, k as int),
{
    let t = merge_top(z, x, k);
    let z2 = merged(z, x, k);
    let p = block_start(x, t);
    lemma_merge_top(z, x, k);
    lemma_merged_listed(z, x, k);
    lemma_block_start_aligned(x, k);
    lemma_level_pages_pos(k);
    lemma_block_holds_nested(x, k, t, x);
    lemma_block_start(x, t);
    let j = choose|j: int| 0 <= j < z2[t as int].len() && z2[t as int][j] == p as usize;
    assert(block_holds(z2[t as int][j] as int, t, x));
}

/// Counting the pages of the zones from `i` up, after a free.
proof fn lemma_merged_pages_from(z: Zones, x: int, k: nat, i: int)
    requires
        coalesce_ok(z, x, k),
        0 <= i <= z.len(),
    ensures
        ({
            let t = merge_top(z, x, k) as int;
            pages_from(merged(z, x, k), i) - pages_from(z, i) == if i > t {
                0
            } else if i >= k {
                level_pages(i as nat) as int
            } else {
                level_pages(k) as int
            }
        }),
    decreases z.len() - i,
{
    let t = merge_top(z, x, k) as int;
    let z2 = merged(z, x, k);
    lemma_merge_top(z, x, k);
    if i < z.len() {
        lemma_merged_pages_from(z, x, k, i + 1);
        lemma_level_next(i as nat);
        if k <= i < t {
            assert(merges_at(z, x, i as nat));
            lemma_remove_value_contains(
                z[i],
                buddy_of(block_start(x, i as nat), i as nat) as usize,
            );
            assert(z2[i].len() == z[i].len() - 1);
            assert(z2[i].len() * level_pages(i as nat) == z[i].len() * level_pages(i as nat)
                - level_pages(i as nat)) by (nonlinear_arith)
                requires
                    z2[i].len() == z[i].len() - 1,
            ;
        } else if i == t {
            assert(z2[i].len() == z[i].len() + 1);
            assert(z2[i].len() * level_pages(i as nat) == z[i].len() * level_pages(i as nat)
                + level_pages(i as nat)) by (nonlinear_arith)
                requires
                    z2[i].len() == z[i].len() + 1,
            ;
        } else {
            assert(z2[i] == z[i]);
        }
    }
}

/// A free adds the freed block's pages to the free pages.
pub proof fn lemma_merged_pages(z: Zones, x: int, k: nat)
    requires
        coalesce_ok(z, x, k),
    ensures
        free_pages(merged(z, x, k)) == free_pages(z) + level_pages(k),
{
    lemma_merged_pages_from(z, x, k, 0);
    lemma_merge_top(z, x, k);
}

/// Freeing a block none of whose addresses is free keeps the free blocks
/// disjoint.
pub proof fn lemma_merged_disjoint(z: Zones, x: int, k: nat)
    requires
        x >= 0,
        x % level_bytes(k) as int == 0,
        coalesce_ok(z, x, k),
        blocks_disjoint(z),
        forall|y: int| block_holds(x, k, y) ==> !is_free(z, y),
    ensures
        blocks_disjoint(merged(z, x, k)),
{
    let t = merge_top(z, x, k);
    let z2 = merged(z, x, k);
    let p = block_start(x, t);
    lemma_merge_top(z, x, k);
    lemma_merged_listed(z, x, k);
    lemma_block_start_aligned(x, k);
    lemma_block_start(x, t);
    lemma_level_pages_pos(k);
    // The merged block was not listed in its zone: it holds `x`, which was
    // not free.
    lemma_block_holds_nested(x, k, t, x);
    lemma_is_free_listed(z, x);
    assert(!z[t as int].contains(p as usize)) by {
        if z[t as int].contains(p as usize) {
            assert(listed(z, t as int, p as usize) && block_holds(p as usize as int, t, x));
        }
    }
    assert forall|i: int| 0 <= i < z2.len() implies #[trigger] z2[i].no_duplicates() by {
        assert(z[i].no_duplicates());
        if k <= i < t {
            lemma_remove_value_contains(
                z[i],
                buddy_of(block_start(x, i as nat), i as nat) as usize,
            );
        } else if i == t {
            lemma_push_front_contains(z[i], p as usize);
        }
    }
    // The absorbed buddies are listed no more.
    assert forall|i: int| k <= i < t implies !(#[trigger] z2[i]).contains(
        buddy_of(block_start(x, i as nat), i as nat) as usize,
    ) by {
        lemma_remove_value_contains(z[i], buddy_of(block_start(x, i as nat), i as nat) as usize);
    }
    assert forall|i1: int, w1: usize, i2: int, w2: usize, y: int|
        #![trigger block_holds(w1 as int, i1 as nat, y), block_holds(w2 as int, i2 as nat, y)]
        listed(z2, i1, w1) && listed(z2, i2, w2) && block_holds(w1 as int, i1 as nat, y)
            && block_holds(w2 as int, i2 as nat, y) implies i1 == i2 && w1 == w2 by {
        let new1 = i1 == t && w1 == p as usize;
        let new2 = i2 == t && w2 == p as usize;
        if new1 && new2 {
        } else if !new1 && !new2 {
            assert(listed(z, i1, w1) && listed(z, i2, w2));
        } else {
            // One of them is the merged block, the other an old block.
            let (io, wo) = if new1 {
                (i2, w2)
            } else {
                (i1, w1)
            };
            assert(listed(z, io, wo));
            assert(block_holds(p, t, y));
            lemma_path_cover(x, k, t, y);
            if block_holds(block_start(x, k), k, y) {
                lemma_is_free_listed(z, y);
                assert(is_free(z, y));
            } else {
                let m = choose|m: nat| k <= m < t && #[trigger] buddy_holds(x, m, y);
                assert(merges_at(z, x, m));
                lemma_block_step(x, m);
                let b = buddy_of(block_start(x, m), m);
                assert(listed(z, m as int, b as usize));
                assert(block_holds(b as usize as int, m, y));
                assert(io == m && wo == b as usize);
                assert(!z2[m as int].contains(b as usize));
            }
        }
    }
}

/// The free pages of the zones from `k` up count at least one block of each
/// nonempty zone from `k` to `m`.
proof fn lemma_pages_nonempty(z: Zones, k: int, m: int)
    requires
        0 <= k <= m <= z.len(),
        forall|i: int| k <= i < m ==> #[trigger] z[i].len() >= 1,
    ensures
        pages_from(z, k) >= level_pages(m as nat) - level_pages(k as nat),
    decreases m - k,
{
    lemma_pages_from_nonneg(z, k);
    if k < m {
        lemma_pages_nonempty(z, k + 1, m);
        lemma_level_next(k as nat);
        assert(z[k].len() * level_pages(k as nat) >= level_pages(k as nat)) by (nonlinear_arith)
            requires
                z[k].len() >= 1,
        ;
    }
}

/// Page counts are never negative.
pub proof fn lemma_pages_from_nonneg(z: Zones, i: int)
    ensures
        pages_from(z, i) >= 0,
    decreases z.len() - i,
{
    if 0 <= i < z.len() {
        lemma_pages_from_nonneg(z, i + 1);
        assert(z[i].len() * level_pages(i as nat) >= 0) by (nonlinear_arith);
    }
}

/// The free pages of all zones count at least those of the zones from `i` up.
pub proof fn lemma_pages_from_le(z: Zones, i: int)
    requires
        0 <= i,
    ensures
        pages_from(z, i) <= free_pages(z),
    decreases i,
{
    if i > 0 {
        lemma_pages_from_le(z, i - 1);
        if i - 1 < z.len() {
            assert(z[i - 1].len() * level_pages((i - 1) as nat) >= 0) by (nonlinear_arith);
        }
    }
}

/// Coalescing from zone `m` stays in range when the zones below the zone
/// limit `t` hold too few pages to merge into a block of zone `t`.
proof fn lemma_coalesce_ok_from(z: Zones, x: int, k: nat, m: nat, t: nat)
    requires
        zones_wf(z),
        0 <= x < half_space(),
        k <= m < t <= z.len(),
        level_bytes(t) <= half_space(),
        free_pages(z) + level_pages(k) < level_pages(t),
        forall|i: nat| k <= i < m ==> #[trigger] merges_at(z, x, i),
    ensures
        coalesce_ok(z, x, m),
    decreases t - m,
{
    lemma_half_space();
    lemma_half_space_pages();
    lemma_level_next(m);
    lemma_level_pages_mono(m + 1, t);
    lemma_level_pages_mono(m, t);
    if half_space() == level_bytes(51) {
        if m > 51 {
            lemma_level_pages_strict(51, m);
        }
        lemma_level_pages_divides(m, 51);
    } else {
        if m > 19 {
            lemma_level_pages_strict(19, m);
        }
        lemma_level_pages_divides(m, 19);
    }
    lemma_block_below(x, m, half_space());
    if merges_at(z, x, m) {
        assert forall|i: int| k <= i < m + 1 implies #[trigger] z[i].len() >= 1 by {
            assert(merges_at(z, x, i as nat));
        }
        lemma_pages_nonempty(z, k as int, (m + 1) as int);
        lemma_pages_from_le(z, k as int);
        if m + 1 >= t {
            lemma_level_pages_mono(t, m + 1);
        }
        lemma_coalesce_ok_from(z, x, k, m + 1, t);
    }
}

/// Freeing a block stays in range when the free pages and the freed block
/// together make less than a block of the zone limit `t`, and the block lies
/// in the lower half of the address space.
pub proof fn lemma_coalesce_ok_by_count(z: Zones, x: int, k: nat, t: nat)
    requires
        zones_wf(z),
        0 <= x < half_space(),
        k < t <= z.len(),
        level_bytes(t) <= half_space(),
        free_pages(z) + level_pages(k) < level_pages(t),
    ensures
        coalesce_ok(z, x, k),
{
    lemma_coalesce_ok_from(z, x, k, k, t);
}

/// Taking a block out of a zone by index lists the rest of it.
pub proof fn lemma_remove_contains(s: Seq<usize>, j: int)
    requires
        0 <= j < s.len(),
    ensures
        forall|w: usize| s.remove(j).contains(w) ==> s.contains(w),
        forall|w: usize| s.contains(w) && w != s[j] ==> s.remove(j).contains(w),
        s.remove(j).len() == s.len() - 1,
        s.no_duplicates() ==> s.remove(j).no_duplicates() && !s.remove(j).contains(s[j]),
{
    s.index_of_first_ensures(s[j]);
    if s.no_duplicates() {
        assert(s.index_of_first(s[j]) == Some(j));
        assert(s.remove_value(s[j]) == s.remove(j));
        lemma_remove_value_contains(s, s[j]);
    }
    let t = s.remove(j);
    s.remove_ensures(j);
    assert forall|w: usize| t.contains(w) implies s.contains(w) by {
        let a = choose|a: int| 0 <= a < t.len() && t[a] == w;
        if a < j {
            assert(s[a] == w);
        } else {
            assert(s[a + 1] == w);
        }
    }
    assert forall|w: usize| s.contains(w) && w != s[j] implies t.contains(w) by {
        let a = choose|a: int| 0 <= a < s.len() && s[a] == w;
        if a < j {
            assert(t[a] == w);
        } else {
            assert(a != j);
            assert(t[a - 1] == w);
        }
    }
}

/// A listed block is aligned to its zone and lies in the address space.
proof fn lemma_listed_ok(z: Zones, i: int, w: usize)
    requires
        zones_wf(z),
        listed(z, i, w),
    ensures
        block_ok(w as int, i as nat),
        (w as int) % (level_bytes(i as nat) as int) == 0,
{
    let j = choose|j: int| 0 <= j < z[i].len() && z[i][j] == w;
    assert(block_ok(z[i][j] as int, i as nat));
}

/// A listed block that holds `y` is the block of its zone that holds `y`.
proof fn lemma_listed_start(z: Zones, i: int, w: usize, y: int)
    requires
        zones_wf(z),
        listed(z, i, w),
        block_holds(w as int, i as nat, y),
    ensures
        w as int == block_start(y, i as nat),
{
    lemma_listed_ok(z, i, w);
    lemma_level_pages_pos(i as nat);
    crate::levels::lemma_round_down_in_block(w as int, level_bytes(i as nat) as int, y);
}

/// When every address of the zone-`k` block at `x` is free, on zones whose
/// free blocks are disjoint and where no block is listed beside its buddy,
/// one free block of zone `k` or above holds all of it.
proof fn lemma_covered_block(z: Zones, x: int, k: nat)
    requires
        zones_wf(z),
        blocks_disjoint(z),
        coalesced(z),
        x >= 0,
        x % (level_bytes(k) as int) == 0,
        forall|y: int| block_holds(x, k, y) ==> is_free(z, y),
    ensures
        exists|i: int, w: usize|
            #![trigger listed(z, i, w)]
            k <= i && listed(z, i, w) && block_holds(w as int, i as nat, x),
    decreases k,
{
    lemma_level_pages_pos(k);
    if k == 0 {
        assert(block_holds(x, 0, x));
        lemma_is_free_listed(z, x);
        let (i, w) = choose|i: int, w: usize|
            #![trigger listed(z, i, w), block_holds(w as int, i as nat, x)]
            listed(z, i, w) && block_holds(w as int, i as nat, x);
        assert(0 <= i);
    } else {
        let h = (k - 1) as nat;
        let s = level_bytes(h) as int;
        lemma_level_next(h);
        lemma_level_pages_pos(h);
        lemma_level_pages_divides(h, k);
        crate::buddy::lemma_align_divides(x, level_bytes(k) as int, s);
        assert forall|y: int| block_holds(x, h, y) implies is_free(z, y) by {
            assert(block_holds(x, k, y));
        }
        lemma_covered_block(z, x, h);
        let (i1, w1) = choose|i1: int, w1: usize|
            #![trigger listed(z, i1, w1)]
            h <= i1 && listed(z, i1, w1) && block_holds(w1 as int, i1 as nat, x);
        if i1 < k {
            lemma_listed_start(z, i1, w1, x);
            lemma_block_start_aligned(x, h);
            assert(w1 as int == x);
            let x2 = x + s;
            vstd::arithmetic::div_mod::lemma_fundamental_div_mod(x, s);
            let q = x / s;
            assert(x2 == (q + 1) * s + 0) by (nonlinear_arith)
                requires
                    x == s * q + 0,
                    x2 == x + s,
            ;
            vstd::arithmetic::div_mod::lemma_fundamental_div_mod_converse(x2, s, q + 1, 0);
            assert forall|y: int| block_holds(x2, h, y) implies is_free(z, y) by {
                assert(block_holds(x, k, y));
            }
            lemma_covered_block(z, x2, h);
            let (i2, w2) = choose|i2: int, w2: usize|
                #![trigger listed(z, i2, w2)]
                h <= i2 && listed(z, i2, w2) && block_holds(w2 as int, i2 as nat, x2);
            if i2 >= k {
                lemma_listed_start(z, i2, w2, x2);
                crate::levels::lemma_round_down_in_block(x, level_bytes(k) as int, x2);
                lemma_block_nested(x2, k, i2 as nat);
                assert(block_holds(w2 as int, i2 as nat, x));
            } else {
                lemma_listed_start(z, i2, w2, x2);
                lemma_block_start_aligned(x2, h);
                assert(w2 as int == x2);
                assert(x % (2 * s) == 0);
                assert(buddy_of(w1 as int, h) == x2);
                assert(false);
            }
        }
    }
}

/// On zones whose free blocks are disjoint and where no block is listed
/// beside its buddy, a free block of zone `k` or above holds the zone-`k`
/// block at `x` (what `is_page_free` and `allocate_at` test) exactly when
/// every address of that block is free.
pub proof fn law_free_block_exact(z: Zones, x: int, k: nat)
    requires
        zones_wf(z),
        blocks_disjoint(z),
        coalesced(z),
        x >= 0,
        x % (level_bytes(k) as int) == 0,
    ensures
        free_from(z, x, k as int) <==> forall|y: int| block_holds(x, k, y) ==> is_free(z, y),
{
    lemma_level_pages_pos(k);
    lemma_block_start_aligned(x, k);
    if free_from(z, x, k as int) {
        let (i, j) = choose|i: int, j: int|
            #![trigger z[i][j]]
            k <= i < z.len() && 0 <= j < z[i].len() && block_holds(z[i][j] as int, i as nat, x);
        assert(listed(z, i, z[i][j]));
        lemma_listed_start(z, i, z[i][j], x);
        assert forall|y: int| block_holds(x, k, y) implies is_free(z, y) by {
            lemma_block_holds_nested(x, k, i as nat, y);
            assert(block_holds(z[i][j] as int, i as nat, y));
        }
    }
    if forall|y: int| block_holds(x, k, y) ==> is_free(z, y) {
        lemma_covered_block(z, x, k);
        let (i, w) = choose|i: int, w: usize|
            #![trigger listed(z, i, w)]
            k <= i && listed(z, i, w) && block_holds(w as int, i as nat, x);
        let j = choose|j: int| 0 <= j < z[i].len() && z[i][j] == w;
        assert(block_holds(z[i][j] as int, i as nat, x));
    }
}

/// A free keeps the zones well formed.
proof fn lemma_merged_wf(z: Zones, x: int, k: nat)
    requires
        zones_wf(z),
        x >= 0,
        coalesce_ok(z, x, k),
    ensures
        zones_wf(merged(z, x, k)),
{
    let t = merge_top(z, x, k);
    let z2 = merged(z, x, k);
    lemma_merged_listed(z, x, k);
    lemma_merge_top(z, x, k);
    lemma_block_start(x, t);
    assert forall|i: int, j: int|
        #![trigger z2[i][j]]
        0 <= i < z2.len() && 0 <= j < z2[i].len() implies block_ok(z2[i][j] as int, i as nat) by {
        assert(listed(z2, i, z2[i][j]));
        if !(i == t && z2[i][j] == block_start(x, t) as usize) {
            lemma_listed_ok(z, i, z2[i][j]);
        }
    }
}

/// On two zones with disjoint free blocks and no block listed beside its
/// buddy, that free the same addresses, a block the first lists the second
/// lists too.
proof fn lemma_listed_in_both(z1: Zones, z2: Zones, i: int, w: usize)
    requires
        zones_wf(z1),
        zones_wf(z2),
        blocks_disjoint(z1),
        blocks_disjoint(z2),
        coalesced(z1),
        coalesced(z2),
        forall|y: int| #[trigger] is_free(z1, y) <==> is_free(z2, y),
        listed(z1, i, w),
    ensures
        listed(z2, i, w),
{
    let k = i as nat;
    lemma_listed_ok(z1, i, w);
    lemma_level_pages_pos(k);
    let j1 = choose|j: int| 0 <= j < z1[i].len() && z1[i][j] == w;
    assert forall|y: int| block_holds(w as int, k, y) implies is_free(z2, y) by {
        assert(block_holds(z1[i][j1] as int, k, y));
        assert(is_free(z1, y));
    }
    law_free_block_exact(z2, w as int, k);
    let (j, jj) = choose|j: int, jj: int|
        #![trigger z2[j][jj]]
        k <= j < z2.len() && 0 <= jj < z2[j].len() && block_holds(z2[j][jj] as int, j as nat, w as int);
    let w2 = z2[j][jj];
    assert(listed(z2, j, w2));
    lemma_listed_ok(z2, j, w2);
    lemma_level_pages_pos(j as nat);
    assert forall|y: int| block_holds(w2 as int, j as nat, y) implies is_free(z1, y) by {
        assert(block_holds(z2[j][jj] as int, j as nat, y));
        assert(is_free(z2, y));
    }
    law_free_block_exact(z1, w2 as int, j as nat);
    let (j3, jj3) = choose|j3: int, jj3: int|
        #![trigger z1[j3][jj3]]
        j <= j3 < z1.len() && 0 <= jj3 < z1[j3].len() && block_holds(z1[j3][jj3] as int, j3 as nat, w2 as int);
    let w3 = z1[j3][jj3];
    assert(listed(z1, j3, w3));
    lemma_listed_start(z1, j3, w3, w2 as int);
    lemma_block_start_aligned(w2 as int, j as nat);
    lemma_block_holds_nested(w2 as int, j as nat, j3 as nat, w as int);
    assert(block_holds(w3 as int, j3 as nat, w as int));
    assert(block_holds(w as int, k, w as int));
    assert(j3 == i && w3 == w);
    lemma_listed_start(z2, j, w2, w as int);
    lemma_block_start_aligned(w as int, k);
}

/// Zones with disjoint free blocks and no block listed beside its buddy are
/// fixed by the addresses they free: two such zones that free the same
/// addresses list the same blocks in each zone, whatever order the operations
/// that led to them left those blocks in.
pub proof fn law_coalesced_unique(z1: Zones, z2: Zones)
    requires
        zones_wf(z1),
        zones_wf(z2),
        blocks_disjoint(z1),
        blocks_disjoint(z2),
        coalesced(z1),
        coalesced(z2),
        forall|y: int| #[trigger] is_free(z1, y) <==> is_free(z2, y),
    ensures
        forall|i: int, w: usize| #[trigger] listed(z1, i, w) <==> listed(z2, i, w),
{
    assert forall|i: int, w: usize| #[trigger] listed(z1, i, w) <==> listed(z2, i, w) by {
        if listed(z1, i, w) {
            lemma_listed_in_both(z1, z2, i, w);
        }
        if listed(z2, i, w) {
            lemma_listed_in_both(z2, z1, i, w);
        }
    }
}

/// A free leaves no block listed beside its buddy when none was before: the
/// merged block's buddy is not free in the zone where coalescing stops, and
/// every other zone only loses blocks.
pub proof fn lemma_merged_coalesced(z: Zones, x: int, k: nat)
    requires
        zones_wf(z),
        x >= 0,
        coalesce_ok(z, x, k),
        coalesced(z),
    ensures
        coalesced(merged(z, x, k)),
{
    let t = merge_top(z, x, k);
    let z2 = merged(z, x, k);
    let b = block_start(x, t);
    lemma_merged_listed(z, x, k);
    lemma_merge_top(z, x, k);
    lemma_block_start(x, t);
    lemma_level_pages_pos(t);
    assert(b as usize as int == b);
    assert forall|i: int, w1: usize, w2: usize|
        #![trigger listed(z2, i, w1), listed(z2, i, w2)]
        listed(z2, i, w1) && listed(z2, i, w2) implies w2 as int != buddy_of(w1 as int, i as nat) by {
        let new1 = i == t && w1 == b as usize;
        let new2 = i == t && w2 == b as usize;
        if new1 && new2 {
            lemma_buddy_pair(b, level_bytes(t) as int);
        } else if new1 {
            assert(listed(z, i, w2));
            if w2 as int == buddy_of(w1 as int, i as nat) {
                assert(buddy_of(b, t) as usize == w2);
                assert(merges_at(z, x, t));
            }
        } else if new2 {
            assert(listed(z, i, w1));
            if w2 as int == buddy_of(w1 as int, i as nat) {
                lemma_listed_ok(z, i, w1);
                lemma_buddy_involution(w1 as int, t);
                assert(buddy_of(b, t) as usize == w1);
                assert(merges_at(z, x, t));
            }
        } else {
            assert(listed(z, i, w1) && listed(z, i, w2));
        }
    }
}

/// The facts an allocation needs of the block it splits: the block at
/// `(i, j)` is listed, lies in zone `i` at or above `start`, and holds the
/// zone-`start` aligned address `x`.
pub open spec fn splits_ok(z: Zones, i: int, j: int, x: int, start: nat) -> bool {
    &&& zones_wf(z)
    &&& blocks_disjoint(z)
    &&& 0 <= i < z.len()
    &&& 0 <= j < z[i].len()
    &&& start <= i
    &&& x >= 0
    &&& x % level_bytes(start) as int == 0
    &&& block_holds(z[i][j] as int, i as nat, x)
}

/// The buddies an allocation splits off lie inside the block it takes out,
/// so inside the address space.
proof fn lemma_split_buddy_range(z: Zones, i: int, j: int, x: int, start: nat, k: int)
    requires
        splits_ok(z, i, j, x, start),
        start <= k < i,
    ensures
        ({
            let b = buddy_of(block_start(x, k as nat), k as nat);
            &&& 0 <= b
            &&& b + level_bytes(k as nat) <= usize::MAX
            &&& b as usize as int == b
        }),
{
    assert(block_ok(z[i][j] as int, i as nat));
    lemma_level_pages_pos(i as nat);
    lemma_round_down_in_block(z[i][j] as int, level_bytes(i as nat) as int, x);
    lemma_block_step(x, k as nat);
    lemma_level_next(k as nat);
    lemma_block_nested(x, (k + 1) as nat, i as nat);
}

/// Which blocks the zones list after an allocation: the buddies split off,
/// and the blocks listed before but the one taken.
proof fn lemma_split_listed(z: Zones, i: int, j: int, x: int, start: nat)
    requires
        splits_ok(z, i, j, x, start),
    ensures
        ({
            let z2 = split_block(z, i, j, x, start as int);
            let u = z[i][j];
            &&& z2.len() == z.len()
            &&& block_start(x, i as nat) == u as int
            &&& forall|k: int| start <= k < i ==> #[trigger] listed(
                z2,
                k,
                buddy_of(block_start(x, k as nat), k as nat) as usize,
            )
            &&& forall|k: int, w: usize|
                #![trigger listed(z2, k, w)]
                listed(z2, k, w) ==> (start <= k < i && w == buddy_of(
                    block_start(x, k as nat),
                    k as nat,
                ) as usize) || (listed(z, k, w) && !(k == i && w == u))
            &&& forall|k: int, w: usize|
                #![trigger listed(z, k, w)]
                listed(z, k, w) && !(k == i && w == u) ==> listed(z2, k, w)
        }),
{
    let z2 = split_block(z, i, j, x, start as int);
    let u = z[i][j];
    assert(z[i].no_duplicates());
    lemma_remove_contains(z[i], j);
    lemma_level_pages_pos(i as nat);
    assert(block_ok(z[i][j] as int, i as nat));
    lemma_round_down_in_block(u as int, level_bytes(i as nat) as int, x);
    assert forall|k: int| #![trigger z2[k]] 0 <= k < z.len() implies {
        &&& (start <= k < i ==> z2[k].contains(
            buddy_of(block_start(x, k as nat), k as nat) as usize,
        ))
        &&& forall|w: usize|
            z2[k].contains(w) ==> (start <= k < i && w == buddy_of(
                block_start(x, k as nat),
                k as nat,
            ) as usize) || (z[k].contains(w) && !(k == i && w == u))
        &&& forall|w: usize| z[k].contains(w) && !(k == i && w == u) ==> z2[k].contains(w)
    } by {
        let zr = z.update(i, z[i].remove(j));
        if start <= k < i {
            lemma_split_buddy_range(z, i, j, x, start, k);
            lemma_push_front_contains(z[k], buddy_of(block_start(x, k as nat), k as nat) as usize);
            assert(zr[k] == z[k]);
            assert(z2[k] == seq![buddy_of(block_start(x, k as nat), k as nat) as usize] + z[k]);
        } else if k == i {
            assert(z2[k] == z[i].remove(j));
        } else {
            assert(zr[k] == z[k]);
            assert(z2[k] == z[k]);
        }
    }
}

/// An allocation leaves no block listed beside its buddy when none was
/// before: each buddy split off has as its buddy a block on the way down to
/// `x`, which lies inside the block taken out, so is not listed.
pub proof fn lemma_split_coalesced(z: Zones, i: int, j: int, x: int, start: nat)
    requires
        splits_ok(z, i, j, x, start),
        coalesced(z),
    ensures
        coalesced(split_block(z, i, j, x, start as int)),
{
    let z2 = split_block(z, i, j, x, start as int);
    let u = z[i][j];
    lemma_split_listed(z, i, j, x, start);
    assert(listed(z, i, u));
    assert forall|k: int, w1: usize, w2: usize|
        #![trigger listed(z2, k, w1), listed(z2, k, w2)]
        listed(z2, k, w1) && listed(z2, k, w2) implies w2 as int != buddy_of(w1 as int, k as nat) by {
        let a = block_start(x, k as nat);
        let c = buddy_of(a, k as nat);
        let new1 = start <= k < i && w1 == c as usize;
        let new2 = start <= k < i && w2 == c as usize;
        if new1 || new2 {
            lemma_split_buddy_range(z, i, j, x, start, k);
            lemma_block_start(x, k as nat);
            lemma_level_pages_pos(k as nat);
            lemma_buddy_involution(a, k as nat);
            lemma_buddy_pair(a, level_bytes(k as nat) as int);
            if w2 as int == buddy_of(w1 as int, k as nat) {
                if new1 && new2 {
                } else {
                    if new2 {
                        lemma_listed_ok(z, k, w1);
                        lemma_buddy_involution(w1 as int, k as nat);
                    }
                    // The other block is the one on the way down to `x`,
                    // listed before, where the block taken out holds `x`.
                    let o = if new1 { w2 } else { w1 };
                    assert(o as int == a);
                    assert(listed(z, k, o));
                    assert(block_holds(o as int, k as nat, x));
                    assert(block_holds(u as int, i as nat, x));
                    assert(false);
                }
            }
        } else {
            assert(listed(z, k, w1) && listed(z, k, w2));
        }
    }
}

/// Freeing the zone-`start` block at `x` right after an allocation split the
/// block at `(i, j)` down to it merges back, from zone `m` up to zone `i`,
/// with the buddies the split pushed, and stays in range.
proof fn lemma_split_coalesce_ok(z: Zones, i: int, j: int, x: int, start: nat, m: nat)
    requires
        splits_ok(z, i, j, x, start),
        coalesced(z),
        level_bytes(z.len()) <= half_space(),
        start <= m <= i,
    ensures
        coalesce_ok(split_block(z, i, j, x, start as int), x, m),
    decreases i - m,
{
    let z2 = split_block(z, i, j, x, start as int);
    let u = z[i][j];
    lemma_split_listed(z, i, j, x, start);
    lemma_level_next(m);
    lemma_level_pages_mono(m + 1, z.len());
    lemma_half_space();
    lemma_block_nested(x, m, i as nat);
    assert(block_ok(u as int, i as nat));
    if m < i {
        let c = buddy_of(block_start(x, m), m) as usize;
        assert(z2[m as int] == seq![c] + z.update(i, z[i].remove(j))[m as int]);
        assert(z2[m as int][0] == c);
        assert(merges_at(z2, x, m));
        lemma_split_coalesce_ok(z, i, j, x, start, m + 1);
    } else {
        let b = buddy_of(u as int, i as nat);
        lemma_level_pages_pos(i as nat);
        lemma_buddy_pair(u as int, level_bytes(i as nat) as int);
        assert(z2[i] == z[i].remove(j));
        lemma_remove_contains(z[i], j);
        if z2[i].contains(b as usize) {
            assert(listed(z, i, b as usize));
            assert(listed(z, i, u));
            assert(b as usize as int == b);
        }
        assert(!merges_at(z2, x, i as nat));
    }
}

/// On zones that keep the allocator's invariant, an allocation keeps it, and
/// the block it hands out can be given back: the free of its pages at its
/// address is a request `free` takes.
pub proof fn law_split_keeps_invariant(z: Zones, i: int, j: int, x: int, n: int)
    requires
        buddy_ok(z),
        n >= 1,
        rounds_in_usize(n),
        splits_ok(z, i, j, x, order_of(n)),
    ensures
        buddy_ok(split_block(z, i, j, x, order_of(n) as int)),
        request_fits(n),
        free_request_ok(split_block(z, i, j, x, order_of(n) as int), x, n),
        coalesce_ok(split_block(z, i, j, x, order_of(n) as int), x, order_of(n)),
{
    let k = order_of(n);
    let z2 = split_block(z, i, j, x, k as int);
    lemma_split_coalesce_ok(z, i, j, x, k, k);
    lemma_split_coalesced(z, i, j, x, k);
    lemma_split_disjoint(z, i, j, x, k);
    lemma_level_pages_pos(i as nat);
    lemma_wf_split(z, i, j, x, k);
    // The request's pages fit the block it came from, which fits half the
    // address space.
    lemma_level_pages_ge(n as nat);
    lemma_order_from_le(n, 0, n as nat);
    lemma_level_pages_mono(k, (z.len() - 1) as nat);
    lemma_level_pages_mono((z.len() - 1) as nat, z.len());
}

/// An allocation leaves free exactly the addresses free before outside the
/// zone-`start` block at `x` it hands out.
pub proof fn lemma_split_free(z: Zones, i: int, j: int, x: int, start: nat, y: int)
    requires
        splits_ok(z, i, j, x, start),
    ensures
        is_free(split_block(z, i, j, x, start as int), y) <==> is_free(z, y) && !block_holds(
            x,
            start,
            y,
        ),
{
    let z2 = split_block(z, i, j, x, start as int);
    let u = z[i][j];
    lemma_split_listed(z, i, j, x, start);
    lemma_is_free_listed(z, y);
    lemma_is_free_listed(z2, y);
    lemma_block_start_aligned(x, start);
    assert(listed(z, i, u)) by {
        assert(z[i][j] == u);
    }
    if is_free(z, y) && !block_holds(x, start, y) {
        let (k, w) = choose|k: int, w: usize|
            #![trigger listed(z, k, w), block_holds(w as int, k as nat, y)]
            listed(z, k, w) && block_holds(w as int, k as nat, y);
        if k == i && w == u {
            lemma_path_cover(x, start, i as nat, y);
            let m = choose|m: nat| start <= m < i && #[trigger] buddy_holds(x, m, y);
            lemma_split_buddy_range(z, i, j, x, start, m as int);
            lemma_block_step(x, m);
            let b = buddy_of(block_start(x, m), m);
            assert(listed(z2, m as int, b as usize));
            assert(block_holds(b as usize as int, m, y));
        } else {
            assert(listed(z2, k, w));
        }
    }
    if is_free(z2, y) {
        let (k, w) = choose|k: int, w: usize|
            #![trigger listed(z2, k, w), block_holds(w as int, k as nat, y)]
            listed(z2, k, w) && block_holds(w as int, k as nat, y);
        if start <= k < i && w == buddy_of(block_start(x, k as nat), k as nat) as usize {
            lemma_split_buddy_range(z, i, j, x, start, k);
            lemma_block_step(x, k as nat);
            assert(buddy_holds(x, k as nat, y));
            lemma_buddy_placement(x, k as nat, i as nat, y);
            lemma_buddy_placement(x, k as nat, start, y);
            assert(block_holds(u as int, i as nat, y));
        } else {
            assert(listed(z, k, w) && !(k == i && w == u));
            if block_holds(x, start, y) {
                lemma_block_holds_nested(x, start, i as nat, y);
                assert(block_holds(u as int, i as nat, y));
            }
        }
    }
}

/// An allocation keeps the free blocks disjoint.
pub proof fn lemma_split_disjoint(z: Zones, i: int, j: int, x: int, start: nat)
    requires
        splits_ok(z, i, j, x, start),
    ensures
        blocks_disjoint(split_block(z, i, j, x, start as int)),
{
    let z2 = split_block(z, i, j, x, start as int);
    let u = z[i][j];
    lemma_split_listed(z, i, j, x, start);
    assert(listed(z, i, u)) by {
        assert(z[i][j] == u);
    }
    assert forall|k: int| 0 <= k < z2.len() implies #[trigger] z2[k].no_duplicates() by {
        assert(z[k].no_duplicates());
        if start <= k < i {
            let b = buddy_of(block_start(x, k as nat), k as nat);
            lemma_split_buddy_range(z, i, j, x, start, k);
            lemma_block_step(x, k as nat);
            lemma_level_pages_pos(k as nat);
            if z[k].contains(b as usize) {
                // The buddy lies inside the block taken out, which is listed
                // in another zone.
                assert(buddy_holds(x, k as nat, b));
                lemma_buddy_placement(x, k as nat, i as nat, b);
                assert(listed(z, k, b as usize) && block_holds(b as usize as int, k as nat, b));
                assert(block_holds(u as int, i as nat, b));
            }
            lemma_push_front_contains(z[k], b as usize);
        } else if k == i {
            lemma_remove_contains(z[i], j);
        }
    }
    assert forall|k1: int, w1: usize, k2: int, w2: usize, y: int|
        #![trigger block_holds(w1 as int, k1 as nat, y), block_holds(w2 as int, k2 as nat, y)]
        listed(z2, k1, w1) && listed(z2, k2, w2) && block_holds(w1 as int, k1 as nat, y)
            && block_holds(w2 as int, k2 as nat, y) implies k1 == k2 && w1 == w2 by {
        let new1 = start <= k1 < i && w1 == buddy_of(block_start(x, k1 as nat), k1 as nat) as usize;
        let new2 = start <= k2 < i && w2 == buddy_of(block_start(x, k2 as nat), k2 as nat) as usize;
        if new1 {
            lemma_split_buddy_range(z, i, j, x, start, k1);
            lemma_block_step(x, k1 as nat);
            assert(buddy_holds(x, k1 as nat, y));
            lemma_buddy_placement(x, k1 as nat, i as nat, y);
        }
        if new2 {
            lemma_split_buddy_range(z, i, j, x, start, k2);
            lemma_block_step(x, k2 as nat);
            assert(buddy_holds(x, k2 as nat, y));
            lemma_buddy_placement(x, k2 as nat, i as nat, y);
        }
        if new1 && new2 {
            if k1 < k2 {
                lemma_buddy_placement(x, k1 as nat, k2 as nat, y);
                lemma_buddy_placement(x, k2 as nat, k2 as nat, y);
            } else if k2 < k1 {
                lemma_buddy_placement(x, k2 as nat, k1 as nat, y);
                lemma_buddy_placement(x, k1 as nat, k1 as nat, y);
            }
        } else if new1 {
            assert(listed(z, k2, w2) && !(k2 == i && w2 == u));
            assert(block_holds(u as int, i as nat, y));
        } else if new2 {
            assert(listed(z, k1, w1) && !(k1 == i && w1 == u));
            assert(block_holds(u as int, i as nat, y));
        } else {
            assert(listed(z, k1, w1) && listed(z, k2, w2));
        }
    }
}

/// Counting the pages of the zones from `m` up, after an allocation.
proof fn lemma_split_pages_from(z: Zones, i: int, j: int, x: int, start: nat, m: int)
    requires
        0 <= i < z.len(),
        0 <= j < z[i].len(),
        start <= i,
        0 <= m <= z.len(),
    ensures
        pages_from(split_block(z, i, j, x, start as int), m) - pages_from(z, m) == if m > i {
            0
        } else if m >= start {
            -level_pages(m as nat)
        } else {
            -level_pages(start)
        },
    decreases z.len() - m,
{
    let z2 = split_block(z, i, j, x, start as int);
    if m < z.len() {
        lemma_split_pages_from(z, i, j, x, start, m + 1);
        lemma_level_next(m as nat);
        if start <= m < i {
            assert(z2[m].len() == z[m].len() + 1);
            assert(z2[m].len() * level_pages(m as nat) == z[m].len() * level_pages(m as nat)
                + level_pages(m as nat)) by (nonlinear_arith)
                requires
                    z2[m].len() == z[m].len() + 1,
            ;
        } else if m == i {
            lemma_remove_contains(z[i], j);
            assert(z2[m].len() == z[m].len() - 1);
            assert(z2[m].len() * level_pages(m as nat) == z[m].len() * level_pages(m as nat)
                - level_pages(m as nat)) by (nonlinear_arith)
                requires
                    z2[m].len() == z[m].len() - 1,
            ;
        } else {
            assert(z2[m] == z[m]);
        }
    }
}

/// An allocation takes the handed-out block's pages from the free pages.
pub proof fn lemma_split_pages(z: Zones, i: int, j: int, x: int, start: nat)
    requires
        0 <= i < z.len(),
        0 <= j < z[i].len(),
        start <= i,
    ensures
        free_pages(split_block(z, i, j, x, start as int)) == free_pages(z) - level_pages(start),
{
    lemma_split_pages_from(z, i, j, x, start, 0);
}

/// What a successful `allocate` of `n` pages with an alignment of
/// `alignment` pages does, on zones whose free blocks are disjoint: the block
/// it hands out is aligned to the requested alignment and to its own size,
/// all of its addresses were free and none of them is free afterwards, every
/// other address keeps its state, the free pages shrink by the block's pages,
/// and the free blocks stay disjoint.
pub proof fn law_allocate(z: Zones, alignment: int, n: int, i: int, j: int)
    requires
        zones_wf(z),
        blocks_disjoint(z),
        n >= 1,
        rounds_in_usize(n),
        alignment > 0,
        picks_aligned(z, order_of(n) as int, alignment * 4096, i, j),
    ensures
        ({
            let k = order_of(n);
            let r = z[i][j] as int;
            let z2 = split_block(z, i, j, r, k as int);
            &&& r % (alignment * 4096) == 0
            &&& r % level_bytes(k) as int == 0
            &&& level_pages(k) >= n
            &&& forall|y: int| block_holds(r, k, y) ==> is_free(z, y)
            &&& forall|y: int| #[trigger]
                is_free(z2, y) <==> is_free(z, y) && !block_holds(r, k, y)
            &&& free_pages(z2) == free_pages(z) - level_pages(k)
            &&& blocks_disjoint(z2)
        }),
{
    let k = order_of(n);
    let r = z[i][j] as int;
    lemma_level_pages_ge(n as nat);
    lemma_order_from_le(n, 0, n as nat);
    assert(block_ok(r, i as nat));
    lemma_level_pages_pos(i as nat);
    lemma_level_pages_pos(k);
    lemma_level_pages_divides(k, i as nat);
    lemma_align_divides(r, level_bytes(i as nat) as int, level_bytes(k) as int);
    assert(splits_ok(z, i, j, r, k));
    assert forall|y: int| #[trigger]
        is_free(split_block(z, i, j, r, k as int), y) <==> is_free(z, y) && !block_holds(
            r,
            k,
            y,
        ) by {
        lemma_split_free(z, i, j, r, k, y);
    }
    assert forall|y: int| block_holds(r, k, y) implies is_free(z, y) by {
        lemma_block_start_aligned(r, k);
        lemma_block_start_aligned(r, i as nat);
        lemma_block_holds_nested(r, k, i as nat, y);
        assert(block_holds(z[i][j] as int, i as nat, y));
    }
    lemma_split_pages(z, i, j, r, k);
    lemma_split_disjoint(z, i, j, r, k);
}

/// What a successful `allocate_at` of `n` pages at `x` does, on zones whose
/// free blocks are disjoint: all the addresses of the block at `x` were free
/// and none of them is free afterwards, every other address keeps its state,
/// the free pages shrink by the block's pages, and the free blocks stay
/// disjoint.
pub proof fn law_allocate_at(z: Zones, x: int, n: int, i: int, j: int)
    requires
        zones_wf(z),
        blocks_disjoint(z),
        n >= 1,
        rounds_in_usize(n),
        x >= 0,
        x % level_bytes(order_of(n)) as int == 0,
        picks_holding(z, order_of(n) as int, x, i, j),
    ensures
        ({
            let k = order_of(n);
            let z2 = split_block(z, i, j, x, k as int);
            &&& forall|y: int| block_holds(x, k, y) ==> is_free(z, y)
            &&& forall|y: int| #[trigger] is_free(z2, y) <==> is_free(z, y) && !block_holds(x, k, y)
            &&& free_pages(z2) == free_pages(z) - level_pages(k)
            &&& blocks_disjoint(z2)
        }),
{
    let k = order_of(n);
    assert(splits_ok(z, i, j, x, k));
    assert forall|y: int| #[trigger]
        is_free(split_block(z, i, j, x, k as int), y) <==> is_free(z, y) && !block_holds(
            x,
            k,
            y,
        ) by {
        lemma_split_free(z, i, j, x, k, y);
    }
    assert forall|y: int| block_holds(x, k, y) implies is_free(z, y) by {
        lemma_split_listed(z, i, j, x, k);
        lemma_block_start_aligned(x, k);
        lemma_block_holds_nested(x, k, i as nat, y);
        assert(block_holds(z[i][j] as int, i as nat, y));
    }
    lemma_split_pages(z, i, j, x, k);
    lemma_split_disjoint(z, i, j, x, k);
}

/// What a successful `free` of `n` pages at `x` does: the freed block's
/// addresses become free, every other address keeps its state, the free
/// pages grow by the block's pages, `is_page_free` reports the block free,
/// and when none of the block was free, the free blocks stay disjoint.
pub proof fn law_free(z: Zones, x: int, n: int)
    requires
        zones_wf(z),
        n >= 1,
        rounds_in_usize(n),
        x >= 0,
        x % level_bytes(order_of(n)) as int == 0,
        coalesce_ok(z, x, order_of(n)),
    ensures
        ({
            let k = order_of(n);
            let z2 = merged(z, x, k);
            &&& forall|y: int| #[trigger] is_free(z2, y) <==> is_free(z, y) || block_holds(x, k, y)
            &&& free_pages(z2) == free_pages(z) + level_pages(k)
            &&& free_from(z2, x, k as int)
            &&& blocks_disjoint(z) && (forall|y: int| block_holds(x, k, y) ==> !is_free(z, y))
                ==> blocks_disjoint(z2)
        }),
{
    let k = order_of(n);
    assert forall|y: int| #[trigger]
        is_free(merged(z, x, k), y) <==> is_free(z, y) || block_holds(x, k, y) by {
        lemma_merged_free(z, x, k, y);
    }
    lemma_merged_pages(z, x, k);
    lemma_merged_frees_block(z, x, k);
    if blocks_disjoint(z) && (forall|y: int| block_holds(x, k, y) ==> !is_free(z, y)) {
        lemma_merged_disjoint(z, x, k);
    }
}

/// Freeing the block an allocation handed out undoes the allocation, on
/// zones that keep the allocator's invariant: the free is a request `free`
/// takes and accepts (the block is not free), and afterwards exactly the
/// addresses free before the allocation are free, with as many free pages,
/// the invariant holds after the allocation and after the free, and the zones
/// list again exactly the blocks they listed before the allocation.
pub proof fn law_allocate_then_free(z: Zones, alignment: int, n: int, i: int, j: int)
    requires
        buddy_ok(z),
        n >= 1,
        rounds_in_usize(n),
        alignment > 0,
        picks_aligned(z, order_of(n) as int, alignment * 4096, i, j),
    ensures
        ({
            let k = order_of(n);
            let r = z[i][j] as int;
            let z2 = split_block(z, i, j, r, k as int);
            let z3 = merged(z2, r, k);
            &&& buddy_ok(z2)
            &&& request_fits(n)
            &&& free_request_ok(z2, r, n)
            &&& r % level_bytes(k) as int == 0
            &&& !free_from(z2, r, k as int)
            &&& forall|y: int| #[trigger] is_free(z3, y) <==> is_free(z, y)
            &&& free_pages(z3) == free_pages(z)
            &&& buddy_ok(z3)
            &&& forall|m: int, w: usize| #[trigger] listed(z3, m, w) <==> listed(z, m, w)
        }),
{
    let k = order_of(n);
    let r = z[i][j] as int;
    let z2 = split_block(z, i, j, r, k as int);
    law_allocate(z, alignment, n, i, j);
    lemma_level_pages_pos(k);
    lemma_level_pages_pos(i as nat);
    assert(block_holds(z[i][j] as int, i as nat, r));
    assert(splits_ok(z, i, j, r, k));
    law_split_keeps_invariant(z, i, j, r, n);
    assert(!is_free(z2, r));
    if free_from(z2, r, k as int) {
        let (a, b) = choose|a: int, b: int|
            #![trigger z2[a][b]]
            k <= a < z2.len() && 0 <= b < z2[a].len() && block_holds(z2[a][b] as int, a as nat, r);
        assert(is_free(z2, r));
    }
    law_free(z2, r, n);
    lemma_merged_coalesced(z2, r, k);
    lemma_merged_wf(z2, r, k);
    assert forall|y: int| #[trigger] is_free(merged(z2, r, k), y) <==> is_free(z, y) by {
        assert(is_free(merged(z2, r, k), y) <==> is_free(z2, y) || block_holds(r, k, y));
        assert(is_free(z2, y) <==> is_free(z, y) && !block_holds(r, k, y));
    }
    law_coalesced_unique(merged(z2, r, k), z);
}

} // verus!
