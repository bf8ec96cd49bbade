//! What the three-list cache promises across its operations: the objects it
//! hands out are aligned, an object handed out can be given back, at once or
//! after other operations, and an object given back twice is refused the
//! second time.
use vstd::prelude::*;
use vstd::set_lib::{lemma_int_range, lemma_len_subset, set_int_range};
use crate::paging::PagingError;
use crate::slab::{AllocateStep, ObjectLayout};
use crate::slab_lists::{
    allocate_outcome, apart, first_in_range, free_outcome, free_slab_outcome, given, grow_outcome,
    fresh_slab_pages, grown, in_range, list_buffers, list_slab_ok, lists_ok, new_list_slab,
    new_lists_state, spread, spread2, taken, SlabError, SlabListsState, ListSlabState,
};

verus! {

/// The address `p` is one of the object slots of slab `s`.
pub open spec fn is_list_slot(s: ListSlabState, n: int, z: int, p: int) -> bool {
    in_range(s, n, z, p) && (p - s.buffer) % z == 0
}

/// Every free object of slab `s` is one of its slots.
pub open spec fn slab_slots(s: ListSlabState, n: int, z: int) -> bool {
    forall|j: int| 0 <= j < s.free.len() ==> is_list_slot(s, n, z, #[trigger] s.free[j] as int)
}

/// Every free object of each slab of list `l` is one of its slots.
pub open spec fn list_slots(l: Seq<ListSlabState>, n: int, z: int) -> bool {
    forall|i: int| 0 <= i < l.len() ==> slab_slots(#[trigger] l[i], n, z)
}

/// Every free object the cache lists is one of its slabs' object slots: so
/// is every cache reached from a new one by handing out objects, growing,
/// and giving back only objects it handed out.
pub open spec fn slots_ok(c: SlabListsState) -> bool {
    let n = c.obj_count as int;
    let z = c.layout.size as int;
    &&& list_slots(c.free_slabs, n, z)
    &&& list_slots(c.partial_slabs, n, z)
    &&& list_slots(c.full_slabs, n, z)
}

/// Slab `s` holds `p` as an object in use: a slot of it that is not free.
pub open spec fn holds_in_use(s: ListSlabState, n: int, z: int, p: usize) -> bool {
    is_list_slot(s, n, z, p as int) && !s.free.contains(p)
}

/// The address `p` is an object the cache handed out and has not taken back:
/// an aligned slot, not free, of one of its partial or full slabs.
pub open spec fn in_use(c: SlabListsState, p: usize) -> bool {
    let n = c.obj_count as int;
    let z = c.layout.size as int;
    &&& (p as int) % (c.layout.align as int) == 0
    &&& (exists|k: int| 0 <= k < c.partial_slabs.len() && #[trigger] holds_in_use(c.partial_slabs[k], n, z, p))
        || (exists|k: int| 0 <= k < c.full_slabs.len() && #[trigger] holds_in_use(c.full_slabs[k], n, z, p))
}

/// The index of slot `p` of a slab whose objects start at `b`.
spec fn list_slot_index(b: int, z: int, p: int) -> int {
    (p - b) / z
}

/// A slot is the buffer plus its index times the object size, and its index
/// is below the object count.
proof fn lemma_list_slot_index(s: ListSlabState, n: int, z: int, p: int)
    requires
        z > 0,
        is_list_slot(s, n, z, p),
    ensures
        p == s.buffer + list_slot_index(s.buffer as int, z, p) * z,
        0 <= list_slot_index(s.buffer as int, z, p) < n,
{
    let k = list_slot_index(s.buffer as int, z, p);
    vstd::arithmetic::div_mod::lemma_fundamental_div_mod(p - s.buffer, z);
    vstd::arithmetic::mul::lemma_mul_is_commutative(k, z);
    vstd::arithmetic::div_mod::lemma_div_pos_is_pos(p - s.buffer, z);
    if k >= n {
        vstd::arithmetic::mul::lemma_mul_inequality(n, k, z);
    }
}

/// A slab whose free objects are slots, two slots of which, `p` and `q`, are
/// not free, has at least two objects more than free ones.
proof fn lemma_two_in_use(s: ListSlabState, n: int, z: int, p: usize, q: usize)
    requires
        z > 0,
        s.free.no_duplicates(),
        slab_slots(s, n, z),
        holds_in_use(s, n, z, p),
        holds_in_use(s, n, z, q),
        p != q,
    ensures
        s.free.len() + 2 <= n,
{
    let b = s.buffer as int;
    let idxs = s.free.map_values(|v: usize| list_slot_index(b, z, v as int));
    let ip = list_slot_index(b, z, p as int);
    let iq = list_slot_index(b, z, q as int);
    lemma_list_slot_index(s, n, z, p as int);
    lemma_list_slot_index(s, n, z, q as int);
    assert(ip != iq);
    assert forall|j: int| 0 <= j < idxs.len() implies 0 <= #[trigger] idxs[j] < n && idxs[j] != ip
        && idxs[j] != iq by {
        lemma_list_slot_index(s, n, z, s.free[j] as int);
        if idxs[j] == ip {
            assert(s.free[j] == p);
        }
        if idxs[j] == iq {
            assert(s.free[j] == q);
        }
    }
    assert(idxs.no_duplicates()) by {
        assert forall|a: int, c: int| 0 <= a < idxs.len() && 0 <= c < idxs.len() && a != c implies idxs[a]
            != idxs[c] by {
            lemma_list_slot_index(s, n, z, s.free[a] as int);
            lemma_list_slot_index(s, n, z, s.free[c] as int);
        }
    }
    idxs.unique_seq_to_set();
    lemma_int_range(0, n);
    let range = set_int_range(0, n).remove(ip).remove(iq);
    assert(idxs.to_set().subset_of(range));
    lemma_len_subset(idxs.to_set(), range);
}

/// A slab without its last free object keeps its free objects slots, and
/// frees nothing it did not free before.
proof fn lemma_taken_slots(s: ListSlabState, n: int, z: int)
    requires
        slab_slots(s, n, z),
        s.free.len() > 0,
    ensures
        slab_slots(taken(s), n, z),
        forall|x: usize| #[trigger] taken(s).free.contains(x) ==> s.free.contains(x),
{
    assert forall|j: int| 0 <= j < taken(s).free.len() implies is_list_slot(
        taken(s),
        n,
        z,
        #[trigger] taken(s).free[j] as int,
    ) by {
        assert(taken(s).free[j] == s.free[j]);
    }
    assert forall|x: usize| #[trigger] taken(s).free.contains(x) implies s.free.contains(x) by {
        let j = choose|j: int| 0 <= j < taken(s).free.len() && taken(s).free[j] == x;
        assert(s.free[j] == x);
    }
}

/// Taking a slab out of a list, replacing one, or pushing one on top keeps
/// the free objects of its slabs slots.
proof fn lemma_list_slots_edit(l: Seq<ListSlabState>, n: int, z: int, k: int, t: ListSlabState)
    requires
        list_slots(l, n, z),
        slab_slots(t, n, z),
    ensures
        0 <= k < l.len() ==> list_slots(l.remove(k), n, z),
        0 <= k < l.len() ==> list_slots(l.update(k, t), n, z),
        list_slots(seq![t] + l, n, z),
{
    if 0 <= k < l.len() {
        assert forall|i: int| 0 <= i < l.remove(k).len() implies slab_slots(#[trigger] l.remove(k)[i], n, z) by {
            if i < k {
                assert(l.remove(k)[i] == l[i]);
            } else {
                assert(l.remove(k)[i] == l[i + 1]);
            }
        }
        assert forall|i: int| 0 <= i < l.update(k, t).len() implies slab_slots(#[trigger] l.update(k, t)[i], n, z) by {
            if i != k {
                assert(l.update(k, t)[i] == l[i]);
            }
        }
    }
    assert forall|i: int| 0 <= i < (seq![t] + l).len() implies slab_slots(#[trigger] (seq![t] + l)[i], n, z) by {
        if i > 0 {
            assert((seq![t] + l)[i] == l[i - 1]);
        }
    }
}

/// Handing out an object, or finding that the cache must grow, keeps every
/// free object a slot and every object in use in use.
#[verifier::spinoff_prover]
pub proof fn law_allocate_keeps_in_use(c: SlabListsState, p: usize)
    requires
        lists_ok(c),
        slots_ok(c),
    ensures
        slots_ok(allocate_outcome(c).1),
        in_use(c, p) ==> in_use(allocate_outcome(c).1, p),
{
    let n = c.obj_count as int;
    let z = c.layout.size as int;
    let c2 = allocate_outcome(c).1;
    if c.partial_slabs.len() > 0 && c.partial_slabs[0].free.len() > 0 {
        let s = c.partial_slabs[0];
        let t = taken(s);
        assert(slab_slots(s, n, z));
        lemma_taken_slots(s, n, z);
        lemma_list_slots_edit(c.partial_slabs, n, z, 0, t);
        lemma_list_slots_edit(c.full_slabs, n, z, 0, t);
        if in_use(c, p) {
            if exists|h: int| 0 <= h < c.partial_slabs.len() && #[trigger] holds_in_use(c.partial_slabs[h], n, z, p) {
                let h = choose|h: int| 0 <= h < c.partial_slabs.len() && #[trigger] holds_in_use(c.partial_slabs[h], n, z, p);
                if h == 0 {
                    assert(holds_in_use(t, n, z, p));
                    if s.free.len() == 1 {
                        assert(c2.full_slabs[0] == t);
                        assert(holds_in_use(c2.full_slabs[0], n, z, p));
                    } else {
                        assert(c2.partial_slabs[0] == t);
                        assert(holds_in_use(c2.partial_slabs[0], n, z, p));
                    }
                } else if s.free.len() == 1 {
                    assert(c2.partial_slabs[h - 1] == c.partial_slabs[h]);
                    assert(holds_in_use(c2.partial_slabs[h - 1], n, z, p));
                } else {
                    assert(c2.partial_slabs[h] == c.partial_slabs[h]);
                    assert(holds_in_use(c2.partial_slabs[h], n, z, p));
                }
            } else {
                let h = choose|h: int| 0 <= h < c.full_slabs.len() && #[trigger] holds_in_use(c.full_slabs[h], n, z, p);
                if s.free.len() == 1 {
                    assert(c2.full_slabs[h + 1] == c.full_slabs[h]);
                    assert(holds_in_use(c2.full_slabs[h + 1], n, z, p));
                } else {
                    assert(c2.full_slabs[h] == c.full_slabs[h]);
                    assert(holds_in_use(c2.full_slabs[h], n, z, p));
                }
            }
        }
    } else if c.free_slabs.len() > 0 && c.free_slabs[0].free.len() > 0 {
        let s = c.free_slabs[0];
        let t = taken(s);
        assert(slab_slots(s, n, z));
        lemma_taken_slots(s, n, z);
        lemma_list_slots_edit(c.free_slabs, n, z, 0, t);
        lemma_list_slots_edit(c.partial_slabs, n, z, 0, t);
        if in_use(c, p) {
            if exists|h: int| 0 <= h < c.partial_slabs.len() && #[trigger] holds_in_use(c.partial_slabs[h], n, z, p) {
                let h = choose|h: int| 0 <= h < c.partial_slabs.len() && #[trigger] holds_in_use(c.partial_slabs[h], n, z, p);
                assert(c2.partial_slabs[h + 1] == c.partial_slabs[h]);
            } else {
                let h = choose|h: int| 0 <= h < c.full_slabs.len() && #[trigger] holds_in_use(c.full_slabs[h], n, z, p);
                assert(c2.full_slabs[h] == c.full_slabs[h]);
            }
        }
    }
}

/// The object an allocation hands out is in use afterwards.
pub proof fn law_allocated_in_use(c: SlabListsState)
    requires
        lists_ok(c),
        slots_ok(c),
    ensures
        allocate_outcome(c).0 matches Ok(AllocateStep::Allocated(q)) ==> in_use(allocate_outcome(c).1, q),
{
    let n = c.obj_count as int;
    let z = c.layout.size as int;
    let a = c.layout.align as int;
    let c2 = allocate_outcome(c).1;
    if c.partial_slabs.len() > 0 && c.partial_slabs[0].free.len() > 0 {
        let s = c.partial_slabs[0];
        assert(list_slab_ok(s, n, z, a));
        assert(slab_slots(s, n, z));
        lemma_last_free(s, n, z, a);
        let q = s.free.last();
        assert(is_list_slot(s, n, z, s.free[s.free.len() - 1] as int));
        assert(holds_in_use(taken(s), n, z, q));
        assert(allocate_outcome(c).0 == Ok::<AllocateStep, SlabError>(AllocateStep::Allocated(q)));
        if s.free.len() == 1 {
            assert(c2.full_slabs[0] == taken(s));
            assert(holds_in_use(c2.full_slabs[0], c2.obj_count as int, c2.layout.size as int, q));
        } else {
            assert(c2.partial_slabs[0] == taken(s));
            assert(holds_in_use(c2.partial_slabs[0], c2.obj_count as int, c2.layout.size as int, q));
        }
    } else if c.free_slabs.len() > 0 && c.free_slabs[0].free.len() > 0 {
        let s = c.free_slabs[0];
        assert(list_slab_ok(s, n, z, a));
        assert(slab_slots(s, n, z));
        lemma_last_free(s, n, z, a);
        let q = s.free.last();
        assert(is_list_slot(s, n, z, s.free[s.free.len() - 1] as int));
        assert(holds_in_use(taken(s), n, z, q));
        assert(allocate_outcome(c).0 == Ok::<AllocateStep, SlabError>(AllocateStep::Allocated(q)));
        assert(c2.partial_slabs[0] == taken(s));
        assert(holds_in_use(c2.partial_slabs[0], c2.obj_count as int, c2.layout.size as int, q));
    }
}

/// Growing the cache by a slab on fresh pages and handing out an object of
/// it keeps every free object a slot and every object in use in use, and
/// puts the object handed out in use.
pub proof fn law_grow_keeps_in_use(c: SlabListsState, pages: usize, p: usize)
    requires
        lists_ok(c),
        slots_ok(c),
        fresh_slab_pages(c, pages as int),
    ensures
        ({
            let (r, c2) = grow_outcome(c, Ok::<usize, PagingError>(pages));
            &&& slots_ok(c2)
            &&& in_use(c, p) ==> in_use(c2, p)
            &&& r matches Ok(q) ==> in_use(c2, q)
        }),
{
    let n = c.obj_count as int;
    let z = c.layout.size as int;
    let a = c.layout.align as int;
    let g = grown(c, pages as int);
    let x = new_list_slab(c, pages as int);
    crate::slab_lists::lemma_grow_ok(c, pages as int);
    assert(g.free_slabs[0] == x);
    assert(list_slab_ok(x, n, z, a));
    assert(slab_slots(x, n, z)) by {
        assert forall|j: int| 0 <= j < x.free.len() implies is_list_slot(x, n, z, #[trigger] x.free[j] as int) by {
            assert(in_range(x, n, z, x.free[j] as int));
            vstd::arithmetic::mul::lemma_mul_nonnegative(j, z);
            crate::slab_lists::lemma_objects_start(pages as int, a);
            vstd::arithmetic::mul::lemma_mul_strict_inequality(j, n, z);
            vstd::arithmetic::mul::lemma_mul_is_commutative(j, z);
            vstd::arithmetic::mul::lemma_mul_is_commutative(n, z);
            let b = crate::slab_lists::objects_start(pages as int, a);
            let numer = c.pages_per_slab * 4096 - (b - pages);
            vstd::arithmetic::div_mod::lemma_fundamental_div_mod(numer, z);
            vstd::arithmetic::mul::lemma_mul_nonnegative(n, z);
            assert(b + n * z <= usize::MAX);
            assert(x.buffer as int == b);
            assert(x.free[j] as int == x.buffer + j * z);
            vstd::arithmetic::div_mod::lemma_mod_multiples_basic(j, z);
        }
    }
    lemma_list_slots_edit(c.free_slabs, n, z, 0, x);
    assert(slots_ok(g));
    assert(in_use(c, p) ==> in_use(g, p)) by {
        if in_use(c, p) {
            if exists|h: int| 0 <= h < c.partial_slabs.len() && #[trigger] holds_in_use(c.partial_slabs[h], n, z, p) {
                let h = choose|h: int| 0 <= h < c.partial_slabs.len() && #[trigger] holds_in_use(c.partial_slabs[h], n, z, p);
                assert(holds_in_use(g.partial_slabs[h], n, z, p));
            } else {
                let h = choose|h: int| 0 <= h < c.full_slabs.len() && #[trigger] holds_in_use(c.full_slabs[h], n, z, p);
                assert(holds_in_use(g.full_slabs[h], n, z, p));
            }
        }
    }
    if x.free.len() > 0 {
        let t = taken(x);
        let c2 = free_slab_outcome(g).1;
        lemma_taken_slots(x, n, z);
        lemma_list_slots_edit(g.free_slabs, n, z, 0, t);
        lemma_list_slots_edit(g.partial_slabs, n, z, 0, t);
        lemma_last_free(x, n, z, a);
        let q = x.free.last();
        assert(is_list_slot(x, n, z, x.free[x.free.len() - 1] as int));
        assert(c2.partial_slabs[0] == t);
        assert(holds_in_use(c2.partial_slabs[0], c2.obj_count as int, c2.layout.size as int, q));
        if in_use(g, p) {
            if exists|h: int| 0 <= h < g.partial_slabs.len() && #[trigger] holds_in_use(g.partial_slabs[h], n, z, p) {
                let h = choose|h: int| 0 <= h < g.partial_slabs.len() && #[trigger] holds_in_use(g.partial_slabs[h], n, z, p);
                assert(c2.partial_slabs[h + 1] == g.partial_slabs[h]);
            } else {
                let h = choose|h: int| 0 <= h < g.full_slabs.len() && #[trigger] holds_in_use(g.full_slabs[h], n, z, p);
                assert(c2.full_slabs[h] == g.full_slabs[h]);
            }
        }
    }
}

/// A slab given back `q` frees what it freed before and `q`.
proof fn lemma_given(s: ListSlabState, n: int, z: int, q: usize)
    requires
        slab_slots(s, n, z),
        is_list_slot(s, n, z, q as int),
    ensures
        slab_slots(given(s, q), n, z),
        forall|x: usize| #[trigger] given(s, q).free.contains(x) <==> s.free.contains(x) || x == q,
{
    assert forall|j: int| 0 <= j < given(s, q).free.len() implies is_list_slot(
        given(s, q),
        n,
        z,
        #[trigger] given(s, q).free[j] as int,
    ) by {
        if j < s.free.len() {
            assert(given(s, q).free[j] == s.free[j]);
        }
    }
    assert forall|x: usize| #[trigger] given(s, q).free.contains(x) <==> s.free.contains(x) || x == q by {
        if given(s, q).free.contains(x) {
            let j = choose|j: int| 0 <= j < given(s, q).free.len() && given(s, q).free[j] == x;
            if j < s.free.len() {
                assert(s.free[j] == x);
            }
        }
        if s.free.contains(x) {
            let j = choose|j: int| 0 <= j < s.free.len() && s.free[j] == x;
            assert(given(s, q).free[j] == x);
        }
        if x == q {
            assert(given(s, q).free[s.free.len() as int] == x);
        }
    }
}

/// Giving back an object in use keeps every free object a slot and every
/// other object in use in use: its slab only goes to the free slabs when no
/// other object of it is in use.
pub proof fn law_free_keeps_in_use(c: SlabListsState, q: usize, p: usize)
    requires
        lists_ok(c),
        slots_ok(c),
        in_use(c, q),
    ensures
        slots_ok(free_outcome(c, q).1),
        in_use(c, p) && p != q ==> in_use(free_outcome(c, q).1, p),
{
    let n = c.obj_count as int;
    let z = c.layout.size as int;
    let a = c.layout.align as int;
    let c2 = free_outcome(c, q).1;
    crate::slab_lists::lemma_first_in_range(c.partial_slabs, n, z, q as int, 0);
    crate::slab_lists::lemma_first_in_range(c.full_slabs, n, z, q as int, 0);
    let k = first_in_range(c.partial_slabs, n, z, q as int, 0);
    let k2 = first_in_range(c.full_slabs, n, z, q as int, 0);
    if exists|h: int| 0 <= h < c.partial_slabs.len() && #[trigger] holds_in_use(c.partial_slabs[h], n, z, q) {
        let h = choose|h: int| 0 <= h < c.partial_slabs.len() && #[trigger] holds_in_use(c.partial_slabs[h], n, z, q);
        if k != h {
            lemma_one_holder(c.partial_slabs, k, h, n, z, q as int);
        }
        let s = c.partial_slabs[k];
        assert(slab_slots(s, n, z));
        assert(list_slab_ok(s, n, z, a));
        lemma_given(s, n, z, q);
        let t = given(s, q);
        if s.free.len() + 1 == n {
            lemma_list_slots_edit(c.partial_slabs, n, z, k, t);
            lemma_list_slots_edit(c.free_slabs, n, z, k, t);
            if in_use(c, p) && p != q {
                if exists|h2: int| 0 <= h2 < c.partial_slabs.len() && #[trigger] holds_in_use(c.partial_slabs[h2], n, z, p) {
                    let h2 = choose|h2: int| 0 <= h2 < c.partial_slabs.len() && #[trigger] holds_in_use(c.partial_slabs[h2], n, z, p);
                    if h2 == k {
                        lemma_two_in_use(s, n, z, p, q);
                    } else if h2 < k {
                        assert(c2.partial_slabs[h2] == c.partial_slabs[h2]);
                    } else {
                        assert(c2.partial_slabs[h2 - 1] == c.partial_slabs[h2]);
                    }
                } else {
                    let h2 = choose|h2: int| 0 <= h2 < c.full_slabs.len() && #[trigger] holds_in_use(c.full_slabs[h2], n, z, p);
                    assert(c2.full_slabs[h2] == c.full_slabs[h2]);
                }
            }
        } else {
            lemma_list_slots_edit(c.partial_slabs, n, z, k, t);
            if in_use(c, p) && p != q {
                if exists|h2: int| 0 <= h2 < c.partial_slabs.len() && #[trigger] holds_in_use(c.partial_slabs[h2], n, z, p) {
                    let h2 = choose|h2: int| 0 <= h2 < c.partial_slabs.len() && #[trigger] holds_in_use(c.partial_slabs[h2], n, z, p);
                    if h2 == k {
                        assert(holds_in_use(t, n, z, p));
                    }
                    assert(holds_in_use(c2.partial_slabs[h2], n, z, p));
                } else {
                    let h2 = choose|h2: int| 0 <= h2 < c.full_slabs.len() && #[trigger] holds_in_use(c.full_slabs[h2], n, z, p);
                    assert(c2.full_slabs[h2] == c.full_slabs[h2]);
                }
            }
        }
    } else {
        let h = choose|h: int| 0 <= h < c.full_slabs.len() && #[trigger] holds_in_use(c.full_slabs[h], n, z, q);
        lemma_no_holder(c.full_slabs, c.partial_slabs, h, n, z, q as int);
        lemma_first_in_range_none(c.partial_slabs, n, z, q as int);
        if k2 != h {
            lemma_one_holder(c.full_slabs, k2, h, n, z, q as int);
        }
        let s = c.full_slabs[k2];
        assert(slab_slots(s, n, z));
        lemma_given(s, n, z, q);
        let t = given(s, q);
        lemma_list_slots_edit(c.full_slabs, n, z, k2, t);
        lemma_list_slots_edit(c.partial_slabs, n, z, k2, t);
        if in_use(c, p) && p != q {
            if exists|h2: int| 0 <= h2 < c.partial_slabs.len() && #[trigger] holds_in_use(c.partial_slabs[h2], n, z, p) {
                let h2 = choose|h2: int| 0 <= h2 < c.partial_slabs.len() && #[trigger] holds_in_use(c.partial_slabs[h2], n, z, p);
                assert(c2.partial_slabs[h2 + 1] == c.partial_slabs[h2]);
            } else {
                let h2 = choose|h2: int| 0 <= h2 < c.full_slabs.len() && #[trigger] holds_in_use(c.full_slabs[h2], n, z, p);
                if h2 == k2 {
                    assert(holds_in_use(t, n, z, p));
                    assert(c2.partial_slabs[0] == t);
                } else if h2 < k2 {
                    assert(c2.full_slabs[h2] == c.full_slabs[h2]);
                } else {
                    assert(c2.full_slabs[h2 - 1] == c.full_slabs[h2]);
                }
            }
        }
    }
}

/// A new cache lists no free object, so every one it lists is a slot.
pub proof fn law_new_slots_ok(layout: ObjectLayout)
    ensures
        slots_ok(new_lists_state(layout)),
{
}

/// An object in use is given back: the free is accepted.
pub proof fn law_in_use_free_accepted(c: SlabListsState, p: usize)
    requires
        lists_ok(c),
        in_use(c, p),
    ensures
        free_outcome(c, p).0 == Ok::<(), SlabError>(()),
{
    let n = c.obj_count as int;
    let z = c.layout.size as int;
    crate::slab_lists::lemma_first_in_range(c.partial_slabs, n, z, p as int, 0);
    crate::slab_lists::lemma_first_in_range(c.full_slabs, n, z, p as int, 0);
    let k = first_in_range(c.partial_slabs, n, z, p as int, 0);
    let k2 = first_in_range(c.full_slabs, n, z, p as int, 0);
    if exists|h: int| 0 <= h < c.partial_slabs.len() && #[trigger] holds_in_use(c.partial_slabs[h], n, z, p) {
        let h = choose|h: int| 0 <= h < c.partial_slabs.len() && #[trigger] holds_in_use(c.partial_slabs[h], n, z, p);
        if k != h {
            assert(k < h);
            lemma_one_holder(c.partial_slabs, k, h, n, z, p as int);
        }
    } else {
        let h = choose|h: int| 0 <= h < c.full_slabs.len() && #[trigger] holds_in_use(c.full_slabs[h], n, z, p);
        lemma_no_holder(c.full_slabs, c.partial_slabs, h, n, z, p as int);
        lemma_first_in_range_none(c.partial_slabs, n, z, p as int);
        if k2 != h {
            assert(k2 < h);
            lemma_one_holder(c.full_slabs, k2, h, n, z, p as int);
        }
    }
}

/// Two slabs of a list whose regions are apart do not both hold `p`.
proof fn lemma_one_holder(l: Seq<ListSlabState>, i: int, j: int, n: int, z: int, p: int)
    requires
        spread(list_buffers(l), n * z),
        0 <= i < l.len(),
        0 <= j < l.len(),
        in_range(l[i], n, z, p),
        in_range(l[j], n, z, p),
    ensures
        i == j,
{
    if i != j {
        assert(apart(list_buffers(l)[i], list_buffers(l)[j], n * z));
    }
}

/// No slab of a list holds `p` when a slab of another list, apart from it,
/// does.
proof fn lemma_no_holder(
    a: Seq<ListSlabState>,
    b: Seq<ListSlabState>,
    i: int,
    n: int,
    z: int,
    p: int,
)
    requires
        spread2(list_buffers(a), list_buffers(b), n * z) || spread2(
            list_buffers(b),
            list_buffers(a),
            n * z,
        ),
        0 <= i < a.len(),
        in_range(a[i], n, z, p),
    ensures
        forall|j: int| 0 <= j < b.len() ==> !in_range(#[trigger] b[j], n, z, p),
{
    assert forall|j: int| 0 <= j < b.len() implies !in_range(#[trigger] b[j], n, z, p) by {
        if spread2(list_buffers(a), list_buffers(b), n * z) {
            assert(apart(list_buffers(a)[i], list_buffers(b)[j], n * z));
        } else {
            assert(apart(list_buffers(b)[j], list_buffers(a)[i], n * z));
        }
    }
}

/// With no slab of `l` holding `p`, the search for one runs off the list.
proof fn lemma_first_in_range_none(l: Seq<ListSlabState>, n: int, z: int, p: int)
    requires
        forall|j: int| 0 <= j < l.len() ==> !in_range(#[trigger] l[j], n, z, p),
    ensures
        first_in_range(l, n, z, p, 0) == l.len(),
{
    crate::slab_lists::lemma_first_in_range(l, n, z, p, 0);
    let f = first_in_range(l, n, z, p, 0);
    if f < l.len() {
        assert(!in_range(l[f], n, z, p));
    }
}

/// A free object of a consistent slab lies in its objects, and the slab
/// without its last free object no longer has it.
proof fn lemma_last_free(s: ListSlabState, n: int, z: int, a: int)
    requires
        list_slab_ok(s, n, z, a),
        s.free.len() > 0,
    ensures
        in_range(s, n, z, s.free.last() as int),
        (s.free.last() as int) % a == 0,
        !taken(s).free.contains(s.free.last()),
        given(taken(s), s.free.last()) == s,
{
    let k = s.free.len() - 1;
    assert(in_range(s, n, z, s.free[k] as int));
    if taken(s).free.contains(s.free.last()) {
        let j = choose|j: int| 0 <= j < taken(s).free.len() && taken(s).free[j] == s.free.last();
        assert(s.free[j] == s.free[k]);
    }
    assert(given(taken(s), s.free.last()).free =~= s.free);
}

/// Every object the cache hands out is aligned to the layout's alignment.
pub proof fn law_allocated_aligned(c: SlabListsState)
    requires
        lists_ok(c),
    ensures
        allocate_outcome(c).0 matches Ok(AllocateStep::Allocated(p)) ==> (p as int) % (
        c.layout.align as int) == 0,
{
    let n = c.obj_count as int;
    let z = c.layout.size as int;
    let a = c.layout.align as int;
    if c.partial_slabs.len() > 0 && c.partial_slabs[0].free.len() > 0 {
        assert(list_slab_ok(c.partial_slabs[0], n, z, a));
        lemma_last_free(c.partial_slabs[0], n, z, a);
    } else if c.free_slabs.len() > 0 && c.free_slabs[0].free.len() > 0 {
        assert(list_slab_ok(c.free_slabs[0], n, z, a));
        lemma_last_free(c.free_slabs[0], n, z, a);
    }
}

/// Giving back the object an allocation just handed out is accepted, and
/// leaves the cache as it was before the allocation, unless the allocation
/// came from a partial slab with all of its objects free: that slab then
/// goes to the free slabs.
pub proof fn law_allocate_then_free(c: SlabListsState)
    requires
        lists_ok(c),
        allocate_outcome(c).0 is Ok,
        allocate_outcome(c).0->Ok_0 is Allocated,
    ensures
        ({
            let p = allocate_outcome(c).0->Ok_0->Allocated_0;
            let after = free_outcome(allocate_outcome(c).1, p);
            &&& after.0 == Ok::<(), SlabError>(())
            &&& !(c.partial_slabs.len() > 0 && c.partial_slabs[0].free.len() == c.obj_count)
                ==> after.1 == c
        }),
{
    let n = c.obj_count as int;
    let z = c.layout.size as int;
    let a = c.layout.align as int;
    let p = allocate_outcome(c).0->Ok_0->Allocated_0;
    let c2 = allocate_outcome(c).1;
    if c.partial_slabs.len() > 0 && c.partial_slabs[0].free.len() > 0 {
        let s = c.partial_slabs[0];
        assert(list_slab_ok(s, n, z, a));
        lemma_last_free(s, n, z, a);
        assert(p == s.free.last());
        if s.free.len() == 1 {
            assert forall|j: int| 0 <= j < c2.partial_slabs.len() implies !in_range(
                #[trigger] c2.partial_slabs[j],
                n,
                z,
                p as int,
            ) by {
                assert(c2.partial_slabs[j] == c.partial_slabs[j + 1]);
                if in_range(c.partial_slabs[j + 1], n, z, p as int) {
                    lemma_one_holder(c.partial_slabs, 0, j + 1, n, z, p as int);
                }
            }
            lemma_first_in_range_none(c2.partial_slabs, n, z, p as int);
            assert(c2.full_slabs[0] == taken(s));
            crate::slab_lists::lemma_first_in_range(c2.full_slabs, n, z, p as int, 0);
            assert(first_in_range(c2.full_slabs, n, z, p as int, 0) == 0);
            let c3 = free_outcome(c2, p).1;
            assert(c3.partial_slabs =~= c.partial_slabs);
            assert(c3.full_slabs =~= c.full_slabs);
            assert(c3 =~= c);
        } else {
            assert(c2.partial_slabs[0] == taken(s));
            crate::slab_lists::lemma_first_in_range(c2.partial_slabs, n, z, p as int, 0);
            assert(first_in_range(c2.partial_slabs, n, z, p as int, 0) == 0);
            if s.free.len() != n {
                let c3 = free_outcome(c2, p).1;
                assert(c3.partial_slabs =~= c.partial_slabs);
                assert(c3 =~= c);
            }
        }
    } else {
        let s = c.free_slabs[0];
        assert(list_slab_ok(s, n, z, a));
        lemma_last_free(s, n, z, a);
        assert(c2.partial_slabs[0] == taken(s));
        crate::slab_lists::lemma_first_in_range(c2.partial_slabs, n, z, p as int, 0);
        assert(first_in_range(c2.partial_slabs, n, z, p as int, 0) == 0);
        assert(s.free.len() == c.obj_count);
        let c3 = free_outcome(c2, p).1;
        assert(c3.partial_slabs =~= c.partial_slabs);
        assert(c3.free_slabs =~= c.free_slabs);
        assert(c3 =~= c);
    }
}

/// An object given back once is refused the second time: as a double free
/// while its slab has objects in use, and as outside every slab once its
/// slab went to the free slabs.
pub proof fn law_free_twice(c: SlabListsState, p: usize)
    requires
        lists_ok(c),
        free_outcome(c, p).0 is Ok,
    ensures
        ({
            let second = free_outcome(free_outcome(c, p).1, p).0;
            second == Err::<(), SlabError>(SlabError::DoubleFree) || second == Err::<
                (),
                SlabError,
            >(SlabError::BadPtrRange)
        }),
{
    let n = c.obj_count as int;
    let z = c.layout.size as int;
    let c2 = free_outcome(c, p).1;
    let k = first_in_range(c.partial_slabs, n, z, p as int, 0);
    let k2 = first_in_range(c.full_slabs, n, z, p as int, 0);
    crate::slab_lists::lemma_first_in_range(c.partial_slabs, n, z, p as int, 0);
    crate::slab_lists::lemma_first_in_range(c.full_slabs, n, z, p as int, 0);
    if k < c.partial_slabs.len() {
        let s = c.partial_slabs[k];
        if s.free.len() + 1 == n {
            assert forall|j: int| 0 <= j < c2.partial_slabs.len() implies !in_range(
                #[trigger] c2.partial_slabs[j],
                n,
                z,
                p as int,
            ) by {
                let jj = if j < k {
                    j
                } else {
                    j + 1
                };
                assert(c2.partial_slabs[j] == c.partial_slabs[jj]);
                if in_range(c.partial_slabs[jj], n, z, p as int) {
                    lemma_one_holder(c.partial_slabs, k, jj, n, z, p as int);
                }
            }
            lemma_first_in_range_none(c2.partial_slabs, n, z, p as int);
            lemma_no_holder(c.partial_slabs, c.full_slabs, k, n, z, p as int);
            lemma_first_in_range_none(c2.full_slabs, n, z, p as int);
        } else {
            assert forall|j: int| 0 <= j < k implies !in_range(
                #[trigger] c2.partial_slabs[j],
                n,
                z,
                p as int,
            ) by {
                assert(c2.partial_slabs[j] == c.partial_slabs[j]);
            }
            crate::slab_lists::lemma_first_in_range_at(c2.partial_slabs, n, z, p as int, k);
            assert(c2.partial_slabs[k].free.contains(p)) by {
                assert(c2.partial_slabs[k].free[s.free.len() as int] == p);
            }
        }
    } else {
        let s = c.full_slabs[k2];
        assert(c2.partial_slabs[0] == given(s, p));
        crate::slab_lists::lemma_first_in_range(c2.partial_slabs, n, z, p as int, 0);
        assert(first_in_range(c2.partial_slabs, n, z, p as int, 0) == 0);
        assert(c2.partial_slabs[0].free.contains(p)) by {
            assert(c2.partial_slabs[0].free[s.free.len() as int] == p);
        }
    }
}

} // verus!
