//! The kernel's slab allocator for its heap and custom use: a cache that
//! keeps its slabs on three lists, those with every object free, those with
//! some, and those with none.
//!
//! Each list is a stack, its first element the top. The pages a slab lives in
//! come from the paging layer, which the caller drives: `allocate` says when
//! the cache must grow, `grow_and_allocate` takes the pages the caller got for
//! it, and `reap` hands back the pages of the free slabs.
use vstd::prelude::*;
use vstd::arithmetic::div_mod::lemma_fundamental_div_mod;
use vstd::arithmetic::mul::{
    lemma_mul_inequality, lemma_mul_is_commutative, lemma_mul_strict_inequality,
};
use vstd::arithmetic::power2::{lemma_pow2_pos, pow2};
use crate::heap::{layout_ok, lemma_padded_size, padded_size};
use crate::levels::BASIC_PAGE_SIZE;
use crate::paging::PagingError;
use crate::slab::{align_up, AllocateStep, ObjectLayout, SlabAllocatable, OBJECT_NODE_SIZE};
use core::marker::PhantomData;

verus! {

/// Size of the record of a slab, padded to its alignment: the slab's fields
/// and its list link, at the start of the slab's pages.
pub const LIST_SLAB_NODE_SIZE: usize = 32;

/// Errors that the slab allocator might encounter
#[derive(Debug, Copy, Clone, PartialEq, Eq, Structural)]
pub enum SlabError {
    /// The pointer passed to free is not aligned to the object's alignment
    BadPtrAlignment,
    /// The pointer passed to free is not in the range of the slab
    BadPtrRange,
    /// The pointer passed to free isn't allocated
    DoubleFree,
    /// The slab is full and cannot allocate any more objects
    SlabFullInternalError,
    /// Error while trying to allocate more pages for the slab
    PageAllocationError,
}

/// What a slab holds, as plain values.
#[verifier::ext_equal]
pub struct ListSlabState {
    /// Address of the slab's first object
    pub buffer: usize,
    /// The free objects, the one handed out next last
    pub free: Seq<usize>,
}

/// What the cache holds, as plain values.
#[verifier::ext_equal]
pub struct SlabListsState {
    /// The layout of the objects, padded to their alignment
    pub layout: ObjectLayout,
    /// The amount of pages each slab has
    pub pages_per_slab: usize,
    /// The amount of objects each slab holds
    pub obj_count: usize,
    /// The slabs with every object free, top first
    pub free_slabs: Seq<ListSlabState>,
    /// The slabs with some objects free, top first
    pub partial_slabs: Seq<ListSlabState>,
    /// The slabs with no object free, top first
    pub full_slabs: Seq<ListSlabState>,
}

/// A slab of `pages` pages holds at least one object of `size` bytes, and
/// the space its objects leave over (its internal fragmentation) is at most
/// an eighth of it.
pub open spec fn low_waste(size: int, pages: int) -> bool {
    &&& pages * 4096 >= size
    &&& (pages * 4096) % size <= pages * 512
}

/// The least page count from `pages` on that wastes little, searched up to
/// `(size + 511) / 512` pages, which always do.
pub open spec fn least_pages_from(size: int, pages: int) -> int
    decreases (size + 511) / 512 - pages,
{
    if pages >= (size + 511) / 512 || low_waste(size, pages) {
        pages
    } else {
        least_pages_from(size, pages + 1)
    }
}

/// The number of pages a slab of objects of `size` bytes takes: the fewest
/// pages that hold an object and waste at most an eighth of the slab.
pub open spec fn pages_per_slab_for(size: int) -> int {
    least_pages_from(size, 1)
}

/// `pages` pages, with `pages * 512 >= size`, hold an object of `size`
/// bytes and waste at most an eighth of their space.
proof fn lemma_cap_wastes_little(size: int, pages: int)
    requires
        size >= 1,
        pages >= 1,
        pages >= (size + 511) / 512,
    ensures
        low_waste(size, pages),
{
    lemma_fundamental_div_mod(size + 511, 512);
    let c = (size + 511) / 512;
    assert(512 * c >= size);
    assert(pages * 512 >= size) by (nonlinear_arith)
        requires
            512 * c >= size,
            pages >= c,
    ;
    vstd::arithmetic::div_mod::lemma_mod_pos_bound(pages * 4096, size);
}

/// The number of objects of `obj_size` bytes that fit in `pages_per_slab`
/// pages after the slab's record.
pub open spec fn obj_count_for(pages_per_slab: int, obj_size: int) -> int {
    (pages_per_slab * 4096 - LIST_SLAB_NODE_SIZE) / obj_size
}

/// `p` lies in the objects of slab `s`.
pub open spec fn in_range(s: ListSlabState, count: int, size: int, p: int) -> bool {
    s.buffer <= p < s.buffer + count * size
}

/// The object regions of two slabs at `x` and `y` do not overlap.
pub open spec fn apart(x: usize, y: usize, len: int) -> bool {
    x + len <= y || y + len <= x
}

/// The buffers of a list of slabs.
pub open spec fn list_buffers(l: Seq<ListSlabState>) -> Seq<usize> {
    l.map_values(|s: ListSlabState| s.buffer)
}

/// The regions at the buffers `b` do not overlap.
pub open spec fn spread(b: Seq<usize>, len: int) -> bool {
    forall|i: int, j: int| 0 <= i < b.len() && 0 <= j < b.len() && i != j ==> apart(b[i], b[j], len)
}

/// No region at the buffers `a` overlaps one at the buffers `b`.
pub open spec fn spread2(a: Seq<usize>, b: Seq<usize>, len: int) -> bool {
    forall|i: int, j: int| 0 <= i < a.len() && 0 <= j < b.len() ==> apart(a[i], b[j], len)
}

/// Slab `s` is consistent for `count` objects of `size` bytes aligned to
/// `align`: its objects fit in the address space, and its free objects are
/// distinct aligned addresses among its objects.
pub open spec fn list_slab_ok(s: ListSlabState, count: int, size: int, align: int) -> bool {
    &&& s.buffer + count * size <= usize::MAX
    &&& s.free.no_duplicates()
    &&& forall|j: int|
        0 <= j < s.free.len() ==> in_range(s, count, size, #[trigger] s.free[j] as int) && (s.free[j]
            as int) % align == 0
}

/// Every slab of list `l` is consistent.
pub open spec fn list_ok(l: Seq<ListSlabState>, count: int, size: int, align: int) -> bool {
    forall|i: int| 0 <= i < l.len() ==> list_slab_ok(#[trigger] l[i], count, size, align)
}

/// The cache is consistent: its layout is padded to its alignment, which
/// divides its slabs' size, each slab is consistent, the free slabs have
/// every object free, and no two slabs' objects overlap.
pub open spec fn lists_ok(c: SlabListsState) -> bool {
    let n = c.obj_count as int;
    let z = c.layout.size as int;
    let a = c.layout.align as int;
    let len = n * z;
    &&& z >= 8
    &&& a > 0
    &&& z % a == 0
    &&& c.pages_per_slab >= 1
    &&& (c.pages_per_slab * 4096) % a == 0
    &&& list_ok(c.free_slabs, n, z, a)
    &&& list_ok(c.partial_slabs, n, z, a)
    &&& list_ok(c.full_slabs, n, z, a)
    &&& forall|i: int|
        0 <= i < c.free_slabs.len() ==> (#[trigger] c.free_slabs[i]).free.len() == c.obj_count
    &&& spread(list_buffers(c.free_slabs), len)
    &&& spread(list_buffers(c.partial_slabs), len)
    &&& spread(list_buffers(c.full_slabs), len)
    &&& spread2(list_buffers(c.free_slabs), list_buffers(c.partial_slabs), len)
    &&& spread2(list_buffers(c.free_slabs), list_buffers(c.full_slabs), len)
    &&& spread2(list_buffers(c.partial_slabs), list_buffers(c.full_slabs), len)
}

/// The first slab of list `l` from `i` on whose objects hold `p`, or the
/// length of the list.
pub open spec fn first_in_range(l: Seq<ListSlabState>, count: int, size: int, p: int, i: int) -> int
    decreases l.len() - i,
{
    if i < 0 || i >= l.len() {
        l.len() as int
    } else if in_range(l[i], count, size, p) {
        i
    } else {
        first_in_range(l, count, size, p, i + 1)
    }
}

/// `first_in_range` finds the first slab whose objects hold `p`.
pub(crate) proof fn lemma_first_in_range(l: Seq<ListSlabState>, count: int, size: int, p: int, i: int)
    requires
        0 <= i <= l.len(),
    ensures
        i <= first_in_range(l, count, size, p, i) <= l.len(),
        first_in_range(l, count, size, p, i) < l.len() ==> in_range(
            l[first_in_range(l, count, size, p, i)],
            count,
            size,
            p,
        ),
        forall|k: int| i <= k < first_in_range(l, count, size, p, i) ==> !in_range(l[k], count, size, p),
    decreases l.len() - i,
{
    if i < l.len() && !in_range(l[i], count, size, p) {
        lemma_first_in_range(l, count, size, p, i + 1);
    }
}

/// The first slab whose objects hold `p` is the one at `i` when those
/// before do not hold it.
pub(crate) proof fn lemma_first_in_range_at(l: Seq<ListSlabState>, count: int, size: int, p: int, i: int)
    requires
        0 <= i < l.len(),
        in_range(l[i], count, size, p),
        forall|k: int| 0 <= k < i ==> !in_range(l[k], count, size, p),
    ensures
        first_in_range(l, count, size, p, 0) == i,
{
    lemma_first_in_range(l, count, size, p, 0);
}

/// The slab after it hands out its last free object.
pub open spec fn taken(s: ListSlabState) -> ListSlabState {
    ListSlabState { free: s.free.drop_last(), ..s }
}

/// The slab after `p` is given back to it.
pub open spec fn given(s: ListSlabState, p: usize) -> ListSlabState {
    ListSlabState { free: s.free.push(p), ..s }
}

/// The list with its element `k` taken out and `s` pushed on top of the
/// other list `to`: the new `(from, to)`.
pub open spec fn move_to(
    from: Seq<ListSlabState>,
    k: int,
    s: ListSlabState,
    to: Seq<ListSlabState>,
) -> (Seq<ListSlabState>, Seq<ListSlabState>) {
    (from.remove(k), seq![s] + to)
}

/// The outcome of `allocate` on the cache: the object and the cache after it,
/// or the need to grow, or an error.
pub open spec fn allocate_outcome(c: SlabListsState) -> (Result<AllocateStep, SlabError>, SlabListsState) {
    if c.partial_slabs.len() > 0 && c.partial_slabs[0].free.len() > 0 {
        let s = c.partial_slabs[0];
        let p = s.free.last();
        if s.free.len() == 1 {
            let (partial, full) = move_to(c.partial_slabs, 0, taken(s), c.full_slabs);
            (
                Ok(AllocateStep::Allocated(p)),
                SlabListsState { partial_slabs: partial, full_slabs: full, ..c },
            )
        } else {
            (
                Ok(AllocateStep::Allocated(p)),
                SlabListsState { partial_slabs: c.partial_slabs.update(0, taken(s)), ..c },
            )
        }
    } else if c.free_slabs.len() == 0 {
        (Ok(AllocateStep::NeedsGrow), c)
    } else {
        let (r, c2) = free_slab_outcome(c);
        (
            match r {
                Ok(p) => Ok(AllocateStep::Allocated(p)),
                Err(e) => Err(e),
            },
            c2,
        )
    }
}

/// The outcome of allocating from the top free slab.
pub open spec fn free_slab_outcome(c: SlabListsState) -> (Result<usize, SlabError>, SlabListsState) {
    let s = c.free_slabs[0];
    if s.free.len() == 0 {
        (Err(SlabError::SlabFullInternalError), c)
    } else {
        let (free, partial) = move_to(c.free_slabs, 0, taken(s), c.partial_slabs);
        (Ok(s.free.last()), SlabListsState { free_slabs: free, partial_slabs: partial, ..c })
    }
}

/// The address the objects of a slab on the pages at `pages` start at: past
/// the slab's record, aligned to the objects' alignment.
pub open spec fn objects_start(pages: int, align: int) -> int {
    let after = pages + LIST_SLAB_NODE_SIZE;
    if after % align == 0 {
        after
    } else {
        after + align - after % align
    }
}

/// The slab on the pages at `pages`: all of its objects free, the last one
/// on top.
pub open spec fn new_list_slab(c: SlabListsState, pages: int) -> ListSlabState {
    let b = objects_start(pages, c.layout.align as int);
    ListSlabState {
        buffer: b as usize,
        free: Seq::new(c.obj_count as nat, |i: int| (b + i * c.layout.size) as usize),
    }
}

/// The pages at `pages` can back a new slab: page aligned, in the address
/// space with the objects of a slab, as many as the cache counts, and apart
/// from every slab's objects.
pub open spec fn fresh_slab_pages(c: SlabListsState, pages: int) -> bool {
    let b = objects_start(pages, c.layout.align as int);
    let len = c.obj_count * c.layout.size;
    &&& pages % 4096 == 0
    &&& pages + c.pages_per_slab * 4096 <= usize::MAX
    &&& (c.pages_per_slab * 4096 - (b - pages)) / (c.layout.size as int) == c.obj_count
    &&& forall|i: int| 0 <= i < c.free_slabs.len() ==> apart(#[trigger] c.free_slabs[i].buffer, b as usize, len)
    &&& forall|i: int|
        0 <= i < c.partial_slabs.len() ==> apart(#[trigger] c.partial_slabs[i].buffer, b as usize, len)
    &&& forall|i: int| 0 <= i < c.full_slabs.len() ==> apart(#[trigger] c.full_slabs[i].buffer, b as usize, len)
}

/// The buffers of a list are kept when a slab is updated in place.
proof fn lemma_buffers_update(l: Seq<ListSlabState>, k: int, x: ListSlabState)
    requires
        0 <= k < l.len(),
        x.buffer == l[k].buffer,
    ensures
        list_buffers(l.update(k, x)) == list_buffers(l),
{
    assert(list_buffers(l.update(k, x)) =~= list_buffers(l));
}

/// The buffers of a list with an element taken out.
proof fn lemma_buffers_remove(l: Seq<ListSlabState>, k: int)
    requires
        0 <= k < l.len(),
    ensures
        list_buffers(l.remove(k)) == list_buffers(l).remove(k),
{
    assert(list_buffers(l.remove(k)) =~= list_buffers(l).remove(k));
}

/// The buffers of a list with a slab pushed on top.
proof fn lemma_buffers_push(l: Seq<ListSlabState>, x: ListSlabState)
    ensures
        list_buffers(seq![x] + l) == seq![x.buffer] + list_buffers(l),
{
    assert(list_buffers(seq![x] + l) =~= seq![x.buffer] + list_buffers(l));
}

/// Moving a region from one set of apart regions to another keeps all of
/// them apart.
proof fn lemma_spread_move(a: Seq<usize>, b: Seq<usize>, k: int, len: int)
    requires
        0 <= k < a.len(),
        spread(a, len),
        spread(b, len),
        spread2(a, b, len),
    ensures
        spread(a.remove(k), len),
        spread(seq![a[k]] + b, len),
        spread2(a.remove(k), seq![a[k]] + b, len),
{
    let a2 = a.remove(k);
    let b2 = seq![a[k]] + b;
    assert forall|i: int, j: int| 0 <= i < a2.len() && 0 <= j < a2.len() && i != j implies apart(
        a2[i],
        a2[j],
        len,
    ) by {
        let ii = if i < k { i } else { i + 1 };
        let jj = if j < k { j } else { j + 1 };
        assert(a2[i] == a[ii] && a2[j] == a[jj]);
    }
    assert forall|i: int, j: int| 0 <= i < b2.len() && 0 <= j < b2.len() && i != j implies apart(
        b2[i],
        b2[j],
        len,
    ) by {
        if i == 0 {
            assert(apart(a[k], b[j - 1], len));
        } else if j == 0 {
            assert(apart(a[k], b[i - 1], len));
        } else {
            assert(apart(b[i - 1], b[j - 1], len));
        }
    }
    assert forall|i: int, j: int| 0 <= i < a2.len() && 0 <= j < b2.len() implies apart(
        a2[i],
        b2[j],
        len,
    ) by {
        let ii = if i < k { i } else { i + 1 };
        assert(a2[i] == a[ii]);
        if j == 0 {
            assert(apart(a[ii], a[k], len));
        } else {
            assert(apart(a[ii], b[j - 1], len));
        }
    }
}

/// Moving a region from one set to another keeps both apart from a third.
proof fn lemma_spread_move_third(a: Seq<usize>, b: Seq<usize>, c: Seq<usize>, k: int, len: int)
    requires
        0 <= k < a.len(),
        spread2(a, c, len),
        spread2(b, c, len),
    ensures
        spread2(a.remove(k), c, len),
        spread2(seq![a[k]] + b, c, len),
{
    let a2 = a.remove(k);
    let b2 = seq![a[k]] + b;
    assert forall|i: int, j: int| 0 <= i < a2.len() && 0 <= j < c.len() implies apart(
        a2[i],
        c[j],
        len,
    ) by {
        let ii = if i < k { i } else { i + 1 };
        assert(a2[i] == a[ii]);
    }
    assert forall|i: int, j: int| 0 <= i < b2.len() && 0 <= j < c.len() implies apart(
        b2[i],
        c[j],
        len,
    ) by {
        if i == 0 {
            assert(apart(a[k], c[j], len));
        } else {
            assert(apart(b[i - 1], c[j], len));
        }
    }
}

/// `spread2` does not depend on the order of the two sets.
proof fn lemma_spread2_flip(a: Seq<usize>, b: Seq<usize>, len: int)
    requires
        spread2(a, b, len),
    ensures
        spread2(b, a, len),
{
    assert forall|i: int, j: int| 0 <= i < b.len() && 0 <= j < a.len() implies apart(b[i], a[j], len) by {
        assert(apart(a[j], b[i], len));
    }
}

/// A list of consistent slabs stays so with one pushed on top, and with one
/// taken out or replaced.
proof fn lemma_list_ok_edit(
    l: Seq<ListSlabState>,
    k: int,
    x: ListSlabState,
    n: int,
    z: int,
    a: int,
)
    requires
        list_ok(l, n, z, a),
        list_slab_ok(x, n, z, a),
    ensures
        list_ok(seq![x] + l, n, z, a),
        0 <= k < l.len() ==> list_ok(l.remove(k), n, z, a),
        0 <= k < l.len() ==> list_ok(l.update(k, x), n, z, a),
{
    assert forall|i: int| 0 <= i < (seq![x] + l).len() implies list_slab_ok(
        #[trigger] (seq![x] + l)[i],
        n,
        z,
        a,
    ) by {
        if i > 0 {
            assert((seq![x] + l)[i] == l[i - 1]);
        }
    }
    if 0 <= k < l.len() {
        assert forall|i: int| 0 <= i < l.remove(k).len() implies list_slab_ok(
            #[trigger] l.remove(k)[i],
            n,
            z,
            a,
        ) by {
            let ii = if i < k {
                i
            } else {
                i + 1
            };
            assert(l.remove(k)[i] == l[ii]);
        }
        assert forall|i: int| 0 <= i < l.update(k, x).len() implies list_slab_ok(
            #[trigger] l.update(k, x)[i],
            n,
            z,
            a,
        ) by {
            if i != k {
                assert(l.update(k, x)[i] == l[i]);
            }
        }
    }
}

/// A consistent slab stays so after it hands out its last free object.
proof fn lemma_taken_ok(s: ListSlabState, n: int, z: int, a: int)
    requires
        list_slab_ok(s, n, z, a),
        s.free.len() > 0,
    ensures
        list_slab_ok(taken(s), n, z, a),
{
    let t = taken(s);
    assert forall|j: int| 0 <= j < t.free.len() implies in_range(t, n, z, #[trigger] t.free[j] as int)
        && (t.free[j] as int) % a == 0 by {
        assert(t.free[j] == s.free[j]);
    }
    assert(t.free.no_duplicates()) by {
        assert forall|i: int, j: int| 0 <= i < t.free.len() && 0 <= j < t.free.len() && i != j implies t.free[i]
            != t.free[j] by {
            assert(t.free[i] == s.free[i] && t.free[j] == s.free[j]);
        }
    }
}

/// A consistent slab stays so after an aligned address among its objects
/// that is not free is given back to it.
proof fn lemma_given_ok(s: ListSlabState, n: int, z: int, a: int, p: usize)
    requires
        list_slab_ok(s, n, z, a),
        in_range(s, n, z, p as int),
        (p as int) % a == 0,
        !s.free.contains(p),
    ensures
        list_slab_ok(given(s, p), n, z, a),
{
    let g = given(s, p);
    assert forall|j: int| 0 <= j < g.free.len() implies in_range(g, n, z, #[trigger] g.free[j] as int)
        && (g.free[j] as int) % a == 0 by {
        if j < s.free.len() {
            assert(g.free[j] == s.free[j]);
        }
    }
    assert(g.free.no_duplicates()) by {
        assert forall|i: int, j: int| 0 <= i < g.free.len() && 0 <= j < g.free.len() && i != j implies g.free[i]
            != g.free[j] by {
            if i == s.free.len() {
                assert(s.free.contains(g.free[j]));
            } else if j == s.free.len() {
                assert(s.free.contains(g.free[i]));
            }
        }
    }
}

/// Moving slab `k` of list `a`, changed into `x` on the same buffer, on top
/// of list `b` keeps both lists consistent, their slabs apart from each
/// other and from those of a third list `t`.
proof fn lemma_move_ok(
    a: Seq<ListSlabState>,
    b: Seq<ListSlabState>,
    t: Seq<ListSlabState>,
    k: int,
    x: ListSlabState,
    n: int,
    z: int,
    al: int,
)
    requires
        0 <= k < a.len(),
        x.buffer == a[k].buffer,
        list_slab_ok(x, n, z, al),
        list_ok(a, n, z, al),
        list_ok(b, n, z, al),
        spread(list_buffers(a), n * z),
        spread(list_buffers(b), n * z),
        spread2(list_buffers(a), list_buffers(b), n * z),
        spread2(list_buffers(a), list_buffers(t), n * z),
        spread2(list_buffers(b), list_buffers(t), n * z),
    ensures
        list_ok(a.remove(k), n, z, al),
        list_ok(seq![x] + b, n, z, al),
        spread(list_buffers(a.remove(k)), n * z),
        spread(list_buffers(seq![x] + b), n * z),
        spread2(list_buffers(a.remove(k)), list_buffers(seq![x] + b), n * z),
        spread2(list_buffers(a.remove(k)), list_buffers(t), n * z),
        spread2(list_buffers(seq![x] + b), list_buffers(t), n * z),
{
    lemma_list_ok_edit(a, k, x, n, z, al);
    lemma_list_ok_edit(b, 0, x, n, z, al);
    lemma_buffers_remove(a, k);
    lemma_buffers_push(b, x);
    assert(list_buffers(a)[k] == x.buffer);
    lemma_spread_move(list_buffers(a), list_buffers(b), k, n * z);
    lemma_spread_move_third(list_buffers(a), list_buffers(b), list_buffers(t), k, n * z);
}

/// The state of a cache made by `new` for `layout`: the layout padded to
/// its alignment, and no slab.
pub open spec fn new_lists_state(layout: ObjectLayout) -> SlabListsState {
    let size = padded_size(layout);
    let pages = pages_per_slab_for(size);
    SlabListsState {
        layout: ObjectLayout { size: size as usize, align: layout.align },
        pages_per_slab: pages as usize,
        obj_count: obj_count_for(pages, size) as usize,
        free_slabs: Seq::empty(),
        partial_slabs: Seq::empty(),
        full_slabs: Seq::empty(),
    }
}

/// The cache with a slab on the pages at `pages` pushed on top of its free
/// slabs.
pub open spec fn grown(c: SlabListsState, pages: int) -> SlabListsState {
    SlabListsState { free_slabs: seq![new_list_slab(c, pages)] + c.free_slabs, ..c }
}

/// The outcome of growing the cache with the pages the paging layer gave,
/// or failed to give, and allocating from the new slab.
pub open spec fn grow_outcome(c: SlabListsState, pages: Result<usize, PagingError>) -> (
    Result<usize, SlabError>,
    SlabListsState,
) {
    match pages {
        Ok(p) => free_slab_outcome(grown(c, p as int)),
        Err(_) => (Err(SlabError::PageAllocationError), c),
    }
}

/// The outcome of `free` on the cache for the address `p`: misaligned
/// addresses are refused; otherwise the first partial slab whose objects
/// hold `p` takes it back, and goes to the free slabs once all of its
/// objects are free; failing one, the first full slab that holds it takes it
/// back and goes to the partial slabs; an address already free is refused.
pub open spec fn free_outcome(c: SlabListsState, p: usize) -> (Result<(), SlabError>, SlabListsState) {
    let n = c.obj_count as int;
    let z = c.layout.size as int;
    let k = first_in_range(c.partial_slabs, n, z, p as int, 0);
    let k2 = first_in_range(c.full_slabs, n, z, p as int, 0);
    if (p as int) % (c.layout.align as int) != 0 {
        (Err(SlabError::BadPtrAlignment), c)
    } else if k < c.partial_slabs.len() {
        let s = c.partial_slabs[k];
        if s.free.contains(p) {
            (Err(SlabError::DoubleFree), c)
        } else if s.free.len() + 1 == n {
            let (partial, free) = move_to(c.partial_slabs, k, given(s, p), c.free_slabs);
            (Ok(()), SlabListsState { partial_slabs: partial, free_slabs: free, ..c })
        } else {
            (Ok(()), SlabListsState { partial_slabs: c.partial_slabs.update(k, given(s, p)), ..c })
        }
    } else if k2 < c.full_slabs.len() {
        let s = c.full_slabs[k2];
        if s.free.contains(p) {
            (Err(SlabError::DoubleFree), c)
        } else {
            let (full, partial) = move_to(c.full_slabs, k2, given(s, p), c.partial_slabs);
            (Ok(()), SlabListsState { full_slabs: full, partial_slabs: partial, ..c })
        }
    } else {
        (Err(SlabError::BadPtrRange), c)
    }
}

/// The address of the first page of each slab of `l`, in list order.
pub open spec fn slab_pages(l: Seq<ListSlabState>) -> Seq<usize> {
    l.map_values(|s: ListSlabState| (s.buffer - s.buffer % 4096) as usize)
}

/// `allocate` keeps the cache consistent.
proof fn lemma_allocate_outcome_ok(c: SlabListsState)
    requires
        lists_ok(c),
    ensures
        lists_ok(allocate_outcome(c).1),
{
    let n = c.obj_count as int;
    let z = c.layout.size as int;
    let al = c.layout.align as int;
    let fb = list_buffers(c.free_slabs);
    if c.partial_slabs.len() > 0 && c.partial_slabs[0].free.len() > 0 {
        let s = c.partial_slabs[0];
        assert(list_slab_ok(s, n, z, al));
        lemma_taken_ok(s, n, z, al);
        if s.free.len() == 1 {
            lemma_spread2_flip(fb, list_buffers(c.partial_slabs), n * z);
            lemma_spread2_flip(fb, list_buffers(c.full_slabs), n * z);
            lemma_move_ok(c.partial_slabs, c.full_slabs, c.free_slabs, 0, taken(s), n, z, al);
            let (p2, f2) = move_to(c.partial_slabs, 0, taken(s), c.full_slabs);
            lemma_spread2_flip(list_buffers(p2), fb, n * z);
            lemma_spread2_flip(list_buffers(f2), fb, n * z);
        } else {
            lemma_list_ok_edit(c.partial_slabs, 0, taken(s), n, z, al);
            lemma_buffers_update(c.partial_slabs, 0, taken(s));
        }
    } else if c.free_slabs.len() > 0 {
        lemma_free_slab_outcome_ok(c);
    }
}

/// Allocating from the top free slab keeps the cache consistent.
proof fn lemma_free_slab_outcome_ok(c: SlabListsState)
    requires
        lists_ok(c),
        c.free_slabs.len() > 0,
    ensures
        lists_ok(free_slab_outcome(c).1),
{
    let n = c.obj_count as int;
    let z = c.layout.size as int;
    let al = c.layout.align as int;
    let s = c.free_slabs[0];
    if s.free.len() > 0 {
        assert(list_slab_ok(s, n, z, al));
        lemma_taken_ok(s, n, z, al);
        lemma_move_ok(c.free_slabs, c.partial_slabs, c.full_slabs, 0, taken(s), n, z, al);
        let f2 = c.free_slabs.remove(0);
        assert forall|i: int| 0 <= i < f2.len() implies (#[trigger] f2[i]).free.len() == c.obj_count by {
            assert(f2[i] == c.free_slabs[i + 1]);
        }
    }
}

/// `free` keeps the cache consistent.
proof fn lemma_free_outcome_ok(c: SlabListsState, p: usize)
    requires
        lists_ok(c),
    ensures
        lists_ok(free_outcome(c, p).1),
{
    let n = c.obj_count as int;
    let z = c.layout.size as int;
    let al = c.layout.align as int;
    let fb = list_buffers(c.free_slabs);
    let pb = list_buffers(c.partial_slabs);
    let ub = list_buffers(c.full_slabs);
    let k = first_in_range(c.partial_slabs, n, z, p as int, 0);
    let k2 = first_in_range(c.full_slabs, n, z, p as int, 0);
    lemma_first_in_range(c.partial_slabs, n, z, p as int, 0);
    lemma_first_in_range(c.full_slabs, n, z, p as int, 0);
    if (p as int) % al == 0 {
        if k < c.partial_slabs.len() {
            let s = c.partial_slabs[k];
            if !s.free.contains(p) {
                assert(list_slab_ok(s, n, z, al));
                lemma_given_ok(s, n, z, al, p);
                if s.free.len() + 1 == n {
                    lemma_spread2_flip(fb, pb, n * z);
                    lemma_move_ok(c.partial_slabs, c.free_slabs, c.full_slabs, k, given(s, p), n, z, al);
                    let (p2, f2) = move_to(c.partial_slabs, k, given(s, p), c.free_slabs);
                    lemma_spread2_flip(list_buffers(p2), list_buffers(f2), n * z);
                    assert forall|i: int| 0 <= i < f2.len() implies (#[trigger] f2[i]).free.len()
                        == c.obj_count by {
                        if i > 0 {
                            assert(f2[i] == c.free_slabs[i - 1]);
                        }
                    }
                } else {
                    lemma_list_ok_edit(c.partial_slabs, k, given(s, p), n, z, al);
                    lemma_buffers_update(c.partial_slabs, k, given(s, p));
                }
            }
        } else if k2 < c.full_slabs.len() {
            let s = c.full_slabs[k2];
            if !s.free.contains(p) {
                assert(list_slab_ok(s, n, z, al));
                lemma_given_ok(s, n, z, al, p);
                lemma_spread2_flip(pb, ub, n * z);
                lemma_spread2_flip(fb, ub, n * z);
                lemma_spread2_flip(fb, pb, n * z);
                lemma_move_ok(c.full_slabs, c.partial_slabs, c.free_slabs, k2, given(s, p), n, z, al);
                let (u2, p2) = move_to(c.full_slabs, k2, given(s, p), c.partial_slabs);
                lemma_spread2_flip(list_buffers(u2), list_buffers(p2), n * z);
                lemma_spread2_flip(list_buffers(u2), fb, n * z);
                lemma_spread2_flip(list_buffers(p2), fb, n * z);
            }
        }
    }
}

/// A region at `b` apart from every region of `l` and of `o` can join `l`.
proof fn lemma_push_apart(l: Seq<usize>, o: Seq<usize>, b: usize, len: int)
    requires
        spread(l, len),
        spread2(l, o, len),
        forall|i: int| 0 <= i < l.len() ==> apart(#[trigger] l[i], b, len),
        forall|j: int| 0 <= j < o.len() ==> apart(#[trigger] o[j], b, len),
    ensures
        spread(seq![b] + l, len),
        spread2(seq![b] + l, o, len),
{
    let l2 = seq![b] + l;
    assert forall|i: int, j: int| 0 <= i < l2.len() && 0 <= j < l2.len() && i != j implies apart(
        l2[i],
        l2[j],
        len,
    ) by {
        if i == 0 {
            assert(apart(l[j - 1], b, len));
        } else if j == 0 {
            assert(apart(l[i - 1], b, len));
        } else {
            assert(apart(l[i - 1], l[j - 1], len));
        }
    }
    assert forall|i: int, j: int| 0 <= i < l2.len() && 0 <= j < o.len() implies apart(
        l2[i],
        o[j],
        len,
    ) by {
        if i == 0 {
            assert(apart(o[j], b, len));
        } else {
            assert(apart(l[i - 1], o[j], len));
        }
    }
}

/// The objects of a slab start past its record, aligned.
pub(crate) proof fn lemma_objects_start(pages: int, al: int)
    requires
        al > 0,
    ensures
        objects_start(pages, al) % al == 0,
        pages + LIST_SLAB_NODE_SIZE <= objects_start(pages, al) < pages + LIST_SLAB_NODE_SIZE + al,
{
    let after = pages + LIST_SLAB_NODE_SIZE;
    lemma_fundamental_div_mod(after, al);
    if after % al != 0 {
        lemma_mul_is_commutative(al, after / al);
        vstd::arithmetic::mul::lemma_mul_is_distributive_add(al, after / al, 1);
        vstd::arithmetic::div_mod::lemma_mod_multiples_basic(after / al + 1, al);
        lemma_mul_is_commutative(al, after / al + 1);
    }
}

/// An object of a slab whose first object and size are aligned is aligned.
proof fn lemma_object_aligned(b: int, i: int, z: int, al: int)
    requires
        al > 0,
        b % al == 0,
        z % al == 0,
        i >= 0,
    ensures
        (b + i * z) % al == 0,
{
    lemma_fundamental_div_mod(b, al);
    lemma_fundamental_div_mod(z, al);
    let m = b / al + i * (z / al);
    assert(b + i * z == m * al) by (nonlinear_arith)
        requires
            b == al * (b / al),
            z == al * (z / al),
            m == b / al + i * (z / al),
    ;
    vstd::arithmetic::div_mod::lemma_mod_multiples_basic(m, al);
}

/// Adding a slab on fresh pages keeps the cache consistent.
pub(crate) proof fn lemma_grow_ok(c: SlabListsState, pages: int)
    requires
        lists_ok(c),
        0 <= pages,
        fresh_slab_pages(c, pages),
    ensures
        lists_ok(grown(c, pages)),
{
    let n = c.obj_count as int;
    let z = c.layout.size as int;
    let al = c.layout.align as int;
    let b = objects_start(pages, al);
    let x = new_list_slab(c, pages);
    let numer = c.pages_per_slab * 4096 - (b - pages);
    lemma_objects_start(pages, al);
    lemma_fundamental_div_mod(numer, z);
    lemma_mul_is_commutative(z, n);
    vstd::arithmetic::mul::lemma_mul_nonnegative(n, z);
    assert(b + n * z <= usize::MAX);
    assert(x.buffer == b);
    assert forall|j: int| 0 <= j < x.free.len() implies in_range(x, n, z, #[trigger] x.free[j] as int) && (
    x.free[j] as int) % al == 0 by {
        lemma_mul_strict_inequality(j, n, z);
        vstd::arithmetic::mul::lemma_mul_nonnegative(j, z);
        lemma_object_aligned(b, j, z, al);
        assert(x.free[j] == (b + j * z) as usize);
    }
    assert(x.free.no_duplicates()) by {
        assert forall|i: int, j: int| 0 <= i < x.free.len() && 0 <= j < x.free.len() && i != j implies x.free[i]
            != x.free[j] by {
            lemma_mul_strict_inequality(i, n, z);
            lemma_mul_strict_inequality(j, n, z);
            vstd::arithmetic::mul::lemma_mul_nonnegative(i, z);
            vstd::arithmetic::mul::lemma_mul_nonnegative(j, z);
            if i < j {
                lemma_mul_strict_inequality(i, j, z);
            } else {
                lemma_mul_strict_inequality(j, i, z);
            }
        }
    }
    assert(list_slab_ok(x, n, z, al));
    lemma_list_ok_edit(c.free_slabs, 0, x, n, z, al);
    lemma_buffers_push(c.free_slabs, x);
    let fb = list_buffers(c.free_slabs);
    assert forall|i: int| 0 <= i < fb.len() implies apart(#[trigger] fb[i], x.buffer, n * z) by {
        assert(fb[i] == c.free_slabs[i].buffer);
    }
    assert forall|j: int| 0 <= j < list_buffers(c.partial_slabs).len() implies apart(
        #[trigger] list_buffers(c.partial_slabs)[j],
        x.buffer,
        n * z,
    ) by {
        assert(list_buffers(c.partial_slabs)[j] == c.partial_slabs[j].buffer);
    }
    assert forall|j: int| 0 <= j < list_buffers(c.full_slabs).len() implies apart(
        #[trigger] list_buffers(c.full_slabs)[j],
        x.buffer,
        n * z,
    ) by {
        assert(list_buffers(c.full_slabs)[j] == c.full_slabs[j].buffer);
    }
    lemma_push_apart(fb, list_buffers(c.partial_slabs), x.buffer, n * z);
    lemma_push_apart(fb, list_buffers(c.full_slabs), x.buffer, n * z);
    let f2 = seq![x] + c.free_slabs;
    assert forall|i: int| 0 <= i < f2.len() implies (#[trigger] f2[i]).free.len() == c.obj_count by {
        if i > 0 {
            assert(f2[i] == c.free_slabs[i - 1]);
        }
    }
}

/// The core structure of a slab
pub struct ListSlab {
    /// Address of the slab's first object
    buffer: usize,
    /// List of objects that are free in this slab
    free_objs: Vec<usize>,
}

impl View for ListSlab {
    type V = ListSlabState;

    closed spec fn view(&self) -> ListSlabState {
        ListSlabState { buffer: self.buffer, free: self.free_objs@ }
    }
}

/// What each slab of `v` holds.
pub open spec fn list_states(v: Seq<ListSlab>) -> Seq<ListSlabState> {
    v.map_values(|s: ListSlab| s@)
}

impl ListSlab {
    /// Check if the given pointer belongs to this slab
    fn is_in_range(&self, ptr: usize, obj_count: usize, obj_padded_size: usize) -> (r: bool)
        requires
            self@.buffer + obj_count * obj_padded_size <= usize::MAX,
        ensures
            r == in_range(self@, obj_count as int, obj_padded_size as int, ptr as int),
    {
        self.buffer <= ptr && ptr < self.buffer + obj_count * obj_padded_size
    }

    /// Constructs a new slab with the given parameters
    fn new(buffer: usize, obj_count: usize, obj_padded_size: usize) -> (r: Self)
        requires
            buffer + obj_count * obj_padded_size <= usize::MAX,
        ensures
            r@ == (ListSlabState {
                buffer,
                free: Seq::new(
                    obj_count as nat,
                    |i: int| (buffer + i * obj_padded_size) as usize,
                ),
            }),
    {
        let mut free_objs: Vec<usize> = Vec::new();
        let mut i: usize = 0;
        while i < obj_count
            invariant
                i <= obj_count,
                buffer + obj_count * obj_padded_size <= usize::MAX,
                free_objs@ == Seq::new(i as nat, |k: int| (buffer + k * obj_padded_size) as usize),
            decreases obj_count - i,
        {
            proof {
                lemma_mul_inequality(i as int, obj_count as int, obj_padded_size as int);
            }
            free_objs.push(buffer + i * obj_padded_size);
            i = i + 1;
            assert(free_objs@ =~= Seq::new(
                i as nat,
                |k: int| (buffer + k * obj_padded_size) as usize,
            ));
        }
        ListSlab { buffer, free_objs }
    }

    /// Allocates an object from the slab
    fn allocate(&mut self) -> (r: Result<usize, SlabError>)
        ensures
            old(self)@.free.len() == 0 ==> r == Err::<usize, SlabError>(
                SlabError::SlabFullInternalError,
            ) && final(self)@ == old(self)@,
            old(self)@.free.len() > 0 ==> r == Ok::<usize, SlabError>(old(self)@.free.last())
                && final(self)@ == taken(old(self)@),
    {
        match self.free_objs.pop() {
            Some(node) => Ok(node),
            None => Err(SlabError::SlabFullInternalError),
        }
    }

    /// Frees an object from the slab
    fn free(&mut self, obj_ptr: usize) -> (r: Result<(), SlabError>)
        ensures
            old(self)@.free.contains(obj_ptr) ==> r == Err::<(), SlabError>(SlabError::DoubleFree)
                && final(self)@ == old(self)@,
            !old(self)@.free.contains(obj_ptr) ==> r == Ok::<(), SlabError>(()) && final(self)@
                == given(old(self)@, obj_ptr),
    {
        let mut j: usize = 0;
        while j < self.free_objs.len()
            invariant
                j <= self.free_objs@.len(),
                self@ == old(self)@,
                forall|k: int| 0 <= k < j ==> self.free_objs@[k] != obj_ptr,
            decreases self.free_objs@.len() - j,
        {
            if self.free_objs[j] == obj_ptr {
                return Err(SlabError::DoubleFree);
            }
            j = j + 1;
        }
        self.free_objs.push(obj_ptr);
        Ok(())
    }
}

/// What a list of slabs holds after one is taken out, put back in its
/// place changed, or pushed on top.
proof fn lemma_states_edit(v: Seq<ListSlab>, k: int, x: ListSlab)
    requires
        0 <= k < v.len(),
    ensures
        list_states(v)[k] == v[k]@,
        list_states(v.remove(k)) == list_states(v).remove(k),
        list_states(v.remove(k).insert(k, x)) == list_states(v).update(k, x@),
        list_states(v.remove(k).insert(k, v[k])) == list_states(v),
{
    assert(list_states(v.remove(k)) =~= list_states(v).remove(k));
    assert(list_states(v.remove(k).insert(k, x)) =~= list_states(v).update(k, x@));
    assert(list_states(v.remove(k).insert(k, v[k])) =~= list_states(v));
}

/// What a list of slabs holds after one is pushed on top.
proof fn lemma_states_push(v: Seq<ListSlab>, x: ListSlab)
    ensures
        list_states(v.insert(0, x)) == seq![x@] + list_states(v),
{
    assert(list_states(v.insert(0, x)) =~= seq![x@] + list_states(v));
}

/// A slab allocator that allocates objects of a fixed layout.
pub struct InternalSlabAllocator {
    /// A list of slabs that are completely free
    free_slabs: Vec<ListSlab>,
    /// A list of slabs that have at least one free object
    partial_slabs: Vec<ListSlab>,
    /// A list of slabs that are completely full
    full_slabs: Vec<ListSlab>,
    /// The amount of pages each slab will have
    pages_per_slab: usize,
    /// The layout of the objects that will be allocated
    obj_layout: ObjectLayout,
    /// The amount of objects that will be allocated in each slab
    obj_count: usize,
}

impl View for InternalSlabAllocator {
    type V = SlabListsState;

    closed spec fn view(&self) -> SlabListsState {
        SlabListsState {
            layout: self.obj_layout,
            pages_per_slab: self.pages_per_slab,
            obj_count: self.obj_count,
            free_slabs: list_states(self.free_slabs@),
            partial_slabs: list_states(self.partial_slabs@),
            full_slabs: list_states(self.full_slabs@),
        }
    }
}

impl InternalSlabAllocator {
    /// Whether no slab of `l` has objects within `len` bytes of `b`.
    fn list_apart(l: &Vec<ListSlab>, b: usize, len: u128) -> (r: bool)
        requires
            len + usize::MAX <= u128::MAX,
        ensures
            r == forall|i: int| 0 <= i < l@.len() ==> apart(#[trigger] list_states(l@)[i].buffer, b, len as int),
    {
        let mut i: usize = 0;
        while i < l.len()
            invariant
                len + usize::MAX <= u128::MAX,
                i <= l@.len(),
                forall|k: int| 0 <= k < i ==> apart(#[trigger] list_states(l@)[k].buffer, b, len as int),
            decreases l@.len() - i,
        {
            let x = l[i].buffer;
            assert(list_states(l@)[i as int].buffer == x);
            if !(x as u128 + len <= b as u128 || b as u128 + len <= x as u128) {
                assert(!apart(list_states(l@)[i as int].buffer, b, len as int));
                return false;
            }
            i = i + 1;
        }
        true
    }

    /// Whether the pages at `pages` can back a new slab of this cache: page
    /// aligned, in the address space, holding as many objects as the cache
    /// counts after the slab's record, and apart from every slab's objects.
    /// It is the test `cache_grow` and `grow_and_allocate` ask of their
    /// pages.
    pub fn slab_pages_fresh(&self, pages: usize) -> (r: bool)
        requires
            lists_ok(self@),
        ensures
            r == fresh_slab_pages(self@, pages as int),
    {
        let ghost c = self@;
        let span = self.pages_per_slab as u128 * 4096;
        if pages % 4096 != 0 || pages as u128 + span > usize::MAX as u128 {
            return false;
        }
        let align = self.obj_layout.align as u128;
        let after = pages as u128 + LIST_SLAB_NODE_SIZE as u128;
        let rem = after % align;
        let b = if rem == 0 {
            after
        } else {
            after + (align - rem)
        };
        assert(b == objects_start(pages as int, c.layout.align as int));
        let record = b - pages as u128;
        if record > span {
            proof {
                let numer = c.pages_per_slab * 4096 - (b - pages);
                let z = c.layout.size as int;
                lemma_fundamental_div_mod(numer, z);
                let q = numer / z;
                assert(q < 0) by (nonlinear_arith)
                    requires
                        numer == z * q + numer % z,
                        0 <= numer % z < z,
                        numer < 0,
                ;
            }
            return false;
        }
        if (span - record) / (self.obj_layout.size as u128) != self.obj_count as u128 {
            return false;
        }
        proof {
            lemma_fundamental_div_mod((span - record) as int, c.layout.size as int);
            vstd::arithmetic::mul::lemma_mul_nonnegative(c.obj_count as int, c.layout.size as int);
            lemma_mul_is_commutative(c.layout.size as int, c.obj_count as int);
        }
        assert(b <= usize::MAX);
        let bu = b as usize;
        proof {
            crate::levels::lemma_half_space();
            let n = self.obj_count as int;
            let z = self.obj_layout.size as int;
            assert(n * z <= 0xffff_ffff_ffff_ffff * 0xffff_ffff_ffff_ffff) by (nonlinear_arith)
                requires
                    0 <= n <= 0xffff_ffff_ffff_ffff,
                    0 <= z <= 0xffff_ffff_ffff_ffff,
            ;
        }
        let len = self.obj_count as u128 * self.obj_layout.size as u128;
        Self::list_apart(&self.free_slabs, bu, len) && Self::list_apart(&self.partial_slabs, bu, len)
            && Self::list_apart(&self.full_slabs, bu, len)
    }

    /// Whether a slab of `pages` pages holds an object of `size` bytes and
    /// wastes at most an eighth of its space.
    fn wastes_little(size: usize, pages: usize) -> (r: bool)
        requires
            size >= 1,
        ensures
            r == low_waste(size as int, pages as int),
    {
        let total: u128 = pages as u128 * 4096;
        total >= size as u128 && total % (size as u128) <= pages as u128 * 512
    }

    /// Calculates the amount of pages needed to fit at least one object of
    /// the given size, with internal fragmentation of at most an eighth: the
    /// fewest such pages.
    pub fn calc_pages_per_slab(size: usize) -> (r: usize)
        requires
            1 <= size <= isize::MAX,
        ensures
            r == pages_per_slab_for(size as int),
            r >= 1,
            low_waste(size as int, r as int),
            forall|q: int| 1 <= q < r ==> !low_waste(size as int, q),
    {
        // Enough pages that the waste, under one object, is at most an eighth
        let cap = (size + 511) / 512;
        let mut pages: usize = 1;
        while pages < cap && !Self::wastes_little(size, pages)
            invariant
                1 <= size <= isize::MAX,
                cap == (size + 511) / 512,
                1 <= pages,
                pages <= cap || pages == 1,
                least_pages_from(size as int, 1) == least_pages_from(size as int, pages as int),
                forall|q: int| 1 <= q < pages ==> !low_waste(size as int, q),
            decreases cap - pages,
        {
            pages = pages + 1;
        }
        proof {
            if pages >= cap {
                lemma_cap_wastes_little(size as int, pages as int);
            }
        }
        pages
    }

    /// Calculates the amount of objects of `obj_size` bytes that fit in a
    /// slab of `pages_per_slab` pages, after the slab's record.
    fn calc_obj_count(pages_per_slab: usize, obj_size: usize) -> (r: usize)
        requires
            pages_per_slab >= 1,
            pages_per_slab * 4096 <= usize::MAX,
            obj_size >= 1,
        ensures
            r == obj_count_for(pages_per_slab as int, obj_size as int),
    {
        (pages_per_slab * BASIC_PAGE_SIZE - LIST_SLAB_NODE_SIZE) / obj_size
    }

    /// Creates a new slab allocator with the given object layout, padded to
    /// its alignment. The padded size must hold a free-list node, and the
    /// size of a slab must be a multiple of the alignment.
    pub fn new(layout: ObjectLayout) -> (r: Self)
        requires
            layout_ok(layout),
            padded_size(layout) >= OBJECT_NODE_SIZE,
            (4096 * pages_per_slab_for(padded_size(layout))) % (layout.align as int) == 0,
            pages_per_slab_for(padded_size(layout)) * 4096 <= usize::MAX,
        ensures
            r@ == new_lists_state(layout),
            lists_ok(r@),
    {
        // Get the actual spacing between objects
        let size = align_up(layout.size, layout.align);
        proof {
            let n = choose|n: nat| n < usize::BITS && pow2(n) == layout.align;
            lemma_pow2_pos(n);
            lemma_padded_size(layout, size as int);
        }
        let obj_layout = ObjectLayout { size, align: layout.align };
        let pages_per_slab = Self::calc_pages_per_slab(size);
        let obj_count = Self::calc_obj_count(pages_per_slab, size);
        let r = InternalSlabAllocator {
            free_slabs: Vec::new(),
            partial_slabs: Vec::new(),
            full_slabs: Vec::new(),
            pages_per_slab,
            obj_layout,
            obj_count,
        };
        proof {
            assert(list_states(r.free_slabs@) =~= Seq::empty());
            assert(list_states(r.partial_slabs@) =~= Seq::empty());
            assert(list_states(r.full_slabs@) =~= Seq::empty());
            lemma_mul_is_commutative(pages_per_slab as int, 4096);
        }
        r
    }

    /// The layout of the objects, padded to their alignment
    pub fn obj_layout(&self) -> (r: ObjectLayout)
        ensures
            r == self@.layout,
    {
        self.obj_layout
    }

    /// The amount of pages each slab has
    pub fn pages_per_slab(&self) -> (r: usize)
        ensures
            r == self@.pages_per_slab,
    {
        self.pages_per_slab
    }

    /// The amount of objects each slab holds
    pub fn obj_count(&self) -> (r: usize)
        ensures
            r == self@.obj_count,
    {
        self.obj_count
    }

    /// Allocates an object: from the top partial slab while it has a free
    /// object, else from the top free slab. With neither, the caller must
    /// get the pages of a new slab and call `grow_and_allocate`.
    pub fn allocate(&mut self) -> (r: Result<AllocateStep, SlabError>)
        requires
            lists_ok(old(self)@),
        ensures
            (r, final(self)@) == allocate_outcome(old(self)@),
            lists_ok(final(self)@),
    {
        proof {
            lemma_allocate_outcome_ok(self@);
        }
        // First, try allocating from the partial slabs
        if self.partial_slabs.len() > 0 && self.partial_slabs[0].free_objs.len() > 0 {
            let ghost pv = self.partial_slabs@;
            let ghost uv = self.full_slabs@;
            let mut slab = self.partial_slabs.remove(0);
            let r = slab.allocate();
            proof {
                lemma_states_edit(pv, 0, slab);
                lemma_states_push(uv, slab);
            }
            // If the allocation left the slab without a free object, move it
            // to the full slabs
            if slab.free_objs.len() == 0 {
                self.full_slabs.insert(0, slab);
            } else {
                self.partial_slabs.insert(0, slab);
            }
            assert(self@ =~= allocate_outcome(old(self)@).1);
            return match r {
                Ok(p) => Ok(AllocateStep::Allocated(p)),
                Err(e) => Err(e),
            };
        }
        // If also the free slabs are all empty, the cache must grow
        if self.free_slabs.len() == 0 {
            return Ok(AllocateStep::NeedsGrow);
        }
        match self.allocate_from_free_slab() {
            Ok(p) => Ok(AllocateStep::Allocated(p)),
            Err(e) => Err(e),
        }
    }

    /// Allocates from the top free slab, which then goes to the partial slabs.
    fn allocate_from_free_slab(&mut self) -> (r: Result<usize, SlabError>)
        requires
            lists_ok(old(self)@),
            old(self)@.free_slabs.len() > 0,
        ensures
            (r, final(self)@) == free_slab_outcome(old(self)@),
            lists_ok(final(self)@),
    {
        proof {
            lemma_free_slab_outcome_ok(self@);
        }
        let ghost fv = self.free_slabs@;
        let ghost pv = self.partial_slabs@;
        let mut slab = self.free_slabs.remove(0);
        let r = slab.allocate();
        proof {
            lemma_states_edit(fv, 0, slab);
            lemma_states_push(pv, slab);
        }
        match r {
            Ok(p) => {
                self.partial_slabs.insert(0, slab);
                assert(self@ =~= free_slab_outcome(old(self)@).1);
                Ok(p)
            },
            Err(e) => {
                self.free_slabs.insert(0, slab);
                assert(self@ =~= old(self)@);
                Err(e)
            },
        }
    }

    /// Grows the cache by a slab on the pages the paging layer gave for it,
    /// `pages_per_slab` of them, pushed on top of the free slabs; fails when
    /// the paging layer gave none. The slab's record takes the start of its
    /// pages; its objects follow, aligned.
    pub fn cache_grow(&mut self, pages: Result<usize, PagingError>) -> (r: Result<(), SlabError>)
        requires
            lists_ok(old(self)@),
            pages matches Ok(p) ==> fresh_slab_pages(old(self)@, p as int),
        ensures
            pages matches Ok(p) ==> (r is Ok && final(self)@ == grown(old(self)@, p as int)),
            pages is Err ==> (r == Err::<(), SlabError>(SlabError::PageAllocationError)
                && final(self)@ == old(self)@),
            lists_ok(final(self)@),
    {
        let ptr = match pages {
            Ok(p) => p,
            Err(_) => {
                return Err(SlabError::PageAllocationError);
            },
        };
        proof {
            lemma_grow_ok(self@, ptr as int);
            lemma_objects_start(ptr as int, self@.layout.align as int);
            let c = self@;
            let b = objects_start(ptr as int, c.layout.align as int);
            let numer = c.pages_per_slab * 4096 - (b - ptr);
            lemma_fundamental_div_mod(numer, c.layout.size as int);
            lemma_mul_is_commutative(c.layout.size as int, c.obj_count as int);
            vstd::arithmetic::mul::lemma_mul_nonnegative(c.obj_count as int, c.layout.size as int);
            assert(b <= ptr + c.pages_per_slab * 4096);
        }
        let after = ptr + LIST_SLAB_NODE_SIZE;
        let rem = after % self.obj_layout.align;
        let objs = if rem == 0 {
            after
        } else {
            after + (self.obj_layout.align - rem)
        };
        let slab = ListSlab::new(objs, self.obj_count, self.obj_layout.size);
        let ghost fv = self.free_slabs@;
        self.free_slabs.insert(0, slab);
        proof {
            lemma_states_push(fv, slab);
            assert(slab@ =~= new_list_slab(old(self)@, ptr as int));
            assert(self@ =~= grown(old(self)@, ptr as int));
        }
        Ok(())
    }

    /// Grows the cache with a slab on the pages the paging layer gave for
    /// it, as `cache_grow` does, and allocates from the new slab.
    pub fn grow_and_allocate(&mut self, pages: Result<usize, PagingError>) -> (r: Result<
        usize,
        SlabError,
    >)
        requires
            lists_ok(old(self)@),
            pages matches Ok(p) ==> fresh_slab_pages(old(self)@, p as int),
        ensures
            (r, final(self)@) == grow_outcome(old(self)@, pages),
            lists_ok(final(self)@),
    {
        match self.cache_grow(pages) {
            Ok(()) => self.allocate_from_free_slab(),
            Err(e) => Err(e),
        }
    }

    /// The number of slabs with every object free
    pub fn free_slab_count(&self) -> (r: usize)
        ensures
            r == self@.free_slabs.len(),
    {
        proof {
            assert(list_states(self.free_slabs@).len() == self.free_slabs@.len());
        }
        self.free_slabs.len()
    }

    /// The number of slabs with some objects free
    pub fn partial_slab_count(&self) -> (r: usize)
        ensures
            r == self@.partial_slabs.len(),
    {
        self.partial_slabs.len()
    }

    /// The number of slabs with no object free
    pub fn full_slab_count(&self) -> (r: usize)
        ensures
            r == self@.full_slabs.len(),
    {
        self.full_slabs.len()
    }

    /// Frees the object at `ptr`: the first partial slab whose objects hold
    /// it takes it back, and goes to the free slabs once all of its objects
    /// are free; failing one, the first full slab that holds it takes it
    /// back and goes to the partial slabs.
    pub fn free(&mut self, ptr: usize) -> (r: Result<(), SlabError>)
        requires
            lists_ok(old(self)@),
        ensures
            (r, final(self)@) == free_outcome(old(self)@, ptr),
            lists_ok(final(self)@),
    {
        proof {
            lemma_free_outcome_ok(self@, ptr);
        }
        let ghost c = self@;
        let ghost n = c.obj_count as int;
        let ghost z = c.layout.size as int;
        // Make sure `ptr` alignment is correct
        if ptr % self.obj_layout.align != 0 {
            return Err(SlabError::BadPtrAlignment);
        }
        proof {
            lemma_first_in_range(c.partial_slabs, n, z, ptr as int, 0);
            lemma_first_in_range(c.full_slabs, n, z, ptr as int, 0);
        }
        // Check the partial slabs
        let mut i: usize = 0;
        while i < self.partial_slabs.len()
            invariant
                self@ == c,
                c == old(self)@,
                lists_ok(c),
                lists_ok(free_outcome(c, ptr).1),
                n == c.obj_count,
                z == c.layout.size,
                i <= self.partial_slabs@.len(),
                (ptr as int) % (c.layout.align as int) == 0,
                forall|k: int| 0 <= k < i ==> !in_range(c.partial_slabs[k], n, z, ptr as int),
                first_in_range(c.partial_slabs, n, z, ptr as int, 0) <= c.partial_slabs.len(),
                first_in_range(c.partial_slabs, n, z, ptr as int, 0) < c.partial_slabs.len()
                    ==> in_range(
                    c.partial_slabs[first_in_range(c.partial_slabs, n, z, ptr as int, 0)],
                    n,
                    z,
                    ptr as int,
                ),
                forall|k: int|
                    0 <= k < first_in_range(c.partial_slabs, n, z, ptr as int, 0) ==> !in_range(
                        c.partial_slabs[k],
                        n,
                        z,
                        ptr as int,
                    ),
            decreases self.partial_slabs@.len() - i,
        {
            proof {
                lemma_states_edit(self.partial_slabs@, i as int, self.partial_slabs@[i as int]);
                assert(list_slab_ok(c.partial_slabs[i as int], n, z, c.layout.align as int));
            }
            if self.partial_slabs[i].is_in_range(ptr, self.obj_count, self.obj_layout.size) {
                proof {
                    lemma_first_in_range_at(c.partial_slabs, n, z, ptr as int, i as int);
                }
                let ghost pv = self.partial_slabs@;
                let ghost fv = self.free_slabs@;
                let mut slab = self.partial_slabs.remove(i);
                let r = slab.free(ptr);
                proof {
                    lemma_states_edit(pv, i as int, slab);
                    lemma_states_push(fv, slab);
                }
                if r.is_err() {
                    self.partial_slabs.insert(i, slab);
                    assert(list_states(self.partial_slabs@) =~= list_states(pv));
                    assert(self@ =~= old(self)@);
                    return r;
                }
                // If the slab is now completely free, move it to the free slabs
                if slab.free_objs.len() == self.obj_count {
                    self.free_slabs.insert(0, slab);
                } else {
                    self.partial_slabs.insert(i, slab);
                }
                assert(self@ =~= free_outcome(old(self)@, ptr).1);
                return r;
            }
            i = i + 1;
        }
        proof {
            let f = first_in_range(c.partial_slabs, n, z, ptr as int, 0);
            if f < c.partial_slabs.len() {
                assert(!in_range(c.partial_slabs[f], n, z, ptr as int));
            }
        }
        // Check if the slab to whom `ptr` belongs is in the full slabs list
        let mut i: usize = 0;
        while i < self.full_slabs.len()
            invariant
                self@ == c,
                c == old(self)@,
                lists_ok(c),
                lists_ok(free_outcome(c, ptr).1),
                n == c.obj_count,
                z == c.layout.size,
                i <= self.full_slabs@.len(),
                (ptr as int) % (c.layout.align as int) == 0,
                first_in_range(c.partial_slabs, n, z, ptr as int, 0) == c.partial_slabs.len(),
                forall|k: int| 0 <= k < i ==> !in_range(c.full_slabs[k], n, z, ptr as int),
                first_in_range(c.full_slabs, n, z, ptr as int, 0) <= c.full_slabs.len(),
                first_in_range(c.full_slabs, n, z, ptr as int, 0) < c.full_slabs.len() ==> in_range(
                    c.full_slabs[first_in_range(c.full_slabs, n, z, ptr as int, 0)],
                    n,
                    z,
                    ptr as int,
                ),
                forall|k: int|
                    0 <= k < first_in_range(c.full_slabs, n, z, ptr as int, 0) ==> !in_range(
                        c.full_slabs[k],
                        n,
                        z,
                        ptr as int,
                    ),
            decreases self.full_slabs@.len() - i,
        {
            proof {
                lemma_states_edit(self.full_slabs@, i as int, self.full_slabs@[i as int]);
                assert(list_slab_ok(c.full_slabs[i as int], n, z, c.layout.align as int));
            }
            if self.full_slabs[i].is_in_range(ptr, self.obj_count, self.obj_layout.size) {
                proof {
                    lemma_first_in_range_at(c.full_slabs, n, z, ptr as int, i as int);
                }
                let ghost uv = self.full_slabs@;
                let ghost pv = self.partial_slabs@;
                let mut slab = self.full_slabs.remove(i);
                let r = slab.free(ptr);
                proof {
                    lemma_states_edit(uv, i as int, slab);
                    lemma_states_push(pv, slab);
                }
                if r.is_err() {
                    self.full_slabs.insert(i, slab);
                    assert(list_states(self.full_slabs@) =~= list_states(uv));
                    assert(self@ =~= old(self)@);
                    return r;
                }
                // Slab is no longer full, so move it to the partial slabs
                self.partial_slabs.insert(0, slab);
                assert(self@ =~= free_outcome(old(self)@, ptr).1);
                return r;
            }
            i = i + 1;
        }
        proof {
            let f = first_in_range(c.full_slabs, n, z, ptr as int, 0);
            if f < c.full_slabs.len() {
                assert(!in_range(c.full_slabs[f], n, z, ptr as int));
            }
        }
        // Pointer is not in any of the slabs
        Err(SlabError::BadPtrRange)
    }

    /// Reaps all the slabs that are free: hands back the address of the
    /// first page of each, top first; the caller frees `pages_per_slab`
    /// pages at each.
    pub fn reap(&mut self) -> (r: Vec<usize>)
        requires
            lists_ok(old(self)@),
        ensures
            r@ == slab_pages(old(self)@.free_slabs),
            final(self)@ == (SlabListsState { free_slabs: Seq::empty(), ..old(self)@ }),
            lists_ok(final(self)@),
    {
        let mut r: Vec<usize> = Vec::new();
        let mut i: usize = 0;
        while i < self.free_slabs.len()
            invariant
                self@ == old(self)@,
                i <= self.free_slabs@.len(),
                r@ == slab_pages(old(self)@.free_slabs).take(i as int),
            decreases self.free_slabs@.len() - i,
        {
            proof {
                lemma_states_edit(self.free_slabs@, i as int, self.free_slabs@[i as int]);
            }
            let b = self.free_slabs[i].buffer;
            r.push(b - b % BASIC_PAGE_SIZE);
            i = i + 1;
            assert(r@ =~= slab_pages(old(self)@.free_slabs).take(i as int));
        }
        self.free_slabs = Vec::new();
        proof {
            assert(r@ =~= slab_pages(old(self)@.free_slabs));
            assert(list_states(self.free_slabs@) =~= Seq::empty());
            assert(self@ =~= (SlabListsState { free_slabs: Seq::empty(), ..old(self)@ }));
        }
        r
    }

    /// What dropping the allocator does: while a partial or a full slab is
    /// left, it refuses (`None`) and nothing changes; otherwise it reaps the
    /// free slabs and hands back their pages, as `reap` does.
    pub fn release(&mut self) -> (r: Option<Vec<usize>>)
        requires
            lists_ok(old(self)@),
        ensures
            (old(self)@.partial_slabs.len() > 0 || old(self)@.full_slabs.len() > 0) ==> r is None
                && final(self)@ == old(self)@,
            (old(self)@.partial_slabs.len() == 0 && old(self)@.full_slabs.len() == 0) ==> (r
                matches Some(pages) && pages@ == slab_pages(old(self)@.free_slabs) && final(self)@
                == (SlabListsState { free_slabs: Seq::empty(), ..old(self)@ })),
            lists_ok(final(self)@),
    {
        if self.partial_slabs.len() > 0 || self.full_slabs.len() > 0 {
            return None;
        }
        Some(self.reap())
    }
}

/// The layout of values of `T`.
pub open spec fn type_layout<T>() -> ObjectLayout {
    ObjectLayout {
        size: vstd::layout::size_of::<T>() as usize,
        align: vstd::layout::align_of::<T>() as usize,
    }
}

/// A cache can be made for the layout of `T`: the conditions of
/// `InternalSlabAllocator::new`.
pub open spec fn type_layout_ok<T>() -> bool {
    let layout = type_layout::<T>();
    &&& layout_ok(layout)
    &&& padded_size(layout) >= OBJECT_NODE_SIZE
    &&& (4096 * pages_per_slab_for(padded_size(layout))) % (layout.align as int) == 0
    &&& pages_per_slab_for(padded_size(layout)) * 4096 <= usize::MAX
}

/// A slab allocator for the values of one type
pub struct SlabAllocator<T> where T: SlabAllocatable {
    allocator: InternalSlabAllocator,
    phantom_data: PhantomData<T>,
}

impl<T> View for SlabAllocator<T> where T: SlabAllocatable {
    type V = SlabListsState;

    closed spec fn view(&self) -> SlabListsState {
        self.allocator@
    }
}

impl<T> SlabAllocator<T> where T: SlabAllocatable {
    /// A slab allocator for the values of `T`, without a slab yet
    pub fn new() -> (r: Self)
        requires
            type_layout_ok::<T>(),
        ensures
            r@ == new_lists_state(type_layout::<T>()),
            lists_ok(r@),
    {
        let layout = ObjectLayout {
            size: core::mem::size_of::<T>(),
            align: core::mem::align_of::<T>(),
        };
        SlabAllocator { allocator: InternalSlabAllocator::new(layout), phantom_data: PhantomData }
    }

    /// Allocates a value of `T`, whose layout `layout` must be; the cache
    /// may ask for the pages of a new slab.
    pub fn allocate(&mut self, layout: ObjectLayout) -> (r: Result<AllocateStep, SlabError>)
        requires
            lists_ok(old(self)@),
            layout == type_layout::<T>(),
        ensures
            (r, final(self)@) == allocate_outcome(old(self)@),
            lists_ok(final(self)@),
    {
        self.allocator.allocate()
    }

    /// Grows the cache by a slab on the pages the caller got for it, and
    /// allocates a value of `T` from it.
    pub fn allocate_after_grow(&mut self, pages: Result<usize, PagingError>) -> (r: Result<
        usize,
        SlabError,
    >)
        requires
            lists_ok(old(self)@),
            pages matches Ok(p) ==> fresh_slab_pages(old(self)@, p as int),
        ensures
            (r, final(self)@) == grow_outcome(old(self)@, pages),
            lists_ok(final(self)@),
    {
        self.allocator.grow_and_allocate(pages)
    }

    /// Gives back the value of `T` at `ptr`, whose layout `layout` must be.
    pub fn deallocate(&mut self, ptr: usize, layout: ObjectLayout) -> (r: Result<(), SlabError>)
        requires
            lists_ok(old(self)@),
            layout == type_layout::<T>(),
        ensures
            (r, final(self)@) == free_outcome(old(self)@, ptr),
            lists_ok(final(self)@),
    {
        self.allocator.free(ptr)
    }

    /// The amount of pages each slab has
    pub fn pages_per_slab(&self) -> (r: usize)
        ensures
            r == self@.pages_per_slab,
    {
        self.allocator.pages_per_slab()
    }
}

} // verus!
