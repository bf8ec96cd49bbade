//! Laws of the slab cache that span several of its operations.
use vstd::prelude::*;
use crate::slab::{
    cache_ok, first_holding, first_with_free, holds_ptr, is_allocated, is_free_object, is_slot,
    lemma_first_holding, lemma_first_with_free, lemma_holder_unique, lemma_put_object,
    lemma_slot_index, lemma_take_object, pages_apart, put_object, slab_ok, slot_index,
    take_object, SlabCacheState,
};

verus! {

/// Two distinct objects that a consistent cache has handed out do not
/// overlap: they lie at least an object's size apart.
pub proof fn law_objects_disjoint(c: SlabCacheState, p: int, q: int)
    requires
        cache_ok(c),
        is_allocated(c, p),
        is_allocated(c, q),
        p != q,
    ensures
        p + c.layout.size <= q || q + c.layout.size <= p,
{
    let size = c.layout.size as int;
    let i = choose|i: int|
        0 <= i < c.slabs.len() && #[trigger] is_slot(c.slabs[i], size, p) && !c.slabs[i].free.contains(
            p as usize,
        );
    let j = choose|j: int|
        0 <= j < c.slabs.len() && #[trigger] is_slot(c.slabs[j], size, q) && !c.slabs[j].free.contains(
            q as usize,
        );
    assert(slab_ok(c.slabs[i], c.layout, c.page_count as int));
    assert(slab_ok(c.slabs[j], c.layout, c.page_count as int));
    lemma_slot_index(c.slabs[i], size, p);
    lemma_slot_index(c.slabs[j], size, q);
    if i == j {
        let a = slot_index(c.slabs[i].buffer as int, size, p);
        let b = slot_index(c.slabs[i].buffer as int, size, q);
        if a < b {
            vstd::arithmetic::mul::lemma_mul_inequality(a + 1, b, size);
            vstd::arithmetic::mul::lemma_mul_is_distributive_add(size, a, 1);
            vstd::arithmetic::mul::lemma_mul_is_commutative(a + 1, size);
            vstd::arithmetic::mul::lemma_mul_is_commutative(a, size);
        } else {
            vstd::arithmetic::mul::lemma_mul_inequality(b + 1, a, size);
            vstd::arithmetic::mul::lemma_mul_is_distributive_add(size, b, 1);
            vstd::arithmetic::mul::lemma_mul_is_commutative(b + 1, size);
            vstd::arithmetic::mul::lemma_mul_is_commutative(b, size);
        }
    } else {
        assert(pages_apart(c.slabs[i], c.slabs[j], c.page_count as int));
        let a = slot_index(c.slabs[i].buffer as int, size, p);
        let b = slot_index(c.slabs[j].buffer as int, size, q);
        vstd::arithmetic::mul::lemma_mul_inequality(a + 1, c.slabs[i].capacity as int, size);
        vstd::arithmetic::mul::lemma_mul_inequality(b + 1, c.slabs[j].capacity as int, size);
        vstd::arithmetic::mul::lemma_mul_is_distributive_add(size, a, 1);
        vstd::arithmetic::mul::lemma_mul_is_distributive_add(size, b, 1);
        vstd::arithmetic::mul::lemma_mul_is_commutative(a + 1, size);
        vstd::arithmetic::mul::lemma_mul_is_commutative(a, size);
        vstd::arithmetic::mul::lemma_mul_is_commutative(b + 1, size);
        vstd::arithmetic::mul::lemma_mul_is_commutative(b, size);
    }
}

/// Freeing the object an allocation just handed out is accepted and gives
/// back exactly the cache as it was before the allocation.
pub proof fn law_allocate_then_free(c: SlabCacheState, k: int)
    requires
        cache_ok(c),
        0 <= k < c.slabs.len(),
        c.slabs[k].free.len() > 0,
    ensures
        ({
            let p = c.slabs[k].free.last();
            let c2 = take_object(c, k);
            let size = c.layout.size as int;
            let h = first_holding(c2.slabs, size, p as int, 0);
            &&& p % c2.layout.align == 0
            &&& h == k
            &&& (p - c2.slabs[h].buffer) % size == 0
            &&& !c2.slabs[h].free.contains(p)
            &&& put_object(c2, h, p) == c
        }),
{
    let p = c.slabs[k].free.last();
    let c2 = take_object(c, k);
    let size = c.layout.size as int;
    lemma_take_object(c, k);
    let n = (c.slabs[k].free.len() - 1) as int;
    assert(slab_ok(c.slabs[k], c.layout, c.page_count as int));
    assert(is_slot(c.slabs[k], size, c.slabs[k].free[n] as int));
    assert(is_slot(c2.slabs[k], size, p as int));
    lemma_first_holding(c2.slabs, size, p as int, 0);
    let h = first_holding(c2.slabs, size, p as int, 0);
    if h != k {
        if h < k {
            assert(!holds_ptr(c2.slabs[k], size, p as int)) by {
                assert(holds_ptr(c2.slabs[h], size, p as int));
                lemma_holder_unique(c2, h, k, p as int);
            }
        }
        assert(holds_ptr(c2.slabs[h], size, p as int));
        lemma_holder_unique(c2, h, k, p as int);
    }
    assert(!c2.slabs[k].free.contains(p)) by {
        if c2.slabs[k].free.contains(p) {
            let j = choose|j: int| 0 <= j < c2.slabs[k].free.len() && c2.slabs[k].free[j] == p;
            assert(c.slabs[k].free[j] == c.slabs[k].free[n]);
        }
    }
    let c3 = put_object(c2, k, p);
    assert(c3.slabs[k].free =~= c.slabs[k].free);
    assert(c3.slabs[k] =~= c.slabs[k]);
    assert(c3.slabs =~= c.slabs);
    assert(c3 =~= c);
}

/// An object given back once is reported as a double free the second time:
/// after a successful free, the object is a free object of the cache and no
/// longer allocated.
pub proof fn law_free_twice(c: SlabCacheState, p: usize)
    requires
        cache_ok(c),
        is_allocated(c, p as int),
    ensures
        ({
            let size = c.layout.size as int;
            let k = first_holding(c.slabs, size, p as int, 0);
            let c2 = put_object(c, k, p);
            &&& 0 <= k < c.slabs.len()
            &&& cache_ok(c2)
            &&& is_free_object(c2, p as int)
            &&& !is_allocated(c2, p as int)
        }),
{
    let size = c.layout.size as int;
    let i = choose|i: int|
        0 <= i < c.slabs.len() && #[trigger] is_slot(c.slabs[i], size, p as int)
            && !c.slabs[i].free.contains(p as int as usize);
    lemma_first_holding(c.slabs, size, p as int, 0);
    let k = first_holding(c.slabs, size, p as int, 0);
    assert(holds_ptr(c.slabs[i], size, p as int));
    if k != i {
        if k < c.slabs.len() {
            lemma_holder_unique(c, k, i, p as int);
        }
    }
    lemma_put_object(c, k, p);
}

/// Giving an allocated object back leaves a free object in the cache, so the
/// next allocation is served without growing the cache.
pub proof fn law_free_then_allocate(c: SlabCacheState, p: usize)
    requires
        cache_ok(c),
        is_allocated(c, p as int),
    ensures
        ({
            let size = c.layout.size as int;
            let k = first_holding(c.slabs, size, p as int, 0);
            let c2 = put_object(c, k, p);
            first_with_free(c2.slabs, 0) < c2.slabs.len()
        }),
{
    let size = c.layout.size as int;
    law_free_twice(c, p);
    let k = first_holding(c.slabs, size, p as int, 0);
    let c2 = put_object(c, k, p);
    lemma_first_with_free(c2.slabs, 0);
    assert(c2.slabs[k].free.len() > 0);
}

} // verus!
