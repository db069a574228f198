//! A pool of slices of one length in an arena, handed out filled and taken back for reuse.
use vstd::prelude::*;

use bumpalo::Bump;

verus! {

#[verifier::external_type_specification]
#[verifier::external_body]
pub struct ExBump<const MIN_ALIGN: usize>(Bump<MIN_ALIGN>);

/// A slice of `length` copies of `value`.
pub open spec fn filled<T>(length: nat, value: T) -> Seq<T> {
    Seq::new(length, |_i: int| value)
}

/// `Bump::alloc_slice_fill_copy`: a new slice in the arena of `length` copies of `value`.
#[verifier::external_body]
fn alloc_slice_fill_copy<'a, T: Copy>(arena: &'a Bump, length: usize, value: T) -> (r: &'a mut [T])
    ensures
        r@ == filled(length as nat, value),
{
    arena.alloc_slice_fill_copy(length, value)
}

/// `Bump::alloc_slice_fill_iter`, given the items of a vector: a new slice in the arena
/// holding those items in order.
#[verifier::external_body]
fn alloc_slice_fill_iter<'a, T>(arena: &'a Bump, values: Vec<T>) -> (r: &'a mut [T])
    ensures
        r@ == values@,
{
    arena.alloc_slice_fill_iter(values)
}

/// Slices of one length in an arena; those given back are kept and handed out again,
/// the last given back first, before a new one is made in the arena.
pub struct SlicePool<'a, T> {
    length: usize,
    arena: &'a Bump,
    pool: Vec<&'a mut [T]>,
}

impl<'a, T: Copy> SlicePool<'a, T> {
    /// The length of every slice of the pool.
    pub closed spec fn length(&self) -> nat {
        self.length as nat
    }

    /// The slices given back and not handed out again, the last given back last.
    pub closed spec fn free(&self) -> Seq<Seq<T>> {
        Seq::new(self.pool@.len(), |i: int| self.pool@[i]@)
    }

    /// Every slice kept has the pool's length.
    pub closed spec fn wf(&self) -> bool {
        forall|i: int| 0 <= i < self.pool@.len() ==> #[trigger] self.pool@[i]@.len() == self.length
    }

    /// An empty pool of slices of `length` in `arena`.
    pub fn new(arena: &'a Bump, length: usize) -> (p: Self)
        ensures
            p.wf(),
            p.length() == length,
            p.free() == Seq::<Seq<T>>::empty(),
    {
        let p = SlicePool { length, arena, pool: Vec::new() };
        assert(p.free() =~= Seq::<Seq<T>>::empty());
        p
    }

    /// A pool of slices of `length` in `arena` that holds `capacity` of them already, each
    /// made in the arena and filled with `default_item`.
    pub fn with_capacity_fill_copy(arena: &'a Bump, length: usize, capacity: usize, default_item: T) -> (p: Self)
        ensures
            p.wf(),
            p.length() == length,
            p.free() == Seq::new(capacity as nat, |_i: int| filled(length as nat, default_item)),
    {
        let mut pool: Vec<&'a mut [T]> = Vec::new();
        let mut k: usize = 0;
        while k < capacity
            invariant
                k <= capacity,
                pool@.len() == k,
                forall|i: int| 0 <= i < k ==> #[trigger] pool@[i]@ == filled(length as nat, default_item),
            decreases capacity - k,
        {
            pool.push(alloc_slice_fill_copy(arena, length, default_item));
            k = k + 1;
        }
        let p = SlicePool { length, arena, pool };
        assert(p.free() =~= Seq::new(capacity as nat, |_i: int| filled(length as nat, default_item)));
        p
    }

    /// Takes the slice given back last, if there is one.
    fn take_free(&mut self) -> (r: Option<&'a mut [T]>)
        requires
            old(self).wf(),
        ensures
            final(self).wf(),
            final(self).length() == old(self).length(),
            old(self).free().len() == 0 ==> r is None && final(self).free() == old(self).free(),
            old(self).free().len() > 0 ==> (r matches Some(s) && s@ == old(self).free().last() && final(self).free()
                == old(self).free().drop_last()),
    {
        let r = self.pool.pop();
        proof {
            if old(self).free().len() > 0 {
                assert(self.free() =~= old(self).free().drop_last());
                assert(old(self).pool@[old(self).pool@.len() - 1]@ == old(self).free().last());
            } else {
                assert(self.free() =~= old(self).free());
            }
        }
        r
    }

    /// A slice of the pool's length filled with `value`: the one given back last,
    /// refilled, or else a new one made in the arena.
    pub fn get_fill_copy(&mut self, value: T) -> (r: &'a mut [T])
        requires
            old(self).wf(),
        ensures
            final(self).wf(),
            final(self).length() == old(self).length(),
            r@ == filled(old(self).length(), value),
            final(self).free() == if old(self).free().len() > 0 {
                old(self).free().drop_last()
            } else {
                old(self).free()
            },
    {
        match self.take_free() {
            Some(slice) => {
                let n = slice.len();
                let mut k: usize = 0;
                while k < n
                    invariant
                        k <= n,
                        slice@.len() == n,
                        forall|i: int| 0 <= i < k ==> #[trigger] slice@[i] == value,
                    decreases n - k,
                {
                    slice[k] = value;
                    k = k + 1;
                }
                assert(slice@ =~= filled(self.length(), value));
                slice
            },
            None => alloc_slice_fill_copy(self.arena, self.length, value),
        }
    }

    /// A slice of the pool's length holding `values`: the one given back last,
    /// overwritten, or else a new one made in the arena.
    pub fn get_fill_iter(&mut self, values: Vec<T>) -> (r: &'a mut [T])
        requires
            old(self).wf(),
            values.len() == old(self).length(),
        ensures
            final(self).wf(),
            final(self).length() == old(self).length(),
            r@ == values@,
            final(self).free() == if old(self).free().len() > 0 {
                old(self).free().drop_last()
            } else {
                old(self).free()
            },
    {
        match self.take_free() {
            Some(slice) => {
                let n = slice.len();
                let mut k: usize = 0;
                while k < n
                    invariant
                        k <= n,
                        n == values.len(),
                        slice@.len() == n,
                        forall|i: int| 0 <= i < k ==> #[trigger] slice@[i] == values@[i],
                    decreases n - k,
                {
                    slice[k] = values[k];
                    k = k + 1;
                }
                assert(slice@ =~= values@);
                slice
            },
            None => alloc_slice_fill_iter(self.arena, values),
        }
    }

    /// Takes back a slice of the pool's length, to be handed out again next.
    pub fn recycle(&mut self, slice: &'a mut [T])
        requires
            old(self).wf(),
            old(slice)@.len() == old(self).length(),
        ensures
            final(self).wf(),
            final(self).length() == old(self).length(),
            final(self).free() == old(self).free().push(old(slice)@),
    {
        let ghost v = slice@;
        self.pool.push(slice);
        assert(self.free() =~= old(self).free().push(v));
    }
}

/// A slice given back is the next one handed out, refilled: taking one back and
/// handing one out leaves the pool as it was.
pub proof fn lemma_recycle_then_get<'a, T: Copy>(p: SlicePool<'a, T>, slice: Seq<T>)
    requires
        p.wf(),
    ensures
        p.free().push(slice).drop_last() == p.free(),
        p.free().push(slice).len() > 0,
{
    assert(p.free().push(slice).drop_last() =~= p.free());
}

} // verus!
