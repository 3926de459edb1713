//! Garbage collectors and GC-managed memory.

use crate::heap::{DynSized, Heap, HeapPtr, RawPtr, resolves_to};
use vstd::prelude::*;

pub mod collection;
pub mod graph;
pub mod mas;
pub mod relocation;

verus! {

/// The pointers that a value holds, in the order in which it reports them.
pub type Pointers<Ptr> = Seq<Ptr>;

/// A value in managed memory that may point to other managed values, keeping them reachable.
///
/// Which pointers a value holds may depend on the metadata of the pointer under
/// which it is stored, and on nothing else of that pointer: moving the value
/// leaves them as they are.
pub trait GcCandidate<Ptr: HeapPtr = RawPtr>: DynSized {
    /// What a value holds besides its managed pointers.
    type Payload;

    /// The pointers in this value to other garbage-collected objects, in a fixed order.
    spec fn managed_pointers(&self, this: Ptr) -> Pointers<Ptr>;

    /// What this value holds besides its managed pointers. A collection keeps it.
    spec fn payload(&self) -> Self::Payload;

    /// The managed pointers of a value do not change when the raw part of its own
    /// pointer does.
    proof fn pointers_follow_meta(&self, this: Ptr, moved: Ptr)
        ensures
            self.managed_pointers(moved.with_meta_of(&this)) == self.managed_pointers(this),
    ;

    /// Collects all pointers in this value to other garbage-collected objects.
    /// Pointers to unmanaged memory must not be included.
    fn collect_managed_pointers(&self, this: &Ptr) -> (ptrs: Vec<Ptr>)
        ensures
            ptrs@ == self.managed_pointers(*this),
    ;

    /// Replaces all managed pointers within this value according to the given function
    /// (e.g. after this value's pointees have been moved).
    ///
    /// Each managed pointer then names what `adjust` returned for the pointer that
    /// stood in its place. Nothing else in the value changes: it has the size and
    /// the payload that it had.
    fn adjust_ptrs<F: Fn(&Ptr) -> Ptr>(&mut self, adjust: F, this: &Ptr)
        requires
            forall|k: int|
                0 <= k < old(self).managed_pointers(*this).len() ==> call_requires(
                    adjust,
                    (&#[trigger] old(self).managed_pointers(*this)[k],),
                ),
        ensures
            final(self).size_spec() == old(self).size_spec(),
            final(self).payload() == old(self).payload(),
            final(self).managed_pointers(*this).len() == old(self).managed_pointers(*this).len(),
            forall|k: int|
                0 <= k < old(self).managed_pointers(*this).len() ==> exists|to: Ptr|
                    call_ensures(adjust, (&old(self).managed_pointers(*this)[k],), to)
                        && resolves_to(#[trigger] final(self).managed_pointers(*this)[k], to),
    ;
}

/// A memory space managed by a garbage collector.
///
/// Values can be pushed, and later accessed by index or pointer. Additional
/// metadata may be stored for values if necessary for the values or GC. Space
/// can be freed using [ManagedMem::gc].
pub trait ManagedMem<T: GcCandidate<Ptr>, Ptr: HeapPtr = RawPtr>: Sized {
    /// The heap that currently holds the values of this memory.
    spec fn heap(&self) -> Heap<T, Ptr>;

    /// Whether `gc` may be called with the given strong roots.
    spec fn gc_requires(&self, roots: Seq<Ptr>) -> bool;

    /// Whether a call of `gc` with the given strong and weak roots may turn this
    /// memory into `after` and the roots into `roots_after` and `weaks_after`.
    spec fn gc_ensures(
        &self,
        roots: Seq<Ptr>,
        weaks: Seq<Ptr>,
        after: Self,
        roots_after: Seq<Ptr>,
        weaks_after: Seq<Ptr>,
    ) -> bool;

    /// Pushes an object onto the end, returning a pointer to it, or `None` if this is full.
    fn push(&mut self, v: Box<T>) -> (pushed: Option<Ptr>)
        requires
            old(self).heap().wf(),
        ensures
            final(self).heap().wf(),
            old(self).heap().compact() ==> final(self).heap().compact(),
            old(self).heap().sized() ==> final(self).heap().sized(),
            old(self).heap().pushes(final(self).heap(), *v, v.size_spec(), pushed),
            pushed matches Some(ptr) ==> ptr == old(self).heap().fresh_ptr(v.size_spec()),
    ;

    /// Pushes an object onto the end, returning a pointer to it, or `None` if this is full.
    ///
    /// The given `with` function is applied to the pointer before saving, for e.g.
    /// adding extra metadata. It must leave the raw part of the pointer as it is.
    fn push_with<F: FnOnce(Ptr) -> Ptr>(&mut self, v: Box<T>, with: F) -> (pushed: Option<Ptr>)
        requires
            old(self).heap().wf(),
            call_requires(with, (old(self).heap().fresh_ptr(v.size_spec()),)),
            forall|q: Ptr| #[trigger]
                call_ensures(with, (old(self).heap().fresh_ptr(v.size_spec()),), q) ==> q.raw()
                    == old(self).heap().fresh_ptr(v.size_spec()).raw(),
        ensures
            final(self).heap().wf(),
            old(self).heap().compact() ==> final(self).heap().compact(),
            old(self).heap().sized() ==> final(self).heap().sized(),
            old(self).heap().pushes(final(self).heap(), *v, v.size_spec(), pushed),
            pushed matches Some(ptr) ==> call_ensures(
                with,
                (old(self).heap().fresh_ptr(v.size_spec()),),
                ptr,
            ),
    ;

    /// Returns a reference to the value at the given index.
    fn get(&self, idx: usize) -> (v: &T)
        requires
            self.heap().wf(),
            idx < self.heap().directory().len(),
        ensures
            *v == self.heap().values()[idx as int],
    ;

    /// Returns a mutable reference to the value at the given index.
    fn get_mut(&mut self, idx: usize) -> (v: &mut T)
        requires
            old(self).heap().wf(),
            idx < old(self).heap().directory().len(),
        ensures
            *v == old(self).heap().values()[idx as int],
            old(self).heap().replaces(final(self).heap(), idx as int, *final(v)),
            final(self).heap().wf(),
    ;

    /// Returns a mutable reference to the value at the given pointer, or `None`
    /// if that pointer does not point to a value in this memory.
    fn get_by(&mut self, ptr: &Ptr) -> (found: Option<&mut T>)
        requires
            old(self).heap().wf(),
        ensures
            final(self).heap().wf(),
            match found {
                None => !old(self).heap().directory().contains(*ptr) && final(self).heap() == old(
                    self,
                ).heap(),
                Some(v) => {
                    let i = old(self).heap().directory().index_of(*ptr);
                    &&& old(self).heap().directory().contains(*ptr)
                    &&& *v == old(self).heap().values()[i]
                    &&& old(self).heap().replaces(final(self).heap(), i, *final(v))
                },
            },
    ;

    /// Returns the number of values stored.
    fn len(&self) -> (n: usize)
        ensures
            n == self.heap().directory().len(),
    ;

    /// Returns whether the given pointer points to a value in this memory.
    fn contains_ptr(&self, ptr: &Ptr) -> (found: bool)
        ensures
            found == self.heap().directory().contains(*ptr),
    ;

    /// Runs the given function over every value.
    fn for_each<F: Fn(&T, &Ptr)>(&self, cb: F)
        requires
            self.heap().wf(),
            forall|i: int|
                0 <= i < self.heap().directory().len() ==> call_requires(
                    cb,
                    (&#[trigger] self.heap().values()[i], &self.heap().directory()[i]),
                ),
        ensures
            forall|i: int|
                0 <= i < self.heap().directory().len() ==> call_ensures(
                    cb,
                    (&#[trigger] self.heap().values()[i], &self.heap().directory()[i]),
                    (),
                ),
    ;

    /// Trigger garbage collection, removing any values unreachable from the given `roots`.
    ///
    /// Values in both `roots` and `weaks` are updated if the value they point to are moved,
    /// but only values in `roots` can cause another value to become reachable. A weak
    /// pointer whose value was removed is left as it was: it is not cleared.
    fn gc(&mut self, roots: Vec<&mut Ptr>, weaks: Vec<&mut Ptr>)
        requires
            old(self).heap().wf(),
            old(self).gc_requires(Seq::new(roots@.len(), |i: int| *roots@[i])),
        ensures
            final(self).heap().wf(),
            final(self).heap().cap() == old(self).heap().cap(),
            old(self).gc_ensures(
                Seq::new(roots@.len(), |i: int| *roots@[i]),
                Seq::new(weaks@.len(), |i: int| *weaks@[i]),
                *final(self),
                Seq::new(roots@.len(), |i: int| *final(roots@[i])),
                Seq::new(weaks@.len(), |i: int| *final(weaks@[i])),
            ),
    ;
}

// No-GC memory, delegates directly to the (single) heap.
/// A simple implementation of [ManagedMem] that does not implement garbage collection.
///
/// [ManagedMem::gc] calls have no effect, and memory is not freed until this is dropped.
pub struct NoGcMem<T, Ptr = RawPtr> {
    heap: Heap<T, Ptr>,
}

impl<T: GcCandidate<Ptr>, Ptr: HeapPtr> NoGcMem<T, Ptr> {
    /// Creates a new `NoGcMem` with the given capacity in bytes.
    pub fn new(size: usize) -> (mem: Self)
        ensures
            mem.heap().wf(),
            mem.heap().compact(),
            mem.heap().sized(),
            mem.heap().cap() == size,
            mem.heap().used() == 0,
            mem.heap().region() == 0,
            mem.heap().directory() =~= Seq::<Ptr>::empty(),
            mem.heap().values() =~= Seq::<T>::empty(),
    {
        NoGcMem { heap: Heap::new(size) }
    }
}

impl<T: GcCandidate<Ptr>, Ptr: HeapPtr> ManagedMem<T, Ptr> for NoGcMem<T, Ptr> {
    closed spec fn heap(&self) -> Heap<T, Ptr> {
        self.heap
    }

    open spec fn gc_requires(&self, roots: Seq<Ptr>) -> bool {
        true
    }

    open spec fn gc_ensures(
        &self,
        roots: Seq<Ptr>,
        weaks: Seq<Ptr>,
        after: Self,
        roots_after: Seq<Ptr>,
        weaks_after: Seq<Ptr>,
    ) -> bool {
        &&& after.heap() == self.heap()
        &&& roots_after == roots
        &&& weaks_after == weaks
    }

    fn push(&mut self, v: Box<T>) -> (pushed: Option<Ptr>) {
        self.heap.push(v)
    }

    fn push_with<F: FnOnce(Ptr) -> Ptr>(&mut self, v: Box<T>, with: F) -> (pushed: Option<Ptr>) {
        self.heap.push_with(v, with)
    }

    fn get(&self, idx: usize) -> (v: &T) {
        self.heap.get(idx)
    }

    fn get_mut(&mut self, idx: usize) -> (v: &mut T) {
        self.heap.get_mut(idx)
    }

    fn get_by(&mut self, ptr: &Ptr) -> (found: Option<&mut T>) {
        self.heap.get_by(ptr)
    }

    fn len(&self) -> (n: usize) {
        self.heap.len()
    }

    fn contains_ptr(&self, ptr: &Ptr) -> (found: bool) {
        self.heap.contains_ptr(ptr)
    }

    fn for_each<F: Fn(&T, &Ptr)>(&self, cb: F) {
        self.heap.for_each(cb);
    }

    fn gc(&mut self, roots: Vec<&mut Ptr>, weaks: Vec<&mut Ptr>) {
        // no-op
        proof {
            assert forall|i: int| 0 <= i < roots@.len() implies *final(roots@[i]) == *roots@[i] by {
                assert(has_resolved(roots@[i]));
            }
            assert forall|i: int| 0 <= i < weaks@.len() implies *final(weaks@[i]) == *weaks@[i] by {
                assert(has_resolved(weaks@[i]));
            }
            assert(Seq::new(roots@.len(), |i: int| *final(roots@[i])) =~= Seq::new(
                roots@.len(),
                |i: int| *roots@[i],
            ));
            assert(Seq::new(weaks@.len(), |i: int| *final(weaks@[i])) =~= Seq::new(
                weaks@.len(),
                |i: int| *weaks@[i],
            ));
        }
    }
}

} // verus!
