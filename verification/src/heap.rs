//! The heap data structure, alongside basic traits used by garbage collectors.

use vstd::prelude::*;

verus! {

/// The address of a value together with its size in bytes.
///
/// An address is the region that holds the value and the number of bytes from
/// the start of that region to the value. The heaps of a memory that are alive
/// at the same time stand in different regions, so no address of one is an
/// address of the other.
#[derive(Clone, Copy, PartialEq, Eq, Debug, Structural)]
pub struct RawPtr {
    pub region: usize,
    pub addr: usize,
    pub size: usize,
}

/// A value that provides certain information about its memory layout.
///
/// A stored value occupies at least one byte, so that no two values of a heap
/// start at the same address, and its size is a multiple of the alignment of
/// its type, so that values that stand one after the other are all aligned.
pub trait DynSized: Sized {
    /// The alignment of values of this type.
    spec fn align_spec() -> usize;

    /// The number of bytes that this value occupies.
    spec fn size_spec(&self) -> usize;

    /// Returns the alignment of values of this type.
    fn dyn_align() -> (align: usize)
        ensures
            align == Self::align_spec(),
            align > 0,
    ;

    /// Returns the number of bytes that this value occupies.
    fn dyn_size(&self) -> (size: usize)
        ensures
            size == self.size_spec(),
            size > 0,
            size % Self::align_spec() == 0,
    ;
}

/// A pointer to a value in managed memory, usable by heaps.
///
/// A pointer carries a [`RawPtr`] and may carry additional metadata, e.g. types,
/// that are relevant for garbage collection. Two pointers are equal when both
/// their raw parts and their metadata agree.
pub trait HeapPtr: Sized {
    /// The raw part of this pointer.
    spec fn raw(&self) -> RawPtr;

    /// The pointer that `from_raw_ptr` creates.
    spec fn from_raw_spec(raw: RawPtr) -> Self;

    /// This pointer with its metadata replaced by that of `other`.
    spec fn with_meta_of(&self, other: &Self) -> Self;

    /// Whether pointers of this type carry metadata that must be kept.
    spec fn significant_meta() -> bool;

    /// A pointer made from a raw part has that raw part.
    proof fn from_raw_keeps_raw(raw: RawPtr)
        ensures
            Self::from_raw_spec(raw).raw() == raw,
    ;

    /// Replacing the metadata of a pointer leaves its raw part as it is.
    proof fn meta_keeps_raw(&self, other: &Self)
        ensures
            self.with_meta_of(other).raw() == self.raw(),
    ;

    /// Create an instance of this pointer type with the target and size information given.
    fn from_raw_ptr(raw: RawPtr) -> (ptr: Self)
        ensures
            ptr == Self::from_raw_spec(raw),
    ;

    /// Gets a raw pointer with the same target and size information as this pointer.
    fn to_raw_ptr(&self) -> (raw: RawPtr)
        ensures
            raw == self.raw(),
    ;

    /// Copies any additional metadata from the given other pointer, such as types.
    fn copy_meta(&mut self, other: &Self)
        ensures
            *final(self) == old(self).with_meta_of(other),
    ;

    /// Whether this pointer type stores any additional metadata that must be copied.
    fn has_significant_meta() -> (significant: bool)
        ensures
            significant == Self::significant_meta(),
    ;

    /// Returns whether this pointer is equal to the other pointer, ignoring any additional
    /// metadata, i.e. whether they point to the same memory.
    fn eq_ignoring_meta(&self, other: &Self) -> (same: bool)
        ensures
            same == (self.raw() == other.raw()),
    ;

    /// Returns whether this pointer is equal to the other pointer, metadata included.
    fn equals(&self, other: &Self) -> (same: bool)
        ensures
            same == (*self == *other),
    ;

    /// Returns a copy of this pointer.
    fn duplicate(&self) -> (ptr: Self)
        ensures
            ptr == *self,
    ;
}

impl HeapPtr for RawPtr {
    open spec fn raw(&self) -> RawPtr {
        *self
    }

    open spec fn from_raw_spec(raw: RawPtr) -> Self {
        raw
    }

    open spec fn with_meta_of(&self, other: &Self) -> Self {
        *self
    }

    open spec fn significant_meta() -> bool {
        false
    }

    proof fn from_raw_keeps_raw(raw: RawPtr) {
    }

    proof fn meta_keeps_raw(&self, other: &Self) {
    }

    fn from_raw_ptr(raw: RawPtr) -> (ptr: Self) {
        raw
    }

    fn to_raw_ptr(&self) -> (raw: RawPtr) {
        *self
    }

    fn copy_meta(&mut self, other: &Self) {
    }

    fn has_significant_meta() -> (significant: bool) {
        false
    }

    fn eq_ignoring_meta(&self, other: &Self) -> (same: bool) {
        self.region == other.region && self.addr == other.addr && self.size == other.size
    }

    fn equals(&self, other: &Self) -> (same: bool) {
        self.region == other.region && self.addr == other.addr && self.size == other.size
    }

    fn duplicate(&self) -> (ptr: Self) {
        *self
    }
}

/// Whether the pointer `ptr`, as a value emits it, names the directory entry
/// `entry`: by its raw part alone where metadata is significant (the value may
/// not know the metadata of its pointee), and by full equality otherwise.
pub open spec fn resolves_to<Ptr: HeapPtr>(ptr: Ptr, entry: Ptr) -> bool {
    if Ptr::significant_meta() {
        ptr.raw() == entry.raw()
    } else {
        ptr == entry
    }
}

/// The end of the byte range that `ptr` names.
pub open spec fn end_of<Ptr: HeapPtr>(ptr: Ptr) -> int {
    ptr.raw().addr + ptr.raw().size
}

/// The sum of the sizes of the values that `dir` names.
pub open spec fn footprint<Ptr: HeapPtr>(dir: Seq<Ptr>) -> int
    decreases dir.len(),
{
    if dir.len() == 0 {
        0
    } else {
        footprint(dir.drop_last()) + dir.last().raw().size
    }
}

/// Whether the entries of `dir` name non-empty byte ranges below `used` that
/// follow each other in order without overlap.
pub open spec fn laid_out<Ptr: HeapPtr>(dir: Seq<Ptr>, used: int) -> bool {
    &&& forall|i: int|
        0 <= i < dir.len() ==> (#[trigger] dir[i]).raw().size > 0 && end_of(dir[i]) <= used
    &&& forall|i: int, j: int|
        0 <= i < j < dir.len() ==> end_of(#[trigger] dir[i]) <= (#[trigger] dir[j]).raw().addr
}

/// Whether the entries of `dir` name byte ranges that start and end at multiples
/// of `align`.
pub open spec fn aligned<Ptr: HeapPtr>(dir: Seq<Ptr>, align: int) -> bool {
    forall|i: int|
        0 <= i < dir.len() ==> (#[trigger] dir[i]).raw().addr as int % align == 0
            && dir[i].raw().size as int % align == 0
}

/// Whether the entries of `dir` name byte ranges of the region `region`.
pub open spec fn within<Ptr: HeapPtr>(dir: Seq<Ptr>, region: usize) -> bool {
    forall|i: int| 0 <= i < dir.len() ==> (#[trigger] dir[i]).raw().region == region
}

/// The sum of two multiples of `align` is a multiple of `align`.
pub proof fn lemma_sum_aligned(a: int, b: int, align: int)
    requires
        align > 0,
        a % align == 0,
        b % align == 0,
    ensures
        (a + b) % align == 0,
{
    vstd::arithmetic::div_mod::lemma_add_mod_noop(a, b, align);
    vstd::arithmetic::div_mod::lemma_small_mod(0, align as nat);
}

/// In a laid-out directory no two entries share their raw part.
pub proof fn lemma_laid_out_distinct<Ptr: HeapPtr>(dir: Seq<Ptr>, used: int, i: int, j: int)
    requires
        laid_out(dir, used),
        0 <= i < dir.len(),
        0 <= j < dir.len(),
        dir[i].raw() == dir[j].raw(),
    ensures
        i == j,
{
    if i < j {
        assert(end_of(dir[i]) <= dir[j].raw().addr);
    } else if j < i {
        assert(end_of(dir[j]) <= dir[i].raw().addr);
    }
}

/// The values that a laid-out directory names take no more bytes than lie
/// below the end of its last entry.
pub proof fn lemma_footprint_bounded<Ptr: HeapPtr>(dir: Seq<Ptr>, used: int)
    requires
        laid_out(dir, used),
    ensures
        0 <= footprint(dir),
        dir.len() > 0 ==> footprint(dir) <= end_of(dir.last()) <= used,
    decreases dir.len(),
{
    if dir.len() > 0 {
        let front = dir.drop_last();
        assert(laid_out(front, used)) by {
            assert forall|i: int| 0 <= i < front.len() implies (#[trigger] front[i]).raw().size > 0
                && end_of(front[i]) <= used by {
                assert(front[i] == dir[i]);
            }
            assert forall|i: int, j: int| 0 <= i < j < front.len() implies end_of(
                #[trigger] front[i],
            ) <= (#[trigger] front[j]).raw().addr by {
                assert(front[i] == dir[i]);
                assert(front[j] == dir[j]);
            }
        }
        lemma_footprint_bounded(front, used);
        if front.len() > 0 {
            assert(front.last() == dir[dir.len() - 2]);
            assert(end_of(dir[dir.len() - 2]) <= dir[dir.len() - 1].raw().addr);
        }
    }
}

/// A fixed-capacity contiguous vector of values of possibly unequal size.
pub struct Heap<T, Ptr = RawPtr> {
    region: usize,
    align: usize,
    cap: usize,
    used: usize,
    indexes: Vec<Ptr>,
    values: Vec<Box<T>>,
}

impl<T: DynSized, Ptr: HeapPtr> Heap<T, Ptr> {
    /// The pointers to the values of this heap, in the order in which they were pushed.
    pub closed spec fn directory(&self) -> Seq<Ptr> {
        self.indexes@
    }

    /// The values of this heap, each at the position of its pointer in the directory.
    pub closed spec fn values(&self) -> Seq<T> {
        Seq::new(self.values@.len(), |i: int| *self.values@[i])
    }

    /// The number of bytes handed out since the heap was last empty.
    pub closed spec fn used(&self) -> usize {
        self.used
    }

    /// The capacity in bytes.
    pub closed spec fn cap(&self) -> usize {
        self.cap
    }

    /// The alignment of the start of the heap.
    pub closed spec fn align(&self) -> usize {
        self.align
    }

    /// The region in which the heap stands.
    pub closed spec fn region(&self) -> usize {
        self.region
    }

    /// The invariant of a heap: one value per directory entry, and the entries
    /// laid out in the region of the heap in order, without overlap, within the
    /// used part of the capacity, each aligned as the type of the values asks.
    pub open spec fn wf(&self) -> bool {
        &&& self.values().len() == self.directory().len()
        &&& self.used() <= self.cap()
        &&& laid_out(self.directory(), self.used() as int)
        &&& within(self.directory(), self.region())
        &&& self.align() == T::align_spec()
        &&& self.align() > 0
        &&& self.used() as int % self.align() as int == 0
        &&& aligned(self.directory(), self.align() as int)
    }

    /// Whether each value has the size that its pointer carries. A heap is made
    /// so, and stays so as long as no value is changed in place to another size.
    pub open spec fn sized(&self) -> bool {
        forall|i: int|
            0 <= i < self.directory().len() ==> (#[trigger] self.values()[i]).size_spec()
                == self.directory()[i].raw().size
    }

    /// Whether nothing was taken out since the heap was last empty: the used
    /// bytes are exactly those of the values present.
    pub open spec fn compact(&self) -> bool {
        self.used() == footprint(self.directory())
    }

    /// The pointer that the heap makes for a value of `size` bytes that is pushed next.
    pub open spec fn fresh_ptr(&self, size: usize) -> Ptr {
        Ptr::from_raw_spec(RawPtr { region: self.region(), addr: self.used(), size })
    }

    /// Whether `next` is this heap after an attempt to push `v`, of `size` bytes, that
    /// returned `pushed`: without room for `v` nothing changes, and otherwise `v` and
    /// its pointer stand at the end and the used bytes have grown by `size`.
    pub open spec fn pushes(&self, next: Self, v: T, size: usize, pushed: Option<Ptr>) -> bool {
        &&& next.cap() == self.cap()
        &&& next.align() == self.align()
        &&& next.region() == self.region()
        &&& match pushed {
            None => {
                &&& self.cap() - self.used() < size
                &&& next.directory() == self.directory()
                &&& next.values() == self.values()
                &&& next.used() == self.used()
            },
            Some(ptr) => {
                &&& self.cap() - self.used() >= size
                &&& ptr.raw() == (RawPtr { region: self.region(), addr: self.used(), size })
                &&& next.directory() =~= self.directory().push(ptr)
                &&& next.values() =~= self.values().push(v)
                &&& next.used() == self.used() + size
            },
        }
    }

    /// Whether `next` is this heap with `v` in place of the value at index `i`.
    pub open spec fn replaces(&self, next: Self, i: int, v: T) -> bool {
        &&& next.values() =~= self.values().update(i, v)
        &&& next.directory() == self.directory()
        &&& next.used() == self.used()
        &&& next.cap() == self.cap()
        &&& next.align() == self.align()
        &&& next.region() == self.region()
    }

    /// Creates a new heap with the given capacity in bytes, in region 0.
    pub fn new(size: usize) -> (heap: Heap<T, Ptr>)
        ensures
            heap.wf(),
            heap.compact(),
            heap.sized(),
            heap.cap() == size,
            heap.used() == 0,
            heap.region() == 0,
            heap.directory() =~= Seq::<Ptr>::empty(),
            heap.values() =~= Seq::<T>::empty(),
    {
        Heap::new_in(0, size)
    }

    /// Creates a new heap with the given capacity in bytes, in the given region.
    pub fn new_in(region: usize, size: usize) -> (heap: Heap<T, Ptr>)
        ensures
            heap.wf(),
            heap.compact(),
            heap.sized(),
            heap.cap() == size,
            heap.used() == 0,
            heap.region() == region,
            heap.directory() =~= Seq::<Ptr>::empty(),
            heap.values() =~= Seq::<T>::empty(),
    {
        let align = T::dyn_align();
        proof {
            vstd::arithmetic::div_mod::lemma_small_mod(0, align as nat);
        }
        Heap { region, align, cap: size, used: 0, indexes: Vec::new(), values: Vec::new() }
    }

    /// Returns the region in which this heap stands.
    pub fn region_of(&self) -> (region: usize)
        ensures
            region == self.region(),
    {
        self.region
    }

    /// Returns the number of values stored in this heap.
    pub fn len(&self) -> (n: usize)
        ensures
            n == self.directory().len(),
    {
        self.indexes.len()
    }

    /// Returns the capacity of this heap, in bytes.
    pub fn capacity(&self) -> (cap: usize)
        ensures
            cap == self.cap(),
    {
        self.cap
    }

    /// Returns the pointer to the value at the given index.
    pub fn ptr_at(&self, idx: usize) -> (ptr: Ptr)
        requires
            idx < self.directory().len(),
        ensures
            ptr == self.directory()[idx as int],
    {
        self.indexes[idx].duplicate()
    }

    /// Returns the index of the first directory entry equal to the given pointer.
    pub fn position(&self, ptr: &Ptr) -> (found: Option<usize>)
        ensures
            match found {
                Some(i) => i < self.directory().len() && self.directory()[i as int] == *ptr
                    && forall|j: int| 0 <= j < i ==> self.directory()[j] != *ptr,
                None => !self.directory().contains(*ptr),
            },
    {
        let mut i: usize = 0;
        while i < self.indexes.len()
            invariant
                i <= self.indexes@.len(),
                forall|j: int| 0 <= j < i ==> self.indexes@[j] != *ptr,
            decreases self.indexes@.len() - i,
        {
            if self.indexes[i].equals(ptr) {
                return Some(i);
            }
            i += 1;
        }
        None
    }

    /// Returns whether the given pointer points to a value in this heap.
    pub fn contains_ptr(&self, ptr: &Ptr) -> (found: bool)
        ensures
            found == self.directory().contains(*ptr),
    {
        self.position(ptr).is_some()
    }

    /// Places an object of `size` bytes at the end of this heap, as [Heap::push_with]
    /// does with an object that reports that size.
    pub(crate) fn place<F: FnOnce(Ptr) -> Ptr>(
        &mut self,
        v: Box<T>,
        size: usize,
        with: F,
    ) -> (pushed: Option<Ptr>)
        requires
            old(self).wf(),
            size > 0,
            size % T::align_spec() == 0,
            call_requires(with, (old(self).fresh_ptr(size),)),
            forall|q: Ptr| #[trigger]
                call_ensures(with, (old(self).fresh_ptr(size),), q) ==> q.raw() == old(
                    self,
                ).fresh_ptr(size).raw(),
        ensures
            final(self).wf(),
            old(self).compact() ==> final(self).compact(),
            old(self).sized() && size == v.size_spec() ==> final(self).sized(),
            old(self).pushes(*final(self), *v, size, pushed),
            pushed matches Some(ptr) ==> call_ensures(with, (old(self).fresh_ptr(size),), ptr),
    {
        // check we can allocate
        if self.cap - self.used < size {
            return None;
        }
        let raw = RawPtr { region: self.region, addr: self.used, size };
        proof {
            Ptr::from_raw_keeps_raw(raw);
            lemma_sum_aligned(self.used as int, size as int, self.align as int);
        }
        let new_ptr = with(Ptr::from_raw_ptr(raw));
        // keep track of the new entry
        self.indexes.push(new_ptr.duplicate());
        self.values.push(v);
        self.used += size;
        proof {
            let dir = self.directory();
            assert(dir.drop_last() =~= old(self).directory());
            assert(self.values() =~= old(self).values().push(*v));
            assert forall|i: int, j: int| 0 <= i < j < dir.len() implies end_of(#[trigger] dir[i])
                <= (#[trigger] dir[j]).raw().addr by {
                if j < dir.len() - 1 {
                    assert(dir[i] == old(self).directory()[i]);
                    assert(dir[j] == old(self).directory()[j]);
                } else {
                    assert(dir[i] == old(self).directory()[i]);
                }
            }
            assert forall|i: int| 0 <= i < dir.len() implies (#[trigger] dir[i]).raw().size > 0
                && end_of(dir[i]) <= self.used() by {
                if i < dir.len() - 1 {
                    assert(dir[i] == old(self).directory()[i]);
                }
            }
            assert forall|i: int| 0 <= i < dir.len() implies (#[trigger] dir[i]).raw().addr as int
                % self.align() as int == 0 && dir[i].raw().size as int % self.align() as int
                == 0 by {
                if i < dir.len() - 1 {
                    assert(dir[i] == old(self).directory()[i]);
                }
            }
        }
        Some(new_ptr)
    }

    /// Pushes an object onto the end of this heap, returning a pointer to it,
    /// or `None` if this heap is full.
    ///
    /// The given `with` function is applied to the pointer before saving, for e.g.
    /// adding extra metadata. It must leave the raw part of the pointer as it is.
    pub fn push_with<F: FnOnce(Ptr) -> Ptr>(&mut self, v: Box<T>, with: F) -> (pushed: Option<Ptr>)
        requires
            old(self).wf(),
            call_requires(with, (old(self).fresh_ptr(v.size_spec()),)),
            forall|q: Ptr| #[trigger]
                call_ensures(with, (old(self).fresh_ptr(v.size_spec()),), q) ==> q.raw() == old(
                    self,
                ).fresh_ptr(v.size_spec()).raw(),
        ensures
            final(self).wf(),
            old(self).compact() ==> final(self).compact(),
            old(self).sized() ==> final(self).sized(),
            old(self).pushes(*final(self), *v, v.size_spec(), pushed),
            pushed matches Some(ptr) ==> call_ensures(
                with,
                (old(self).fresh_ptr(v.size_spec()),),
                ptr,
            ),
    {
        let size = v.dyn_size();
        self.place(v, size, with)
    }

    /// Pushes an object onto the end of this heap, returning a pointer to it,
    /// or `None` if this heap is full.
    pub fn push(&mut self, v: Box<T>) -> (pushed: Option<Ptr>)
        requires
            old(self).wf(),
        ensures
            final(self).wf(),
            old(self).compact() ==> final(self).compact(),
            old(self).sized() ==> final(self).sized(),
            old(self).pushes(*final(self), *v, v.size_spec(), pushed),
            pushed matches Some(ptr) ==> ptr == old(self).fresh_ptr(v.size_spec()),
    {
        let keep = |x: Ptr| -> (y: Ptr)
            ensures
                y == x,
            { x };
        proof {
            Ptr::from_raw_keeps_raw(
                RawPtr { region: self.region(), addr: self.used(), size: v.size_spec() },
            );
        }
        self.push_with(v, keep)
    }

    /// Returns a reference to the value at the given index.
    pub fn get(&self, idx: usize) -> (v: &T)
        requires
            self.wf(),
            idx < self.directory().len(),
        ensures
            *v == self.values()[idx as int],
    {
        &self.values[idx]
    }

    /// Returns a mutable reference to the value at the given index.
    pub fn get_mut(&mut self, idx: usize) -> (v: &mut T)
        requires
            old(self).wf(),
            idx < old(self).directory().len(),
        ensures
            *v == old(self).values()[idx as int],
            old(self).replaces(*final(self), idx as int, *final(v)),
            final(self).wf(),
    {
        let slot = &mut self.values[idx];
        &mut **slot
    }

    /// Returns a mutable reference to the value at the given pointer, or `None`
    /// if that pointer does not point to a value in this heap.
    pub fn get_by(&mut self, ptr: &Ptr) -> (found: Option<&mut T>)
        requires
            old(self).wf(),
        ensures
            final(self).wf(),
            match found {
                None => !old(self).directory().contains(*ptr) && *final(self) == *old(self),
                Some(v) => {
                    let i = old(self).directory().index_of(*ptr);
                    &&& old(self).directory().contains(*ptr)
                    &&& *v == old(self).values()[i]
                    &&& old(self).replaces(*final(self), i, *final(v))
                },
            },
    {
        match self.position(ptr) {
            None => None,
            Some(x) => {
                proof {
                    let i = self.directory().index_of(*ptr);
                    lemma_laid_out_distinct(self.directory(), self.used() as int, i, x as int);
                }
                Some(self.get_mut(x))
            },
        }
    }

    /// Moves the element at the given index out of this heap, returning it (contained in a box)
    /// and its former pointer.
    ///
    /// Note that this does not allow new values to be allocated in their place; use
    /// [Heap::reset] if that is necessary.
    pub fn take(&mut self, idx: usize) -> (taken: (Box<T>, Ptr))
        requires
            old(self).wf(),
            idx < old(self).directory().len(),
        ensures
            final(self).wf(),
            old(self).sized() ==> final(self).sized(),
            *taken.0 == old(self).values()[idx as int],
            taken.1 == old(self).directory()[idx as int],
            final(self).directory() == old(self).directory().remove(idx as int),
            final(self).values() == old(self).values().remove(idx as int),
            final(self).used() == old(self).used(),
            final(self).cap() == old(self).cap(),
            final(self).align() == old(self).align(),
            final(self).region() == old(self).region(),
    {
        // need to preserve order because this might be called in a (reversed) loop
        let ptr = self.indexes.remove(idx);
        let v = self.values.remove(idx);
        proof {
            let dir = self.directory();
            let before = old(self).directory();
            assert(self.values() =~= old(self).values().remove(idx as int));
            assert forall|i: int| 0 <= i < dir.len() implies (#[trigger] dir[i]).raw().size > 0
                && end_of(dir[i]) <= self.used() by {
                if i < idx {
                    assert(dir[i] == before[i]);
                } else {
                    assert(dir[i] == before[i + 1]);
                }
            }
            assert forall|i: int, j: int| 0 <= i < j < dir.len() implies end_of(#[trigger] dir[i])
                <= (#[trigger] dir[j]).raw().addr by {
                let a = if i < idx { i } else { i + 1 };
                let b = if j < idx { j } else { j + 1 };
                assert(dir[i] == before[a]);
                assert(dir[j] == before[b]);
            }
            assert forall|i: int| 0 <= i < dir.len() implies (#[trigger] dir[i]).raw().addr as int
                % self.align() as int == 0 && dir[i].raw().size as int % self.align() as int
                == 0 by {
                if i < idx {
                    assert(dir[i] == before[i]);
                } else {
                    assert(dir[i] == before[i + 1]);
                }
            }
        }
        (v, ptr)
    }

    /// Returns a pointer equivalent to the one given, but with any additional metadata
    /// known by this heap, using [HeapPtr::eq_ignoring_meta].
    pub fn to_full_ptr(&self, ptr: &Ptr) -> (full: Ptr)
        requires
            self.wf(),
            exists|i: int|
                0 <= i < self.directory().len() && (#[trigger] self.directory()[i]).raw()
                    == ptr.raw(),
        ensures
            self.directory().contains(full),
            full.raw() == ptr.raw(),
    {
        let n = self.indexes.len();
        let mut i: usize = 0;
        loop
            invariant
                n == self.indexes@.len(),
                i < self.indexes@.len(),
                exists|j: int|
                    i <= j < self.indexes@.len() && (#[trigger] self.indexes@[j]).raw()
                        == ptr.raw(),
            decreases self.indexes@.len() - i,
        {
            if self.indexes[i].eq_ignoring_meta(ptr) {
                return self.indexes[i].duplicate();
            }
            proof {
                let j = choose|j: int|
                    i <= j < self.indexes@.len() && (#[trigger] self.indexes@[j]).raw()
                        == ptr.raw();
                assert(j != i);
            }
            i += 1;
        }
    }

    /// Runs the given function over every value in this heap.
    pub fn for_each<F: Fn(&T, &Ptr)>(&self, cb: F)
        requires
            self.wf(),
            forall|i: int|
                0 <= i < self.directory().len() ==> call_requires(
                    cb,
                    (&#[trigger] self.values()[i], &self.directory()[i]),
                ),
        ensures
            forall|i: int|
                0 <= i < self.directory().len() ==> call_ensures(
                    cb,
                    (&#[trigger] self.values()[i], &self.directory()[i]),
                    (),
                ),
    {
        let n = self.len();
        let mut i: usize = 0;
        while i < n
            invariant
                self.wf(),
                n == self.directory().len(),
                i <= n,
                forall|i: int|
                    0 <= i < self.directory().len() ==> call_requires(
                        cb,
                        (&#[trigger] self.values()[i], &self.directory()[i]),
                    ),
                forall|j: int|
                    0 <= j < i ==> call_ensures(
                        cb,
                        (&#[trigger] self.values()[j], &self.directory()[j]),
                        (),
                    ),
            decreases n - i,
        {
            assert(call_requires(cb, (&self.values()[i as int], &self.directory()[i as int])));
            cb(self.get(i), &self.indexes[i]);
            i += 1;
        }
    }

    /// Empties this heap, dropping all values and allowing new ones to be pushed in their place.
    pub fn reset(&mut self)
        requires
            old(self).wf(),
        ensures
            final(self).wf(),
            final(self).compact(),
            final(self).sized(),
            final(self).directory() =~= Seq::<Ptr>::empty(),
            final(self).values() =~= Seq::<T>::empty(),
            final(self).used() == 0,
            final(self).cap() == old(self).cap(),
            final(self).region() == old(self).region(),
    {
        self.values.clear();
        self.indexes.clear();
        self.used = 0;
        proof {
            vstd::arithmetic::div_mod::lemma_small_mod(0, self.align as nat);
        }
    }

    /// Runs the given function over every value in this heap, allowing mutation.
    ///
    /// Each value is left as one call of `cb` on it and its pointer leaves it.
    pub fn for_each_mut<F: Fn(&mut T, &Ptr)>(&mut self, cb: F)
        requires
            old(self).wf(),
            forall|r: &mut T, i: int|
                0 <= i < old(self).directory().len() && *r == old(self).values()[i]
                    ==> #[trigger] call_requires(cb, (r, &old(self).directory()[i])),
        ensures
            final(self).wf(),
            final(self).directory() == old(self).directory(),
            final(self).used() == old(self).used(),
            final(self).cap() == old(self).cap(),
            final(self).values().len() == old(self).values().len(),
            forall|p: Ptr| #[trigger]
                old(self).directory().contains(p) ==> exists|r: &mut T|
                    {
                        &&& *r == old(self).values()[old(self).directory().index_of(p)]
                        &&& *final(r) == final(self).values()[old(self).directory().index_of(p)]
                        &&& #[trigger] call_ensures(cb, (r, &p), ())
                    },
    {
        let n = self.len();
        let mut i: usize = 0;
        while i < n
            invariant
                self.wf(),
                old(self).wf(),
                n == self.directory().len(),
                self.directory() == old(self).directory(),
                self.used() == old(self).used(),
                self.cap() == old(self).cap(),
                self.values().len() == old(self).values().len(),
                i <= n,
                forall|r: &mut T, i: int|
                    0 <= i < old(self).directory().len() && *r == old(self).values()[i]
                        ==> #[trigger] call_requires(cb, (r, &old(self).directory()[i])),
                forall|j: int| i <= j < n ==> self.values()[j] == old(self).values()[j],
                forall|p: Ptr| #[trigger]
                    old(self).directory().take(i as int).contains(p) ==> exists|r: &mut T|
                    {
                        &&& *r == old(self).values()[old(self).directory().index_of(p)]
                        &&& *final(r) == self.values()[old(self).directory().index_of(p)]
                        &&& #[trigger] call_ensures(cb, (r, &p), ())
                    },
            decreases n - i,
        {
            let ptr = self.indexes[i].duplicate();
            let ghost before = self.values();
            let ghost dir = self.directory();
            let slot = self.get_mut(i);
            let ghost pre = *slot;
            cb(slot, &ptr);
            let ghost post = *slot;
            proof {
                assert(ptr == dir[i as int]);
                assert(pre == old(self).values()[i as int]);
                assert(post == self.values()[i as int]);
                assert(exists|r: &mut T|
                    *r == pre && *final(r) == post && #[trigger] call_ensures(cb, (r, &ptr), ()));
                assert forall|p: Ptr| #[trigger] dir.take(i + 1).contains(p) implies exists|r: &mut T|
                    {
                        &&& *r == old(self).values()[old(self).directory().index_of(p)]
                        &&& *final(r) == self.values()[old(self).directory().index_of(p)]
                        &&& #[trigger] call_ensures(cb, (r, &p), ())
                    } by {
                    let visited = dir.take(i + 1);
                    let x = choose|x: int| 0 <= x < visited.len() && visited[x] == p;
                    assert(dir[x] == p);
                    lemma_laid_out_distinct(dir, self.used() as int, dir.index_of(p), x);
                    if x < i {
                        assert(dir.take(i as int)[x] == p);
                        assert(dir.take(i as int).contains(p));
                        assert(self.values()[x] == before[x]);
                    }
                }
            }
            i += 1;
        }
        proof {
            assert(old(self).directory().take(n as int) =~= old(self).directory());
        }
    }
}

/// Round trip: the pointer that a push returned is found in the heap, at the
/// value that was pushed.
pub proof fn lemma_push_round_trip<T: DynSized, Ptr: HeapPtr>(
    before: Heap<T, Ptr>,
    after: Heap<T, Ptr>,
    v: T,
    size: usize,
    ptr: Ptr,
)
    requires
        after.wf(),
        before.pushes(after, v, size, Some(ptr)),
    ensures
        after.directory().contains(ptr),
        after.values()[after.directory().index_of(ptr)] == v,
{
    let n = before.directory().len() as int;
    assert(after.directory()[n] == ptr);
    lemma_laid_out_distinct(after.directory(), after.used() as int, after.directory().index_of(ptr), n);
}

/// A pointer that was found in the heap before a push is found after it, at the
/// same value.
pub proof fn lemma_push_keeps_values<T: DynSized, Ptr: HeapPtr>(
    before: Heap<T, Ptr>,
    after: Heap<T, Ptr>,
    v: T,
    size: usize,
    pushed: Option<Ptr>,
    ptr: Ptr,
)
    requires
        before.wf(),
        after.wf(),
        before.pushes(after, v, size, pushed),
        before.directory().contains(ptr),
    ensures
        after.directory().contains(ptr),
        after.values()[after.directory().index_of(ptr)] == before.values()[before.directory().index_of(
            ptr,
        )],
{
    let i = before.directory().index_of(ptr);
    assert(after.directory()[i] == ptr);
    lemma_laid_out_distinct(after.directory(), after.used() as int, after.directory().index_of(ptr), i);
}

/// The values of a heap take no more bytes than are in use, and those fit into
/// the capacity.
pub proof fn lemma_footprint_within_used<T: DynSized, Ptr: HeapPtr>(heap: Heap<T, Ptr>)
    requires
        heap.wf(),
    ensures
        0 <= footprint(heap.directory()) <= heap.used() <= heap.cap(),
{
    lemma_footprint_bounded(heap.directory(), heap.used() as int);
}

/// A heap whose values have the sizes that their pointers carry stays so when
/// a value is replaced by one of the same size.
pub proof fn lemma_replaces_keeps_sized<T: DynSized, Ptr: HeapPtr>(
    before: Heap<T, Ptr>,
    after: Heap<T, Ptr>,
    i: int,
    v: T,
)
    requires
        before.sized(),
        0 <= i < before.directory().len(),
        before.values().len() == before.directory().len(),
        before.replaces(after, i, v),
        v.size_spec() == before.values()[i].size_spec(),
    ensures
        after.sized(),
{
    assert forall|j: int| 0 <= j < after.directory().len() implies (
    #[trigger] after.values()[j]).size_spec() == after.directory()[j].raw().size by {
        if j != i {
            assert(after.values()[j] == before.values()[j]);
        }
    }
}

/// The sum of the sizes of the values `vs`.
pub open spec fn total_size<T: DynSized>(vs: Seq<T>) -> int
    decreases vs.len(),
{
    if vs.len() == 0 {
        0
    } else {
        total_size(vs.drop_last()) + vs.last().size_spec()
    }
}

/// Whether the heaps `hs` follow each other by pushes of the values `vs` in turn,
/// which returned `ps`.
pub open spec fn pushed_in_turn<T: DynSized, Ptr: HeapPtr>(
    hs: Seq<Heap<T, Ptr>>,
    vs: Seq<T>,
    ps: Seq<Option<Ptr>>,
) -> bool {
    &&& hs.len() == vs.len() + 1
    &&& ps.len() == vs.len()
    &&& forall|i: int|
        0 <= i < vs.len() ==> (#[trigger] hs[i]).pushes(hs[i + 1], vs[i], vs[i].size_spec(), ps[i])
}

/// An empty heap accepts values up to its full capacity: where the sizes of the
/// values pushed in turn sum to no more than the capacity, every push succeeds,
/// and the bytes in use are then that sum.
pub proof fn lemma_pushes_fit<T: DynSized, Ptr: HeapPtr>(
    hs: Seq<Heap<T, Ptr>>,
    vs: Seq<T>,
    ps: Seq<Option<Ptr>>,
)
    requires
        pushed_in_turn(hs, vs, ps),
        hs[0].used() == 0,
        total_size(vs) <= hs[0].cap(),
    ensures
        0 <= total_size(vs),
        forall|i: int| 0 <= i < ps.len() ==> (#[trigger] ps[i]) is Some,
        hs.last().used() == total_size(vs),
        hs.last().cap() == hs[0].cap(),
    decreases vs.len(),
{
    if vs.len() > 0 {
        let k = vs.len() - 1;
        let hs0 = hs.drop_last();
        let vs0 = vs.drop_last();
        let ps0 = ps.drop_last();
        lemma_total_size_nonnegative(vs0);
        assert(pushed_in_turn(hs0, vs0, ps0)) by {
            assert forall|i: int| 0 <= i < vs0.len() implies (#[trigger] hs0[i]).pushes(
                hs0[i + 1],
                vs0[i],
                vs0[i].size_spec(),
                ps0[i],
            ) by {
                assert(hs[i].pushes(hs[i + 1], vs[i], vs[i].size_spec(), ps[i]));
            }
        }
        lemma_pushes_fit(hs0, vs0, ps0);
        assert(hs0.last() == hs[k]);
        assert(hs[k].pushes(hs[k + 1], vs[k], vs[k].size_spec(), ps[k]));
        assert forall|i: int| 0 <= i < ps.len() implies (#[trigger] ps[i]) is Some by {
            if i < k {
                assert(ps0[i] is Some);
            }
        }
    }
}

/// The sizes of values sum to no less than 0.
pub proof fn lemma_total_size_nonnegative<T: DynSized>(vs: Seq<T>)
    ensures
        0 <= total_size(vs),
    decreases vs.len(),
{
    if vs.len() > 0 {
        lemma_total_size_nonnegative(vs.drop_last());
    }
}

/// A heap that is full accepts no value of any size but 0.
pub proof fn lemma_full_heap_rejects<T: DynSized, Ptr: HeapPtr>(
    before: Heap<T, Ptr>,
    after: Heap<T, Ptr>,
    v: T,
    size: usize,
    pushed: Option<Ptr>,
)
    requires
        before.used() == before.cap(),
        size > 0,
        before.pushes(after, v, size, pushed),
    ensures
        pushed is None,
{
}

} // verus!
