// Test a data type that stores type information in the heap's pointers, not inline

use swifer::gc::mas::MarkAndSweepMem;
use swifer::gc::relocation::Relocation;
use swifer::gc::{GcCandidate, ManagedMem, Pointers};
use swifer::heap::{DynSized, Heap, HeapPtr, RawPtr};

// One word whose meaning the tag of its pointer decides: no metadata in data.
struct PolyData {
    i_val: i64,
    ptr_val: Option<RawPtr>,
}

impl PolyData {
    fn of_int(i_val: i64) -> PolyData {
        PolyData { i_val, ptr_val: None }
    }

    fn of_ptr(ptr_val: Option<RawPtr>) -> PolyData {
        PolyData { i_val: 0, ptr_val }
    }

    fn nothing() -> PolyData {
        PolyData { i_val: 0, ptr_val: None }
    }
}

#[derive(Copy, Clone, Eq, PartialEq, Debug)]
struct PolyPtr {
    ptr: RawPtr,
    tag: PolyTag,
}

#[derive(Copy, Clone, Eq, PartialEq, Debug)]
enum PolyTag {
    Invalid,
    Int,
    Ptr,
    Nothing,
    Untyped,
}

// The items of the traits that only specifications use are never called.

impl DynSized for PolyData {
    fn align_spec() -> usize {
        unreachable!()
    }

    fn size_spec(&self) -> usize {
        unreachable!()
    }

    fn dyn_align() -> usize {
        std::mem::align_of::<i64>()
    }

    fn dyn_size(&self) -> usize {
        std::mem::size_of::<i64>()
    }
}

// GC behaviour

impl GcCandidate<PolyPtr> for PolyData {
    type Payload = i64;

    fn payload(&self) -> i64 {
        unreachable!()
    }

    fn managed_pointers(&self, _this: PolyPtr) -> Pointers<PolyPtr> {
        unreachable!()
    }

    fn pointers_follow_meta(&self, _this: PolyPtr, _moved: PolyPtr) {}

    fn collect_managed_pointers(&self, this: &PolyPtr) -> Vec<PolyPtr> {
        if this.tag == PolyTag::Untyped {
            panic!("Untyped poly pointer provided as `this`!");
        }
        if this.tag == PolyTag::Invalid {
            panic!("Invalid poly pointer provided as `this`!");
        }
        if this.tag == PolyTag::Ptr {
            return vec![PolyPtr { ptr: self.ptr_val.unwrap(), tag: PolyTag::Untyped }];
        }
        return vec![];
    }

    fn adjust_ptrs<F: Fn(&PolyPtr) -> PolyPtr>(&mut self, adjust: F, this: &PolyPtr) {
        if this.tag == PolyTag::Untyped {
            panic!("Untyped poly pointer provided as `this`!");
        }
        if this.tag == PolyTag::Invalid {
            panic!("Invalid poly pointer provided as `this`!");
        }
        if this.tag == PolyTag::Ptr {
            self.ptr_val =
                Some(adjust(&PolyPtr { ptr: self.ptr_val.unwrap(), tag: PolyTag::Untyped }).ptr);
        }
    }
}

impl HeapPtr for PolyPtr {
    fn raw(&self) -> RawPtr {
        unreachable!()
    }

    fn from_raw_spec(_raw: RawPtr) -> Self {
        unreachable!()
    }

    fn with_meta_of(&self, _other: &Self) -> Self {
        unreachable!()
    }

    fn significant_meta() -> bool {
        unreachable!()
    }

    fn from_raw_keeps_raw(_raw: RawPtr) {}

    fn meta_keeps_raw(&self, _other: &Self) {}

    fn from_raw_ptr(raw: RawPtr) -> Self {
        return PolyPtr { ptr: raw, tag: PolyTag::Invalid };
    }

    fn to_raw_ptr(&self) -> RawPtr {
        return self.ptr;
    }

    fn copy_meta(&mut self, other: &Self) {
        self.tag = other.tag;
    }

    fn has_significant_meta() -> bool {
        return true;
    }

    fn eq_ignoring_meta(&self, other: &Self) -> bool {
        return self.ptr == other.ptr;
    }

    fn equals(&self, other: &Self) -> bool {
        return self == other;
    }

    fn duplicate(&self) -> Self {
        return *self;
    }
}

#[test]
fn test_ptr_with_meta() {
    let mut heap = MarkAndSweepMem::<PolyData, PolyPtr>::new(500);

    let mut int = heap.push_with(Box::new(PolyData::of_int(1)), |mut p| { p.tag = PolyTag::Int; p }).unwrap();
    let mut l = heap.push_with(Box::new(PolyData::of_ptr(None)), |mut p| { p.tag = PolyTag::Ptr; p }).unwrap();
    let mut r = heap.push_with(Box::new(PolyData::of_ptr(None)), |mut p| { p.tag = PolyTag::Ptr; p }).unwrap();
    let mut tn = heap.push_with(Box::new(PolyData::of_ptr(None)), |mut p| { p.tag = PolyTag::Ptr; p }).unwrap();
    let mut n = heap.push_with(Box::new(PolyData::nothing()), |mut p| { p.tag = PolyTag::Nothing; p }).unwrap();

    { let x = heap.get_by(&l).unwrap(); x.ptr_val = Some(r.ptr); }
    { let y = heap.get_by(&r).unwrap(); y.ptr_val = Some(l.ptr); }
    { let z = heap.get_by(&tn).unwrap(); z.ptr_val = Some(n.ptr); }

    heap.gc(vec![&mut int, &mut l, &mut r, &mut tn, &mut n], vec![]);
    assert_eq!(heap.len(), 5);

    heap.gc(vec![&mut l, &mut tn], vec![&mut r, &mut n]);
    assert_eq!(heap.len(), 4);

    heap.gc(vec![&mut tn], vec![&mut n]);
    assert_eq!(heap.len(), 2);

    heap.gc(vec![&mut n], vec![]);
    assert_eq!(heap.len(), 1);
}

#[test]
fn metadata_survives_compaction() {
    let mut heap = MarkAndSweepMem::<PolyData, PolyPtr>::new(500);
    let int = heap.push_with(Box::new(PolyData::of_int(1)), |mut p| { p.tag = PolyTag::Int; p }).unwrap();
    let mut l = heap.push_with(Box::new(PolyData::of_ptr(None)), |mut p| { p.tag = PolyTag::Ptr; p }).unwrap();
    let mut r = heap.push_with(Box::new(PolyData::of_ptr(None)), |mut p| { p.tag = PolyTag::Ptr; p }).unwrap();
    let mut tn = heap.push_with(Box::new(PolyData::of_ptr(None)), |mut p| { p.tag = PolyTag::Ptr; p }).unwrap();
    let mut n = heap.push_with(Box::new(PolyData::nothing()), |mut p| { p.tag = PolyTag::Nothing; p }).unwrap();
    assert_eq!(int, PolyPtr { ptr: RawPtr { region: 0, addr: 0, size: 8 }, tag: PolyTag::Int });
    heap.get_by(&l).unwrap().ptr_val = Some(r.ptr);
    heap.get_by(&r).unwrap().ptr_val = Some(l.ptr);
    heap.get_by(&tn).unwrap().ptr_val = Some(n.ptr);

    heap.gc(vec![&mut l, &mut tn], vec![&mut r, &mut n]);

    assert_eq!(heap.len(), 4);
    // sweep order: n, tn, r, l
    assert_eq!(n, PolyPtr { ptr: RawPtr { region: 1, addr: 0, size: 8 }, tag: PolyTag::Nothing });
    assert_eq!(tn, PolyPtr { ptr: RawPtr { region: 1, addr: 8, size: 8 }, tag: PolyTag::Ptr });
    assert_eq!(r, PolyPtr { ptr: RawPtr { region: 1, addr: 16, size: 8 }, tag: PolyTag::Ptr });
    assert_eq!(l, PolyPtr { ptr: RawPtr { region: 1, addr: 24, size: 8 }, tag: PolyTag::Ptr });
    // each pointer inside a survivor names the survivor that it named before
    assert_eq!(heap.get_by(&l).unwrap().ptr_val, Some(r.ptr));
    assert_eq!(heap.get_by(&r).unwrap().ptr_val, Some(l.ptr));
    assert_eq!(heap.get_by(&tn).unwrap().ptr_val, Some(n.ptr));
    // a pointer with other metadata names no value
    assert!(!heap.contains_ptr(&PolyPtr { ptr: l.ptr, tag: PolyTag::Untyped }));
    assert!(heap.get_by(&PolyPtr { ptr: l.ptr, tag: PolyTag::Int }).is_none());
}

#[test]
fn full_pointer_carries_the_metadata_of_the_heap() {
    let mut heap = Heap::<PolyData, PolyPtr>::new(16);
    let a = heap.push_with(Box::new(PolyData::of_int(1)), |mut p| { p.tag = PolyTag::Int; p }).unwrap();
    let b = heap.push_with(Box::new(PolyData::of_ptr(None)), |mut p| { p.tag = PolyTag::Ptr; p }).unwrap();
    assert_eq!(heap.to_full_ptr(&PolyPtr { ptr: b.ptr, tag: PolyTag::Untyped }), b);
    assert_eq!(heap.to_full_ptr(&PolyPtr { ptr: a.ptr, tag: PolyTag::Nothing }), a);
    assert_eq!(heap.position(&b), Some(1));
    assert_eq!(heap.position(&PolyPtr { ptr: b.ptr, tag: PolyTag::Untyped }), None);
    assert_eq!(heap.ptr_at(0), a);
    // a pointer made by `push` has no metadata yet
    let mut plain = Heap::<PolyData, PolyPtr>::new(16);
    let c = plain.push(Box::new(PolyData::of_int(1))).unwrap();
    assert_eq!(c, PolyPtr { ptr: RawPtr { region: 0, addr: 0, size: 8 }, tag: PolyTag::Invalid });
}

#[test]
fn relocation_finds_by_raw_part_or_exactly() {
    let old_a = PolyPtr { ptr: RawPtr { region: 0, addr: 0, size: 8 }, tag: PolyTag::Int };
    let old_b = PolyPtr { ptr: RawPtr { region: 0, addr: 8, size: 8 }, tag: PolyTag::Ptr };
    let new_a = PolyPtr { ptr: RawPtr { region: 1, addr: 8, size: 8 }, tag: PolyTag::Int };
    let new_b = PolyPtr { ptr: RawPtr { region: 1, addr: 0, size: 8 }, tag: PolyTag::Ptr };
    let mut rel = Relocation::<PolyPtr>::new();
    assert_eq!(rel.find(&old_a, true), None);
    rel.insert(old_b, new_b);
    rel.insert(old_a, new_a);
    assert_eq!(rel.find(&old_a, true), Some(new_a));
    assert_eq!(rel.find(&old_b, false), Some(new_b));
    let untyped_b = PolyPtr { ptr: old_b.ptr, tag: PolyTag::Untyped };
    assert_eq!(rel.find(&untyped_b, false), Some(new_b));
    assert_eq!(rel.find(&untyped_b, true), None);
    // the same address in another region names another value
    let elsewhere = PolyPtr { ptr: RawPtr { region: 3, addr: 8, size: 8 }, tag: PolyTag::Ptr };
    assert_eq!(rel.find(&elsewhere, true), None);
    assert_eq!(rel.find(&elsewhere, false), None);
    assert_eq!(rel.find(&PolyPtr { ptr: RawPtr { region: 0, addr: 16, size: 8 }, tag: PolyTag::Ptr }, false), None);
}
