use std::cell::Cell;
use std::rc::Rc;

use swifer::gc::{GcCandidate, Pointers};
use swifer::heap::{DynSized, Heap, HeapPtr, RawPtr};

// setup the heap allocated struct

#[derive(Debug)]
struct MyUnsized {
    bad: Vec<u8>,
    // check dropping
    drop_counter: Rc<Cell<u8>>,
}

impl MyUnsized {
    fn new(bad: &[u8], drop_counter: &Rc<Cell<u8>>) -> Box<MyUnsized> {
        // a stored value occupies at least one byte
        assert!(!bad.is_empty());
        Box::new(MyUnsized { bad: bad.to_vec(), drop_counter: drop_counter.clone() })
    }
}

impl Drop for MyUnsized {
    fn drop(&mut self) {
        self.drop_counter.set(self.drop_counter.get() + 1);
    }
}

// The items of the traits that only specifications use are never called.

impl DynSized for MyUnsized {
    fn align_spec() -> usize {
        unreachable!()
    }

    fn size_spec(&self) -> usize {
        unreachable!()
    }

    fn dyn_align() -> usize {
        std::mem::align_of::<u8>()
    }

    fn dyn_size(&self) -> usize {
        self.bad.len()
    }
}

impl GcCandidate for MyUnsized {
    type Payload = Vec<u8>;

    fn payload(&self) -> Vec<u8> {
        unreachable!()
    }

    fn managed_pointers(&self, _this: RawPtr) -> Pointers<RawPtr> {
        unreachable!()
    }

    fn pointers_follow_meta(&self, _this: RawPtr, _moved: RawPtr) {}

    fn collect_managed_pointers(&self, _this: &RawPtr) -> Vec<RawPtr> {
        Vec::new()
    }

    fn adjust_ptrs<F: Fn(&RawPtr) -> RawPtr>(&mut self, _: F, _this: &RawPtr) {}
}

#[test]
fn test_basic_push_drop() {
    let drop_counter = Rc::new(Cell::new(0));

    let mut heap = Heap::<MyUnsized>::new(100);
    heap.push(MyUnsized::new(&[1, 2, 3], &drop_counter)).unwrap();

    drop(heap);

    assert_eq!(drop_counter.get(), 1);

    let mut heap2 = Heap::<MyUnsized>::new(100);
    heap2.push(MyUnsized::new(&[4], &drop_counter)).unwrap();
    heap2.push(MyUnsized::new(&[5, 6, 7], &drop_counter)).unwrap();

    drop(heap2);

    assert_eq!(drop_counter.get(), 3);
}

#[test]
fn push_hands_out_addresses_in_order() {
    let drop_counter = Rc::new(Cell::new(0));
    let mut heap = Heap::<MyUnsized>::new(8);
    assert_eq!(heap.capacity(), 8);
    assert_eq!(heap.len(), 0);
    let a = heap.push(MyUnsized::new(&[1, 2, 3], &drop_counter)).unwrap();
    let b = heap.push(MyUnsized::new(&[4], &drop_counter)).unwrap();
    assert_eq!(a, RawPtr { region: 0, addr: 0, size: 3 });
    assert_eq!(b, RawPtr { region: 0, addr: 3, size: 1 });
    assert_eq!(heap.len(), 2);
    // five bytes do not fit into the four that are left, four do
    assert!(heap.push(MyUnsized::new(&[5, 6, 7, 8, 9], &drop_counter)).is_none());
    assert_eq!(heap.len(), 2);
    let c = heap.push(MyUnsized::new(&[5, 6, 7, 8], &drop_counter)).unwrap();
    assert_eq!(c, RawPtr { region: 0, addr: 4, size: 4 });
    assert!(heap.push(MyUnsized::new(&[9], &drop_counter)).is_none());
    assert_eq!(heap.capacity(), 8);
}

#[test]
fn pushed_value_is_found_by_its_pointer() {
    let drop_counter = Rc::new(Cell::new(0));
    let mut heap = Heap::<MyUnsized>::new(100);
    let a = heap.push(MyUnsized::new(&[1, 2, 3], &drop_counter)).unwrap();
    let b = heap.push(MyUnsized::new(&[4], &drop_counter)).unwrap();
    assert_eq!(heap.get_by(&a).unwrap().bad, vec![1, 2, 3]);
    assert_eq!(heap.get_by(&b).unwrap().bad, vec![4]);
    let c = heap.push(MyUnsized::new(&[5, 6], &drop_counter)).unwrap();
    assert_eq!(heap.get_by(&a).unwrap().bad, vec![1, 2, 3]);
    assert_eq!(heap.get_by(&c).unwrap().bad, vec![5, 6]);
    assert_eq!(heap.get(1).bad, vec![4]);
    heap.get_mut(1).bad[0] = 9;
    assert_eq!(heap.get_by(&b).unwrap().bad, vec![9]);
    assert!(heap.contains_ptr(&c));
    assert!(!heap.contains_ptr(&RawPtr { region: 0, addr: 3, size: 2 }));
    assert!(heap.get_by(&RawPtr { region: 0, addr: 1, size: 1 }).is_none());
    assert_eq!(heap.position(&b), Some(1));
    assert_eq!(heap.ptr_at(2), c);
    assert_eq!(heap.to_full_ptr(&b), b);
}

#[test]
fn take_keeps_order_and_used_bytes() {
    let drop_counter = Rc::new(Cell::new(0));
    let mut heap = Heap::<MyUnsized>::new(6);
    let a = heap.push(MyUnsized::new(&[1, 2], &drop_counter)).unwrap();
    let b = heap.push(MyUnsized::new(&[3, 4], &drop_counter)).unwrap();
    let c = heap.push(MyUnsized::new(&[5, 6], &drop_counter)).unwrap();
    let (v, p) = heap.take(1);
    assert_eq!(p, b);
    assert_eq!(v.bad, vec![3, 4]);
    assert_eq!(heap.len(), 2);
    assert_eq!(heap.ptr_at(0), a);
    assert_eq!(heap.ptr_at(1), c);
    assert_eq!(heap.get(1).bad, vec![5, 6]);
    // the bytes of the taken value stay occupied
    assert!(heap.push(MyUnsized::new(&[7], &drop_counter)).is_none());
    assert_eq!(drop_counter.get(), 1);
    drop(v);
    assert_eq!(drop_counter.get(), 2);
    heap.reset();
    assert_eq!(drop_counter.get(), 4);
    assert_eq!(heap.len(), 0);
    let d = heap.push(MyUnsized::new(&[1, 2, 3, 4, 5, 6], &drop_counter)).unwrap();
    assert_eq!(d, RawPtr { region: 0, addr: 0, size: 6 });
}

#[test]
fn for_each_visits_in_push_order() {
    let drop_counter = Rc::new(Cell::new(0));
    let mut heap = Heap::<MyUnsized>::new(100);
    let a = heap.push(MyUnsized::new(&[1, 2], &drop_counter)).unwrap();
    let b = heap.push(MyUnsized::new(&[3], &drop_counter)).unwrap();
    let seen = std::cell::RefCell::new(Vec::new());
    heap.for_each(|v: &MyUnsized, p: &RawPtr| seen.borrow_mut().push((v.bad[0], *p)));
    assert_eq!(seen.into_inner(), vec![(1, a), (3, b)]);
    heap.for_each_mut(|v: &mut MyUnsized, p: &RawPtr| v.bad[0] += p.size as u8);
    assert_eq!(heap.get(0).bad, vec![3, 2]);
    assert_eq!(heap.get(1).bad, vec![4]);
}

#[test]
fn raw_pointers_carry_no_metadata() {
    let a = RawPtr::from_raw_ptr(RawPtr { region: 0, addr: 4, size: 2 });
    assert_eq!(a.to_raw_ptr(), RawPtr { region: 0, addr: 4, size: 2 });
    let mut b = a.duplicate();
    b.copy_meta(&RawPtr { region: 0, addr: 9, size: 9 });
    assert_eq!(b, a);
    assert!(!RawPtr::has_significant_meta());
    assert!(a.equals(&b));
    assert!(a.eq_ignoring_meta(&b));
    assert!(!a.equals(&RawPtr { region: 0, addr: 4, size: 3 }));
    assert!(!a.equals(&RawPtr { region: 1, addr: 4, size: 2 }));
    assert!(!a.eq_ignoring_meta(&RawPtr { region: 1, addr: 4, size: 2 }));
    assert!(!a.eq_ignoring_meta(&RawPtr { region: 0, addr: 5, size: 2 }));
}

#[test]
fn heaps_stand_in_their_regions() {
    let drop_counter = Rc::new(Cell::new(0));
    let mut first = Heap::<MyUnsized>::new(8);
    let mut second = Heap::<MyUnsized>::new_in(1, 8);
    assert_eq!(first.region_of(), 0);
    assert_eq!(second.region_of(), 1);
    let a = first.push(MyUnsized::new(&[1, 2], &drop_counter)).unwrap();
    let b = second.push(MyUnsized::new(&[3, 4], &drop_counter)).unwrap();
    assert_eq!(a, RawPtr { region: 0, addr: 0, size: 2 });
    assert_eq!(b, RawPtr { region: 1, addr: 0, size: 2 });
    assert!(!first.contains_ptr(&b));
    assert!(!second.contains_ptr(&a));
    assert!(first.get_by(&b).is_none());
}
