//! What a collection does to a heap, stated over the reference graph: which
//! values survive, where they stand afterwards, and what becomes of the pointers
//! to them.

use crate::gc::graph::{
    entry_of, is_path, lemma_root_reachable, lemma_step_reachable, names_entry, pointers_of,
    points_to, reachable, traceable,
};
use crate::gc::relocation::{image, is_first_match, lemma_match_has_image, stands_for};
use crate::gc::GcCandidate;
use crate::heap::{Heap, HeapPtr, RawPtr, footprint, lemma_laid_out_distinct, resolves_to};
use vstd::prelude::*;

verus! {

/// The new pointers of a relocation, in order.
pub open spec fn targets<Ptr: HeapPtr>(pairs: Seq<(Ptr, Ptr)>) -> Seq<Ptr> {
    Seq::new(pairs.len(), |m: int| pairs[m].1)
}

/// The region in which a collection builds the new heap: the one after
/// `region`, in which the old heap stands, and region 0 after the last one.
pub open spec fn next_region(region: usize) -> usize {
    if region == usize::MAX {
        0
    } else {
        (region + 1) as usize
    }
}

/// The pointer of a value that was moved to the address `addr` of the region
/// `to`: it keeps the size and the metadata of the pointer `old_ptr` that the
/// value had before.
pub open spec fn moved_ptr<Ptr: HeapPtr>(to: usize, addr: int, old_ptr: Ptr) -> Ptr {
    Ptr::from_raw_spec(
        RawPtr { region: to, addr: addr as usize, size: old_ptr.raw().size },
    ).with_meta_of(&old_ptr)
}

/// The marked indices from `lo` on, highest first: the order in which a sweep
/// moves the values that survive.
pub open spec fn survivors(marks: Seq<bool>, lo: int) -> Seq<int>
    decreases marks.len() - lo,
{
    if lo >= marks.len() {
        Seq::empty()
    } else if marks[lo] {
        survivors(marks, lo + 1).push(lo)
    } else {
        survivors(marks, lo + 1)
    }
}

/// The old and the new pointer of each marked value from index `lo` on, highest
/// index first. The survivors stand one after the other from address 0 of the
/// region `to`.
pub open spec fn relocation<Ptr: HeapPtr>(
    to: usize,
    dir: Seq<Ptr>,
    marks: Seq<bool>,
    lo: int,
) -> Seq<(Ptr, Ptr)>
    decreases dir.len() - lo,
{
    if lo >= dir.len() {
        Seq::empty()
    } else if marks[lo] {
        let rest = relocation(to, dir, marks, lo + 1);
        rest.push((dir[lo], moved_ptr(to, footprint(targets(rest)), dir[lo])))
    } else {
        relocation(to, dir, marks, lo + 1)
    }
}

/// The old and the new pointer of each value that a collection of `heap` with
/// the strong roots `roots` keeps, in the order in which it moves them.
pub open spec fn plan<T: GcCandidate<Ptr>, Ptr: HeapPtr>(
    heap: Heap<T, Ptr>,
    roots: Seq<Ptr>,
) -> Seq<(Ptr, Ptr)> {
    relocation(next_region(heap.region()), heap.directory(), live(heap, roots), 0)
}

/// For each index of the heap, whether the value there is reachable from `roots`.
pub open spec fn live<T: GcCandidate<Ptr>, Ptr: HeapPtr>(heap: Heap<T, Ptr>, roots: Seq<Ptr>) -> Seq<bool> {
    Seq::new(heap.directory().len(), |j: int| reachable(heap, roots, j))
}

/// Whether the value `v`, which stands at `ptr`, is the value at index `s` of
/// `heap` with its pointers rewritten: it has the same size and the same
/// payload, and each managed pointer names the new pointer that `pairs` gives
/// for the pointer that stood in its place.
pub open spec fn rewritten<T: GcCandidate<Ptr>, Ptr: HeapPtr>(
    heap: Heap<T, Ptr>,
    pairs: Seq<(Ptr, Ptr)>,
    s: int,
    v: T,
    ptr: Ptr,
) -> bool {
    &&& v.size_spec() == heap.values()[s].size_spec()
    &&& v.payload() == heap.values()[s].payload()
    &&& v.managed_pointers(ptr).len() == pointers_of(heap, s).len()
    &&& forall|k: int|
        0 <= k < pointers_of(heap, s).len() ==> {
            &&& image(pairs, pointers_of(heap, s)[k], false) is Some
            &&& resolves_to(
                #[trigger] v.managed_pointers(ptr)[k],
                image(pairs, pointers_of(heap, s)[k], false).unwrap(),
            )
        }
}

/// Whether a collection with the strong roots `roots` and the weak roots `weaks`
/// turns `heap` into `after`, and the roots into `roots_after` and `weaks_after`.
///
/// The values reachable from `roots` survive, and no others. They stand in
/// `after` in the reverse of their order in `heap`, one after the other from
/// address 0 of the next region, under pointers that keep their size and their
/// metadata. Each has the payload that it had, and every pointer that it holds
/// names the new pointer of the value that it named before. Each
/// strong root becomes the new pointer of its value. A weak root becomes the
/// new pointer of its value where that value survives, and stays as it is
/// where it does not.
pub open spec fn collects<T: GcCandidate<Ptr>, Ptr: HeapPtr>(
    heap: Heap<T, Ptr>,
    roots: Seq<Ptr>,
    weaks: Seq<Ptr>,
    after: Heap<T, Ptr>,
    roots_after: Seq<Ptr>,
    weaks_after: Seq<Ptr>,
) -> bool {
    let pairs = plan(heap, roots);
    let moved = survivors(live(heap, roots), 0);
    &&& after.wf()
    &&& after.compact()
    &&& after.cap() == heap.cap()
    &&& after.region() == next_region(heap.region())
    &&& heap.sized() ==> after.sized()
    &&& after.directory() == targets(pairs)
    &&& after.values().len() == moved.len()
    &&& moved.len() == pairs.len()
    &&& forall|m: int|
        0 <= m < moved.len() ==> rewritten(
            heap,
            pairs,
            #[trigger] moved[m],
            after.values()[m],
            after.directory()[m],
        )
    &&& roots_after.len() == roots.len()
    &&& forall|i: int|
        0 <= i < roots.len() ==> Some(#[trigger] roots_after[i]) == image(pairs, roots[i], false)
    &&& weaks_after.len() == weaks.len()
    &&& forall|i: int|
        0 <= i < weaks.len() ==> #[trigger] weaks_after[i] == match image(pairs, weaks[i], true) {
            Some(ptr) => ptr,
            None => weaks[i],
        }
}

/// The survivors are the marked indices, each once, in falling order.
pub proof fn lemma_survivors(marks: Seq<bool>, lo: int)
    requires
        0 <= lo,
    ensures
        forall|m: int|
            0 <= m < survivors(marks, lo).len() ==> lo <= #[trigger] survivors(marks, lo)[m]
                < marks.len() && marks[survivors(marks, lo)[m]],
        forall|a: int, b: int|
            0 <= a < b < survivors(marks, lo).len() ==> #[trigger] survivors(marks, lo)[a]
                > #[trigger] survivors(marks, lo)[b],
        forall|j: int|
            lo <= j < marks.len() && marks[j] ==> #[trigger] survivors(marks, lo).contains(j),
    decreases marks.len() - lo,
{
    if lo < marks.len() {
        lemma_survivors(marks, lo + 1);
        let rest = survivors(marks, lo + 1);
        let all = survivors(marks, lo);
        assert forall|j: int| lo <= j < marks.len() && marks[j] implies #[trigger] all.contains(
            j,
        ) by {
            if j == lo {
                assert(all[all.len() - 1] == lo);
            } else {
                assert(rest.contains(j));
                let m = choose|m: int| 0 <= m < rest.len() && rest[m] == j;
                assert(all[m] == j);
            }
        }
    }
}

/// The old pointers of the relocation are the pointers of the survivors.
pub proof fn lemma_relocation_sources<Ptr: HeapPtr>(
    to: usize,
    dir: Seq<Ptr>,
    marks: Seq<bool>,
    lo: int,
)
    requires
        0 <= lo,
        marks.len() == dir.len(),
    ensures
        relocation(to, dir, marks, lo).len() == survivors(marks, lo).len(),
        forall|m: int|
            0 <= m < survivors(marks, lo).len() ==> (#[trigger] relocation(to, dir, marks, lo)[m]).0
                == dir[survivors(marks, lo)[m]],
    decreases dir.len() - lo,
{
    if lo < dir.len() {
        lemma_relocation_sources(to, dir, marks, lo + 1);
    }
}

/// Each pointer held by a reachable value has a new pointer.
pub proof fn lemma_pointer_relocated<T: GcCandidate<Ptr>, Ptr: HeapPtr>(
    heap: Heap<T, Ptr>,
    roots: Seq<Ptr>,
    s: int,
    k: int,
)
    requires
        heap.wf(),
        traceable(heap, roots),
        0 <= s < heap.directory().len(),
        reachable(heap, roots, s),
        0 <= k < pointers_of(heap, s).len(),
    ensures
        image(plan(heap, roots), pointers_of(heap, s)[k], false)
            is Some,
{
    let p = pointers_of(heap, s)[k];
    let e = entry_of(heap, p);
    assert(names_entry(heap, p));
    assert(points_to(heap, s, e));
    lemma_step_reachable(heap, roots, s, e);
    let marks = live(heap, roots);
    let moved = survivors(marks, 0);
    lemma_survivors(marks, 0);
    lemma_relocation_sources(next_region(heap.region()), heap.directory(), marks, 0);
    assert(moved.contains(e));
    let m = choose|m: int| 0 <= m < moved.len() && moved[m] == e;
    let pairs = relocation(next_region(heap.region()), heap.directory(), marks, 0);
    assert(pairs[m].0 == heap.directory()[e]);
    lemma_match_has_image(pairs, p, false, m);
}

/// Each strong root has a new pointer.
pub proof fn lemma_root_relocated<T: GcCandidate<Ptr>, Ptr: HeapPtr>(
    heap: Heap<T, Ptr>,
    roots: Seq<Ptr>,
    i: int,
)
    requires
        heap.wf(),
        traceable(heap, roots),
        0 <= i < roots.len(),
    ensures
        image(plan(heap, roots), roots[i], false) is Some,
{
    let e = heap.directory().index_of(roots[i]);
    assert(heap.directory().contains(roots[i]));
    assert(roots.contains(heap.directory()[e]));
    lemma_root_reachable(heap, roots, e);
    let marks = live(heap, roots);
    let moved = survivors(marks, 0);
    lemma_survivors(marks, 0);
    lemma_relocation_sources(next_region(heap.region()), heap.directory(), marks, 0);
    assert(moved.contains(e));
    let m = choose|m: int| 0 <= m < moved.len() && moved[m] == e;
    let pairs = relocation(next_region(heap.region()), heap.directory(), marks, 0);
    assert(pairs[m].0 == heap.directory()[e]);
    lemma_match_has_image(pairs, roots[i], false, m);
}

/// The value that the sweep moves as its `m`-th holds under its new pointer the
/// pointers that it held under its old one.
pub proof fn lemma_moved_keeps_pointers<T: GcCandidate<Ptr>, Ptr: HeapPtr>(
    to: usize,
    dir: Seq<Ptr>,
    marks: Seq<bool>,
    lo: int,
    m: int,
    v: T,
)
    requires
        0 <= lo,
        0 <= m < relocation(to, dir, marks, lo).len(),
    ensures
        v.managed_pointers(relocation(to, dir, marks, lo)[m].1) == v.managed_pointers(
            relocation(to, dir, marks, lo)[m].0,
        ),
    decreases dir.len() - lo,
{
    if lo < dir.len() {
        let rest = relocation(to, dir, marks, lo + 1);
        if m < rest.len() {
            lemma_moved_keeps_pointers(to, dir, marks, lo + 1, m, v);
        } else {
            let fresh = Ptr::from_raw_spec(
                RawPtr {
                    region: to,
                    addr: footprint(targets(rest)) as usize,
                    size: dir[lo].raw().size,
                },
            );
            v.pointers_follow_meta(dir[lo], fresh);
        }
    }
}

/// The position in the new heap of the value that stood at index `e` of the old one.
pub open spec fn place_of(marks: Seq<bool>, e: int) -> int {
    choose|m: int| 0 <= m < survivors(marks, 0).len() && survivors(marks, 0)[m] == e
}

/// A pointer that stands for the pointer of a reachable value is relocated to the
/// new pointer of that value.
pub proof fn lemma_image_is_new_ptr<T: GcCandidate<Ptr>, Ptr: HeapPtr>(
    heap: Heap<T, Ptr>,
    roots: Seq<Ptr>,
    ptr: Ptr,
    exact: bool,
    e: int,
)
    requires
        heap.wf(),
        0 <= e < heap.directory().len(),
        stands_for(ptr, heap.directory()[e], exact),
        reachable(heap, roots, e),
    ensures
        0 <= place_of(live(heap, roots), e) < survivors(live(heap, roots), 0).len(),
        survivors(live(heap, roots), 0)[place_of(live(heap, roots), e)] == e,
        image(plan(heap, roots), ptr, exact) == Some(
            plan(heap, roots)[place_of(live(heap, roots), e)].1,
        ),
{
    let dir = heap.directory();
    let marks = live(heap, roots);
    let moved = survivors(marks, 0);
    let to = next_region(heap.region());
    let pairs = relocation(to, dir, marks, 0);
    lemma_survivors(marks, 0);
    lemma_relocation_sources(to, dir, marks, 0);
    assert(moved.contains(e));
    let m = place_of(marks, e);
    assert(pairs[m].0 == dir[e]);
    lemma_match_has_image(pairs, ptr, exact, m);
    let f = choose|f: int| is_first_match(pairs, ptr, exact, f);
    assert(pairs[f].0 == dir[moved[f]]);
    lemma_laid_out_distinct(dir, heap.used() as int, moved[f], e);
    if f < m {
        assert(moved[f] > moved[m]);
    } else if m < f {
        assert(moved[m] > moved[f]);
    }
}

/// A pointer that stands for no pointer of a reachable value is not relocated.
pub proof fn lemma_no_image<T: GcCandidate<Ptr>, Ptr: HeapPtr>(
    heap: Heap<T, Ptr>,
    roots: Seq<Ptr>,
    ptr: Ptr,
    exact: bool,
)
    requires
        forall|e: int|
            0 <= e < heap.directory().len() && stands_for(ptr, #[trigger] heap.directory()[e], exact)
                ==> !reachable(heap, roots, e),
    ensures
        image(plan(heap, roots), ptr, exact) is None,
{
    let dir = heap.directory();
    let marks = live(heap, roots);
    let moved = survivors(marks, 0);
    let to = next_region(heap.region());
    let pairs = relocation(to, dir, marks, 0);
    lemma_survivors(marks, 0);
    lemma_relocation_sources(to, dir, marks, 0);
    if image(pairs, ptr, exact) is Some {
        let f = choose|f: int| is_first_match(pairs, ptr, exact, f);
        assert(pairs[f].0 == dir[moved[f]]);
        assert(marks[moved[f]]);
    }
}

/// Mark closure: a collection keeps the value at index `j` if and only if it is
/// reachable from the strong roots. The values kept are those that
/// `survivors` lists.
pub proof fn lemma_kept_iff_reachable<T: GcCandidate<Ptr>, Ptr: HeapPtr>(
    heap: Heap<T, Ptr>,
    roots: Seq<Ptr>,
    j: int,
)
    requires
        0 <= j < heap.directory().len(),
    ensures
        survivors(live(heap, roots), 0).contains(j) <==> reachable(heap, roots, j),
{
    lemma_survivors(live(heap, roots), 0);
}

/// Pointer identity: after a collection each strong root points to the value
/// that it pointed to before, with the pointers in it rewritten.
pub proof fn lemma_root_keeps_value<T: GcCandidate<Ptr>, Ptr: HeapPtr>(
    heap: Heap<T, Ptr>,
    roots: Seq<Ptr>,
    weaks: Seq<Ptr>,
    after: Heap<T, Ptr>,
    roots_after: Seq<Ptr>,
    weaks_after: Seq<Ptr>,
    i: int,
)
    requires
        heap.wf(),
        traceable(heap, roots),
        collects(heap, roots, weaks, after, roots_after, weaks_after),
        0 <= i < roots.len(),
    ensures
        ({
            let e = heap.directory().index_of(roots[i]);
            let m = place_of(live(heap, roots), e);
            &&& 0 <= m < after.directory().len()
            &&& after.directory()[m] == roots_after[i]
            &&& rewritten(
                heap,
                plan(heap, roots),
                e,
                after.values()[m],
                roots_after[i],
            )
        }),
{
    let e = heap.directory().index_of(roots[i]);
    assert(heap.directory().contains(roots[i]));
    assert(roots.contains(heap.directory()[e]));
    lemma_root_reachable(heap, roots, e);
    lemma_image_is_new_ptr(heap, roots, roots[i], false, e);
    let m = place_of(live(heap, roots), e);
    assert(survivors(live(heap, roots), 0)[m] == e);
}

/// Internal-pointer validity: after a collection every pointer held by a value
/// of the new heap names a value of the new heap.
pub proof fn lemma_survivors_point_to_survivors<T: GcCandidate<Ptr>, Ptr: HeapPtr>(
    heap: Heap<T, Ptr>,
    roots: Seq<Ptr>,
    weaks: Seq<Ptr>,
    after: Heap<T, Ptr>,
    roots_after: Seq<Ptr>,
    weaks_after: Seq<Ptr>,
)
    requires
        heap.wf(),
        collects(heap, roots, weaks, after, roots_after, weaks_after),
    ensures
        forall|m: int, k: int|
            0 <= m < after.directory().len() && 0 <= k < pointers_of(after, m).len()
                ==> names_entry(after, #[trigger] pointers_of(after, m)[k]),
{
    let pairs = plan(heap, roots);
    let moved = survivors(live(heap, roots), 0);
    assert forall|m: int, k: int|
        0 <= m < after.directory().len() && 0 <= k < pointers_of(after, m).len() implies names_entry(
        after,
        #[trigger] pointers_of(after, m)[k],
    ) by {
        assert(rewritten(heap, pairs, moved[m], after.values()[m], after.directory()[m]));
        let old_ptr = pointers_of(heap, moved[m])[k];
        let new_ptr = after.values()[m].managed_pointers(after.directory()[m])[k];
        assert(new_ptr == pointers_of(after, m)[k]);
        assert(image(pairs, old_ptr, false) is Some);
        let f = choose|f: int| is_first_match(pairs, old_ptr, false, f);
        assert(image(pairs, old_ptr, false) == Some(pairs[f].1));
        assert(after.directory()[f] == pairs[f].1);
        assert(resolves_to(pointers_of(after, m)[k], after.directory()[f]));
    }
}

/// Weak behaviour: a weak root whose value is reachable from the strong roots
/// becomes the new pointer of that value, and any other weak root stays as it
/// is. The weak roots have no part in which values survive.
pub proof fn lemma_weak_root<T: GcCandidate<Ptr>, Ptr: HeapPtr>(
    heap: Heap<T, Ptr>,
    roots: Seq<Ptr>,
    weaks: Seq<Ptr>,
    after: Heap<T, Ptr>,
    roots_after: Seq<Ptr>,
    weaks_after: Seq<Ptr>,
    i: int,
)
    requires
        heap.wf(),
        collects(heap, roots, weaks, after, roots_after, weaks_after),
        0 <= i < weaks.len(),
    ensures
        ({
            let e = heap.directory().index_of(weaks[i]);
            if heap.directory().contains(weaks[i]) && reachable(heap, roots, e) {
                let m = place_of(live(heap, roots), e);
                &&& 0 <= m < after.directory().len()
                &&& survivors(live(heap, roots), 0)[m] == e
                &&& weaks_after[i] == after.directory()[m]
            } else {
                weaks_after[i] == weaks[i]
            }
        }),
{
    let e = heap.directory().index_of(weaks[i]);
    if heap.directory().contains(weaks[i]) && reachable(heap, roots, e) {
        lemma_image_is_new_ptr(heap, roots, weaks[i], true, e);
    } else {
        assert forall|x: int|
            0 <= x < heap.directory().len() && stands_for(
                weaks[i],
                #[trigger] heap.directory()[x],
                true,
            ) implies !reachable(heap, roots, x) by {
            assert(heap.directory().contains(weaks[i]));
            lemma_laid_out_distinct(heap.directory(), heap.used() as int, x, e);
        }
        lemma_no_image(heap, roots, weaks[i], true);
    }
}

/// Where every entry from `lo` on is marked, every index from `lo` on survives.
pub proof fn lemma_survivors_all(marks: Seq<bool>, lo: int)
    requires
        0 <= lo <= marks.len(),
        forall|j: int| lo <= j < marks.len() ==> marks[j],
    ensures
        survivors(marks, lo).len() == marks.len() - lo,
    decreases marks.len() - lo,
{
    if lo < marks.len() {
        lemma_survivors_all(marks, lo + 1);
    }
}

/// The end of a path of the old heap is reachable in the new heap from the
/// new roots.
pub proof fn lemma_path_transfers<T: GcCandidate<Ptr>, Ptr: HeapPtr>(
    heap: Heap<T, Ptr>,
    roots: Seq<Ptr>,
    weaks: Seq<Ptr>,
    after: Heap<T, Ptr>,
    roots_after: Seq<Ptr>,
    weaks_after: Seq<Ptr>,
    path: Seq<int>,
)
    requires
        heap.wf(),
        collects(heap, roots, weaks, after, roots_after, weaks_after),
        is_path(heap, roots, path),
    ensures
        0 <= place_of(live(heap, roots), path.last()) < after.directory().len(),
        survivors(live(heap, roots), 0)[place_of(live(heap, roots), path.last())] == path.last(),
        reachable(after, roots_after, place_of(live(heap, roots), path.last())),
    decreases path.len(),
{
    let dir = heap.directory();
    let marks = live(heap, roots);
    let to = next_region(heap.region());
    let pairs = relocation(to, dir, marks, 0);
    let moved = survivors(marks, 0);
    let b = path.last();
    assert(reachable(heap, roots, b));
    if path.len() == 1 {
        assert(path[0] == b);
        let i = choose|i: int| 0 <= i < roots.len() && roots[i] == dir[b];
        lemma_image_is_new_ptr(heap, roots, roots[i], false, b);
        let m = place_of(marks, b);
        assert(after.directory()[m] == pairs[m].1);
        assert(Some(roots_after[i]) == image(pairs, roots[i], false));
        assert(roots_after.contains(after.directory()[m]));
        lemma_root_reachable(after, roots_after, m);
    } else {
        let front = path.drop_last();
        assert(is_path(heap, roots, front)) by {
            assert(front[0] == path[0]);
            assert forall|s: int| 0 <= s < front.len() - 1 implies points_to(
                heap,
                #[trigger] front[s],
                front[s + 1],
            ) by {
                assert(front[s] == path[s]);
                assert(front[s + 1] == path[s + 1]);
            }
        }
        lemma_path_transfers(heap, roots, weaks, after, roots_after, weaks_after, front);
        let a = front.last();
        assert(a == path[path.len() - 2]);
        assert(points_to(heap, a, b));
        let k = choose|k: int|
            0 <= k < pointers_of(heap, a).len() && resolves_to(
                #[trigger] pointers_of(heap, a)[k],
                dir[b],
            );
        let ma = place_of(marks, a);
        lemma_image_is_new_ptr(heap, roots, pointers_of(heap, a)[k], false, b);
        let mb = place_of(marks, b);
        assert(rewritten(heap, pairs, moved[ma], after.values()[ma], after.directory()[ma]));
        assert(after.directory()[mb] == pairs[mb].1);
        let new_ptr = after.values()[ma].managed_pointers(after.directory()[ma])[k];
        assert(new_ptr == pointers_of(after, ma)[k]);
        assert(resolves_to(new_ptr, after.directory()[mb]));
        assert(points_to(after, ma, mb));
        lemma_step_reachable(after, roots_after, ma, mb);
    }
}

/// Idempotence: after a collection every value of the new heap is reachable from
/// the new strong roots, so a second collection with these roots may follow and
/// keeps them all.
pub proof fn lemma_collection_settles<T: GcCandidate<Ptr>, Ptr: HeapPtr>(
    heap: Heap<T, Ptr>,
    roots: Seq<Ptr>,
    weaks: Seq<Ptr>,
    after: Heap<T, Ptr>,
    roots_after: Seq<Ptr>,
    weaks_after: Seq<Ptr>,
)
    requires
        heap.wf(),
        traceable(heap, roots),
        collects(heap, roots, weaks, after, roots_after, weaks_after),
    ensures
        traceable(after, roots_after),
        forall|m: int| 0 <= m < after.directory().len() ==> reachable(after, roots_after, m),
        survivors(live(after, roots_after), 0).len() == after.directory().len(),
{
    let marks = live(heap, roots);
    let moved = survivors(marks, 0);
    lemma_survivors(marks, 0);
    assert forall|m: int| 0 <= m < after.directory().len() implies reachable(
        after,
        roots_after,
        m,
    ) by {
        let e = moved[m];
        assert(marks[e]);
        let path = choose|path: Seq<int>| #[trigger] is_path(heap, roots, path) && path.last() == e;
        lemma_path_transfers(heap, roots, weaks, after, roots_after, weaks_after, path);
        let p = place_of(marks, e);
        if p < m {
            assert(moved[p] > moved[m]);
        } else if m < p {
            assert(moved[m] > moved[p]);
        }
    }
    assert forall|i: int| 0 <= i < roots_after.len() implies after.directory().contains(
        #[trigger] roots_after[i],
    ) by {
        lemma_root_keeps_value(heap, roots, weaks, after, roots_after, weaks_after, i);
    }
    lemma_survivors_point_to_survivors(heap, roots, weaks, after, roots_after, weaks_after);
    lemma_survivors_all(live(after, roots_after), 0);
}

/// A pointer into the old heap, whether its value survived or not, is no
/// pointer of the new heap, and neither is a pointer into any other region than
/// the one in which the new heap stands.
pub proof fn lemma_old_pointers_gone<T: GcCandidate<Ptr>, Ptr: HeapPtr>(
    heap: Heap<T, Ptr>,
    roots: Seq<Ptr>,
    weaks: Seq<Ptr>,
    after: Heap<T, Ptr>,
    roots_after: Seq<Ptr>,
    weaks_after: Seq<Ptr>,
    ptr: Ptr,
)
    requires
        collects(heap, roots, weaks, after, roots_after, weaks_after),
        ptr.raw().region == heap.region() || ptr.raw().region != next_region(heap.region()),
    ensures
        !after.directory().contains(ptr),
{
    if after.directory().contains(ptr) {
        let m = after.directory().index_of(ptr);
        assert(after.directory()[m].raw().region == after.region());
    }
}

/// No pointer of the old directory is in the new directory.
pub proof fn lemma_directories_disjoint<T: GcCandidate<Ptr>, Ptr: HeapPtr>(
    heap: Heap<T, Ptr>,
    roots: Seq<Ptr>,
    weaks: Seq<Ptr>,
    after: Heap<T, Ptr>,
    roots_after: Seq<Ptr>,
    weaks_after: Seq<Ptr>,
)
    requires
        heap.wf(),
        collects(heap, roots, weaks, after, roots_after, weaks_after),
    ensures
        forall|i: int|
            0 <= i < heap.directory().len() ==> !after.directory().contains(
                #[trigger] heap.directory()[i],
            ),
{
    assert forall|i: int| 0 <= i < heap.directory().len() implies !after.directory().contains(
        #[trigger] heap.directory()[i],
    ) by {
        lemma_old_pointers_gone(
            heap,
            roots,
            weaks,
            after,
            roots_after,
            weaks_after,
            heap.directory()[i],
        );
    }
}

/// A collection of a heap none of whose values is reachable leaves an empty
/// heap with no byte in use: it accepts values up to its full capacity again.
pub proof fn lemma_unreachable_reclaimed<T: GcCandidate<Ptr>, Ptr: HeapPtr>(
    heap: Heap<T, Ptr>,
    roots: Seq<Ptr>,
    weaks: Seq<Ptr>,
    after: Heap<T, Ptr>,
    roots_after: Seq<Ptr>,
    weaks_after: Seq<Ptr>,
)
    requires
        collects(heap, roots, weaks, after, roots_after, weaks_after),
        forall|j: int| 0 <= j < heap.directory().len() ==> !reachable(heap, roots, j),
    ensures
        after.directory().len() == 0,
        after.values().len() == 0,
        after.used() == 0,
        after.cap() == heap.cap(),
{
    let marks = live(heap, roots);
    let moved = survivors(marks, 0);
    lemma_survivors(marks, 0);
    if moved.len() > 0 {
        assert(marks[moved[0]]);
    }
    assert(after.directory().len() == 0);
}

/// Without strong roots no value is reachable.
pub proof fn lemma_no_roots_unreachable<T: GcCandidate<Ptr>, Ptr: HeapPtr>(
    heap: Heap<T, Ptr>,
    roots: Seq<Ptr>,
    j: int,
)
    requires
        roots.len() == 0,
    ensures
        !reachable(heap, roots, j),
        traceable(heap, roots),
{
    assert forall|x: int| !reachable(heap, roots, x) by {
        if reachable(heap, roots, x) {
            let path = choose|path: Seq<int>| #[trigger]
                is_path(heap, roots, path) && path.last() == x;
            assert(roots.contains(heap.directory()[path[0]]));
        }
    }
}

} // verus!
