//! The relocation table of a collection: which pointer each moved value had, and
//! which it has now.

use crate::heap::{HeapPtr, resolves_to};
use std::collections::HashMap;
use vstd::prelude::*;

verus! {

/// Whether `ptr` stands for `key`: by full equality where `exact` is set, and
/// otherwise as a pointer that a value emits stands for a directory entry.
pub open spec fn stands_for<Ptr: HeapPtr>(ptr: Ptr, key: Ptr, exact: bool) -> bool {
    if exact {
        ptr == key
    } else {
        resolves_to(ptr, key)
    }
}

/// Whether `m` is the first position of `pairs` whose old pointer `ptr` stands for.
pub open spec fn is_first_match<Ptr: HeapPtr>(
    pairs: Seq<(Ptr, Ptr)>,
    ptr: Ptr,
    exact: bool,
    m: int,
) -> bool {
    &&& 0 <= m < pairs.len()
    &&& stands_for(ptr, pairs[m].0, exact)
    &&& forall|i: int| 0 <= i < m ==> !stands_for(ptr, (#[trigger] pairs[i]).0, exact)
}

/// The new pointer of the first pair whose old pointer `ptr` stands for, if there is one.
pub open spec fn image<Ptr: HeapPtr>(pairs: Seq<(Ptr, Ptr)>, ptr: Ptr, exact: bool) -> Option<Ptr> {
    if exists|m: int| is_first_match(pairs, ptr, exact, m) {
        Some(pairs[choose|m: int| is_first_match(pairs, ptr, exact, m)].1)
    } else {
        None
    }
}

/// A pointer has at most one first match.
pub proof fn lemma_first_match_unique<Ptr: HeapPtr>(
    pairs: Seq<(Ptr, Ptr)>,
    ptr: Ptr,
    exact: bool,
    m: int,
)
    requires
        is_first_match(pairs, ptr, exact, m),
    ensures
        image(pairs, ptr, exact) == Some(pairs[m].1),
{
    let c = choose|c: int| is_first_match(pairs, ptr, exact, c);
    if c < m {
        assert(!stands_for(ptr, pairs[c].0, exact));
    } else if m < c {
        assert(!stands_for(ptr, pairs[m].0, exact));
    }
}

/// A pointer that stands for some old pointer has an image.
pub proof fn lemma_match_has_image<Ptr: HeapPtr>(
    pairs: Seq<(Ptr, Ptr)>,
    ptr: Ptr,
    exact: bool,
    m: int,
)
    requires
        0 <= m < pairs.len(),
        stands_for(ptr, pairs[m].0, exact),
    ensures
        image(pairs, ptr, exact) is Some,
    decreases m,
{
    if exists|i: int| 0 <= i < m && stands_for(ptr, (#[trigger] pairs[i]).0, exact) {
        let i = choose|i: int| 0 <= i < m && stands_for(ptr, (#[trigger] pairs[i]).0, exact);
        lemma_match_has_image(pairs, ptr, exact, i);
    } else {
        lemma_first_match_unique(pairs, ptr, exact, m);
    }
}

/// A pointer that stands for no old pointer has no image.
pub proof fn lemma_no_match<Ptr: HeapPtr>(pairs: Seq<(Ptr, Ptr)>, ptr: Ptr, exact: bool)
    requires
        forall|i: int| 0 <= i < pairs.len() ==> !stands_for(ptr, (#[trigger] pairs[i]).0, exact),
    ensures
        image(pairs, ptr, exact) is None,
{
    if exists|m: int| is_first_match(pairs, ptr, exact, m) {
        let m = choose|m: int| is_first_match(pairs, ptr, exact, m);
        assert(!stands_for(ptr, pairs[m].0, exact));
    }
}

/// Whether some pair of `pairs` has an old pointer at the address `addr`.
pub open spec fn holds_addr<Ptr: HeapPtr>(pairs: Seq<(Ptr, Ptr)>, addr: usize) -> bool {
    exists|m: int| 0 <= m < pairs.len() && (#[trigger] pairs[m]).0.raw().addr == addr
}

/// Pairs of an old and a new pointer, in the order in which they were inserted,
/// found by the address of the old pointer. No two old pointers share an
/// address.
pub struct Relocation<Ptr> {
    table: HashMap<usize, (Ptr, Ptr)>,
    pairs: Ghost<Seq<(Ptr, Ptr)>>,
}

impl<Ptr: HeapPtr> Relocation<Ptr> {
    /// The pairs of this table.
    pub closed spec fn pairs(&self) -> Seq<(Ptr, Ptr)> {
        self.pairs@
    }

    /// The invariant of a table: it holds each pair under the address of its old
    /// pointer, and nothing else.
    pub closed spec fn wf(&self) -> bool {
        &&& forall|m: int|
            0 <= m < self.pairs@.len() ==> self.table@.contains_key(
                (#[trigger] self.pairs@[m]).0.raw().addr,
            ) && self.table@[self.pairs@[m].0.raw().addr] == self.pairs@[m]
        &&& forall|addr: usize| #[trigger]
            self.table@.contains_key(addr) ==> holds_addr(self.pairs@, addr)
    }

    /// Creates an empty table.
    pub fn new() -> (rel: Self)
        ensures
            rel.wf(),
            rel.pairs() =~= Seq::<(Ptr, Ptr)>::empty(),
    {
        Relocation { table: HashMap::new(), pairs: Ghost(Seq::empty()) }
    }

    /// Records that the value at `old_ptr` now stands at `new_ptr`.
    pub fn insert(&mut self, old_ptr: Ptr, new_ptr: Ptr)
        requires
            old(self).wf(),
            !holds_addr(old(self).pairs(), old_ptr.raw().addr),
        ensures
            final(self).wf(),
            final(self).pairs() == old(self).pairs().push((old_ptr, new_ptr)),
    {
        let addr = old_ptr.to_raw_ptr().addr;
        let ghost pair = (old_ptr, new_ptr);
        let ghost before = self.pairs@;
        self.table.insert(addr, (old_ptr, new_ptr));
        self.pairs = Ghost(before.push(pair));
        proof {
            assert forall|m: int| 0 <= m < self.pairs@.len() implies self.table@.contains_key(
                (#[trigger] self.pairs@[m]).0.raw().addr,
            ) && self.table@[self.pairs@[m].0.raw().addr] == self.pairs@[m] by {
                if m < before.len() {
                    assert(self.pairs@[m] == before[m]);
                    assert(holds_addr(before, before[m].0.raw().addr));
                }
            }
            assert forall|a: usize| #[trigger] self.table@.contains_key(a) implies holds_addr(
                self.pairs@,
                a,
            ) by {
                if a == addr {
                    assert(self.pairs@[before.len() as int] == pair);
                } else {
                    assert(holds_addr(before, a));
                    let m = choose|m: int|
                        0 <= m < before.len() && (#[trigger] before[m]).0.raw().addr == a;
                    assert(self.pairs@[m] == before[m]);
                }
            }
        }
    }

    /// Returns the new pointer of the first pair whose old pointer `ptr` stands
    /// for, or `None` if there is no such pair.
    pub fn find(&self, ptr: &Ptr, exact: bool) -> (found: Option<Ptr>)
        requires
            self.wf(),
        ensures
            found == image(self.pairs(), *ptr, exact),
    {
        let by_raw = !exact && Ptr::has_significant_meta();
        let addr = ptr.to_raw_ptr().addr;
        match self.table.get(&addr) {
            Some(entry) => {
                let same = if by_raw {
                    ptr.eq_ignoring_meta(&entry.0)
                } else {
                    ptr.equals(&entry.0)
                };
                proof {
                    assert(holds_addr(self.pairs@, addr));
                    if stands_for(*ptr, entry.0, exact) {
                        let m = choose|m: int|
                            0 <= m < self.pairs@.len() && (#[trigger] self.pairs@[m]).0.raw().addr
                                == addr;
                        lemma_match_has_image(self.pairs@, *ptr, exact, m);
                        let f = choose|f: int| is_first_match(self.pairs@, *ptr, exact, f);
                        assert(self.pairs@[f].0.raw().addr == addr);
                    } else {
                        assert forall|i: int| 0 <= i < self.pairs@.len() implies !stands_for(
                            *ptr,
                            (#[trigger] self.pairs@[i]).0,
                            exact,
                        ) by {
                            if stands_for(*ptr, self.pairs@[i].0, exact) {
                                assert(self.pairs@[i].0.raw().addr == addr);
                            }
                        }
                        lemma_no_match(self.pairs@, *ptr, exact);
                    }
                }
                if same {
                    Some(entry.1.duplicate())
                } else {
                    None
                }
            },
            None => {
                proof {
                    assert forall|i: int| 0 <= i < self.pairs@.len() implies !stands_for(
                        *ptr,
                        (#[trigger] self.pairs@[i]).0,
                        exact,
                    ) by {
                        if stands_for(*ptr, self.pairs@[i].0, exact) {
                            assert(self.pairs@[i].0.raw().addr == addr);
                        }
                    }
                    lemma_no_match(self.pairs@, *ptr, exact);
                }
                None
            },
        }
    }
}

} // verus!
