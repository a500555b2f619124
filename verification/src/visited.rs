//! The boards that a search has met, sorted into buckets by their digest so
//! that a board is compared with few of them.

use vstd::prelude::*;
use crate::grid::{Grid, digest};
use crate::state::State;

verus! {

/// The number of buckets.
pub const BUCKETS: usize = 1024;

/// The bucket that a board with the digest `h` goes into.
pub open spec fn bucket_of(h: u64) -> int {
    (h % (BUCKETS as u64)) as int
}

/// A set of boards, told apart by their cells.
pub struct Visited {
    buckets: Vec<Vec<State>>,
    order: Ghost<Seq<Grid>>,
}

impl Visited {
    /// The boards of the set, in the order in which they were put in.
    pub closed spec fn seen(&self) -> Seq<Grid> {
        self.order@
    }

    /// Each board lies in the bucket of its digest, and the buckets hold what was put in.
    pub closed spec fn wf(&self) -> bool {
        &&& self.buckets@.len() == BUCKETS
        &&& forall|k: int, i: int|
            0 <= k < self.buckets@.len() && 0 <= i < self.buckets@[k]@.len() ==> {
                &&& bucket_of(digest((#[trigger] self.buckets@[k]@[i])@)) == k
                &&& self.order@.contains(self.buckets@[k]@[i]@)
            }
        &&& forall|j: int|
            0 <= j < self.order@.len() ==> self.holds(#[trigger] self.order@[j])
    }

    /// The bucket of `g` holds a board with the cells of `g`.
    pub closed spec fn holds(&self, g: Grid) -> bool {
        exists|i: int|
            0 <= i < self.buckets@[bucket_of(digest(g))]@.len() && (
            #[trigger] self.buckets@[bucket_of(digest(g))]@[i])@ == g
    }

    /// The empty set.
    pub fn new() -> (set: Visited)
        ensures
            set.wf(),
            set.seen() == Seq::<Grid>::empty(),
    {
        let mut buckets: Vec<Vec<State>> = Vec::new();
        let mut k: usize = 0;
        while k < BUCKETS
            invariant
                k <= BUCKETS,
                buckets@.len() == k,
                forall|j: int| 0 <= j < k ==> (#[trigger] buckets@[j])@.len() == 0,
            decreases BUCKETS - k,
        {
            buckets.push(Vec::new());
            k = k + 1;
        }
        Visited { buckets, order: Ghost(Seq::empty()) }
    }

    /// Whether a board with the cells of `b` is in the set.
    pub fn contains(&self, b: &State) -> (found: bool)
        requires
            self.wf(),
        ensures
            found == self.seen().contains(b@),
    {
        let k: usize = (b.digest() % (BUCKETS as u64)) as usize;
        let bucket = &self.buckets[k];
        let mut i: usize = 0;
        while i < bucket.len()
            invariant
                self.wf(),
                k == bucket_of(digest(b@)),
                bucket == &self.buckets@[k as int],
                i <= bucket@.len(),
                forall|j: int| 0 <= j < i ==> (#[trigger] bucket@[j])@ != b@,
            decreases bucket@.len() - i,
        {
            if bucket[i] == *b {
                assert(self.order@.contains(self.buckets@[k as int]@[i as int]@));
                return true;
            }
            i = i + 1;
        }
        proof {
            if self.order@.contains(b@) {
                let j = choose|j: int| 0 <= j < self.order@.len() && self.order@[j] == b@;
                assert(self.holds(self.order@[j]));
            }
        }
        false
    }

    /// Puts a board into the set.
    pub fn insert(&mut self, b: State)
        requires
            old(self).wf(),
        ensures
            final(self).wf(),
            final(self).seen() == old(self).seen().push(b@),
    {
        let k: usize = (b.digest() % (BUCKETS as u64)) as usize;
        let ghost g = b@;
        self.buckets[k].push(b);
        self.order = Ghost(self.order@.push(g));
        proof {
            let before = old(self).buckets@;
            let after = self.buckets@;
            let was = old(self).order@;
            let now = self.order@;
            assert(now[was.len() as int] == g);
            assert(after[k as int]@ == before[k as int]@.push(b));
            assert forall|q: int, i: int|
                0 <= q < after.len() && 0 <= i < after[q]@.len() implies {
                &&& bucket_of(digest((#[trigger] after[q]@[i])@)) == q
                &&& now.contains(after[q]@[i]@)
            } by {
                if q == k && i == before[k as int]@.len() {
                    assert(after[q]@[i] == b);
                } else {
                    assert(after[q]@[i] == before[q]@[i]);
                    assert(was.contains(before[q]@[i]@));
                    let j = choose|j: int| 0 <= j < was.len() && was[j] == before[q]@[i]@;
                    assert(now[j] == was[j]);
                }
            }
            assert forall|j: int| 0 <= j < now.len() implies self.holds(#[trigger] now[j]) by {
                if j < was.len() {
                    assert(now[j] == was[j]);
                    assert(old(self).holds(was[j]));
                    let q = bucket_of(digest(was[j]));
                    let i = choose|i: int|
                        0 <= i < before[q]@.len() && (#[trigger] before[q]@[i])@ == was[j];
                    assert(after[q]@[i] == before[q]@[i]);
                } else {
                    assert(after[k as int]@[before[k as int]@.len() as int] == b);
                }
            }
        }
    }
}

} // verus!
