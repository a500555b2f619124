//! The lazy breadth-first solver.

use std::collections::VecDeque;
use vstd::prelude::*;
use crate::cell::Mark;
use crate::grid::{Grid, queen_count};
use crate::regions::{is_partitioned, lemma_partition_by_regions};
use crate::rules::{is_legal, is_move, is_solution, place, same_regions, lemma_solution_shape};
use crate::search::{
    Fuel, Search, all_found, emits, emitted, enqueued, fuel, handed, initial, less_fuel,
    popped, quiet, run, search_inv, skipped, step, lemma_done, lemma_emit, lemma_enqueue,
    lemma_front, lemma_initial, lemma_pop, lemma_skip, lemma_yielded_are_solutions,
};
use crate::state::State;
use crate::visited::Visited;

verus! {

/// A search for the boards with a wanted number of queens that come from a
/// start board by legal placements. It hands them out one at a time and does no
/// more work than the next one takes.
pub struct Solutions {
    target: usize,
    size: usize,
    level: usize,
    queue: VecDeque<State>,
    visited: Visited,
    x: usize,
    y: usize,
    start: Ghost<Grid>,
    yielded: Ghost<Seq<Grid>>,
    rest: Ghost<nat>,
}

impl Solutions {
    /// The search as a plain value.
    pub closed spec fn model(&self) -> Search {
        Search {
            start: self.start@,
            target: self.target as nat,
            seen: self.visited.seen(),
            queue: Seq::new(self.queue@.len(), |j: int| self.queue@[j]@),
            x: self.x as int,
            y: self.y as int,
            level: self.level as nat,
            rest: self.rest@,
            yielded: self.yielded@,
        }
    }

    /// The board that the search set out from.
    pub open spec fn start(&self) -> Grid {
        self.model().start
    }

    /// The number of queens wanted.
    pub open spec fn target(&self) -> nat {
        self.model().target
    }

    /// The boards handed out so far, in order.
    pub open spec fn yielded(&self) -> Seq<Grid> {
        self.model().yielded
    }

    /// The work that the search may still do. It goes down with every board handed out.
    pub open spec fn fuel(&self) -> Fuel {
        fuel(self.model())
    }

    /// Every board that the search has to find has been handed out.
    pub open spec fn exhausted(&self) -> bool {
        all_found(self.model())
    }

    /// The boards held are sound and of the start's size.
    pub closed spec fn held(&self) -> bool {
        &&& self.size == self.start@.len()
        &&& self.size * self.size <= usize::MAX
        &&& self.x <= self.size && self.y <= self.size
        &&& self.visited.wf()
        &&& forall|j: int| 0 <= j < self.queue@.len() ==> (#[trigger] self.queue@[j]).wf()
    }

    /// The value is sound.
    pub open spec fn wf(&self) -> bool {
        search_inv(self.model()) && self.held()
    }

    /// Drops the first queued board, all of whose cells were tried.
    fn pop(&mut self)
        requires
            old(self).wf(),
            old(self).model().queue.len() > 0,
            old(self).model().y >= old(self).model().start.len(),
        ensures
            final(self).wf(),
            final(self).model() == step(old(self).model()),
            !emits(old(self).model()),
    {
        proof {
            lemma_pop(self.model());
        }
        let ghost before = self.model();
        let _ = self.queue.pop_front();
        self.x = 0;
        self.y = 0;
        if self.queue.len() > 0 {
            self.level = self.queue[0].count_queens();
            self.rest = Ghost(
                if before.rest <= 1 {
                    (before.queue.len() - 1) as nat
                } else {
                    (before.rest - 1) as nat
                },
            );
        } else {
            self.rest = Ghost(0);
        }
        proof {
            assert(self.model().queue =~= before.queue.subrange(1, before.queue.len() as int));
            assert(self.model().seen =~= before.seen);
            if before.queue.len() > 1 {
                assert(self.model().queue[0] == before.queue[1]);
            }
            assert(self.model() == popped(before));
        }
    }

    /// Tries the cell under the cursor of the first queued board and moves the
    /// cursor on. A board not met before that the cell gives is queued, or, if it
    /// holds the wanted number of queens, handed out.
    fn try_cell(&mut self) -> (found: Option<State>)
        requires
            old(self).wf(),
            old(self).model().queue.len() > 0,
            old(self).model().y < old(self).model().start.len(),
        ensures
            final(self).wf(),
            final(self).model() == step(old(self).model()),
            (found is Some) == emits(old(self).model()),
            found matches Some(b) ==> ({
                &&& b.wf()
                &&& b@ == handed(old(self).model())
                &&& is_solution(old(self).start(), old(self).target(), b@)
                &&& !old(self).yielded().contains(b@)
                &&& final(self).yielded() == old(self).yielded().push(b@)
            }),
            found is None ==> final(self).yielded() == old(self).yielded(),
    {
        let ghost before = self.model();
        let x: usize = self.x;
        let y: usize = self.y;
        proof {
            lemma_front(before);
            assert(self.queue@[0].wf());
            assert(before.queue[0] == self.queue@[0]@);
        }
        if x + 1 < self.size {
            self.x = x + 1;
        } else {
            self.x = 0;
            self.y = y + 1;
        }
        let front = &self.queue[0];
        if front.has_queen(x, y) || !front.can_place(x, y) {
            proof {
                assert(!is_move(before.queue[0], x as int, y as int));
                lemma_skip(before);
                assert(self.model().seen =~= before.seen);
                assert(self.model().queue =~= before.queue);
                assert(self.model() == skipped(before));
            }
            return None;
        }
        let mut next = front.clone();
        next.set_mark(x, y, Mark::Occupied);
        assert(next@ == place(before.queue[0], x as int, y as int));
        if self.visited.contains(&next) {
            proof {
                assert(self.model().seen =~= before.seen);
                assert(self.model().queue =~= before.queue);
                lemma_skip(before);
                assert(self.model() == skipped(before));
            }
            return None;
        }
        assert(self.model().seen =~= before.seen);
        self.visited.insert(next.clone());
        if self.level + 1 == self.target {
            proof {
                lemma_emit(before);
                self.yielded@ = before.yielded.push(next@);
                assert(self.model().seen =~= before.seen.push(next@));
                assert(self.model().queue =~= before.queue);
                assert(self.model() == emitted(before));
            }
            Some(next)
        } else {
            self.queue.push_back(next);
            proof {
                lemma_enqueue(before);
                assert(self.model().seen =~= before.seen.push(place(before.queue[0], x as int, y as int)));
                assert(self.model().queue =~= before.queue.push(place(before.queue[0], x as int, y as int)));
                assert(self.model() == enqueued(before));
            }
            None
        }
    }

    /// The next board of the search, or `None` once every board has been handed
    /// out. The search goes on from where the last call left it, step by step,
    /// and stops with the first step that hands out a board, or when its queue is empty.
    pub fn next(&mut self) -> (found: Option<State>)
        requires
            old(self).wf(),
        ensures
            final(self).wf(),
            final(self).start() == old(self).start(),
            final(self).target() == old(self).target(),
            (found is None) == old(self).exhausted(),
            match found {
                Some(b) => {
                    &&& b.wf()
                    &&& (exists|k: nat|
                        {
                            &&& quiet(old(self).model(), k)
                            &&& emits(#[trigger] run(old(self).model(), k))
                            &&& b@ == handed(run(old(self).model(), k))
                            &&& final(self).model() == run(old(self).model(), k + 1)
                        })
                    &&& is_solution(old(self).start(), old(self).target(), b@)
                    &&& !old(self).yielded().contains(b@)
                    &&& final(self).yielded() == old(self).yielded().push(b@)
                    &&& same_regions(old(self).start(), b@)
                    &&& is_legal(old(self).start()) ==> is_legal(b@)
                    &&& is_partitioned(old(self).start()) ==> is_partitioned(b@)
                    &&& less_fuel(final(self).fuel(), old(self).fuel())
                },
                None => {
                    &&& (exists|k: nat|
                        {
                            &&& quiet(old(self).model(), k)
                            &&& final(self).model() == #[trigger] run(old(self).model(), k)
                        })
                    &&& final(self).model().queue.len() == 0
                    &&& final(self).yielded() == old(self).yielded()
                },
            },
    {
        let ghost from = self.model();
        let ghost mut k: nat = 0;
        loop
            invariant
                self.wf(),
                from == old(self).model(),
                self.model() == run(from, k),
                quiet(from, k),
                self.start() == old(self).start(),
                self.target() == old(self).target(),
                self.yielded() == old(self).yielded(),
                self.fuel() == old(self).fuel() || less_fuel(self.fuel(), old(self).fuel()),
            decreases self.fuel().levels, self.fuel().boards, self.fuel().rows, self.fuel().cols,
        {
            if self.queue.len() == 0 {
                proof {
                    lemma_done(self.model());
                }
                return None;
            }
            let ghost here = self.model();
            if self.y >= self.size {
                self.pop();
            } else {
                let found = self.try_cell();
                if let Some(b) = found {
                    proof {
                        lemma_solution_shape(self.start(), self.target(), b@);
                        if is_partitioned(self.start()) {
                            lemma_partition_by_regions(self.start(), b@);
                        }
                        assert(self.model() == run(from, k + 1));
                    }
                    return Some(b);
                }
            }
            proof {
                assert forall|j: nat| j < k + 1 implies !emits(#[trigger] run(from, j)) by {
                    if j < k {
                    } else {
                        assert(run(from, j) == here);
                    }
                }
                k = k + 1;
                assert(self.model() == run(from, k));
            }
        }
    }
}

/// The boards that a search has handed out hold the wanted number of queens
/// each, come from the start by moves, and differ from one another.
pub proof fn lemma_found_boards_differ(search: Solutions)
    requires
        search.wf(),
    ensures
        search.yielded().no_duplicates(),
        forall|k: int|
            0 <= k < search.yielded().len() ==> queen_count(#[trigger] search.yielded()[k])
                == search.target() && is_solution(search.start(), search.target(), search.yielded()[k]),
{
    assert forall|k: int| 0 <= k < search.yielded().len() implies queen_count(
        #[trigger] search.yielded()[k],
    ) == search.target() && is_solution(search.start(), search.target(), search.yielded()[k]) by {
        lemma_yielded_are_solutions(search.model(), k);
    }
}

/// Where no queen of the start is ruled out by another, the same holds of
/// every board that the search has handed out.
pub proof fn lemma_found_boards_legal(search: Solutions)
    requires
        search.wf(),
        is_legal(search.start()),
    ensures
        forall|k: int| 0 <= k < search.yielded().len() ==> is_legal(#[trigger] search.yielded()[k]),
{
    assert forall|k: int| 0 <= k < search.yielded().len() implies is_legal(
        #[trigger] search.yielded()[k],
    ) by {
        lemma_yielded_are_solutions(search.model(), k);
        lemma_solution_shape(search.start(), search.target(), search.yielded()[k]);
    }
}

impl State {
    /// A search, from this board, for the boards with `target` queens that
    /// legal placements make of it. Where the board already holds `target`
    /// queens or more, the search finds nothing.
    pub fn solutions(&self, target: usize) -> (search: Solutions)
        requires
            self.wf(),
        ensures
            search.wf(),
            search.model() == initial(self@, target as nat),
            search.start() == self@,
            search.target() == target,
            search.yielded() == Seq::<Grid>::empty(),
    {
        let size: usize = self.size();
        let level: usize = self.count_queens();
        let mut queue: VecDeque<State> = VecDeque::new();
        let mut visited = Visited::new();
        let mut rest: Ghost<nat> = Ghost(0);
        if level < target {
            queue.push_back(self.clone());
            visited.insert(self.clone());
            rest = Ghost(1);
        }
        let search = Solutions {
            target,
            size,
            level,
            queue,
            visited,
            x: 0,
            y: 0,
            start: Ghost(self@),
            yielded: Ghost(Seq::empty()),
            rest,
        };
        proof {
            lemma_initial(self@, target as nat);
            assert(search.model().seen =~= initial(self@, target as nat).seen);
            assert(search.model().queue =~= initial(self@, target as nat).queue);
            assert(search.model() == initial(self@, target as nat));
        }
        search
    }
}

} // verus!
