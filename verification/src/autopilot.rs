//! The autopilot: a breadth-first search over the maze, from the ball's
//! cell to the goal, that avoids walls and trap holes and tells the ball
//! which cell to roll to next.
use vstd::prelude::*;
use crate::level::{Level, LevelView, lemma_cell_index};

verus! {

/// Cells the autopilot never rolls into: walls (anything outside the grid
/// among them) and trap holes.
pub open spec fn blocked(v: LevelView, c: (i32, i32)) -> bool {
    v.wall_at(c.0 as int, c.1 as int) || v.trap_at(c)
}

/// Cells that share a side.
pub open spec fn adjacent(a: (i32, i32), b: (i32, i32)) -> bool {
    ||| a.0 == b.0 && (a.1 - b.1 == 1 || b.1 - a.1 == 1)
    ||| a.1 == b.1 && (a.0 - b.0 == 1 || b.0 - a.0 == 1)
}

/// Step `i` of `p` moves to a side neighbour that is not blocked.
pub open spec fn step_ok(v: LevelView, p: Seq<(i32, i32)>, i: int) -> bool {
    !blocked(v, p[i]) && adjacent(p[i - 1], p[i])
}

/// `p` is a route from `s`: it starts there and each later cell is an
/// unblocked side neighbour of the one before (the start itself may be
/// blocked).
pub open spec fn is_route(v: LevelView, s: (i32, i32), p: Seq<(i32, i32)>) -> bool {
    &&& p.len() >= 1
    &&& p[0] == s
    &&& forall|i: int| 1 <= i < p.len() ==> #[trigger] step_ok(v, p, i)
}

/// `p` is a route from `s` that ends at `g`.
pub open spec fn route_to(v: LevelView, s: (i32, i32), g: (i32, i32), p: Seq<(i32, i32)>) -> bool {
    is_route(v, s, p) && p.last() == g
}

pub open spec fn reachable(v: LevelView, s: (i32, i32), g: (i32, i32)) -> bool {
    exists|p: Seq<(i32, i32)>| #[trigger] route_to(v, s, g, p)
}

/// `n` is the cell after `s` on a shortest route from `s` to `g`.
pub open spec fn first_step_of_shortest(
    v: LevelView,
    s: (i32, i32),
    g: (i32, i32),
    n: (i32, i32),
) -> bool {
    exists|p: Seq<(i32, i32)>|
        {
            &&& #[trigger] route_to(v, s, g, p)
            &&& p.len() >= 2
            &&& p[1] == n
            &&& forall|q: Seq<(i32, i32)>| #[trigger] route_to(v, s, g, q) ==> p.len() <= q.len()
        }
}

/// `n` is the first of the side neighbours of `s`, in the order `+x`,
/// `-x`, `+z`, `-z`, that begins a shortest route from `s` to `g`.
pub open spec fn earliest_first_step(
    v: LevelView,
    s: (i32, i32),
    g: (i32, i32),
    n: (i32, i32),
) -> bool {
    exists|k: int|
        {
            &&& 0 <= k < 4
            &&& n == #[trigger] nbr(s, k)
            &&& first_step_of_shortest(v, s, g, n)
            &&& forall|k2: int| 0 <= k2 < k ==> !first_step_of_shortest(v, s, g, #[trigger] nbr(s, k2))
        }
}

/// The side neighbours of `c` in the order the search tries them:
/// `+x`, `-x`, `+z`, `-z`.
pub open spec fn nbr(c: (i32, i32), k: int) -> (i32, i32) {
    if k == 0 {
        ((c.0 + 1) as i32, c.1)
    } else if k == 1 {
        ((c.0 - 1) as i32, c.1)
    } else if k == 2 {
        (c.0, (c.1 + 1) as i32)
    } else {
        (c.0, (c.1 - 1) as i32)
    }
}

spec fn inner(c: (i32, i32)) -> bool {
    i32::MIN < c.0 < i32::MAX && i32::MIN < c.1 < i32::MAX
}

proof fn lemma_nbr(c: (i32, i32), k: int)
    requires
        inner(c),
        0 <= k < 4,
    ensures
        adjacent(c, nbr(c, k)),
{
}

proof fn lemma_adjacent_nbr(a: (i32, i32), b: (i32, i32)) -> (k: int)
    requires
        inner(a),
        adjacent(a, b),
    ensures
        0 <= k < 4,
        b == nbr(a, k),
{
    if b.0 - a.0 == 1 {
        0
    } else if a.0 - b.0 == 1 {
        1
    } else if b.1 - a.1 == 1 {
        2
    } else {
        3
    }
}

/// The number of `false` entries.
spec fn count_false(s: Seq<bool>) -> nat
    decreases s.len(),
{
    if s.len() == 0 {
        0
    } else {
        count_false(s.drop_last()) + if s.last() {
            0nat
        } else {
            1nat
        }
    }
}

proof fn lemma_count_false_update(s: Seq<bool>, i: int)
    requires
        0 <= i < s.len(),
        !s[i],
    ensures
        count_false(s.update(i, true)) + 1 == count_false(s),
    decreases s.len(),
{
    let t = s.update(i, true);
    if i < s.len() - 1 {
        assert(t.drop_last() =~= s.drop_last().update(i, true));
        lemma_count_false_update(s.drop_last(), i);
    } else {
        assert(t.drop_last() =~= s.drop_last());
    }
}

/// The state of the search, as plain values.
struct Search {
    v: LevelView,
    s: (i32, i32),
    seen: Seq<bool>,
    depth: Seq<usize>,
    parent: Seq<(i32, i32)>,
    queue: Seq<(i32, i32)>,
    head: int,
    /// For each reached cell, which neighbour of the start its route
    /// begins with.
    first: Seq<int>,
    /// For each reached cell, its place in the queue.
    pos: Seq<int>,
}

impl Search {
    spec fn in_grid(self, c: (i32, i32)) -> bool {
        self.v.in_bounds(c.0 as int, c.1 as int)
    }

    spec fn idx(self, c: (i32, i32)) -> int {
        c.1 * self.v.w + c.0
    }

    spec fn visited(self, c: (i32, i32)) -> bool {
        c == self.s || (self.in_grid(c) && self.seen[self.idx(c)])
    }

    spec fn dep(self, c: (i32, i32)) -> int {
        if c == self.s {
            0
        } else {
            self.depth[self.idx(c)] as int
        }
    }

    spec fn par(self, c: (i32, i32)) -> (i32, i32) {
        self.parent[self.idx(c)]
    }

    spec fn fst(self, c: (i32, i32)) -> int {
        self.first[self.idx(c)]
    }

    spec fn at(self, c: (i32, i32)) -> int {
        if c == self.s {
            0
        } else {
            self.pos[self.idx(c)]
        }
    }

    /// Each reached cell knows its place in the queue, and its parent
    /// has been expanded or is being expanded.
    #[verifier::opaque]
    spec fn placed(self) -> bool {
        &&& forall|c: (i32, i32)| #[trigger]
            self.visited(c) ==> {
                &&& 0 <= self.at(c) < self.queue.len()
                &&& self.queue[self.at(c)] == c
                &&& c != self.s ==> self.at(self.par(c)) <= self.head
            }
        &&& forall|j: int| 0 <= j < self.queue.len() ==> self.at(#[trigger] self.queue[j]) == j
    }

    /// The route of each reached cell begins with the start's neighbour
    /// number `fst`.
    #[verifier::opaque]
    spec fn firsts(self) -> bool {
        forall|c: (i32, i32)| #[trigger]
            self.visited(c) && c != self.s ==> {
                &&& 0 <= self.fst(c) < 4
                &&& if self.par(c) == self.s {
                    c == nbr(self.s, self.fst(c))
                } else {
                    self.fst(c) == self.fst(self.par(c))
                }
            }
    }

    /// Among reached cells of one depth, those earlier in the queue begin
    /// with an earlier neighbour of the start.
    #[verifier::opaque]
    spec fn sorted(self) -> bool {
        forall|a: (i32, i32), b: (i32, i32)|
            #[trigger] self.visited(a) && #[trigger] self.visited(b) && a != self.s && b != self.s
                && self.dep(a) == self.dep(b) && self.at(a) <= self.at(b) ==> self.fst(a) <= self.fst(
                b,
            )
    }

    /// Each reached cell's parent is the first in the queue of its side
    /// neighbours one step shallower.
    #[verifier::opaque]
    spec fn earliest(self) -> bool {
        forall|c: (i32, i32), j: int|
            #![trigger self.visited(c), self.queue[j]]
            self.visited(c) && c != self.s && 0 <= j < self.queue.len() && adjacent(self.queue[j], c)
                && self.dep(self.queue[j]) + 1 == self.dep(c) ==> self.at(self.par(c)) <= j
    }

    /// The cells reached from `queue[head]` so far are among its first `k`
    /// neighbours.
    #[verifier::opaque]
    spec fn children_before(self, k: int) -> bool {
        forall|b: (i32, i32)| #[trigger]
            self.visited(b) && b != self.s && self.at(self.par(b)) == self.head ==> exists|k2: int|
                0 <= k2 < k && b == #[trigger] nbr(self.queue[self.head], k2)
    }

    /// The first `kk` neighbours of `queue[j]` that are not blocked have
    /// been reached, at most one step deeper.
    #[verifier::opaque]
    spec fn closed_at(self, j: int, kk: int) -> bool {
        forall|k: int|
            0 <= k < kk && !blocked(self.v, #[trigger] nbr(self.queue[j], k)) ==> {
                &&& self.visited(nbr(self.queue[j], k))
                &&& self.dep(nbr(self.queue[j], k)) <= self.dep(self.queue[j]) + 1
            }
    }

    spec fn basics(self) -> bool {
        &&& self.v.wf()
        &&& inner(self.s)
        &&& self.seen.len() == self.v.w * self.v.h
        &&& self.depth.len() == self.v.w * self.v.h
        &&& self.parent.len() == self.v.w * self.v.h
        &&& self.first.len() == self.v.w * self.v.h
        &&& self.pos.len() == self.v.w * self.v.h
        &&& 0 <= self.head <= self.queue.len()
        &&& self.queue.len() >= 1
        &&& self.queue[0] == self.s
        &&& self.queue.len() + count_false(self.seen) <= self.v.w * self.v.h + 1
    }

    /// Everything in the queue has been reached.
    #[verifier::opaque]
    spec fn listed(self) -> bool {
        forall|j: int| 0 <= j < self.queue.len() ==> self.visited(#[trigger] self.queue[j])
    }

    /// Everything reached is in the queue.
    #[verifier::opaque]
    spec fn complete(self) -> bool {
        forall|c: (i32, i32)| #[trigger]
            self.visited(c) ==> exists|j: int| 0 <= j < self.queue.len() && self.queue[j] == c
    }

    /// Each reached cell but the start was reached from a reached side
    /// neighbour one step shallower.
    #[verifier::opaque]
    spec fn parents(self) -> bool {
        forall|c: (i32, i32)| #[trigger]
            self.visited(c) && c != self.s ==> {
                &&& self.in_grid(c)
                &&& !blocked(self.v, c)
                &&& self.visited(self.par(c))
                &&& adjacent(self.par(c), c)
                &&& self.dep(c) == self.dep(self.par(c)) + 1
            }
    }

    /// Depths never fall along the queue, rise by at most one over the
    /// part not yet expanded, and stay below positions.
    #[verifier::opaque]
    spec fn ordered(self) -> bool {
        &&& forall|i: int, j: int|
            0 <= i <= j < self.queue.len() ==> self.dep(#[trigger] self.queue[i]) <= self.dep(
                #[trigger] self.queue[j],
            )
        &&& forall|i: int, j: int|
            self.head <= i <= j < self.queue.len() ==> self.dep(#[trigger] self.queue[j])
                <= self.dep(#[trigger] self.queue[i]) + 1
        &&& forall|j: int| 0 <= j < self.queue.len() ==> self.dep(#[trigger] self.queue[j]) <= j
    }

    /// Every cell before `head` has had all its neighbours handled.
    #[verifier::opaque]
    spec fn expanded(self) -> bool {
        forall|j: int| 0 <= j < self.head ==> #[trigger] self.closed_at(j, 4)
    }

    spec fn sound(self) -> bool {
        &&& self.basics()
        &&& self.listed()
        &&& self.complete()
        &&& self.parents()
        &&& self.ordered()
        &&& self.placed()
        &&& self.firsts()
        &&& self.sorted()
        &&& self.earliest()
    }

    spec fn inv(self) -> bool {
        &&& self.sound()
        &&& self.expanded()
    }

    /// Cells of the grid have distinct entries.
    proof fn lemma_idx(self, c: (i32, i32))
        requires
            self.v.wf(),
            self.in_grid(c),
        ensures
            0 <= self.idx(c) < self.v.w * self.v.h,
            forall|d: (i32, i32)| self.in_grid(d) && #[trigger] self.idx(d) == self.idx(c) ==> d == c,
    {
        lemma_cell_index(self.v.w, self.v.h, c.0 as int, c.1 as int);
        assert forall|d: (i32, i32)| self.in_grid(d) && #[trigger] self.idx(d) == self.idx(c) implies d
            == c by {
            lemma_cell_index(self.v.w, self.v.h, d.0 as int, d.1 as int);
        }
    }
}

/// `st2` is `st` with the fresh cell `n` marked as reached from
/// `queue[head]` and put at the back of the queue.
spec fn visit_step(st: Search, k: int, n: (i32, i32), st2: Search) -> bool {
    let cur = st.queue[st.head];
    st2 == (Search {
        seen: st.seen.update(st.idx(n), true),
        depth: st.depth.update(st.idx(n), (st.dep(cur) + 1) as usize),
        parent: st.parent.update(st.idx(n), cur),
        queue: st.queue.push(n),
        first: st.first.update(
            st.idx(n),
            if cur == st.s {
                k
            } else {
                st.fst(cur)
            },
        ),
        pos: st.pos.update(st.idx(n), st.queue.len() as int),
        ..st
    })
}

/// `st` describes the search whose vectors have these views.
spec fn tracks(
    st: Search,
    v: LevelView,
    s: (i32, i32),
    seen: Seq<bool>,
    depth: Seq<usize>,
    parent: Seq<(i32, i32)>,
    queue: Seq<(i32, i32)>,
    head: int,
) -> bool {
    &&& st.v == v
    &&& st.s == s
    &&& st.seen == seen
    &&& st.depth == depth
    &&& st.parent == parent
    &&& st.queue == queue
    &&& st.head == head
}

/// Marking `n` leaves every other cell as it was.
proof fn lemma_visit_frame(st: Search, k: int, n: (i32, i32), st2: Search)
    requires
        st.basics(),
        st.head < st.queue.len(),
        st.dep(st.queue[st.head]) <= st.head,
        st.in_grid(n),
        !st.visited(n),
        visit_step(st, k, n, st2),
    ensures
        forall|c: (i32, i32)| #[trigger]
            st.visited(c) ==> {
                &&& st2.visited(c)
                &&& st2.dep(c) == st.dep(c)
                &&& st2.at(c) == st.at(c)
                &&& c != st.s ==> st2.par(c) == st.par(c) && st2.fst(c) == st.fst(c)
            },
        forall|c: (i32, i32)| #[trigger] st2.visited(c) ==> st.visited(c) || c == n,
        st2.visited(n),
        n != st.s,
        st2.dep(n) == st.dep(st.queue[st.head]) + 1,
        st2.par(n) == st.queue[st.head],
        st2.at(n) == st.queue.len(),
        st2.fst(n) == if st.queue[st.head] == st.s {
            k
        } else {
            st.fst(st.queue[st.head])
        },
        st2.queue[st.queue.len() as int] == n,
        st2.queue == st.queue.push(n),
        st2.head == st.head,
        st2.v == st.v,
        st2.s == st.s,
        st2.basics(),
{
    st.lemma_idx(n);
    assert forall|c: (i32, i32)| #[trigger] st.visited(c) implies {
        &&& st2.visited(c)
        &&& st2.dep(c) == st.dep(c)
        &&& st2.at(c) == st.at(c)
        &&& c != st.s ==> st2.par(c) == st.par(c) && st2.fst(c) == st.fst(c)
    } by {
        if c != st.s {
            st.lemma_idx(c);
            assert(c != n);
            assert(st.idx(c) != st.idx(n));
        }
    }
    assert forall|c: (i32, i32)| #[trigger] st2.visited(c) implies st.visited(c) || c == n by {
        if c != st.s && c != n && st.in_grid(c) {
            st.lemma_idx(c);
            assert(st.idx(c) != st.idx(n));
        }
    }
    lemma_count_false_update(st.seen, st.idx(n));
}

proof fn lemma_nbr_injective(c: (i32, i32), k1: int, k2: int)
    requires
        inner(c),
        0 <= k1 < 4,
        0 <= k2 < 4,
        nbr(c, k1) == nbr(c, k2),
    ensures
        k1 == k2,
{
}

#[verifier::rlimit(40)]
/// Marking a fresh cell `n`, a side neighbour of `queue[head]` that is not
/// blocked, keeps the search's invariant.
proof fn lemma_visit(st: Search, k: int, n: (i32, i32), st2: Search)
    requires
        st.sound(),
        st.expanded(),
        st.closed_at(st.head, k),
        st.children_before(k),
        st.head < st.queue.len(),
        0 <= k < 4,
        n == nbr(st.queue[st.head], k),
        !st.visited(n),
        !blocked(st.v, n),
        visit_step(st, k, n, st2),
    ensures
        st2.sound(),
        st2.expanded(),
        st2.closed_at(st2.head, k + 1),
        st2.children_before(k + 1),
        st2.head == st.head,
        st2.queue[st.head] == st.queue[st.head],
        st2.dep(st.queue[st.head]) == st.dep(st.queue[st.head]),
{
    let cur = st.queue[st.head];
    let d = st.dep(cur);
    reveal(Search::listed);
    assert(st.visited(cur));
    assert(inner(cur)) by {
        reveal(Search::parents);
        if cur != st.s {
            assert(st.in_grid(cur));
        }
    }
    lemma_nbr(cur, k);
    assert(st.dep(cur) <= st.head) by {
        reveal(Search::ordered);
    }
    lemma_visit_frame(st, k, n, st2);
    lemma_visit_listed(st, n, st2);
    lemma_visit_complete(st, n, st2);
    lemma_visit_parents(st, k, n, st2);
    lemma_visit_ordered(st, n, st2);
    lemma_visit_closed(st, k, n, st2);
    lemma_visit_placed(st, k, n, st2);
    lemma_visit_firsts(st, k, n, st2);
    lemma_visit_sorted(st, k, n, st2);
    lemma_visit_earliest(st, k, n, st2);
    lemma_visit_children(st, k, n, st2);
}

proof fn lemma_visit_placed(st: Search, k: int, n: (i32, i32), st2: Search)
    requires
        st.placed(),
        st.parents(),
        st.basics(),
        st.listed(),
        st.head < st.queue.len(),
        !st.visited(n),
        forall|c: (i32, i32)| #[trigger]
            st.visited(c) ==> {
                &&& st2.visited(c)
                &&& st2.dep(c) == st.dep(c)
                &&& st2.at(c) == st.at(c)
                &&& c != st.s ==> st2.par(c) == st.par(c) && st2.fst(c) == st.fst(c)
            },
        forall|c: (i32, i32)| #[trigger] st2.visited(c) ==> st.visited(c) || c == n,
        n != st.s,
        st2.par(n) == st.queue[st.head],
        st2.at(n) == st.queue.len(),
        st2.queue == st.queue.push(n),
        st2.head == st.head,
        st2.s == st.s,
    ensures
        st2.placed(),
{
    reveal(Search::placed);
    reveal(Search::listed);
    let cur = st.queue[st.head];
    assert(st.visited(cur));
    assert(st.at(cur) == st.head);
    assert(st2.queue[st.queue.len() as int] == n);
    assert forall|c: (i32, i32)| #[trigger] st2.visited(c) implies {
        &&& 0 <= st2.at(c) < st2.queue.len()
        &&& st2.queue[st2.at(c)] == c
        &&& c != st2.s ==> st2.at(st2.par(c)) <= st2.head
    } by {
        if c != n {
            assert(st.visited(c));
            if c != st.s {
                lemma_parent_reached(st, c);
            }
        }
    }
    assert forall|j: int| 0 <= j < st2.queue.len() implies st2.at(#[trigger] st2.queue[j]) == j by {
        if j < st.queue.len() {
            assert(st.visited(st.queue[j]));
            assert(st.at(st.queue[j]) == j);
        }
    }
}

proof fn lemma_visit_firsts(st: Search, k: int, n: (i32, i32), st2: Search)
    requires
        st.firsts(),
        st.parents(),
        st.basics(),
        st.head < st.queue.len(),
        st.visited(st.queue[st.head]),
        0 <= k < 4,
        n == nbr(st.queue[st.head], k),
        forall|c: (i32, i32)| #[trigger]
            st.visited(c) ==> {
                &&& st2.visited(c)
                &&& st2.dep(c) == st.dep(c)
                &&& st2.at(c) == st.at(c)
                &&& c != st.s ==> st2.par(c) == st.par(c) && st2.fst(c) == st.fst(c)
            },
        forall|c: (i32, i32)| #[trigger] st2.visited(c) ==> st.visited(c) || c == n,
        n != st.s,
        st2.par(n) == st.queue[st.head],
        st2.fst(n) == if st.queue[st.head] == st.s {
            k
        } else {
            st.fst(st.queue[st.head])
        },
        st2.s == st.s,
    ensures
        st2.firsts(),
{
    reveal(Search::firsts);
    let cur = st.queue[st.head];
    assert forall|c: (i32, i32)| #[trigger] st2.visited(c) && c != st2.s implies {
        &&& 0 <= st2.fst(c) < 4
        &&& if st2.par(c) == st2.s {
            c == nbr(st2.s, st2.fst(c))
        } else {
            st2.fst(c) == st2.fst(st2.par(c))
        }
    } by {
        if c == n {
            if cur != st.s {
                assert(st.visited(cur));
            }
        } else {
            assert(st.visited(c));
            lemma_parent_reached(st, c);
        }
    }
}

/// The parent of a reached cell has been reached.
proof fn lemma_parent_reached(st: Search, c: (i32, i32))
    requires
        st.parents(),
        st.visited(c),
        c != st.s,
    ensures
        st.visited(st.par(c)),
        st.dep(c) == st.dep(st.par(c)) + 1,
        adjacent(st.par(c), c),
        st.in_grid(c),
        !blocked(st.v, c),
{
    reveal(Search::parents);
}

proof fn lemma_visit_sorted(st: Search, k: int, n: (i32, i32), st2: Search)
    requires
        st.sorted(),
        st.placed(),
        st.firsts(),
        st.parents(),
        st.listed(),
        st.basics(),
        st.children_before(k),
        st.head < st.queue.len(),
        0 <= k < 4,
        n == nbr(st.queue[st.head], k),
        inner(st.queue[st.head]),
        !st.visited(n),
        forall|c: (i32, i32)| #[trigger]
            st.visited(c) ==> {
                &&& st2.visited(c)
                &&& st2.dep(c) == st.dep(c)
                &&& st2.at(c) == st.at(c)
                &&& c != st.s ==> st2.par(c) == st.par(c) && st2.fst(c) == st.fst(c)
            },
        forall|c: (i32, i32)| #[trigger] st2.visited(c) ==> st.visited(c) || c == n,
        n != st.s,
        st2.dep(n) == st.dep(st.queue[st.head]) + 1,
        st2.at(n) == st.queue.len(),
        st2.fst(n) == if st.queue[st.head] == st.s {
            k
        } else {
            st.fst(st.queue[st.head])
        },
        st2.s == st.s,
    ensures
        st2.sorted(),
{
    reveal(Search::sorted);
    let cur = st.queue[st.head];
    let d = st.dep(cur);
    assert(st.visited(cur)) by {
        reveal(Search::listed);
    }
    assert(st.at(cur) == st.head) by {
        reveal(Search::placed);
    }
    // every cell already one step deeper than `cur` begins no later than `n`
    assert forall|a: (i32, i32)| st.visited(a) && a != st.s && st.dep(a) == d + 1 implies st.fst(a)
        <= st2.fst(n) by {
        lemma_parent_reached(st, a);
        let pa = st.par(a);
        assert(st.at(pa) <= st.head) by {
            reveal(Search::placed);
        }
        if cur == st.s {
            assert(pa == st.s) by {
                if pa != st.s {
                    lemma_parent_reached(st, pa);
                }
            }
            assert(st.head == 0) by {
                reveal(Search::placed);
            }
            reveal(Search::children_before);
            let k2 = choose|k2: int| 0 <= k2 < k && a == #[trigger] nbr(st.queue[st.head], k2);
            reveal(Search::firsts);
            lemma_nbr_injective(cur, k2, st.fst(a));
        } else {
            lemma_parent_reached(st, cur);
            assert(pa != st.s) by {
                if pa == st.s {
                    assert(st.dep(cur) >= 1);
                }
            }
            reveal(Search::firsts);
            assert(st.fst(pa) <= st.fst(cur));
        }
    }
    assert forall|a: (i32, i32), b: (i32, i32)|
        #[trigger] st2.visited(a) && #[trigger] st2.visited(b) && a != st2.s && b != st2.s && st2.dep(a)
            == st2.dep(b) && st2.at(a) <= st2.at(b) implies st2.fst(a) <= st2.fst(b) by {
        if a == n && b == n {
        } else if b == n {
            assert(st.visited(a));
        } else if a == n {
            assert(st.visited(b));
            assert(st.at(b) < st.queue.len()) by {
                reveal(Search::placed);
            }
        } else {
            assert(st.visited(a));
            assert(st.visited(b));
        }
    }
}

proof fn lemma_visit_earliest(st: Search, k: int, n: (i32, i32), st2: Search)
    requires
        st.earliest(),
        st.expanded(),
        st.ordered(),
        st.complete(),
        st.listed(),
        st.parents(),
        st.placed(),
        st.basics(),
        st.head < st.queue.len(),
        0 <= k < 4,
        n == nbr(st.queue[st.head], k),
        !st.visited(n),
        !blocked(st.v, n),
        forall|c: (i32, i32)| #[trigger]
            st.visited(c) ==> {
                &&& st2.visited(c)
                &&& st2.dep(c) == st.dep(c)
                &&& st2.at(c) == st.at(c)
                &&& c != st.s ==> st2.par(c) == st.par(c) && st2.fst(c) == st.fst(c)
            },
        forall|c: (i32, i32)| #[trigger] st2.visited(c) ==> st.visited(c) || c == n,
        n != st.s,
        st2.dep(n) == st.dep(st.queue[st.head]) + 1,
        st2.par(n) == st.queue[st.head],
        st2.queue == st.queue.push(n),
        st2.s == st.s,
    ensures
        st2.earliest(),
{
    reveal(Search::earliest);
    let cur = st.queue[st.head];
    let d = st.dep(cur);
    assert(st.visited(cur)) by {
        reveal(Search::listed);
    }
    assert(st.at(cur) == st.head) by {
        reveal(Search::placed);
    }
    assert forall|c: (i32, i32), j: int|
        #![trigger st2.visited(c), st2.queue[j]]
        st2.visited(c) && c != st2.s && 0 <= j < st2.queue.len() && adjacent(st2.queue[j], c)
            && st2.dep(st2.queue[j]) + 1 == st2.dep(c) implies st2.at(st2.par(c)) <= j by {
        if j < st.queue.len() {
            let q = st.queue[j];
            assert(st2.queue[j] == q);
            assert(st.visited(q)) by {
                reveal(Search::listed);
            }
            if c == n {
                if j < st.head {
                    // an expanded cell next to `n` would have reached it
                    assert(inner(q)) by {
                        if q != st.s {
                            lemma_parent_reached(st, q);
                        }
                    }
                    let kk = lemma_adjacent_nbr(q, n);
                    assert(st.closed_at(j, 4)) by {
                        reveal(Search::expanded);
                    }
                    reveal(Search::closed_at);
                    assert(nbr(st.queue[j], kk) == n);
                }
            } else {
                assert(st.visited(c));
                lemma_parent_reached(st, c);
            }
        } else {
            assert(st2.queue[j] == n);
            if c != n {
                assert(st.visited(c));
                // nothing reached yet lies two steps deeper than `cur`
                reveal(Search::complete);
                reveal(Search::ordered);
                let i = choose|i: int| 0 <= i < st.queue.len() && st.queue[i] == c;
                if i < st.head {
                    assert(st.dep(st.queue[i]) <= st.dep(st.queue[st.head]));
                } else {
                    assert(st.dep(st.queue[i]) <= st.dep(st.queue[st.head]) + 1);
                }
            }
        }
    }
}

proof fn lemma_visit_children(st: Search, k: int, n: (i32, i32), st2: Search)
    requires
        st.children_before(k),
        st.parents(),
        st.placed(),
        st.listed(),
        st.basics(),
        st.head < st.queue.len(),
        n == nbr(st.queue[st.head], k),
        forall|c: (i32, i32)| #[trigger]
            st.visited(c) ==> {
                &&& st2.visited(c)
                &&& st2.dep(c) == st.dep(c)
                &&& st2.at(c) == st.at(c)
                &&& c != st.s ==> st2.par(c) == st.par(c) && st2.fst(c) == st.fst(c)
            },
        forall|c: (i32, i32)| #[trigger] st2.visited(c) ==> st.visited(c) || c == n,
        st2.queue == st.queue.push(n),
        st2.head == st.head,
        st2.s == st.s,
        0 <= k < 4,
    ensures
        st2.children_before(k + 1),
{
    reveal(Search::children_before);
    assert(st2.queue[st.head] == st.queue[st.head]);
    assert forall|b: (i32, i32)| #[trigger]
        st2.visited(b) && b != st2.s && st2.at(st2.par(b)) == st2.head implies exists|k2: int|
        0 <= k2 < k + 1 && b == #[trigger] nbr(st2.queue[st2.head], k2) by {
        if b == n {
            assert(b == nbr(st2.queue[st2.head], k));
        } else {
            assert(st.visited(b));
            lemma_parent_reached(st, b);
            let k2 = choose|k2: int| 0 <= k2 < k && b == #[trigger] nbr(st.queue[st.head], k2);
            assert(b == nbr(st2.queue[st2.head], k2));
        }
    }
}

proof fn lemma_visit_listed(st: Search, n: (i32, i32), st2: Search)
    requires
        st.listed(),
        st.basics(),
        st2.visited(n),
        st2.queue == st.queue.push(n),
        forall|c: (i32, i32)| #[trigger]
            st.visited(c) ==> st2.visited(c) && st2.dep(c) == st.dep(c) && (c != st.s ==> st2.par(c)
                == st.par(c)),
    ensures
        st2.listed(),
{
    reveal(Search::listed);
    assert forall|j: int| 0 <= j < st2.queue.len() implies st2.visited(#[trigger] st2.queue[j]) by {
        if j < st.queue.len() {
            assert(st.visited(st.queue[j]));
        }
    }
}

proof fn lemma_visit_complete(st: Search, n: (i32, i32), st2: Search)
    requires
        st.complete(),
        st2.queue == st.queue.push(n),
        forall|c: (i32, i32)| #[trigger] st2.visited(c) ==> st.visited(c) || c == n,
    ensures
        st2.complete(),
{
    reveal(Search::complete);
    assert(st2.queue[st.queue.len() as int] == n);
    assert forall|c: (i32, i32)| #[trigger]
        st2.visited(c) implies exists|j: int| 0 <= j < st2.queue.len() && st2.queue[j] == c by {
        if c == n {
            assert(st2.queue[st.queue.len() as int] == c);
        } else {
            assert(st.visited(c));
            let j = choose|j: int| 0 <= j < st.queue.len() && st.queue[j] == c;
            assert(st2.queue[j] == c);
        }
    }
}

proof fn lemma_visit_parents(st: Search, k: int, n: (i32, i32), st2: Search)
    requires
        st.parents(),
        st.basics(),
        st.visited(st.queue[st.head]),
        st.head < st.queue.len(),
        0 <= k < 4,
        adjacent(st.queue[st.head], n),
        !blocked(st.v, n),
        st.in_grid(n),
        st2.v == st.v,
        st2.s == st.s,
        st2.dep(n) == st.dep(st.queue[st.head]) + 1,
        st2.par(n) == st.queue[st.head],
        n != st.s,
        forall|c: (i32, i32)| #[trigger]
            st.visited(c) ==> st2.visited(c) && st2.dep(c) == st.dep(c) && (c != st.s ==> st2.par(c)
                == st.par(c)),
        forall|c: (i32, i32)| #[trigger] st2.visited(c) ==> st.visited(c) || c == n,
    ensures
        st2.parents(),
{
    reveal(Search::parents);
    let cur = st.queue[st.head];
    assert forall|c: (i32, i32)| #[trigger] st2.visited(c) && c != st2.s implies {
        &&& st2.in_grid(c)
        &&& !blocked(st2.v, c)
        &&& st2.visited(st2.par(c))
        &&& adjacent(st2.par(c), c)
        &&& st2.dep(c) == st2.dep(st2.par(c)) + 1
    } by {
        if c == n {
            assert(st.visited(cur));
        } else {
            assert(st.visited(c));
            assert(st.visited(st.par(c)));
        }
    }
}

proof fn lemma_visit_ordered(st: Search, n: (i32, i32), st2: Search)
    requires
        st.ordered(),
        st.listed(),
        st.basics(),
        st.head < st.queue.len(),
        st2.head == st.head,
        st2.queue == st.queue.push(n),
        st2.dep(n) == st.dep(st.queue[st.head]) + 1,
        forall|c: (i32, i32)| #[trigger]
            st.visited(c) ==> st2.visited(c) && st2.dep(c) == st.dep(c) && (c != st.s ==> st2.par(c)
                == st.par(c)),
    ensures
        st2.ordered(),
{
    reveal(Search::ordered);
    reveal(Search::listed);
    let d = st.dep(st.queue[st.head]);
    assert(st2.queue[st.queue.len() as int] == n);
    assert forall|i: int| 0 <= i < st.queue.len() implies st.dep(#[trigger] st.queue[i]) <= d + 1 && (
    st.head <= i ==> d <= st.dep(st.queue[i])) by {
        if i < st.head {
            assert(st.dep(st.queue[i]) <= st.dep(st.queue[st.head]));
        } else {
            assert(st.dep(st.queue[i]) <= st.dep(st.queue[st.head]) + 1);
            assert(st.dep(st.queue[st.head]) <= st.dep(st.queue[i]));
        }
    }
    assert forall|i: int, j: int| 0 <= i <= j < st2.queue.len() implies st2.dep(
        #[trigger] st2.queue[i],
    ) <= st2.dep(#[trigger] st2.queue[j]) by {
        if i < st.queue.len() {
            assert(st.visited(st.queue[i]));
            assert(st.dep(st.queue[i]) <= d + 1);
        }
        if j < st.queue.len() {
            assert(st.visited(st.queue[j]));
            assert(st.dep(st.queue[i]) <= st.dep(st.queue[j]));
        }
    }
    assert forall|i: int, j: int| st2.head <= i <= j < st2.queue.len() implies st2.dep(
        #[trigger] st2.queue[j],
    ) <= st2.dep(#[trigger] st2.queue[i]) + 1 by {
        if i < st.queue.len() {
            assert(st.visited(st.queue[i]));
            assert(d <= st.dep(st.queue[i]));
            if j < st.queue.len() {
                assert(st.visited(st.queue[j]));
                assert(st.dep(st.queue[j]) <= st.dep(st.queue[i]) + 1);
            }
        }
    }
    assert forall|j: int| 0 <= j < st2.queue.len() implies st2.dep(#[trigger] st2.queue[j]) <= j by {
        if j < st.queue.len() {
            assert(st.visited(st.queue[j]));
            assert(st.dep(st.queue[j]) <= j);
        } else {
            assert(st.dep(st.queue[st.head]) <= st.head);
        }
    }
}

proof fn lemma_visit_closed(st: Search, k: int, n: (i32, i32), st2: Search)
    requires
        st.basics(),
        st.listed(),
        st.expanded(),
        st.closed_at(st.head, k),
        st.head < st.queue.len(),
        0 <= k < 4,
        n == nbr(st.queue[st.head], k),
        st2.v == st.v,
        st2.head == st.head,
        st2.queue == st.queue.push(n),
        st2.visited(n),
        st2.dep(n) == st.dep(st.queue[st.head]) + 1,
        forall|c: (i32, i32)| #[trigger]
            st.visited(c) ==> st2.visited(c) && st2.dep(c) == st.dep(c) && (c != st.s ==> st2.par(c)
                == st.par(c)),
    ensures
        st2.expanded(),
        st2.closed_at(st2.head, k + 1),
{
    reveal(Search::listed);
    reveal(Search::expanded);
    reveal(Search::closed_at);
    assert forall|j: int| 0 <= j < st2.head implies #[trigger] st2.closed_at(j, 4) by {
        assert(st.visited(st.queue[j]));
        assert(st.closed_at(j, 4));
        assert(st2.queue[j] == st.queue[j]);
        assert forall|k2: int|
            0 <= k2 < 4 && !blocked(st2.v, #[trigger] nbr(st2.queue[j], k2)) implies {
            &&& st2.visited(nbr(st2.queue[j], k2))
            &&& st2.dep(nbr(st2.queue[j], k2)) <= st2.dep(st2.queue[j]) + 1
        } by {
            assert(st.visited(nbr(st.queue[j], k2)));
        }
    }
    assert(st.visited(st.queue[st.head]));
    assert(st2.queue[st.head] == st.queue[st.head]);
    assert forall|k2: int|
        0 <= k2 < k + 1 && !blocked(st2.v, #[trigger] nbr(st2.queue[st.head], k2)) implies {
        &&& st2.visited(nbr(st2.queue[st.head], k2))
        &&& st2.dep(nbr(st2.queue[st.head], k2)) <= st2.dep(st2.queue[st.head]) + 1
    } by {
        if k2 != k {
            assert(st.visited(nbr(st.queue[st.head], k2)));
        }
    }
}

/// Once all four neighbours of `queue[head]` are handled, the search may
/// move on to the next cell of the queue.
proof fn lemma_advance(st: Search)
    requires
        st.sound(),
        st.expanded(),
        st.head < st.queue.len(),
        st.closed_at(st.head, 4),
    ensures
        (Search { head: st.head + 1, ..st }).inv(),
        (Search { head: st.head + 1, ..st }).children_before(0),
{
    let st2 = Search { head: st.head + 1, ..st };
    lemma_advance_order(st);
    reveal(Search::listed);
    reveal(Search::complete);
    reveal(Search::parents);
    reveal(Search::ordered);
    reveal(Search::expanded);
    reveal(Search::closed_at);
    assert(st2.listed());
    assert forall|c: (i32, i32)| #[trigger]
        st2.visited(c) implies exists|j: int| 0 <= j < st2.queue.len() && st2.queue[j] == c by {
        assert(st.visited(c));
        let j = choose|j: int| 0 <= j < st.queue.len() && st.queue[j] == c;
        assert(st2.queue[j] == c);
    }
    assert(st2.complete());
    assert(st2.parents());
    assert(st2.ordered());
    assert forall|j: int| 0 <= j < st2.head implies #[trigger] st2.closed_at(j, 4) by {
        if j < st.head {
            assert(st.closed_at(j, 4));
        }
    }
}

proof fn lemma_advance_order(st: Search)
    requires
        st.placed(),
        st.firsts(),
        st.sorted(),
        st.earliest(),
        st.head < st.queue.len(),
    ensures
        (Search { head: st.head + 1, ..st }).placed(),
        (Search { head: st.head + 1, ..st }).firsts(),
        (Search { head: st.head + 1, ..st }).sorted(),
        (Search { head: st.head + 1, ..st }).earliest(),
        (Search { head: st.head + 1, ..st }).children_before(0),
{
    let st2 = Search { head: st.head + 1, ..st };
    reveal(Search::placed);
    reveal(Search::firsts);
    reveal(Search::sorted);
    reveal(Search::earliest);
    reveal(Search::children_before);
    assert forall|c: (i32, i32)| #[trigger] st2.visited(c) implies {
        &&& 0 <= st2.at(c) < st2.queue.len()
        &&& st2.queue[st2.at(c)] == c
        &&& c != st2.s ==> st2.at(st2.par(c)) <= st2.head
    } by {
        assert(st.visited(c));
    }
    assert forall|j: int| 0 <= j < st2.queue.len() implies st2.at(#[trigger] st2.queue[j]) == j by {
        assert(st.at(st.queue[j]) == j);
    }
    assert forall|c: (i32, i32)| #[trigger] st2.visited(c) && c != st2.s implies {
        &&& 0 <= st2.fst(c) < 4
        &&& if st2.par(c) == st2.s {
            c == nbr(st2.s, st2.fst(c))
        } else {
            st2.fst(c) == st2.fst(st2.par(c))
        }
    } by {
        assert(st.visited(c));
    }
    assert forall|a: (i32, i32), b: (i32, i32)|
        #[trigger] st2.visited(a) && #[trigger] st2.visited(b) && a != st2.s && b != st2.s && st2.dep(a)
            == st2.dep(b) && st2.at(a) <= st2.at(b) implies st2.fst(a) <= st2.fst(b) by {
        assert(st.visited(a) && st.visited(b));
    }
    assert forall|c: (i32, i32), j: int|
        #![trigger st2.visited(c), st2.queue[j]]
        st2.visited(c) && c != st2.s && 0 <= j < st2.queue.len() && adjacent(st2.queue[j], c)
            && st2.dep(st2.queue[j]) + 1 == st2.dep(c) implies st2.at(st2.par(c)) <= j by {
        assert(st.visited(c));
        assert(st.queue[j] == st2.queue[j]);
    }
    assert forall|b: (i32, i32)| #[trigger]
        st2.visited(b) && b != st2.s && st2.at(st2.par(b)) == st2.head implies exists|k2: int|
        0 <= k2 < 0 && b == #[trigger] nbr(st2.queue[st2.head], k2) by {
        assert(st.visited(b));
    }
}

/// A neighbour that is blocked or already reached needs no work.
proof fn lemma_skip(st: Search, k: int, n: (i32, i32))
    requires
        st.sound(),
        st.closed_at(st.head, k),
        st.children_before(k),
        st.head < st.queue.len(),
        0 <= k < 4,
        n == nbr(st.queue[st.head], k),
        st.visited(n) || blocked(st.v, n),
    ensures
        st.closed_at(st.head, k + 1),
        st.children_before(k + 1),
{
    reveal(Search::closed_at);
    assert(st.children_before(k + 1)) by {
        reveal(Search::children_before);
        assert forall|b: (i32, i32)| #[trigger]
            st.visited(b) && b != st.s && st.at(st.par(b)) == st.head implies exists|k2: int|
            0 <= k2 < k + 1 && b == #[trigger] nbr(st.queue[st.head], k2) by {
            let k2 = choose|k2: int| 0 <= k2 < k && b == #[trigger] nbr(st.queue[st.head], k2);
        }
    }
    reveal(Search::complete);
    reveal(Search::listed);
    reveal(Search::ordered);
    if !blocked(st.v, n) {
        let j = choose|j: int| 0 <= j < st.queue.len() && st.queue[j] == n;
        assert(st.visited(st.queue[st.head]));
        if j < st.head {
            assert(st.dep(st.queue[j]) <= st.dep(st.queue[st.head]));
        } else {
            assert(st.dep(st.queue[j]) <= st.dep(st.queue[st.head]) + 1);
        }
    }
}

/// Every cell of a route from the start lies within its position's depth,
/// as long as the cells before it that are shallower than `limit` have
/// all been expanded.
proof fn lemma_route_depth(st: Search, p: Seq<(i32, i32)>, limit: int, k: int)
    requires
        st.inv(),
        is_route(st.v, st.s, p),
        forall|c: (i32, i32)| #[trigger]
            st.visited(c) && st.dep(c) < limit ==> exists|j: int|
                0 <= j < st.head && st.queue[j] == c,
        0 <= k < p.len(),
        k <= limit,
    ensures
        st.visited(p[k]),
        st.dep(p[k]) <= k,
    decreases k,
{
    if k > 0 {
        reveal(Search::expanded);
        reveal(Search::closed_at);
        reveal(Search::parents);
        lemma_route_depth(st, p, limit, k - 1);
        let a = p[k - 1];
        assert(st.visited(a) && st.dep(a) < limit);
        let j = choose|j: int| 0 <= j < st.head && st.queue[j] == a;
        assert(st.closed_at(j, 4));
        assert(step_ok(st.v, p, k));
        assert(inner(a)) by {
            if a != st.s {
                assert(st.in_grid(a));
            }
        }
        let kk = lemma_adjacent_nbr(a, p[k]);
        assert(nbr(st.queue[j], kk) == p[k]);
    }
}

/// Along a route, one step deeper at most per step, while the cells
/// stepped from are shallower than `limit` (and so expanded).
proof fn lemma_route_step(st: Search, p: Seq<(i32, i32)>, limit: int, m: int)
    requires
        st.inv(),
        is_route(st.v, st.s, p),
        forall|c: (i32, i32)| #[trigger]
            st.visited(c) && st.dep(c) < limit ==> exists|j: int|
                0 <= j < st.head && st.queue[j] == c,
        0 <= m,
        m + 1 < p.len(),
        m < limit,
    ensures
        st.visited(p[m + 1]),
        st.dep(p[m + 1]) <= st.dep(p[m]) + 1,
{
    lemma_route_depth(st, p, limit, m);
    reveal(Search::expanded);
    reveal(Search::closed_at);
    reveal(Search::parents);
    let a = p[m];
    let j = choose|j: int| 0 <= j < st.head && st.queue[j] == a;
    assert(st.closed_at(j, 4));
    assert(step_ok(st.v, p, m + 1));
    assert(inner(a)) by {
        if a != st.s {
            assert(st.in_grid(a));
        }
    }
    let kk = lemma_adjacent_nbr(a, p[m + 1]);
    assert(nbr(st.queue[j], kk) == p[m + 1]);
}

/// On a shortest route to a reached cell, the cell at position `j` is no
/// deeper than the one at position `i` plus the steps between.
proof fn lemma_route_climb(st: Search, p: Seq<(i32, i32)>, limit: int, i: int, j: int)
    requires
        st.inv(),
        is_route(st.v, st.s, p),
        forall|c: (i32, i32)| #[trigger]
            st.visited(c) && st.dep(c) < limit ==> exists|j: int|
                0 <= j < st.head && st.queue[j] == c,
        p.len() - 1 <= limit,
        0 <= i <= j < p.len(),
    ensures
        st.visited(p[j]),
        st.dep(p[j]) <= st.dep(p[i]) + (j - i),
    decreases j - i,
{
    lemma_route_depth(st, p, limit, j);
    if j > i {
        lemma_route_climb(st, p, limit, i, j - 1);
        lemma_route_step(st, p, limit, j - 1);
    }
}

/// Along a shortest route to the goal, each cell lies at the depth of its
/// position, and begins with a neighbour of the start no later than the
/// route's own first step.
proof fn lemma_route_firsts(st: Search, p: Seq<(i32, i32)>, k: int, i: int)
    requires
        st.inv(),
        is_route(st.v, st.s, p),
        st.visited(p.last()),
        p.last() != st.s,
        p.len() == st.dep(p.last()) + 1,
        forall|c: (i32, i32)| #[trigger]
            st.visited(c) && st.dep(c) < st.dep(p.last()) ==> exists|j: int|
                0 <= j < st.head && st.queue[j] == c,
        0 <= k < 4,
        p[1] == nbr(st.s, k),
        1 <= i < p.len(),
    ensures
        st.visited(p[i]),
        st.dep(p[i]) == i,
        p[i] != st.s,
        st.fst(p[i]) <= k,
    decreases i,
{
    let limit = st.dep(p.last());
    lemma_route_depth(st, p, limit, i);
    lemma_route_climb(st, p, limit, i, p.len() - 1);
    assert(st.dep(p[i]) == i);
    assert(p[i] != st.s);
    lemma_parent_reached(st, p[i]);
    let pa = st.par(p[i]);
    reveal(Search::firsts);
    if i == 1 {
        assert(pa == st.s) by {
            if pa != st.s {
                lemma_parent_reached(st, pa);
            }
        }
        lemma_nbr_injective(st.s, st.fst(p[1]), k);
    } else {
        lemma_route_firsts(st, p, k, i - 1);
        let u = p[i - 1];
        assert(step_ok(st.v, p, i));
        assert(0 <= st.at(u) < st.queue.len() && st.queue[st.at(u)] == u) by {
            reveal(Search::placed);
        }
        assert(st.at(pa) <= st.at(u)) by {
            reveal(Search::earliest);
            let j = st.at(u);
            assert(st.visited(p[i]) && st.queue[j] == u);
            assert(adjacent(st.queue[j], p[i]));
            assert(st.dep(st.queue[j]) + 1 == st.dep(p[i]));
        }
        assert(pa != st.s) by {
            if pa == st.s {
                assert(st.dep(pa) == 0);
            }
        }
        assert(st.fst(pa) <= st.fst(u)) by {
            reveal(Search::sorted);
        }
    }
}

/// A shortest route to the goal begins no earlier, among the start's
/// neighbours, than the one the search's route to the goal begins with.
proof fn lemma_first_step_least(st: Search, p: Seq<(i32, i32)>, k: int)
    requires
        st.inv(),
        route_to(st.v, st.s, p.last(), p),
        st.visited(p.last()),
        p.last() != st.s,
        p.len() == st.dep(p.last()) + 1,
        forall|c: (i32, i32)| #[trigger]
            st.visited(c) && st.dep(c) < st.dep(p.last()) ==> exists|j: int|
                0 <= j < st.head && st.queue[j] == c,
        0 <= k < 4,
        p[1] == nbr(st.s, k),
    ensures
        st.fst(p.last()) <= k,
{
    lemma_route_firsts(st, p, k, p.len() - 1);
}

/// Whether `c` is one of the level's trap holes.
fn is_trap(level: &Level, c: (i32, i32)) -> (r: bool)
    ensures
        r == level@.trap_at(c),
{
    let hs = level.hazards();
    let mut i: usize = 0;
    while i < hs.len()
        invariant
            hs@ == level@.hazards,
            i <= hs@.len(),
            forall|j: int| 0 <= j < i ==> hs@[j] != c,
        decreases hs@.len() - i,
    {
        if hs[i].0 == c.0 && hs[i].1 == c.1 {
            assert(hs@[i as int] == c);
            return true;
        }
        i = i + 1;
    }
    false
}

/// The cell the autopilot steers toward from cell `(sx, sz)`: the goal
/// when the ball is there already or no route reaches it; else the first
/// side neighbour, in the order `+x`, `-x`, `+z`, `-z`, that begins a
/// shortest route to the goal staying off walls and trap holes.
#[verifier::rlimit(100)]
pub fn bot_target(level: &Level, sx: i32, sz: i32) -> (r: (i32, i32))
    requires
        i32::MIN < sx < i32::MAX,
        i32::MIN < sz < i32::MAX,
    ensures
        (sx, sz) == level@.goal || !reachable(level@, (sx, sz), level@.goal) ==> r == level@.goal,
        (sx, sz) != level@.goal && reachable(level@, (sx, sz), level@.goal) ==> earliest_first_step(
            level@,
            (sx, sz),
            level@.goal,
            r,
        ),
{
    let g = level.goal();
    let s = (sx, sz);
    if sx == g.0 && sz == g.1 {
        return g;
    }
    let w = level.width();
    let h = level.height();
    let ghost v = level@;
    let cells = (w * h) as usize;
    let mut seen: Vec<bool> = Vec::new();
    let mut depth: Vec<usize> = Vec::new();
    let mut parent: Vec<(i32, i32)> = Vec::new();
    let mut i: usize = 0;
    while i < cells
        invariant
            i <= cells,
            seen@.len() == i,
            depth@.len() == i,
            parent@.len() == i,
            forall|j: int| 0 <= j < i ==> !seen@[j],
            count_false(seen@) == i,
        decreases cells - i,
    {
        let ghost before = seen@;
        seen.push(false);
        assert(seen@.drop_last() =~= before);
        depth.push(0);
        parent.push((0, 0));
        i = i + 1;
    }
    let s_in = 0 <= sx && sx < w && 0 <= sz && sz < h;
    if s_in {
        proof {
            lemma_cell_index(w as int, h as int, sx as int, sz as int);
            lemma_count_false_update(seen@, sz * w + sx);
        }
        seen.set((sz * w + sx) as usize, true);
    }
    let mut queue: Vec<(i32, i32)> = Vec::new();
    queue.push(s);
    let mut head: usize = 0;
    let ghost mut st = Search {
        v,
        s,
        seen: seen@,
        depth: depth@,
        parent: parent@,
        queue: queue@,
        head: 0,
        first: Seq::new(cells as nat, |i: int| 0),
        pos: Seq::new(cells as nat, |i: int| 0),
    };
    proof {
        assert forall|c: (i32, i32)| #[trigger] st.visited(c) implies c == s by {
            if c != s && st.in_grid(c) {
                st.lemma_idx(c);
                if s_in {
                    assert(st.in_grid(s));
                    st.lemma_idx(s);
                    assert(st.idx(c) != st.idx(s));
                }
            }
        }
        assert forall|c: (i32, i32)| #[trigger] st.visited(c) implies exists|j: int|
            0 <= j < st.queue.len() && st.queue[j] == c by {
            assert(st.queue[0] == c);
        }
        reveal(Search::listed);
        reveal(Search::complete);
        reveal(Search::parents);
        reveal(Search::ordered);
        reveal(Search::expanded);
        reveal(Search::placed);
        reveal(Search::firsts);
        reveal(Search::sorted);
        reveal(Search::earliest);
        reveal(Search::children_before);
        assert(st.inv());
        assert(st.children_before(0));
    }
    // breadth-first search from s; stops once the goal comes up
    let mut done = false;
    while !done && head < queue.len()
        invariant
            st.inv(),
            st.children_before(0),
            tracks(st, v, s, seen@, depth@, parent@, queue@, head as int),
            v == level@,
            v.w == w,
            v.h == h,
            s == (sx, sz),
            g == v.goal,
            s != g,
            done ==> head < queue@.len() && queue@[head as int] == g,
        decreases v.w * v.h + 1 - head, if done {
            0int
        } else {
            1int
        },
    {
        let cur = queue[head];
        if cur.0 == g.0 && cur.1 == g.1 {
            done = true;
        } else {
            proof {
                reveal(Search::listed);
                reveal(Search::parents);
                assert(st.visited(cur));
                if cur != s {
                    assert(st.in_grid(cur));
                    st.lemma_idx(cur);
                }
            }
            let d: usize = if cur.0 == sx && cur.1 == sz {
                0
            } else {
                depth[(cur.1 * w + cur.0) as usize]
            };
            assert(d == st.dep(cur));
            assert(d <= head) by {
                reveal(Search::ordered);
                assert(st.dep(st.queue[head as int]) <= head);
            }
            let mut k: usize = 0;
            assert(st.closed_at(st.head, 0)) by {
                reveal(Search::closed_at);
            }
            while k < 4
                invariant
                    st.sound(),
                    st.expanded(),
                    st.closed_at(st.head, k as int),
                    st.children_before(k as int),
                    tracks(st, v, s, seen@, depth@, parent@, queue@, head as int),
                    v == level@,
                    v.w == w,
                    v.h == h,
                    s == (sx, sz),
                    head < queue@.len(),
                    cur == queue@[head as int],
                    d == st.dep(cur),
                    d <= head,
                    inner(cur),
                    k <= 4,
                decreases 4 - k,
            {
                let n = if k == 0 {
                    (cur.0 + 1, cur.1)
                } else if k == 1 {
                    (cur.0 - 1, cur.1)
                } else if k == 2 {
                    (cur.0, cur.1 + 1)
                } else {
                    (cur.0, cur.1 - 1)
                };
                assert(n == nbr(cur, k as int));
                let in_grid = 0 <= n.0 && n.0 < w && 0 <= n.1 && n.1 < h;
                if in_grid {
                    proof {
                        st.lemma_idx(n);
                    }
                }
                let reached = (n.0 == sx && n.1 == sz) || (in_grid && seen[(n.1 * w + n.0) as usize]);
                assert(reached == st.visited(n));
                if reached || level.is_wall(n.0, n.1) || is_trap(level, n) {
                    proof {
                        lemma_skip(st, k as int, n);
                    }
                } else {
                    let ix = (n.1 * w + n.0) as usize;
                    let ghost st2 = Search {
                        seen: st.seen.update(st.idx(n), true),
                        depth: st.depth.update(st.idx(n), (st.dep(cur) + 1) as usize),
                        parent: st.parent.update(st.idx(n), cur),
                        queue: st.queue.push(n),
                        first: st.first.update(
                            st.idx(n),
                            if cur == st.s {
                                k as int
                            } else {
                                st.fst(cur)
                            },
                        ),
                        pos: st.pos.update(st.idx(n), st.queue.len() as int),
                        ..st
                    };
                    proof {
                        lemma_visit(st, k as int, n, st2);
                    }
                    seen.set(ix, true);
                    depth.set(ix, d + 1);
                    parent.set(ix, cur);
                    queue.push(n);
                    proof {
                        st = st2;
                    }
                }
                k = k + 1;
            }
            head = head + 1;
            proof {
                lemma_advance(st);
                st = Search { head: head as int, ..st };
            }
        }
    }
    // the goal is reached iff the search found it
    let g_in = 0 <= g.0 && g.0 < w && 0 <= g.1 && g.1 < h;
    if g_in {
        proof {
            st.lemma_idx(g);
        }
    }
    let g_reached = g_in && seen[(g.1 * w + g.0) as usize];
    assert(g_reached == st.visited(g));
    if !g_reached {
        proof {
            reveal(Search::listed);
            reveal(Search::complete);
            if done {
                assert(st.visited(st.queue[st.head]));
            }
            assert forall|p: Seq<(i32, i32)>| !#[trigger] route_to(v, s, g, p) by {
                if route_to(v, s, g, p) {
                    assert forall|c: (i32, i32)| #[trigger]
                        st.visited(c) && st.dep(c) < p.len() implies exists|j: int|
                        0 <= j < st.head && st.queue[j] == c by {
                        let j = choose|j: int| 0 <= j < st.queue.len() && st.queue[j] == c;
                    }
                    lemma_route_depth(st, p, p.len() as int, p.len() - 1);
                }
            }
        }
        return g;
    }
    // every cell shallower than the goal has been expanded
    proof {
        reveal(Search::complete);
        reveal(Search::ordered);
        reveal(Search::listed);
        assert forall|c: (i32, i32)| #[trigger]
            st.visited(c) && st.dep(c) < st.dep(g) implies exists|j: int|
            0 <= j < st.head && st.queue[j] == c by {
            let j = choose|j: int| 0 <= j < st.queue.len() && st.queue[j] == c;
            if done && j >= st.head {
                assert(st.dep(st.queue[st.head]) <= st.dep(st.queue[j]));
            }
        }
    }
    // walk the parents back from the goal to the start
    let mut cur = g;
    let mut next = g;
    let ghost mut path: Seq<(i32, i32)> = seq![g];
    while !(cur.0 == sx && cur.1 == sz)
        invariant
            st.inv(),
            tracks(st, v, s, seen@, depth@, parent@, queue@, head as int),
            v == level@,
            v.w == w,
            v.h == h,
            s == (sx, sz),
            g == v.goal,
            g != s,
            st.visited(g),
            st.visited(cur),
            path.len() >= 1,
            path[0] == cur,
            path.last() == g,
            path.len() == st.dep(g) - st.dep(cur) + 1,
            forall|i: int| 1 <= i < path.len() ==> #[trigger] step_ok(v, path, i),
            path.len() >= 2 ==> next == path[1],
            cur != s ==> st.fst(cur) == st.fst(g),
            cur == s ==> next == nbr(s, st.fst(g)),
        decreases st.dep(cur),
    {
        proof {
            reveal(Search::parents);
            st.lemma_idx(cur);
        }
        let p = parent[(cur.1 * w + cur.0) as usize];
        assert(p == st.par(cur));
        let ghost old_path = path;
        proof {
            path = seq![p] + path;
            assert forall|i: int| 1 <= i < path.len() implies #[trigger] step_ok(v, path, i) by {
                if i > 1 {
                    assert(step_ok(v, old_path, i - 1));
                }
            }
            reveal(Search::firsts);
        }
        next = cur;
        cur = p;
    }
    proof {
        reveal(Search::listed);
        reveal(Search::parents);
        reveal(Search::firsts);
        assert(route_to(v, s, g, path));
        assert(st.dep(g) >= 1);
        assert forall|q: Seq<(i32, i32)>| #[trigger] route_to(v, s, g, q) implies path.len() <= q.len() by {
            if q.len() - 1 < st.dep(g) {
                lemma_route_depth(st, q, st.dep(g), q.len() - 1);
            }
        }
        assert(first_step_of_shortest(v, s, g, next));
        let kg = st.fst(g);
        assert forall|k2: int| 0 <= k2 < kg implies !first_step_of_shortest(
            v,
            s,
            g,
            #[trigger] nbr(s, k2),
        ) by {
            if first_step_of_shortest(v, s, g, nbr(s, k2)) {
                let q = choose|q: Seq<(i32, i32)>|
                    {
                        &&& #[trigger] route_to(v, s, g, q)
                        &&& q.len() >= 2
                        &&& q[1] == nbr(s, k2)
                        &&& forall|q2: Seq<(i32, i32)>| #[trigger]
                            route_to(v, s, g, q2) ==> q.len() <= q2.len()
                    };
                assert(q.len() <= path.len());
                lemma_first_step_least(st, q, k2);
            }
        }
        assert(earliest_first_step(v, s, g, next));
    }
    next
}

/// `l` is the length of the shortest routes from `s` to `g`, counting
/// both ends.
pub open spec fn shortest_len(v: LevelView, s: (i32, i32), g: (i32, i32), l: int) -> bool {
    &&& exists|p: Seq<(i32, i32)>| #[trigger] route_to(v, s, g, p) && p.len() == l
    &&& forall|q: Seq<(i32, i32)>| #[trigger] route_to(v, s, g, q) ==> l <= q.len()
}

/// The first step of a shortest route goes to an open side neighbour, and
/// from there the goal is exactly one step nearer than before.
pub proof fn lemma_step_progress(v: LevelView, s: (i32, i32), g: (i32, i32), n: (i32, i32))
    requires
        first_step_of_shortest(v, s, g, n),
    ensures
        adjacent(s, n),
        !blocked(v, n),
        exists|l: int| shortest_len(v, s, g, l) && #[trigger] shortest_len(v, n, g, l - 1),
{
    let p = choose|p: Seq<(i32, i32)>|
        {
            &&& #[trigger] route_to(v, s, g, p)
            &&& p.len() >= 2
            &&& p[1] == n
            &&& forall|q: Seq<(i32, i32)>| #[trigger] route_to(v, s, g, q) ==> p.len() <= q.len()
        };
    assert(step_ok(v, p, 1));
    let rest = p.drop_first();
    assert forall|i: int| 1 <= i < rest.len() implies #[trigger] step_ok(v, rest, i) by {
        assert(step_ok(v, p, i + 1));
    }
    assert(route_to(v, n, g, rest));
    assert forall|q: Seq<(i32, i32)>| #[trigger] route_to(v, n, g, q) implies p.len() - 1 <= q.len() by {
        let longer = seq![s] + q;
        assert forall|i: int| 1 <= i < longer.len() implies #[trigger] step_ok(v, longer, i) by {
            if i > 1 {
                assert(step_ok(v, q, i - 1));
            }
        }
        assert(route_to(v, s, g, longer));
    }
    assert(shortest_len(v, s, g, p.len() as int));
    assert(shortest_len(v, n, g, p.len() - 1));
}

} // verus!
