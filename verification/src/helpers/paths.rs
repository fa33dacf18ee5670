//! Walks over a grid of entry costs, and the search for the cheapest arrival
//! at every tile that the distance field and the range finder are built on.

use vstd::prelude::*;
use crate::helpers::geometry::{adjacent, Point};

verus! {

/// What it costs to step onto each tile of a grid. A cost of zero closes the
/// tile: no walk may step onto it.
pub struct CostGrid {
    pub width: i32,
    pub height: i32,
    /// One entry per tile, row by row.
    pub entry: Vec<u8>,
}

/// The entry costs of a grid as plain numbers: what walks and their costs are
/// defined over.
pub struct Costs {
    pub width: int,
    pub height: int,
    /// One entry per tile, row by row.
    pub entry: Seq<u8>,
}

impl View for CostGrid {
    type V = Costs;

    open spec fn view(&self) -> Costs {
        Costs { width: self.width as int, height: self.height as int, entry: self.entry@ }
    }
}

/// How a tile was reached: at what total cost, and from which neighbour.
/// A starting tile has cost zero and no neighbour.
#[derive(Copy, Clone, Debug, PartialEq, Eq, Structural)]
pub struct Arrival {
    pub cost: u32,
    pub via: Option<Point>,
}

/// What a slot adds to the total that the search drives down: the cost of the
/// arrival it holds, or one more than the cap while it holds none.
pub open spec fn slot_weight(slot: Option<Arrival>, cap: int) -> nat {
    match slot {
        Some(a) => a.cost as nat,
        None => (cap + 1) as nat,
    }
}

/// The sum of [`slot_weight`] over all slots.
pub open spec fn total_weight(found: Seq<Option<Arrival>>, cap: int) -> nat
    decreases found.len(),
{
    if found.len() == 0 {
        0
    } else {
        total_weight(found.drop_last(), cap) + slot_weight(found.last(), cap)
    }
}

proof fn lemma_total_weight_update(found: Seq<Option<Arrival>>, cap: int, i: int, slot: Option<Arrival>)
    requires
        0 <= i < found.len(),
    ensures
        total_weight(found.update(i, slot), cap) + slot_weight(found[i], cap) == total_weight(
            found,
            cap,
        ) + slot_weight(slot, cap),
    decreases found.len(),
{
    let updated = found.update(i, slot);
    if i == found.len() - 1 {
        assert(updated.drop_last() =~= found.drop_last());
    } else {
        lemma_total_weight_update(found.drop_last(), cap, i, slot);
        assert(updated.drop_last() =~= found.drop_last().update(i, slot));
    }
}

impl Costs {
    /// The grid has one entry per tile.
    pub open spec fn wf(self) -> bool {
        &&& 0 <= self.width
        &&& 0 <= self.height
        &&& self.entry.len() == self.width * self.height
    }

    pub open spec fn in_bounds(self, p: Point) -> bool {
        0 <= p.x < self.width && 0 <= p.y < self.height
    }

    /// Where the entry of `p` is kept.
    pub open spec fn index_of(self, p: Point) -> int {
        p.y * self.width + p.x
    }

    /// The cost of stepping onto `p`.
    pub open spec fn entry_cost(self, p: Point) -> int {
        self.entry[self.index_of(p)] as int
    }

    /// A walk may step onto `p`.
    pub open spec fn is_open(self, p: Point) -> bool {
        self.in_bounds(p) && self.entry_cost(p) > 0
    }

    /// A walk starts anywhere on the grid and then moves from tile to adjacent
    /// open tile.
    pub open spec fn is_walk(self, w: Seq<Point>) -> bool {
        &&& w.len() >= 1
        &&& self.in_bounds(w[0])
        &&& forall|k: int|
            1 <= k < w.len() ==> adjacent(w[k - 1], #[trigger] w[k]) && self.is_open(w[k])
    }

    /// The sum of the entry costs of the tiles stepped onto. The first tile
    /// is where the walk stands at the start and costs nothing.
    pub open spec fn walk_cost(self, w: Seq<Point>) -> int
        decreases w.len(),
    {
        if w.len() <= 1 {
            0
        } else {
            self.walk_cost(w.drop_last()) + self.entry_cost(w.last())
        }
    }

    /// `w` is a walk from one of `sources` to `p`.
    pub open spec fn leads(self, sources: Seq<Point>, w: Seq<Point>, p: Point) -> bool {
        &&& self.is_walk(w)
        &&& sources.contains(w[0])
        &&& w.last() == p
    }

    /// Some walk from `sources` to `p` costs exactly `c`.
    pub open spec fn reachable_at(self, sources: Seq<Point>, p: Point, c: int) -> bool {
        exists|w: Seq<Point>| #[trigger] self.leads(sources, w, p) && self.walk_cost(w) == c
    }

    /// `c` is the least cost of a walk from `sources` to `p`.
    pub open spec fn cheapest(self, sources: Seq<Point>, p: Point, c: int) -> bool {
        &&& self.reachable_at(sources, p, c)
        &&& forall|w: Seq<Point>| #[trigger] self.leads(sources, w, p) ==> self.walk_cost(w) >= c
    }

    /// Every walk from `sources` to `p` costs more than `cap`.
    pub open spec fn beyond(self, sources: Seq<Point>, p: Point, cap: int) -> bool {
        forall|w: Seq<Point>| #[trigger] self.leads(sources, w, p) ==> self.walk_cost(w) > cap
    }

    /// The arrival recorded at `p` names the last step of a cheapest walk: a
    /// starting tile has none, any other tile was entered from an adjacent
    /// tile whose own arrival is cheaper by exactly the entry cost of `p`.
    pub open spec fn led_by(self, sources: Seq<Point>, found: Seq<Option<Arrival>>, p: Point, a: Arrival) -> bool {
        match a.via {
            None => a.cost == 0 && sources.contains(p),
            Some(q) => {
                &&& self.in_bounds(q)
                &&& adjacent(q, p)
                &&& self.is_open(p)
                &&& found[self.index_of(q)] matches Some(b) && b.cost + self.entry_cost(p) == a.cost
            },
        }
    }

    /// What the search answers for the tile `p`: nothing where every walk
    /// costs more than `cap`, else the least cost and a last step.
    pub open spec fn answer_at(
        self,
        sources: Seq<Point>,
        cap: int,
        found: Seq<Option<Arrival>>,
        p: Point,
    ) -> bool {
        match found[self.index_of(p)] {
            None => self.beyond(sources, p, cap),
            Some(a) => {
                &&& a.cost <= cap
                &&& self.cheapest(sources, p, a.cost as int)
                &&& self.led_by(sources, found, p, a)
            },
        }
    }

    /// `found` holds the answer for every tile of the grid.
    pub open spec fn answers(self, sources: Seq<Point>, cap: int, found: Seq<Option<Arrival>>) -> bool {
        &&& found.len() == self.entry.len()
        &&& forall|p: Point| self.in_bounds(p) ==> #[trigger] self.answer_at(sources, cap, found, p)
    }

    /// Tiles in bounds have an entry, and different tiles have different ones.
    pub proof fn lemma_index(self, p: Point)
        requires
            self.wf(),
            self.in_bounds(p),
        ensures
            0 <= self.index_of(p) < self.entry.len(),
            forall|q: Point|
                self.in_bounds(q) && q != p ==> #[trigger] self.index_of(q) != self.index_of(p),
    {
        let w = self.width as int;
        let h = self.height as int;
        assert(p.y * w + p.x < w * h) by (nonlinear_arith)
            requires
                0 <= p.x < w,
                0 <= p.y < h,
        ;
        assert(0 <= p.y * w) by (nonlinear_arith)
            requires
                0 <= p.y,
                0 <= w,
        ;
        assert forall|q: Point| self.in_bounds(q) && q != p implies #[trigger] self.index_of(q)
            != self.index_of(p) by {
            assert(q.y * w + q.x != p.y * w + p.x) by (nonlinear_arith)
                requires
                    0 <= p.x < w,
                    0 <= q.x < w,
                    q.x != p.x || q.y != p.y,
            ;
        }
    }

    /// A walk can be extended by a step onto an adjacent open tile, at the
    /// price of that tile's entry cost.
    pub proof fn lemma_walk_push(self, sources: Seq<Point>, w: Seq<Point>, u: Point, v: Point)
        requires
            self.leads(sources, w, u),
            adjacent(u, v),
            self.is_open(v),
        ensures
            self.leads(sources, w.push(v), v),
            self.walk_cost(w.push(v)) == self.walk_cost(w) + self.entry_cost(v),
    {
        let e = w.push(v);
        assert(e.drop_last() =~= w);
        assert(e[0] == w[0]);
        assert forall|k: int| 1 <= k < e.len() implies adjacent(e[k - 1], #[trigger] e[k])
            && self.is_open(e[k]) by {
            if k < w.len() {
                assert(e[k] == w[k]);
                assert(e[k - 1] == w[k - 1]);
            }
        }
    }

    /// A walk of more than one tile is a shorter walk followed by one step.
    pub proof fn lemma_walk_pop(self, sources: Seq<Point>, w: Seq<Point>, p: Point)
        requires
            self.leads(sources, w, p),
            w.len() >= 2,
        ensures
            self.leads(sources, w.drop_last(), w[w.len() - 2]),
            adjacent(w[w.len() - 2], p),
            self.is_open(p),
            self.walk_cost(w) == self.walk_cost(w.drop_last()) + self.entry_cost(p),
    {
        let q = w.drop_last();
        assert(q[0] == w[0]);
        assert(adjacent(w[w.len() - 1 - 1], w[w.len() - 1]));
        assert forall|k: int| 1 <= k < q.len() implies adjacent(q[k - 1], #[trigger] q[k])
            && self.is_open(q[k]) by {
            assert(q[k] == w[k]);
            assert(q[k - 1] == w[k - 1]);
        }
    }

    /// While the search runs, the arrival at `p` is backed by a walk of its
    /// cost, and its last step comes from a tile that is no dearer than the
    /// arrival allows.
    pub open spec fn backed_at(
        self,
        sources: Seq<Point>,
        cap: int,
        found: Seq<Option<Arrival>>,
        p: Point,
    ) -> bool {
        found[self.index_of(p)] matches Some(a) ==> {
            &&& a.cost <= cap
            &&& self.reachable_at(sources, p, a.cost as int)
            &&& match a.via {
                None => a.cost == 0 && sources.contains(p),
                Some(q) => {
                    &&& self.in_bounds(q)
                    &&& adjacent(q, p)
                    &&& self.is_open(p)
                    &&& found[self.index_of(q)] matches Some(b) && b.cost + self.entry_cost(p)
                        <= a.cost
                },
            }
        }
    }

    /// The step from `u` onto `v` cannot improve the arrival at `v`.
    pub open spec fn edge_relaxed(
        self,
        cap: int,
        found: Seq<Option<Arrival>>,
        u: Point,
        v: Point,
    ) -> bool {
        (found[self.index_of(u)] matches Some(b) && adjacent(u, v) && self.is_open(v) && b.cost
            + self.entry_cost(v) <= cap) ==> (found[self.index_of(v)] matches Some(a) && a.cost
            <= found[self.index_of(u)]->0.cost + self.entry_cost(v))
    }

    /// No step from `u` can improve an arrival.
    pub open spec fn settled(self, cap: int, found: Seq<Option<Arrival>>, u: Point) -> bool {
        forall|v: Point| #[trigger] self.edge_relaxed(cap, found, u, v)
    }

    /// The state of a running search: every arrival is backed, every source
    /// has arrived at no cost, and every tile with an arrival is settled,
    /// waits in `pending`, or is the tile `current` being worked on.
    pub open spec fn searching(
        self,
        sources: Seq<Point>,
        cap: int,
        found: Seq<Option<Arrival>>,
        pending: Seq<Point>,
        current: Option<Point>,
    ) -> bool {
        &&& found.len() == self.entry.len()
        &&& forall|p: Point| self.in_bounds(p) ==> #[trigger] self.backed_at(sources, cap, found, p)
        &&& forall|p: Point|
            self.in_bounds(p) && #[trigger] sources.contains(p) ==> (found[self.index_of(
                p,
            )] matches Some(a) && a.cost == 0)
        &&& forall|p: Point|
            self.in_bounds(p) && found[self.index_of(p)] is Some && Some(p) != current
                ==> #[trigger] self.settled(cap, found, p) || pending.contains(p)
        &&& forall|k: int|
            0 <= k < pending.len() ==> self.in_bounds(#[trigger] pending[k]) && found[self.index_of(
                pending[k],
            )] is Some
    }

    /// Once nothing is pending, no walk within the cap beats the arrival
    /// recorded at its end.
    proof fn lemma_no_cheaper_walk(
        self,
        sources: Seq<Point>,
        cap: int,
        found: Seq<Option<Arrival>>,
        w: Seq<Point>,
        p: Point,
    )
        requires
            self.wf(),
            self.searching(sources, cap, found, Seq::empty(), None),
            self.leads(sources, w, p),
            self.walk_cost(w) <= cap,
        ensures
            self.in_bounds(p),
            found[self.index_of(p)] matches Some(a) && a.cost <= self.walk_cost(w),
        decreases w.len(),
    {
        if w.len() == 1 {
            assert(self.in_bounds(p));
        } else {
            let u = w[w.len() - 2];
            let q = w.drop_last();
            self.lemma_walk_pop(sources, w, p);
            self.lemma_index(p);
            self.lemma_no_cheaper_walk(sources, cap, found, q, u);
            assert(self.in_bounds(u));
            assert(self.settled(cap, found, u));
            assert(self.edge_relaxed(cap, found, u, p));
        }
    }

    /// Once nothing is pending, the arrivals are the answers.
    proof fn lemma_search_complete(self, sources: Seq<Point>, cap: int, found: Seq<Option<Arrival>>)
        requires
            self.wf(),
            self.searching(sources, cap, found, Seq::empty(), None),
        ensures
            self.answers(sources, cap, found),
    {
        assert forall|p: Point| self.in_bounds(p) implies #[trigger] self.answer_at(
            sources,
            cap,
            found,
            p,
        ) by {
            assert(self.backed_at(sources, cap, found, p));
            assert forall|w: Seq<Point>| #[trigger] self.leads(sources, w, p) && self.walk_cost(w)
                <= cap implies (found[self.index_of(p)] matches Some(a) && a.cost <= self.walk_cost(w)) by {
                self.lemma_no_cheaper_walk(sources, cap, found, w, p);
            }
            if let Some(a) = found[self.index_of(p)] {
                if let Some(q) = a.via {
                    assert(self.backed_at(sources, cap, found, q));
                    assert(self.settled(cap, found, q));
                    assert(self.edge_relaxed(cap, found, q, p));
                }
            }
        }
    }

    /// After the sources have been entered, the search may start.
    proof fn lemma_search_seeded(
        self,
        sources: Seq<Point>,
        cap: int,
        found: Seq<Option<Arrival>>,
        queue: Seq<Point>,
    )
        requires
            self.wf(),
            0 <= cap,
            found.len() == self.entry.len(),
            forall|p: Point|
                self.in_bounds(p) ==> found[#[trigger] self.index_of(p)] == (if sources.contains(p) {
                    Some(Arrival { cost: 0, via: None })
                } else {
                    None
                }),
            forall|p: Point|
                self.in_bounds(p) && found[self.index_of(p)] is Some ==> #[trigger] queue.contains(
                    p,
                ),
            forall|k: int|
                0 <= k < queue.len() ==> self.in_bounds(#[trigger] queue[k]) && found[self.index_of(
                    queue[k],
                )] is Some,
        ensures
            self.searching(sources, cap, found, queue, None),
    {
        assert forall|p: Point| self.in_bounds(p) implies #[trigger] self.backed_at(
            sources,
            cap,
            found,
            p,
        ) by {
            let i = self.index_of(p);
            if found[i] is Some {
                let w = seq![p];
                assert(self.leads(sources, w, p));
                assert(self.walk_cost(w) == 0);
            }
        }
        assert forall|p: Point| self.in_bounds(p) && #[trigger] sources.contains(p) implies (
        found[self.index_of(p)] matches Some(a) && a.cost == 0) by {
            let i = self.index_of(p);
        }
        assert forall|p: Point|
            self.in_bounds(p) && found[self.index_of(p)] is Some && Some(p)
                != None::<Point> implies #[trigger] self.settled(cap, found, p) || queue.contains(
            p,
        ) by {
            assert(queue.contains(p));
        }
    }

    /// Taking the first pending tile to work on keeps the search in order.
    proof fn lemma_search_pop(
        self,
        sources: Seq<Point>,
        cap: int,
        found: Seq<Option<Arrival>>,
        pending: Seq<Point>,
    )
        requires
            self.wf(),
            pending.len() > 0,
            self.searching(sources, cap, found, pending, None),
        ensures
            self.in_bounds(pending[0]),
            found[self.index_of(pending[0])] is Some,
            self.searching(sources, cap, found, pending.drop_first(), Some(pending[0])),
    {
        let u = pending[0];
        let rest = pending.drop_first();
        assert forall|p: Point|
            self.in_bounds(p) && found[self.index_of(p)] is Some && Some(p) != Some(
                u,
            ) implies #[trigger] self.settled(cap, found, p) || rest.contains(p) by {
            if !self.settled(cap, found, p) {
                assert(pending.contains(p));
                let k = choose|k: int| 0 <= k < pending.len() && pending[k] == p;
                assert(rest[k - 1] == p);
            }
        }
        assert forall|k: int| 0 <= k < rest.len() implies self.in_bounds(#[trigger] rest[k])
            && found[self.index_of(rest[k])] is Some by {
            assert(rest[k] == pending[k + 1]);
        }
    }

    /// Once the four steps from the current tile have been tried, the tile is
    /// settled.
    proof fn lemma_search_settle(
        self,
        sources: Seq<Point>,
        cap: int,
        found: Seq<Option<Arrival>>,
        pending: Seq<Point>,
        u: Point,
    )
        requires
            self.wf(),
            self.searching(sources, cap, found, pending, Some(u)),
            self.edge_relaxed(cap, found, u, Point { x: (u.x + 1) as i32, y: u.y }),
            self.edge_relaxed(cap, found, u, Point { x: (u.x - 1) as i32, y: u.y }),
            self.edge_relaxed(cap, found, u, Point { x: u.x, y: (u.y + 1) as i32 }),
            self.edge_relaxed(cap, found, u, Point { x: u.x, y: (u.y - 1) as i32 }),
            self.in_bounds(u),
        ensures
            self.searching(sources, cap, found, pending, None),
    {
        let east = Point { x: (u.x + 1) as i32, y: u.y };
        let west = Point { x: (u.x - 1) as i32, y: u.y };
        let south = Point { x: u.x, y: (u.y + 1) as i32 };
        let north = Point { x: u.x, y: (u.y - 1) as i32 };
        assert forall|v: Point| #[trigger] self.edge_relaxed(cap, found, u, v) by {
            if adjacent(u, v) && self.is_open(v) {
                assert(v == east || v == west || v == south || v == north);
            }
        }
        assert(self.settled(cap, found, u));
        assert forall|p: Point|
            self.in_bounds(p) && found[self.index_of(p)] is Some && Some(p)
                != None::<Point> implies #[trigger] self.settled(cap, found, p) || pending.contains(
            p,
        ) by {
            if p != u {
                assert(Some(p) != Some(u));
            }
        }
    }

    /// Recording a cheaper arrival at `v`, by a step from the current tile
    /// `u`, keeps every arrival backed.
    proof fn lemma_improve_backed(
        self,
        sources: Seq<Point>,
        cap: int,
        before: Seq<Option<Arrival>>,
        u: Point,
        v: Point,
        arrival: Arrival,
    )
        requires
            self.wf(),
            before.len() == self.entry.len(),
            forall|p: Point|
                self.in_bounds(p) ==> #[trigger] self.backed_at(sources, cap, before, p),
            self.in_bounds(u),
            before[self.index_of(u)] is Some,
            adjacent(u, v),
            self.is_open(v),
            arrival.via == Some(u),
            arrival.cost == before[self.index_of(u)]->0.cost + self.entry_cost(v),
            arrival.cost <= cap,
            before[self.index_of(v)] matches Some(a) ==> arrival.cost < a.cost,
        ensures
            forall|p: Point|
                self.in_bounds(p) ==> #[trigger] self.backed_at(
                    sources,
                    cap,
                    before.update(self.index_of(v), Some(arrival)),
                    p,
                ),
    {
        let after = before.update(self.index_of(v), Some(arrival));
        self.lemma_index(v);
        self.lemma_index(u);
        assert forall|p: Point| self.in_bounds(p) implies #[trigger] self.backed_at(
            sources,
            cap,
            after,
            p,
        ) by {
            assert(self.backed_at(sources, cap, before, p));
            self.lemma_index(p);
            if p == v {
                assert(self.backed_at(sources, cap, before, u));
                let reached = before[self.index_of(u)]->0.cost as int;
                let w = choose|w: Seq<Point>| #[trigger]
                    self.leads(sources, w, u) && self.walk_cost(w) == reached;
                self.lemma_walk_push(sources, w, u, v);
                assert(self.leads(sources, w.push(v), v));
                assert(after[self.index_of(u)] == before[self.index_of(u)]);
            } else {
                assert(after[self.index_of(p)] == before[self.index_of(p)]);
                if let Some(a) = before[self.index_of(p)] {
                    if let Some(q) = a.via {
                        self.lemma_index(q);
                        if q != v {
                            assert(after[self.index_of(q)] == before[self.index_of(q)]);
                        }
                    }
                }
            }
        }
    }

    /// Lowering the arrival at `v` leaves the steps from any other tile as
    /// relaxed as they were.
    proof fn lemma_improve_keeps_edges(
        self,
        cap: int,
        before: Seq<Option<Arrival>>,
        v: Point,
        arrival: Arrival,
        p: Point,
        y: Point,
    )
        requires
            self.wf(),
            before.len() == self.entry.len(),
            self.in_bounds(v),
            self.in_bounds(p),
            p != v,
            before[self.index_of(v)] matches Some(a) ==> arrival.cost < a.cost,
            self.edge_relaxed(cap, before, p, y),
        ensures
            self.edge_relaxed(cap, before.update(self.index_of(v), Some(arrival)), p, y),
    {
        self.lemma_index(v);
        self.lemma_index(p);
        if self.in_bounds(y) {
            self.lemma_index(y);
        }
    }

    /// Recording a cheaper arrival at `v`, by a step from the current tile
    /// `u`, and making `v` wait keeps the search in order.
    proof fn lemma_search_improve(
        self,
        sources: Seq<Point>,
        cap: int,
        before: Seq<Option<Arrival>>,
        pending: Seq<Point>,
        u: Point,
        v: Point,
        arrival: Arrival,
    )
        requires
            self.wf(),
            self.searching(sources, cap, before, pending, Some(u)),
            self.in_bounds(u),
            before[self.index_of(u)] is Some,
            adjacent(u, v),
            self.is_open(v),
            arrival.via == Some(u),
            arrival.cost == before[self.index_of(u)]->0.cost + self.entry_cost(v),
            arrival.cost <= cap,
            before[self.index_of(v)] matches Some(a) ==> arrival.cost < a.cost,
        ensures
            self.searching(
                sources,
                cap,
                before.update(self.index_of(v), Some(arrival)),
                pending.push(v),
                Some(u),
            ),
            before.update(self.index_of(v), Some(arrival))[self.index_of(u)] == before[self.index_of(
                u,
            )],
            self.edge_relaxed(cap, before.update(self.index_of(v), Some(arrival)), u, v),
            forall|x: Point| #[trigger]
                self.edge_relaxed(cap, before, u, x) ==> self.edge_relaxed(
                    cap,
                    before.update(self.index_of(v), Some(arrival)),
                    u,
                    x,
                ),
            total_weight(before.update(self.index_of(v), Some(arrival)), cap) < total_weight(
                before,
                cap,
            ),
    {
        let after = before.update(self.index_of(v), Some(arrival));
        let waiting = pending.push(v);
        self.lemma_index(v);
        self.lemma_index(u);
        lemma_total_weight_update(before, cap, self.index_of(v), Some(arrival));
        self.lemma_improve_backed(sources, cap, before, u, v, arrival);
        assert forall|p: Point| self.in_bounds(p) && #[trigger] sources.contains(p) implies (
        after[self.index_of(p)] matches Some(a) && a.cost == 0) by {
            self.lemma_index(p);
        }
        assert forall|p: Point|
            self.in_bounds(p) && after[self.index_of(p)] is Some && Some(p) != Some(
                u,
            ) implies #[trigger] self.settled(cap, after, p) || waiting.contains(p) by {
            self.lemma_index(p);
            if p == v {
                assert(waiting[waiting.len() - 1] == v);
            } else if pending.contains(p) {
                let k = choose|k: int| 0 <= k < pending.len() && pending[k] == p;
                assert(waiting[k] == p);
            } else {
                assert(after[self.index_of(p)] == before[self.index_of(p)]);
                assert(self.settled(cap, before, p));
                assert forall|y: Point| #[trigger] self.edge_relaxed(cap, after, p, y) by {
                    assert(self.edge_relaxed(cap, before, p, y));
                    self.lemma_improve_keeps_edges(cap, before, v, arrival, p, y);
                }
            }
        }
        assert forall|k: int| 0 <= k < waiting.len() implies self.in_bounds(#[trigger] waiting[k])
            && after[self.index_of(waiting[k])] is Some by {
            if k < pending.len() {
                assert(waiting[k] == pending[k]);
                self.lemma_index(pending[k]);
            }
        }
        assert forall|x: Point| #[trigger]
            self.edge_relaxed(cap, before, u, x) implies self.edge_relaxed(cap, after, u, x) by {
            self.lemma_improve_keeps_edges(cap, before, v, arrival, u, x);
        }
    }

    /// The first steps of a walk are a walk that costs no more.
    pub proof fn lemma_walk_prefix(self, w: Seq<Point>, upto: int)
        requires
            self.is_walk(w),
            0 <= upto < w.len(),
        ensures
            self.is_walk(w.subrange(0, upto + 1)),
            self.walk_cost(w.subrange(0, upto + 1)) <= self.walk_cost(w),
        decreases w.len(),
    {
        let head = w.subrange(0, upto + 1);
        assert(head[0] == w[0]);
        assert forall|k: int| 1 <= k < head.len() implies adjacent(head[k - 1], #[trigger] head[k])
            && self.is_open(head[k]) by {
            assert(head[k] == w[k]);
            assert(head[k - 1] == w[k - 1]);
        }
        if upto + 1 == w.len() {
            assert(head =~= w);
        } else {
            let shorter = w.drop_last();
            assert(shorter[0] == w[0]);
            assert forall|k: int| 1 <= k < shorter.len() implies adjacent(
                shorter[k - 1],
                #[trigger] shorter[k],
            ) && self.is_open(shorter[k]) by {
                assert(shorter[k] == w[k]);
                assert(shorter[k - 1] == w[k - 1]);
            }
            self.lemma_walk_prefix(shorter, upto);
            assert(shorter.subrange(0, upto + 1) =~= head);
            assert(self.entry_cost(w.last()) >= 0);
        }
    }

    /// Some walk leads from `a` to `b`.
    pub open spec fn linked(self, a: Point, b: Point) -> bool {
        exists|w: Seq<Point>| #[trigger] self.is_walk(w) && w[0] == a && w.last() == b
    }

    /// A walk that ends where another starts can be continued by it.
    pub proof fn lemma_linked_on(self, a: Point, b: Point, c: Point)
        requires
            self.linked(a, b),
            self.linked(b, c),
        ensures
            self.linked(a, c),
    {
        let w1 = choose|w: Seq<Point>| #[trigger] self.is_walk(w) && w[0] == a && w.last() == b;
        let w2 = choose|w: Seq<Point>| #[trigger] self.is_walk(w) && w[0] == b && w.last() == c;
        let w = w1 + w2.drop_first();
        assert forall|k: int| 1 <= k < w.len() implies adjacent(w[k - 1], #[trigger] w[k])
            && self.is_open(w[k]) by {
            if k < w1.len() {
                assert(w[k] == w1[k]);
                assert(w[k - 1] == w1[k - 1]);
            } else {
                let j = k - w1.len() + 1;
                assert(w[k] == w2[j]);
                if k == w1.len() {
                    assert(w[k - 1] == w1[w1.len() - 1]);
                    assert(w2[j - 1] == b);
                } else {
                    assert(w[k - 1] == w2[j - 1]);
                }
            }
        }
        assert(w[0] == w1[0]);
        if w2.len() == 1 {
            assert(w =~= w1);
        } else {
            assert(w.last() == w2[w2.len() - 1]);
        }
        assert(self.is_walk(w));
    }

    /// A walk from an open tile can be walked back.
    pub proof fn lemma_linked_back(self, a: Point, b: Point)
        requires
            self.linked(a, b),
            self.is_open(a),
        ensures
            self.linked(b, a),
    {
        let w = choose|w: Seq<Point>| #[trigger] self.is_walk(w) && w[0] == a && w.last() == b;
        let r = w.reverse();
        assert forall|k: int| 0 <= k < r.len() implies #[trigger] r[k] == w[w.len() - 1 - k] by {}
        assert forall|k: int| 1 <= k < r.len() implies adjacent(r[k - 1], #[trigger] r[k])
            && self.is_open(r[k]) by {
            let j = w.len() - 1 - k;
            assert(r[k] == w[j]);
            assert(r[k - 1] == w[j + 1]);
            assert(adjacent(w[j + 1 - 1], w[j + 1]));
            if j > 0 {
                assert(self.is_open(w[j]));
            }
        }
        if w.len() > 1 {
            assert(self.is_open(w[w.len() - 1]));
        }
        assert(r[0] == w[w.len() - 1 - 0]);
        assert(r[r.len() - 1] == w[w.len() - 1 - (r.len() - 1)]);
        assert(self.is_walk(r));
    }

    /// A walk stays a walk when tiles are opened.
    pub proof fn lemma_linked_still(self, wider: Costs, a: Point, b: Point)
        requires
            self.linked(a, b),
            wider.width == self.width,
            wider.height == self.height,
            forall|p: Point| #[trigger] self.is_open(p) ==> wider.is_open(p),
        ensures
            wider.linked(a, b),
    {
        let w = choose|w: Seq<Point>| #[trigger] self.is_walk(w) && w[0] == a && w.last() == b;
        assert forall|k: int| 1 <= k < w.len() implies adjacent(w[k - 1], #[trigger] w[k])
            && wider.is_open(w[k]) by {
            assert(self.is_open(w[k]));
        }
        assert(wider.is_walk(w));
    }

    /// Along a row of open tiles there is a walk.
    pub proof fn lemma_linked_along_row(self, y: int, from: int, to: int)
        requires
            forall|x: int|
                (from <= x <= to || to <= x <= from) ==> #[trigger] self.is_open(
                    Point { x: x as i32, y: y as i32 },
                ),
            i32::MIN <= from <= i32::MAX,
            i32::MIN <= to <= i32::MAX,
            i32::MIN <= y <= i32::MAX,
        ensures
            self.linked(Point { x: from as i32, y: y as i32 }, Point { x: to as i32, y: y as i32 }),
        decreases
                if from <= to {
                    to - from
                } else {
                    from - to
                },
    {
        let a = Point { x: from as i32, y: y as i32 };
        let b = Point { x: to as i32, y: y as i32 };
        assert(self.is_open(a));
        if from == to {
            let w = seq![a];
            assert(self.is_walk(w));
            assert(w[0] == a && w.last() == b);
        } else {
            let before = if from < to {
                to - 1
            } else {
                to + 1
            };
            let m = Point { x: before as i32, y: y as i32 };
            self.lemma_linked_along_row(y, from, before);
            assert(self.is_open(b));
            let w = seq![m, b];
            assert(self.is_open(m));
            assert forall|k: int| 1 <= k < w.len() implies adjacent(w[k - 1], #[trigger] w[k])
                && self.is_open(w[k]) by {
                assert(w[0] == m);
                assert(w[1] == b);
            }
            assert(self.is_walk(w));
            assert(w[0] == m && w.last() == b);
            self.lemma_linked_on(a, m, b);
        }
    }

    /// Along a column of open tiles there is a walk.
    pub proof fn lemma_linked_along_column(self, x: int, from: int, to: int)
        requires
            forall|y: int|
                (from <= y <= to || to <= y <= from) ==> #[trigger] self.is_open(
                    Point { x: x as i32, y: y as i32 },
                ),
            i32::MIN <= from <= i32::MAX,
            i32::MIN <= to <= i32::MAX,
            i32::MIN <= x <= i32::MAX,
        ensures
            self.linked(Point { x: x as i32, y: from as i32 }, Point { x: x as i32, y: to as i32 }),
        decreases
                if from <= to {
                    to - from
                } else {
                    from - to
                },
    {
        let a = Point { x: x as i32, y: from as i32 };
        let b = Point { x: x as i32, y: to as i32 };
        assert(self.is_open(a));
        if from == to {
            let w = seq![a];
            assert(self.is_walk(w));
            assert(w[0] == a && w.last() == b);
        } else {
            let before = if from < to {
                to - 1
            } else {
                to + 1
            };
            let m = Point { x: x as i32, y: before as i32 };
            self.lemma_linked_along_column(x, from, before);
            assert(self.is_open(b));
            let w = seq![m, b];
            assert(self.is_open(m));
            assert forall|k: int| 1 <= k < w.len() implies adjacent(w[k - 1], #[trigger] w[k])
                && self.is_open(w[k]) by {
                assert(w[0] == m);
                assert(w[1] == b);
            }
            assert(self.is_walk(w));
            assert(w[0] == m && w.last() == b);
            self.lemma_linked_on(a, m, b);
        }
    }

    /// Where every open tile costs the same to step onto, a walk costs that
    /// much for each of its steps.
    pub proof fn law_even_cost_counts_steps(self, each: int, w: Seq<Point>)
        requires
            self.is_walk(w),
            forall|p: Point| #[trigger] self.is_open(p) ==> self.entry_cost(p) == each,
        ensures
            self.walk_cost(w) == each * (w.len() - 1),
        decreases w.len(),
    {
        if w.len() > 1 {
            let q = w.drop_last();
            assert(q[0] == w[0]);
            assert forall|k: int| 1 <= k < q.len() implies adjacent(q[k - 1], #[trigger] q[k])
                && self.is_open(q[k]) by {
                assert(q[k] == w[k]);
                assert(q[k - 1] == w[k - 1]);
            }
            self.law_even_cost_counts_steps(each, q);
            assert(self.is_open(w[w.len() - 1]));
            assert(each * (w.len() - 1) == each * (q.len() - 1) + each) by (nonlinear_arith)
                requires
                    q.len() == w.len() - 1,
            ;
        } else {
            assert(each * (w.len() - 1) == 0) by (nonlinear_arith)
                requires
                    w.len() == 1,
            ;
        }
    }

    /// A tile has at most one least cost.
    pub proof fn lemma_cheapest_unique(self, sources: Seq<Point>, p: Point, c1: int, c2: int)
        requires
            self.cheapest(sources, p, c1),
            self.cheapest(sources, p, c2),
        ensures
            c1 == c2,
    {
        let w1 = choose|w: Seq<Point>| #[trigger] self.leads(sources, w, p) && self.walk_cost(w) == c1;
        let w2 = choose|w: Seq<Point>| #[trigger] self.leads(sources, w, p) && self.walk_cost(w) == c2;
        assert(self.leads(sources, w1, p));
        assert(self.leads(sources, w2, p));
    }

    /// No walk costs less than nothing.
    pub proof fn lemma_walk_cost_nonnegative(self, w: Seq<Point>)
        ensures
            self.walk_cost(w) >= 0,
        decreases w.len(),
    {
        if w.len() > 1 {
            self.lemma_walk_cost_nonnegative(w.drop_last());
        }
    }
}

impl CostGrid {
    /// Whether `p` lies on the grid.
    pub fn contains(&self, p: Point) -> (b: bool)
        ensures
            b == self@.in_bounds(p),
    {
        0 <= p.x && p.x < self.width && 0 <= p.y && p.y < self.height
    }

    /// The position of `p` in row-major order.
    pub fn slot(&self, p: Point) -> (i: usize)
        requires
            self@.wf(),
            self@.in_bounds(p),
        ensures
            i == self@.index_of(p),
            i < self.entry.len(),
    {
        proof {
            self@.lemma_index(p);
            assert(0 <= p.y * self.width) by (nonlinear_arith)
                requires
                    0 <= p.y,
                    0 <= self.width,
            ;
            assert(self@.index_of(p) == p.y * self.width + p.x);
            assert(self@.entry.len() == self.entry.len());
        }
        (p.y as usize) * (self.width as usize) + (p.x as usize)
    }

    /// Tries the step from `u`, reached at cost `reached`, onto its neighbour
    /// `v`, and records the arrival at `v` if the step improves it.
    fn relax(
        &self,
        sources: &Vec<Point>,
        cap: u32,
        found: &mut Vec<Option<Arrival>>,
        queue: &mut Vec<Point>,
        head: usize,
        u: Point,
        reached: u32,
        v: Point,
    )
        requires
            self@.wf(),
            self@.in_bounds(u),
            old(found)[self@.index_of(u)] matches Some(b) && b.cost == reached,
            adjacent(u, v),
            head <= old(queue).len(),
            self@.searching(
                sources@,
                cap as int,
                old(found)@,
                old(queue)@.subrange(head as int, old(queue).len() as int),
                Some(u),
            ),
        ensures
            head <= final(queue).len(),
            self@.searching(
                sources@,
                cap as int,
                final(found)@,
                final(queue)@.subrange(head as int, final(queue).len() as int),
                Some(u),
            ),
            final(found)[self@.index_of(u)] == old(found)[self@.index_of(u)],
            self@.edge_relaxed(cap as int, final(found)@, u, v),
            forall|x: Point| #[trigger]
                self@.edge_relaxed(cap as int, old(found)@, u, x) ==> self@.edge_relaxed(
                    cap as int,
                    final(found)@,
                    u,
                    x,
                ),
            (final(queue)@ == old(queue)@ && final(found)@ == old(found)@) || (final(queue).len()
                == old(queue).len() + 1 && total_weight(final(found)@, cap as int) < total_weight(
                old(found)@,
                cap as int,
            )),
    {
        if !self.contains(v) {
            return ;
        }
        let iv: usize = self.slot(v);
        let step: u8 = self.entry[iv];
        if step == 0 {
            return ;
        }
        let total: u64 = reached as u64 + step as u64;
        if total > cap as u64 {
            return ;
        }
        let improves: bool = match found[iv] {
            None => true,
            Some(a) => total < a.cost as u64,
        };
        if !improves {
            return ;
        }
        let ghost before = found@;
        let ghost pending = queue@.subrange(head as int, queue.len() as int);
        let arrival = Arrival { cost: total as u32, via: Some(u) };
        found[iv] = Some(arrival);
        queue.push(v);
        proof {
            self@.lemma_search_improve(sources@, cap as int, before, pending, u, v, arrival);
            assert(found@ =~= before.update(self@.index_of(v), Some(arrival)));
            assert(queue@.subrange(head as int, queue.len() as int) =~= pending.push(v));
        }
    }

    /// Finds, for every tile, the cheapest way to arrive there from one of
    /// `sources` by steps onto adjacent open tiles, as far as it costs no
    /// more than `cap`. Sources that lie off the grid are ignored.
    pub fn arrivals(&self, sources: &Vec<Point>, cap: u32) -> (found: Vec<Option<Arrival>>)
        requires
            self@.wf(),
        ensures
            self@.answers(sources@, cap as int, found@),
    {
        let n: usize = self.entry.len();
        let mut found: Vec<Option<Arrival>> = Vec::new();
        let mut i: usize = 0;
        while i < n
            invariant
                i <= n,
                found.len() == i,
                forall|k: int| 0 <= k < i ==> found[k] is None,
            decreases n - i,
        {
            found.push(None);
            i = i + 1;
        }
        let mut queue: Vec<Point> = Vec::new();
        let mut s: usize = 0;
        proof {
            assert forall|p: Point| self@.in_bounds(p) implies found[#[trigger] self@.index_of(p)]
                is None by {
                self@.lemma_index(p);
            }
        }
        while s < sources.len()
            invariant
                self@.wf(),
                s <= sources.len(),
                found.len() == n,
                n == self.entry.len(),
                forall|p: Point|
                    self@.in_bounds(p) ==> found[#[trigger] self@.index_of(p)] == (if sources@.subrange(
                        0,
                        s as int,
                    ).contains(p) {
                        Some(Arrival { cost: 0, via: None })
                    } else {
                        None
                    }),
                forall|p: Point|
                    self@.in_bounds(p) && found[self@.index_of(p)] is Some ==> #[trigger] queue@.contains(
                        p,
                    ),
                forall|k: int|
                    0 <= k < queue.len() ==> self@.in_bounds(#[trigger] queue[k]) && found[self@.index_of(
                        queue[k],
                    )] is Some,
            decreases sources.len() - s,
        {
            let p = sources[s];
            let ghost seen = sources@.subrange(0, s as int);
            let ghost seen_next = sources@.subrange(0, s as int + 1);
            let ghost before = found@;
            let ghost waiting = queue@;
            proof {
                assert(seen_next =~= seen.push(p));
                assert forall|q: Point| seen_next.contains(q) <==> (seen.contains(q) || q == p) by {
                    if seen.contains(q) {
                        let k = choose|k: int| 0 <= k < seen.len() && seen[k] == q;
                        assert(seen_next[k] == q);
                    }
                    if q == p {
                        assert(seen_next[s as int] == p);
                    }
                }
            }
            if self.contains(p) {
                let ip: usize = self.slot(p);
                if found[ip].is_none() {
                    found[ip] = Some(Arrival { cost: 0, via: None });
                    queue.push(p);
                    proof {
                        self@.lemma_index(p);
                        assert(queue@[queue.len() - 1] == p);
                        assert forall|q: Point|
                            self@.in_bounds(q) && found[self@.index_of(q)] is Some implies #[trigger] queue@.contains(
                            q,
                        ) by {
                            self@.lemma_index(q);
                            if q != p {
                                assert(before[self@.index_of(q)] is Some);
                                assert(waiting.contains(q));
                                let k = choose|k: int| 0 <= k < waiting.len() && waiting[k] == q;
                                assert(queue@[k] == q);
                            }
                        }
                        assert forall|k: int| 0 <= k < queue.len() implies self@.in_bounds(
                            #[trigger] queue[k],
                        ) && found[self@.index_of(queue[k])] is Some by {
                            if k < waiting.len() {
                                assert(queue[k] == waiting[k]);
                                self@.lemma_index(waiting[k]);
                            }
                        }
                        assert forall|q: Point| self@.in_bounds(q) implies found[#[trigger] self@.index_of(
                            q,
                        )] == (if seen_next.contains(q) {
                            Some(Arrival { cost: 0, via: None })
                        } else {
                            None
                        }) by {
                            self@.lemma_index(q);
                        }
                    }
                }
            }
            s = s + 1;
        }
        let mut head: usize = 0;
        proof {
            assert(queue@.subrange(0, queue.len() as int) =~= queue@);
            assert(sources@.subrange(0, sources.len() as int) =~= sources@);
            self@.lemma_search_seeded(sources@, cap as int, found@, queue@);
        }
        while head < queue.len()
            invariant
                self@.wf(),
                head <= queue.len(),
                found.len() == self.entry.len(),
                self@.searching(
                    sources@,
                    cap as int,
                    found@,
                    queue@.subrange(head as int, queue.len() as int),
                    None,
                ),
            decreases total_weight(found@, cap as int), queue.len() - head,
        {
            let u = queue[head];
            let ghost pending = queue@.subrange(head as int, queue.len() as int);
            proof {
                assert(pending[0] == u);
                self@.lemma_search_pop(sources@, cap as int, found@, pending);
            }
            let iu: usize = self.slot(u);
            let reached: u32 = match found[iu] {
                Some(a) => a.cost,
                None => 0,
            };
            head = head + 1;
            proof {
                assert(queue@.subrange(head as int, queue.len() as int) =~= pending.drop_first());
            }
            let east = Point { x: u.x + 1, y: u.y };
            let west = Point { x: u.x - 1, y: u.y };
            let south = Point { x: u.x, y: u.y + 1 };
            let north = Point { x: u.x, y: u.y - 1 };
            self.relax(sources, cap, &mut found, &mut queue, head, u, reached, east);
            self.relax(sources, cap, &mut found, &mut queue, head, u, reached, west);
            self.relax(sources, cap, &mut found, &mut queue, head, u, reached, south);
            self.relax(sources, cap, &mut found, &mut queue, head, u, reached, north);
            proof {
                self@.lemma_search_settle(
                    sources@,
                    cap as int,
                    found@,
                    queue@.subrange(head as int, queue.len() as int),
                    u,
                );
            }
        }
        proof {
            assert(queue@.subrange(head as int, queue.len() as int) =~= Seq::<Point>::empty());
            self@.lemma_search_complete(sources@, cap as int, found@);
        }
        found
    }
}

} // verus!
