use vstd::prelude::*;
use vstd::set_lib::{lemma_int_range, lemma_len_subset, set_int_range};
use crate::ids::{IntersectionID, RoadID};
use crate::kinds::Direction;
use crate::filters::{DiagonalFilter, ModalFilter};
use crate::network::{MapModel, Road, Router};
use crate::edits::EditMaps;

verus! {

/// Travel along one road: `forwards` from its source to its destination intersection, else the
/// other way.
#[derive(Clone, Copy, Debug, PartialEq, Eq, Structural)]
pub struct Leg {
    pub road: RoadID,
    pub forwards: bool,
}

pub open spec fn leg_start(m: MapModel, l: Leg) -> IntersectionID {
    if l.forwards {
        m.roads@[l.road.0 as int].src_i
    } else {
        m.roads@[l.road.0 as int].dst_i
    }
}

pub open spec fn leg_end(m: MapModel, l: Leg) -> IntersectionID {
    if l.forwards {
        m.roads@[l.road.0 as int].dst_i
    } else {
        m.roads@[l.road.0 as int].src_i
    }
}

pub open spec fn direction_allows(d: Direction, forwards: bool) -> bool {
    match d {
        Direction::Forwards => forwards,
        Direction::Backwards => !forwards,
        Direction::BothWays => true,
    }
}

/// A vehicle may drive `l`: the road exists, has no modal filter, and runs that way.
pub open spec fn leg_open(m: MapModel, s: EditMaps, l: Leg) -> bool {
    &&& l.road.0 < m.n_roads()
    &&& s.modal_filters[l.road.0 as int].is_none()
    &&& direction_allows(s.directions[l.road.0 as int], l.forwards)
}

/// `b` continues from where `a` ends, and no diagonal filter there forbids the turn.
pub open spec fn turn_ok(m: MapModel, s: EditMaps, a: Leg, b: Leg) -> bool {
    &&& leg_end(m, a) == leg_start(m, b)
    &&& (s.diagonal_filters[leg_end(m, a).0 as int] matches Some(f) ==> f.allows(a.road, b.road))
}

/// `w` is a drivable way from intersection `from` to intersection `to`.
pub open spec fn is_walk(m: MapModel, s: EditMaps, w: Seq<Leg>, from: IntersectionID, to: IntersectionID) -> bool {
    if w.len() == 0 {
        from == to
    } else {
        &&& leg_start(m, w[0]) == from
        &&& leg_end(m, w.last()) == to
        &&& forall|k: int| 0 <= k < w.len() ==> leg_open(m, s, #[trigger] w[k])
        &&& forall|k: int| 0 <= k < w.len() - 1 ==> turn_ok(m, s, #[trigger] w[k], w[k + 1])
    }
}

pub open spec fn leg_of(i: int) -> Leg {
    Leg { road: RoadID((i / 2) as usize), forwards: i % 2 == 0 }
}

pub open spec fn index_of(l: Leg) -> int {
    2 * l.road.0 + if l.forwards { 0int } else { 1int }
}

proof fn lemma_index_round_trip(l: Leg, n: int)
    requires
        l.road.0 < n,
    ensures
        0 <= index_of(l) < 2 * n,
        leg_of(index_of(l)) == l,
{
    let r = l.road.0 as int;
    let b: int = if l.forwards { 0 } else { 1 };
    assert((2 * r + b) / 2 == r && (2 * r + b) % 2 == b) by (nonlinear_arith)
        requires
            0 <= b <= 1,
            r >= 0,
    ;
}

fn leg_at(i: usize) -> (l: Leg)
    ensures
        l == leg_of(i as int),
{
    Leg { road: RoadID(i / 2), forwards: i % 2 == 0 }
}

proof fn lemma_extend_walk(m: MapModel, s: EditMaps, w: Seq<Leg>, from: IntersectionID, b: Leg)
    requires
        w.len() > 0,
        is_walk(m, s, w, from, leg_end(m, w.last())),
        leg_open(m, s, b),
        turn_ok(m, s, w.last(), b),
    ensures
        is_walk(m, s, w.push(b), from, leg_end(m, b)),
        w.push(b).last() == b,
{
    let w2 = w.push(b);
    assert forall|k: int| 0 <= k < w2.len() implies leg_open(m, s, #[trigger] w2[k]) by {
        if k < w.len() {
            assert(w2[k] == w[k]);
        }
    }
    assert forall|k: int| 0 <= k < w2.len() - 1 implies turn_ok(m, s, #[trigger] w2[k], w2[k + 1]) by {
        assert(w2[k] == w[k]);
        if k < w.len() - 1 {
            assert(w2[k + 1] == w[k + 1]);
        }
    }
}

/// The legs that `reached` marks are closed under driving on: every open leg out of `from`
/// is marked, and every open leg that may follow a marked one is marked.
pub open spec fn closed(m: MapModel, s: EditMaps, reached: Seq<bool>, from: IntersectionID) -> bool {
    &&& forall|l: Leg| #[trigger] leg_open(m, s, l) && leg_start(m, l) == from ==> reached[index_of(l)]
    &&& forall|a: Leg, b: Leg|
        leg_open(m, s, a) && reached[index_of(a)] && leg_open(m, s, b) && #[trigger] turn_ok(m, s, a, b)
            ==> reached[index_of(b)]
}

/// Every leg of a walk from `from` is marked by a closed set.
proof fn lemma_closed_covers_walk(m: MapModel, s: EditMaps, reached: Seq<bool>, from: IntersectionID, w: Seq<Leg>, to: IntersectionID, k: int)
    requires
        closed(m, s, reached, from),
        is_walk(m, s, w, from, to),
        0 <= k < w.len(),
    ensures
        reached[index_of(w[k])],
    decreases k,
{
    assert(leg_open(m, s, w[k]));
    if k > 0 {
        lemma_closed_covers_walk(m, s, reached, from, w, to, k - 1);
        assert(leg_open(m, s, w[k - 1]));
        assert(turn_ok(m, s, w[k - 1], w[(k - 1) + 1]));
    }
}

fn extended(p: &Vec<Leg>, l: Leg) -> (r: Vec<Leg>)
    ensures
        r@ == p@.push(l),
{
    let mut r: Vec<Leg> = Vec::new();
    let mut k: usize = 0;
    while k < p.len()
        invariant
            k <= p@.len(),
            r@ == p@.take(k as int),
        decreases p@.len() - k,
    {
        r.push(p[k]);
        k = k + 1;
        assert(r@ =~= p@.take(k as int));
    }
    assert(p@.take(p@.len() as int) =~= p@);
    r.push(l);
    r
}

impl MapModel {
    fn leg_is_open(
        &self,
        modal: &Vec<Option<ModalFilter>>,
        dirs: &Vec<Direction>,
        diag: &Vec<Option<DiagonalFilter>>,
        l: Leg,
    ) -> (r: bool)
        requires
            modal@.len() == self.n_roads(),
            dirs@.len() == self.n_roads(),
        ensures
            r == leg_open(*self, EditMaps { modal_filters: modal@, diagonal_filters: diag@, directions: dirs@ }, l),
    {
        if l.road.0 >= self.roads.len() {
            return false;
        }
        if modal[l.road.0].is_some() {
            return false;
        }
        match dirs[l.road.0] {
            Direction::Forwards => l.forwards,
            Direction::Backwards => !l.forwards,
            Direction::BothWays => true,
        }
    }

    fn leg_start_of(&self, l: Leg) -> (r: IntersectionID)
        requires
            l.road.0 < self.n_roads(),
        ensures
            r == leg_start(*self, l),
    {
        if l.forwards {
            self.roads[l.road.0].src_i
        } else {
            self.roads[l.road.0].dst_i
        }
    }

    fn leg_end_of(&self, l: Leg) -> (r: IntersectionID)
        requires
            l.road.0 < self.n_roads(),
        ensures
            r == leg_end(*self, l),
    {
        if l.forwards {
            self.roads[l.road.0].dst_i
        } else {
            self.roads[l.road.0].src_i
        }
    }
}


proof fn lemma_leg_of_range(j: int, n: int)
    requires
        0 <= j < 2 * n,
        n <= usize::MAX,
    ensures
        leg_of(j).road.0 < n,
        index_of(leg_of(j)) == j,
{
    assert(j / 2 < n && 2 * (j / 2) + (j % 2) == j && (j % 2 == 0 || j % 2 == 1)) by (nonlinear_arith)
        requires
            0 <= j < 2 * n,
    ;
    assert(((j / 2) as usize) as int == j / 2);
}

pub open spec fn sat_add(a: u64, b: u64) -> u64 {
    if a + b > u64::MAX {
        u64::MAX
    } else {
        (a + b) as u64
    }
}

/// The summed cost of the roads that `w` drives, capped at the largest `u64`.
pub open spec fn walk_cost_sat(costs: Seq<u64>, w: Seq<Leg>) -> u64
    decreases w.len(),
{
    if w.len() == 0 {
        0
    } else {
        sat_add(walk_cost_sat(costs, w.drop_last()), costs[w.last().road.0 as int])
    }
}

/// Below the cap, the capped cost is the true cost.
pub proof fn lemma_walk_cost_sat_exact(costs: Seq<u64>, w: Seq<Leg>)
    requires
        walk_cost(costs, w) <= u64::MAX,
    ensures
        walk_cost_sat(costs, w) == walk_cost(costs, w),
    decreases w.len(),
{
    if w.len() > 0 {
        lemma_walk_cost_grows(costs, w, w.len() - 1);
        assert(w.take(w.len() - 1) =~= w.drop_last());
        lemma_walk_cost_sat_exact(costs, w.drop_last());
    }
}

proof fn lemma_sat_prefix(costs: Seq<u64>, w: Seq<Leg>, t: int)
    requires
        0 <= t <= w.len(),
    ensures
        walk_cost_sat(costs, w.take(t)) <= walk_cost_sat(costs, w),
    decreases w.len() - t,
{
    if t < w.len() {
        lemma_sat_prefix(costs, w, t + 1);
        assert(w.take(t + 1).drop_last() =~= w.take(t));
    } else {
        assert(w.take(t) =~= w);
    }
}

proof fn lemma_walk_prefix(m: MapModel, s: EditMaps, w: Seq<Leg>, from: IntersectionID, to: IntersectionID, t: int)
    requires
        is_walk(m, s, w, from, to),
        0 < t <= w.len(),
    ensures
        is_walk(m, s, w.take(t), from, leg_end(m, w[t - 1])),
        w.take(t).last() == w[t - 1],
{
    let p = w.take(t);
    assert forall|k: int| 0 <= k < p.len() implies leg_open(m, s, #[trigger] p[k]) by {
        assert(p[k] == w[k]);
    }
    assert forall|k: int| 0 <= k < p.len() - 1 implies turn_ok(m, s, #[trigger] p[k], p[k + 1]) by {
        assert(p[k] == w[k] && p[k + 1] == w[k + 1]);
    }
}

/// The position of a leg with the smallest distance that is reached but not yet settled.
fn next_unsettled(dist: &Vec<Option<u64>>, done: &Vec<bool>) -> (r: Option<usize>)
    requires
        dist@.len() == done@.len(),
    ensures
        r matches Some(b) ==> b < dist@.len() && !done@[b as int] && dist@[b as int].is_some()
            && forall|j: int| 0 <= j < dist@.len() && !done@[j] && (#[trigger] dist@[j]).is_some()
                ==> dist@[b as int].unwrap() <= dist@[j].unwrap(),
        r is None ==> forall|j: int| 0 <= j < dist@.len() && dist@[j].is_some() ==> #[trigger] done@[j],
{
    let mut best: Option<usize> = None;
    let mut best_d: u64 = 0;
    let mut k: usize = 0;
    while k < dist.len()
        invariant
            k <= dist@.len(),
            dist@.len() == done@.len(),
            best matches Some(b) ==> b < dist@.len() && !done@[b as int] && dist@[b as int] == Some(best_d)
                && forall|j: int| 0 <= j < k && !done@[j] && (#[trigger] dist@[j]).is_some() ==> best_d <= dist@[j].unwrap(),
            best is None ==> forall|j: int| 0 <= j < k && dist@[j].is_some() ==> #[trigger] done@[j],
        decreases dist@.len() - k,
    {
        if !done[k] {
            if let Some(d) = dist[k] {
                let take = match best {
                    None => true,
                    Some(_) => d < best_d,
                };
                if take {
                    best = Some(k);
                    best_d = d;
                }
            }
        }
        k = k + 1;
    }
    best
}

/// Legs are settled only once no walk reaches them more cheaply: the argument that the leg
/// `b` with the smallest distance among those reached and unsettled is settled correctly.
proof fn lemma_cut(
    m: MapModel,
    s: EditMaps,
    costs: Seq<u64>,
    dist: Seq<Option<u64>>,
    done: Seq<bool>,
    from: IntersectionID,
    b: int,
    w: Seq<Leg>,
    t: int,
)
    requires
        m.wf(),
        2 * m.n_roads() <= usize::MAX,
        costs.len() == m.n_roads(),
        dist.len() == 2 * m.n_roads(),
        done.len() == 2 * m.n_roads(),
        0 <= b < 2 * m.n_roads(),
        !done[b],
        dist[b].is_some(),
        forall|j: int| 0 <= j < dist.len() && !done[j] && (#[trigger] dist[j]).is_some() ==> dist[b].unwrap() <= dist[j].unwrap(),
        forall|j: int| 0 <= j < dist.len() && #[trigger] done[j] ==> dist[j].is_some(),
        forall|j: int, v: Seq<Leg>|
            0 <= j < dist.len() && done[j] && v.len() > 0 && v.last() == leg_of(j) && #[trigger] is_walk(m, s, v, from, leg_end(m, leg_of(j)))
                ==> dist[j].unwrap() <= #[trigger] walk_cost_sat(costs, v),
        forall|l: Leg|
            #[trigger] leg_open(m, s, l) && leg_start(m, l) == from ==> dist[index_of(l)].is_some()
                && dist[index_of(l)].unwrap() <= costs[l.road.0 as int],
        forall|j: int, l: Leg|
            0 <= j < dist.len() && done[j] && leg_open(m, s, l) && #[trigger] turn_ok(m, s, leg_of(j), l)
                ==> dist[index_of(l)].is_some() && dist[index_of(l)].unwrap() <= sat_add(dist[j].unwrap(), costs[l.road.0 as int]),
        w.len() > 0,
        is_walk(m, s, w, from, leg_end(m, w.last())),
        w.last() == leg_of(b),
        0 <= t < w.len(),
        forall|k: int| 0 <= k < t ==> done[index_of(#[trigger] w[k])],
    ensures
        dist[b].unwrap() <= walk_cost_sat(costs, w),
    decreases w.len() - t,
{
    let n = m.n_roads() as int;
    let x = w[t];
    assert(leg_open(m, s, x));
    lemma_index_round_trip(x, n);
    let ix = index_of(x);
    if done[ix] {
        if t == w.len() - 1 {
            lemma_index_round_trip(w.last(), n);
            lemma_leg_of_range(b, n);
            assert(false);
        }
        lemma_cut(m, s, costs, dist, done, from, b, w, t + 1);
    } else {
        lemma_walk_prefix(m, s, w, from, leg_end(m, w.last()), t + 1);
        lemma_sat_prefix(costs, w, t + 1);
        let q = w.take(t + 1);
        assert(q.drop_last() =~= w.take(t));
        assert(q.last() == x);
        if t == 0 {
            assert(w.take(0) =~= Seq::<Leg>::empty());
            assert(leg_start(m, x) == from);
        } else {
            let y = w[t - 1];
            lemma_index_round_trip(y, n);
            let iy = index_of(y);
            assert(done[iy]);
            lemma_walk_prefix(m, s, w, from, leg_end(m, w.last()), t);
            assert(turn_ok(m, s, w[t - 1], w[(t - 1) + 1]));
            assert(is_walk(m, s, w.take(t), from, leg_end(m, leg_of(iy))));
            assert(dist[iy].unwrap() <= walk_cost_sat(costs, w.take(t)));
            assert(turn_ok(m, s, leg_of(iy), x));
        }
    }
}

impl MapModel {
    pub open spec fn path_ok(&self, s: EditMaps, p: Seq<Leg>, from: IntersectionID, j: int) -> bool {
        &&& p.len() > 0
        &&& p.last() == leg_of(j)
        &&& is_walk(*self, s, p, from, leg_end(*self, leg_of(j)))
    }

    /// Searches the network under the given filters, directions and diagonal filters for a
    /// cheapest way from `from` to `to`, settling the cheapest reached leg first, where driving
    /// a road costs `costs` of it. Finds a way exactly when one exists.
    #[verifier::rlimit(100)]
    #[verifier::spinoff_prover]
    fn search(
        &self,
        modal: &Vec<Option<ModalFilter>>,
        dirs: &Vec<Direction>,
        diag: &Vec<Option<DiagonalFilter>>,
        costs: &Vec<u64>,
        from: IntersectionID,
        to: IntersectionID,
    ) -> (r: Option<Vec<Leg>>)
        requires
            self.wf(),
            modal@.len() == self.n_roads(),
            dirs@.len() == self.n_roads(),
            diag@.len() == self.n_intersections(),
            costs@.len() == self.n_roads(),
            2 * self.n_roads() <= usize::MAX,
        ensures
            r matches Some(w) ==> is_walk(*self, EditMaps { modal_filters: modal@, diagonal_filters: diag@, directions: dirs@ }, w@, from, to),
            r matches Some(w) ==> forall|w2: Seq<Leg>|
                #[trigger] is_walk(*self, EditMaps { modal_filters: modal@, diagonal_filters: diag@, directions: dirs@ }, w2, from, to)
                    ==> walk_cost_sat(costs@, w@) <= walk_cost_sat(costs@, w2),
            r is None ==> forall|w: Seq<Leg>| !#[trigger] is_walk(*self, EditMaps { modal_filters: modal@, diagonal_filters: diag@, directions: dirs@ }, w, from, to),
    {
        let ghost s = EditMaps { modal_filters: modal@, diagonal_filters: diag@, directions: dirs@ };
        if from == to {
            return Some(Vec::new());
        }
        let n = self.roads.len();
        let total = 2 * n;
        let mut dist: Vec<Option<u64>> = Vec::new();
        let mut done: Vec<bool> = Vec::new();
        let mut paths: Vec<Vec<Leg>> = Vec::new();
        let mut i: usize = 0;
        while i < total
            invariant
                self.wf(),
                s == (EditMaps { modal_filters: modal@, diagonal_filters: diag@, directions: dirs@ }),
                n == self.n_roads(),
                total == 2 * n,
                modal@.len() == n,
                dirs@.len() == n,
                costs@.len() == n,
                i <= total,
                dist@.len() == i,
                done@.len() == i,
                paths@.len() == i,
                forall|j: int| 0 <= j < i ==> !(#[trigger] done@[j]),
                forall|j: int| 0 <= j < i && (#[trigger] dist@[j]).is_some() ==> self.path_ok(s, paths@[j]@, from, j),
                forall|j: int|
                    0 <= j < i && leg_open(*self, s, #[trigger] leg_of(j)) && leg_start(*self, leg_of(j)) == from
                        ==> dist@[j].is_some() && dist@[j].unwrap() <= costs@[leg_of(j).road.0 as int],
                forall|j: int| 0 <= j < i && (#[trigger] dist@[j]).is_some() ==> dist@[j].unwrap() == walk_cost_sat(costs@, paths@[j]@),
            decreases total - i,
        {
            let l = leg_at(i);
            proof {
                lemma_leg_of_range(i as int, n as int);
            }
            if self.leg_is_open(modal, dirs, diag, l) && self.leg_start_of(l) == from {
                dist.push(Some(costs[l.road.0]));
                let mut p: Vec<Leg> = Vec::new();
                p.push(l);
                assert(p@ =~= seq![l]);
                assert(p@.drop_last() =~= Seq::<Leg>::empty());
                assert(walk_cost_sat(costs@, Seq::<Leg>::empty()) == 0);
                assert(walk_cost_sat(costs@, p@) == costs@[l.road.0 as int]);
                paths.push(p);
            } else {
                dist.push(None);
                paths.push(Vec::new());
            }
            done.push(false);
            i = i + 1;
        }
        let ghost mut settled: Set<int> = Set::empty();
        let mut count: usize = 0;
        let mut searching = true;
        proof {
            lemma_int_range(0, total as int);
            assert forall|l: Leg| #[trigger] leg_open(*self, s, l) && leg_start(*self, l) == from implies dist@[index_of(l)].is_some() by {
                lemma_index_round_trip(l, n as int);
            }
        }
        while searching
            invariant
                self.wf(),
                s == (EditMaps { modal_filters: modal@, diagonal_filters: diag@, directions: dirs@ }),
                n == self.n_roads(),
                total == 2 * n,
                modal@.len() == n,
                dirs@.len() == n,
                diag@.len() == self.n_intersections(),
                costs@.len() == n,
                dist@.len() == total,
                done@.len() == total,
                paths@.len() == total,
                set_int_range(0, total as int).finite(),
                set_int_range(0, total as int).len() == total,
                settled.finite(),
                settled.len() == count,
                count <= total,
                forall|j: int| #[trigger] settled.contains(j) <==> 0 <= j < total && done@[j],
                forall|j: int| 0 <= j < total && #[trigger] done@[j] ==> dist@[j].is_some(),
                forall|j: int| 0 <= j < total && (#[trigger] dist@[j]).is_some() ==> self.path_ok(s, paths@[j]@, from, j),
                forall|l: Leg|
                    #[trigger] leg_open(*self, s, l) && leg_start(*self, l) == from ==> dist@[index_of(l)].is_some()
                        && dist@[index_of(l)].unwrap() <= costs@[l.road.0 as int],
                forall|j: int, l: Leg|
                    0 <= j < total && done@[j] && leg_open(*self, s, l) && #[trigger] turn_ok(*self, s, leg_of(j), l)
                        ==> dist@[index_of(l)].is_some() && dist@[index_of(l)].unwrap() <= sat_add(dist@[j].unwrap(), costs@[l.road.0 as int]),
                forall|j: int| 0 <= j < total && (#[trigger] dist@[j]).is_some() ==> dist@[j].unwrap() == walk_cost_sat(costs@, paths@[j]@),
                forall|j: int, v: Seq<Leg>|
                    0 <= j < total && done@[j] && v.len() > 0 && v.last() == leg_of(j) && #[trigger] is_walk(*self, s, v, from, leg_end(*self, leg_of(j)))
                        ==> dist@[j].unwrap() <= #[trigger] walk_cost_sat(costs@, v),
                !searching ==> forall|j: int| 0 <= j < total && (#[trigger] dist@[j]).is_some() ==> done@[j],
            decreases total - count + if searching { 1int } else { 0int },
        {
            match next_unsettled(&dist, &done) {
                None => {
                    searching = false;
                },
                Some(b) => {
                    proof {
                        assert forall|v: Seq<Leg>|
                            v.len() > 0 && v.last() == leg_of(b as int) && #[trigger] is_walk(*self, s, v, from, leg_end(*self, leg_of(b as int)))
                            implies dist@[b as int].unwrap() <= walk_cost_sat(costs@, v) by {
                            lemma_cut(*self, s, costs@, dist@, done@, from, b as int, v, 0);
                        }
                        assert(!settled.contains(b as int));
                        assert(settled.subset_of(set_int_range(0, total as int).remove(b as int)));
                        lemma_len_subset(settled, set_int_range(0, total as int).remove(b as int));
                        lemma_leg_of_range(b as int, n as int);
                    }
                    done.set(b, true);
                    count = count + 1;
                    proof {
                        settled = settled.insert(b as int);
                    }
                    let a = leg_at(b);
                    let end = self.leg_end_of(a);
                    assert(end.0 < self.n_intersections());
                    let filter = diag[end.0];
                    let db = match dist[b] {
                        Some(d) => d,
                        None => 0,
                    };
                    let ghost dist0 = dist@;
                    let mut j: usize = 0;
                    while j < total
                        invariant
                            self.wf(),
                            s == (EditMaps { modal_filters: modal@, diagonal_filters: diag@, directions: dirs@ }),
                            n == self.n_roads(),
                            total == 2 * n,
                            modal@.len() == n,
                            dirs@.len() == n,
                            diag@.len() == self.n_intersections(),
                            costs@.len() == n,
                            dist@.len() == total,
                            done@.len() == total,
                            paths@.len() == total,
                            b < total,
                            done@[b as int],
                            a == leg_of(b as int),
                            a.road.0 < n,
                            end == leg_end(*self, a),
                            end.0 < self.n_intersections(),
                            filter == diag@[end.0 as int],
                            j <= total,
                            dist0.len() == total,
                            forall|k: int| 0 <= k < total && dist0[k].is_some() ==> (#[trigger] dist@[k]).is_some() && dist@[k].unwrap() <= dist0[k].unwrap(),
                            forall|k: int| 0 <= k < total && (#[trigger] dist@[k]).is_some() ==> dist@[k].unwrap() == walk_cost_sat(costs@, paths@[k]@),
                            dist@[b as int] == Some(db),
                            forall|k: int| 0 <= k < total && (#[trigger] dist@[k]).is_some() ==> self.path_ok(s, paths@[k]@, from, k),
                            dist@[b as int].is_some(),
                            forall|k: int|
                                0 <= k < j && leg_open(*self, s, #[trigger] leg_of(k)) && turn_ok(*self, s, a, leg_of(k))
                                    ==> dist@[k].is_some() && dist@[k].unwrap() <= sat_add(db, costs@[leg_of(k).road.0 as int]),
                        decreases total - j,
                    {
                        let l = leg_at(j);
                        proof {
                            lemma_leg_of_range(j as int, n as int);
                        }
                        if self.leg_is_open(modal, dirs, diag, l) && self.leg_start_of(l) == end {
                            let allowed = match filter {
                                None => true,
                                Some(f) => f.allows_movement(&(a.road, l.road)),
                            };
                            if allowed {
                                let nd = db.saturating_add(costs[l.road.0]);
                                let better = match dist[j] {
                                    None => true,
                                    Some(dj) => nd < dj,
                                };
                                if better {
                                    proof {
                                        assert(self.path_ok(s, paths@[b as int]@, from, b as int));
                                        lemma_extend_walk(*self, s, paths@[b as int]@, from, l);
                                    }
                                    let p = extended(&paths[b], l);
                                    assert(p@.drop_last() =~= paths@[b as int]@);
                                    dist.set(j, Some(nd));
                                    paths.set(j, p);
                                    assert(paths@[j as int]@ == p@);
                                }
                            }
                        }
                        j = j + 1;
                    }
                    proof {
                        assert forall|l: Leg| leg_open(*self, s, l) && #[trigger] turn_ok(*self, s, a, l) implies dist@[index_of(l)].is_some()
                            && dist@[index_of(l)].unwrap() <= sat_add(dist@[b as int].unwrap(), costs@[l.road.0 as int]) by {
                            lemma_index_round_trip(l, n as int);
                        }
                        assert forall|j2: int, l: Leg|
                            0 <= j2 < total && done@[j2] && leg_open(*self, s, l) && #[trigger] turn_ok(*self, s, leg_of(j2), l)
                            implies dist@[index_of(l)].is_some() && dist@[index_of(l)].unwrap() <= sat_add(dist@[j2].unwrap(), costs@[l.road.0 as int]) by {
                            lemma_index_round_trip(l, n as int);
                        }
                    }
                },
            }
        }
        let ghost reached = Seq::new(total as nat, |j: int| dist@[j].is_some());
        proof {
            assert forall|l: Leg| #[trigger] leg_open(*self, s, l) && leg_start(*self, l) == from implies reached[index_of(l)] by {
                lemma_index_round_trip(l, n as int);
            }
            assert forall|x: Leg, y: Leg|
                leg_open(*self, s, x) && reached[index_of(x)] && leg_open(*self, s, y) && #[trigger] turn_ok(*self, s, x, y)
                implies reached[index_of(y)] by {
                lemma_index_round_trip(x, n as int);
                lemma_index_round_trip(y, n as int);
                assert(done@[index_of(x)]);
            }
            assert(closed(*self, s, reached, from));
        }
        let mut found: Option<usize> = None;
        let mut found_d: u64 = 0;
        let mut k: usize = 0;
        while k < total
            invariant
                self.wf(),
                s == (EditMaps { modal_filters: modal@, diagonal_filters: diag@, directions: dirs@ }),
                n == self.n_roads(),
                total == 2 * n,
                dist@.len() == total,
                paths@.len() == total,
                k <= total,
                found matches Some(f) ==> f < total && dist@[f as int] == Some(found_d) && leg_end(*self, leg_of(f as int)) == to
                    && forall|j: int| 0 <= j < k && (#[trigger] dist@[j]).is_some() && leg_end(*self, leg_of(j)) == to ==> found_d <= dist@[j].unwrap(),
                found is None ==> forall|j: int| 0 <= j < k && (#[trigger] dist@[j]).is_some() ==> leg_end(*self, leg_of(j)) != to,
            decreases total - k,
        {
            if let Some(d) = dist[k] {
                proof {
                    lemma_leg_of_range(k as int, n as int);
                }
                if self.leg_end_of(leg_at(k)) == to {
                    let take = match found {
                        None => true,
                        Some(_) => d < found_d,
                    };
                    if take {
                        found = Some(k);
                        found_d = d;
                    }
                }
            }
            k = k + 1;
        }
        match found {
            Some(f) => {
                assert(self.path_ok(s, paths@[f as int]@, from, f as int));
                proof {
                    assert forall|w2: Seq<Leg>| #[trigger] is_walk(*self, s, w2, from, to)
                        implies walk_cost_sat(costs@, paths@[f as int]@) <= walk_cost_sat(costs@, w2) by {
                        let last = w2.len() - 1;
                        lemma_closed_covers_walk(*self, s, reached, from, w2, to, last);
                        assert(leg_open(*self, s, w2[last]));
                        lemma_index_round_trip(w2[last], n as int);
                        let j2 = index_of(w2[last]);
                        assert(done@[j2]);
                        assert(w2.last() == leg_of(j2));
                        assert(dist@[j2].unwrap() <= walk_cost_sat(costs@, w2));
                    }
                }
                let w = paths.remove(f);
                Some(w)
            },
            None => {
                proof {
                    assert forall|w: Seq<Leg>| !#[trigger] is_walk(*self, s, w, from, to) by {
                        if is_walk(*self, s, w, from, to) {
                            let last = w.len() - 1;
                            lemma_closed_covers_walk(*self, s, reached, from, w, to, last);
                            assert(leg_open(*self, s, w[last]));
                            lemma_index_round_trip(w[last], n as int);
                        }
                    }
                }
                None
            },
        }
    }
}


impl MapModel {
    /// The costs that routing with main-road penalty `penalty_percent` uses.
    pub open spec fn penalised_costs(&self, penalty_percent: u64) -> Seq<u64> {
        Seq::new(
            self.road_costs@.len(),
            |k: int| penalised_cost(self.road_costs@[k], is_main_road(self.roads@[k]), penalty_percent),
        )
    }

    /// A cheapest way from `from` to `to` over the edited network (current filters, directions
    /// and diagonal filters), by the cached router's costs. There is a way exactly when this
    /// returns one. Costs are summed capped at the largest `u64`, which below the cap is the
    /// true sum (`lemma_walk_cost_sat_exact`).
    pub fn route(&self, from: IntersectionID, to: IntersectionID) -> (r: Option<Vec<Leg>>)
        requires
            self.wf(),
            self.router_after.is_some(),
            2 * self.n_roads() <= usize::MAX,
        ensures
            r matches Some(w) ==> is_walk(*self, self.maps(), w@, from, to),
            r matches Some(w) ==> forall|w2: Seq<Leg>| #[trigger] is_walk(*self, self.maps(), w2, from, to)
                ==> walk_cost_sat(self.penalised_costs(self.router_after.unwrap().main_road_penalty), w@)
                    <= walk_cost_sat(self.penalised_costs(self.router_after.unwrap().main_road_penalty), w2),
            r is None ==> forall|w: Seq<Leg>| !#[trigger] is_walk(*self, self.maps(), w, from, to),
    {
        match &self.router_after {
            Some(router) => {
                assert(EditMaps { modal_filters: router.modal_filters@, diagonal_filters: router.diagonal_filters@, directions: router.directions@ } == self.maps());
                self.search(&router.modal_filters, &router.directions, &router.diagonal_filters, &router.costs, from, to)
            },
            None => None,
        }
    }

    /// A cheapest way from `from` to `to` over the network as the source map has it, before
    /// any edit, by the cached router's costs. There is a way exactly when this returns one.
    pub fn route_before(&self, from: IntersectionID, to: IntersectionID) -> (r: Option<Vec<Leg>>)
        requires
            self.wf(),
            self.router_before_with_penalty.is_some(),
            2 * self.n_roads() <= usize::MAX,
        ensures
            r matches Some(w) ==> is_walk(*self, self.baseline(), w@, from, to),
            r matches Some(w) ==> forall|w2: Seq<Leg>| #[trigger] is_walk(*self, self.baseline(), w2, from, to)
                ==> walk_cost_sat(self.penalised_costs(self.router_before_with_penalty.unwrap().main_road_penalty), w@)
                    <= walk_cost_sat(self.penalised_costs(self.router_before_with_penalty.unwrap().main_road_penalty), w2),
            r is None ==> forall|w: Seq<Leg>| !#[trigger] is_walk(*self, self.baseline(), w, from, to),
    {
        match &self.router_before_with_penalty {
            Some(router) => {
                assert(EditMaps { modal_filters: router.modal_filters@, diagonal_filters: router.diagonal_filters@, directions: router.directions@ } == self.baseline());
                self.search(&router.modal_filters, &router.directions, &router.diagonal_filters, &router.costs, from, to)
            },
            None => None,
        }
    }

    /// Builds, where missing or made for another penalty, the two routers: over the edited
    /// network, and over the source map's network. Returns which of the two were rebuilt.
    pub fn rebuild_router(&mut self, main_road_penalty: u64) -> (rebuilt: (bool, bool))
        requires
            old(self).wf(),
        ensures
            final(self).wf(),
            final(self).maps() == old(self).maps(),
            final(self).roads@ == old(self).roads@,
            final(self).intersections@ == old(self).intersections@,
            final(self).bus_routes_on_roads@ == old(self).bus_routes_on_roads@,
            final(self).study_area_name == old(self).study_area_name,
            final(self).original_modal_filters@ == old(self).original_modal_filters@,
            final(self).boundaries@ == old(self).boundaries@,
            final(self).road_costs@ == old(self).road_costs@,
            final(self).undo_stack@ == old(self).undo_stack@,
            final(self).redo_queue@ == old(self).redo_queue@,
            rebuilt.0 == !(old(self).router_after matches Some(r) && r.main_road_penalty == main_road_penalty),
            rebuilt.1 == !(old(self).router_before_with_penalty matches Some(r) && r.main_road_penalty == main_road_penalty),
            final(self).router_after matches Some(r) && r.main_road_penalty == main_road_penalty,
            final(self).router_before_with_penalty matches Some(r) && r.main_road_penalty == main_road_penalty,
            !rebuilt.0 ==> final(self).router_after == old(self).router_after,
            !rebuilt.1 ==> final(self).router_before_with_penalty == old(self).router_before_with_penalty,
    {
        let after_ok = match &self.router_after {
            Some(r) => r.main_road_penalty == main_road_penalty,
            None => false,
        };
        if !after_ok {
            let router = Router {
                modal_filters: copy_vec(&self.modal_filters),
                directions: copy_vec(&self.directions),
                diagonal_filters: copy_vec(&self.diagonal_filters),
                costs: self.route_costs(main_road_penalty),
                main_road_penalty,
            };
            self.router_after = Some(router);
        }
        let before_ok = match &self.router_before_with_penalty {
            Some(r) => r.main_road_penalty == main_road_penalty,
            None => false,
        };
        if !before_ok {
            let mut no_diagonals: Vec<Option<DiagonalFilter>> = Vec::new();
            let mut i: usize = 0;
            while i < self.intersections.len()
                invariant
                    i <= self.n_intersections(),
                    no_diagonals@.len() == i,
                    forall|j: int| 0 <= j < i ==> no_diagonals@[j].is_none(),
                decreases self.n_intersections() - i,
            {
                no_diagonals.push(None);
                i = i + 1;
            }
            assert(no_diagonals@ =~= self.baseline().diagonal_filters);
            let router = Router {
                modal_filters: copy_vec(&self.original_modal_filters),
                directions: self.original_directions(),
                diagonal_filters: no_diagonals,
                costs: self.route_costs(main_road_penalty),
                main_road_penalty,
            };
            self.router_before_with_penalty = Some(router);
        }
        (!after_ok, !before_ok)
    }
}

/// A copy of `v`.
fn copy_vec<T: Copy>(v: &Vec<T>) -> (r: Vec<T>)
    ensures
        r@ == v@,
{
    let mut r: Vec<T> = Vec::new();
    let mut k: usize = 0;
    while k < v.len()
        invariant
            k <= v@.len(),
            r@ == v@.take(k as int),
        decreases v@.len() - k,
    {
        r.push(v[k]);
        k = k + 1;
        assert(r@ =~= v@.take(k as int));
    }
    assert(v@.take(v@.len() as int) =~= v@);
    r
}

/// The summed cost of the roads that `w` drives.
pub open spec fn walk_cost(costs: Seq<u64>, w: Seq<Leg>) -> int
    decreases w.len(),
{
    if w.len() == 0 {
        0
    } else {
        walk_cost(costs, w.drop_last()) + costs[w.last().road.0 as int]
    }
}

/// The summed cost of the roads that `w` drives, or `None` where it does not fit in 64 bits.
pub fn route_cost(costs: &Vec<u64>, w: &Vec<Leg>) -> (r: Option<u64>)
    requires
        forall|k: int| 0 <= k < w@.len() ==> (#[trigger] w@[k]).road.0 < costs@.len(),
    ensures
        r matches Some(c) ==> c == walk_cost(costs@, w@),
        r is None ==> walk_cost(costs@, w@) > u64::MAX,
{
    let mut total: u64 = 0;
    let mut k: usize = 0;
    while k < w.len()
        invariant
            k <= w@.len(),
            forall|j: int| 0 <= j < w@.len() ==> (#[trigger] w@[j]).road.0 < costs@.len(),
            total == walk_cost(costs@, w@.take(k as int)),
        decreases w@.len() - k,
    {
        assert(w@.take(k + 1).drop_last() =~= w@.take(k as int));
        assert(w@.take(k + 1).last() == w@[k as int]);
        let c = costs[w[k].road.0];
        match total.checked_add(c) {
            Some(t) => total = t,
            None => {
                proof {
                    lemma_walk_cost_grows(costs@, w@, k as int + 1);
                }
                return None;
            },
        }
        k = k + 1;
    }
    assert(w@.take(w@.len() as int) =~= w@);
    Some(total)
}

/// The cost of a walk is at least the cost of any of its beginnings.
proof fn lemma_walk_cost_grows(costs: Seq<u64>, w: Seq<Leg>, n: int)
    requires
        0 <= n <= w.len(),
    ensures
        walk_cost(costs, w.take(n)) <= walk_cost(costs, w),
    decreases w.len() - n,
{
    if n < w.len() {
        lemma_walk_cost_grows(costs, w, n + 1);
        assert(w.take(n + 1).drop_last() =~= w.take(n));
    } else {
        assert(w.take(n) =~= w);
    }
}


/// A main road: tagged as a motorway, trunk, primary or secondary highway.
pub open spec fn is_main_road(r: Road) -> bool {
    ||| r.tags.carries("highway"@, "motorway"@)
    ||| r.tags.carries("highway"@, "trunk"@)
    ||| r.tags.carries("highway"@, "primary"@)
    ||| r.tags.carries("highway"@, "secondary"@)
}

/// The cost used to choose routes: a main road's cost scaled by `penalty_percent` / 100,
/// capped at the largest `u64`.
pub open spec fn penalised_cost(cost: u64, main: bool, penalty_percent: u64) -> u64 {
    if !main {
        cost
    } else if (cost as int) * (penalty_percent as int) / 100 > u64::MAX {
        u64::MAX
    } else {
        ((cost as int) * (penalty_percent as int) / 100) as u64
    }
}

impl MapModel {
    pub fn is_main_road(&self, r: RoadID) -> (res: bool)
        requires
            r.0 < self.n_roads(),
        ensures
            res == is_main_road(self.roads@[r.0 as int]),
    {
        proof {
            reveal_strlit("highway");
            reveal_strlit("motorway");
            reveal_strlit("trunk");
            reveal_strlit("primary");
            reveal_strlit("secondary");
        }
        let tags = &self.roads[r.0].tags;
        tags.is("highway", "motorway") || tags.is("highway", "trunk") || tags.is("highway", "primary")
            || tags.is("highway", "secondary")
    }

    /// The costs that steer route choice away from main roads when `penalty_percent` is over
    /// 100: each main road's cost is scaled by it, the rest are kept. Travel times reported for
    /// a route are taken from the unscaled costs.
    pub fn route_costs(&self, penalty_percent: u64) -> (r: Vec<u64>)
        requires
            self.road_costs@.len() == self.n_roads(),
        ensures
            r@ == self.penalised_costs(penalty_percent),
    {
        let costs = &self.road_costs;
        let mut out: Vec<u64> = Vec::new();
        let mut k: usize = 0;
        while k < costs.len()
            invariant
                k <= costs@.len(),
                costs@.len() == self.n_roads(),
                out@.len() == k,
                forall|j: int|
                    0 <= j < k ==> #[trigger] out@[j] == penalised_cost(costs@[j], is_main_road(self.roads@[j]), penalty_percent),
            decreases costs@.len() - k,
        {
            let c = costs[k];
            if self.is_main_road(RoadID(k)) {
                proof {
                    assert((c as int) * (penalty_percent as int) <= (u64::MAX as int) * (u64::MAX as int)) by (nonlinear_arith);
                }
                let scaled: u128 = (c as u128) * (penalty_percent as u128) / 100;
                if scaled > u64::MAX as u128 {
                    out.push(u64::MAX);
                } else {
                    out.push(scaled as u64);
                }
            } else {
                out.push(c);
            }
            k = k + 1;
        }
        assert(out@ =~= self.penalised_costs(penalty_percent));
        out
    }
}


fn same_filter_at(a: &Vec<Option<DiagonalFilter>>, b: &Vec<Option<DiagonalFilter>>, k: usize) -> (r: bool)
    requires
        k < a@.len(),
        k < b@.len(),
    ensures
        r == (a@[k as int] == b@[k as int]),
{
    match (a[k], b[k]) {
        (None, None) => true,
        (Some(x), Some(y)) => x.group_a.0 == y.group_a.0 && x.group_a.1 == y.group_a.1
            && x.group_b.0 == y.group_b.0 && x.group_b.1 == y.group_b.1,
        _ => false,
    }
}

/// Do two routers hold the same state, costs and penalty?
fn same_router(a: &Router, b: &Router) -> (r: bool)
    ensures
        r == (a.modal_filters@ == b.modal_filters@ && a.directions@ == b.directions@
            && a.diagonal_filters@ == b.diagonal_filters@ && a.costs@ == b.costs@
            && a.main_road_penalty == b.main_road_penalty),
{
    if a.main_road_penalty != b.main_road_penalty || a.modal_filters.len() != b.modal_filters.len()
        || a.directions.len() != b.directions.len() || a.diagonal_filters.len() != b.diagonal_filters.len()
        || a.costs.len() != b.costs.len() {
        return false;
    }
    let mut k: usize = 0;
    while k < a.modal_filters.len()
        invariant
            k <= a.modal_filters@.len(),
            a.modal_filters@.len() == b.modal_filters@.len(),
            forall|j: int| 0 <= j < k ==> a.modal_filters@[j] == b.modal_filters@[j],
        decreases a.modal_filters@.len() - k,
    {
        if a.modal_filters[k] != b.modal_filters[k] {
            return false;
        }
        k = k + 1;
    }
    assert(a.modal_filters@ =~= b.modal_filters@);
    k = 0;
    while k < a.directions.len()
        invariant
            k <= a.directions@.len(),
            a.directions@.len() == b.directions@.len(),
            forall|j: int| 0 <= j < k ==> a.directions@[j] == b.directions@[j],
        decreases a.directions@.len() - k,
    {
        if a.directions[k] != b.directions[k] {
            return false;
        }
        k = k + 1;
    }
    assert(a.directions@ =~= b.directions@);
    k = 0;
    while k < a.diagonal_filters.len()
        invariant
            k <= a.diagonal_filters@.len(),
            a.diagonal_filters@.len() == b.diagonal_filters@.len(),
            forall|j: int| 0 <= j < k ==> a.diagonal_filters@[j] == b.diagonal_filters@[j],
        decreases a.diagonal_filters@.len() - k,
    {
        if !same_filter_at(&a.diagonal_filters, &b.diagonal_filters, k) {
            return false;
        }
        k = k + 1;
    }
    assert(a.diagonal_filters@ =~= b.diagonal_filters@);
    k = 0;
    while k < a.costs.len()
        invariant
            k <= a.costs@.len(),
            a.costs@.len() == b.costs@.len(),
            forall|j: int| 0 <= j < k ==> a.costs@[j] == b.costs@[j],
        decreases a.costs@.len() - k,
    {
        if a.costs[k] != b.costs[k] {
            return false;
        }
        k = k + 1;
    }
    assert(a.costs@ =~= b.costs@);
    true
}

impl MapModel {
    /// The routes from `from` to `to` before and after the edits, each as `route_before` and
    /// `route` give it. Where both routers hold the same state, costs and penalty, as on a
    /// network without edits, both sides are the same walk.
    pub fn compare_routes(&self, from: IntersectionID, to: IntersectionID) -> (r: (Option<Vec<Leg>>, Option<Vec<Leg>>))
        requires
            self.wf(),
            self.router_before_with_penalty.is_some(),
            self.router_after.is_some(),
            2 * self.n_roads() <= usize::MAX,
        ensures
            r.0 matches Some(w) ==> is_walk(*self, self.baseline(), w@, from, to),
            r.0 matches Some(w) ==> forall|w2: Seq<Leg>| #[trigger] is_walk(*self, self.baseline(), w2, from, to)
                ==> walk_cost_sat(self.penalised_costs(self.router_before_with_penalty.unwrap().main_road_penalty), w@)
                    <= walk_cost_sat(self.penalised_costs(self.router_before_with_penalty.unwrap().main_road_penalty), w2),
            r.0 is None ==> forall|w: Seq<Leg>| !#[trigger] is_walk(*self, self.baseline(), w, from, to),
            r.1 matches Some(w) ==> is_walk(*self, self.maps(), w@, from, to),
            r.1 matches Some(w) ==> forall|w2: Seq<Leg>| #[trigger] is_walk(*self, self.maps(), w2, from, to)
                ==> walk_cost_sat(self.penalised_costs(self.router_after.unwrap().main_road_penalty), w@)
                    <= walk_cost_sat(self.penalised_costs(self.router_after.unwrap().main_road_penalty), w2),
            r.1 is None ==> forall|w: Seq<Leg>| !#[trigger] is_walk(*self, self.maps(), w, from, to),
            self.maps() == self.baseline() && self.router_before_with_penalty.unwrap().main_road_penalty
                == self.router_after.unwrap().main_road_penalty ==> match (r.0, r.1) {
                (Some(a), Some(b)) => a@ == b@,
                (None, None) => true,
                _ => false,
            },
    {
        let before = self.route_before(from, to);
        let same = match (&self.router_before_with_penalty, &self.router_after) {
            (Some(a), Some(b)) => same_router(a, b),
            _ => false,
        };
        if same {
            let after = match &before {
                Some(w) => Some(copy_vec(w)),
                None => None,
            };
            (before, after)
        } else {
            (before, self.route(from, to))
        }
    }
}

} // verus!
