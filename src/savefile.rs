use vstd::prelude::*;
use crate::ids::{IntersectionID, RoadID};
use crate::kinds::{Direction, FilterKind, direction_text, filter_kind_text, text_is};
use crate::filters::{ALONG_SCALE, DiagonalFilter, ModalFilter, diagonal_filter_at};
use crate::network::{Boundary, MapModel};
use crate::edits::{Command, Edit, EditMaps, apply_edit, apply_edits, coerced_kind, maps_ok, edit_ok, edits_ok, edit_sound, edits_sound, maps_sound, lemma_apply_edits_sound, lemma_sound_same_network};
use crate::spatial::{RoadCandidate, closest_point_on_road, first_min, min_index};

verus! {

/// One saved edit. Geometry is written beside it from the road or intersection it names.
#[derive(Clone, Debug)]
pub enum SavedFeature {
    /// A filter that the source map does not have, at its road and position.
    ModalFilter(RoadID, ModalFilter),
    /// A filter of the source map that was removed, at its road and position.
    DeletedExistingModalFilter(RoadID, u32),
    /// A road whose direction differs from the one its tags give.
    Direction(RoadID, Direction),
    Boundary(Boundary),
    StudyAreaBoundary,
    /// A diagonal filter, with the offset of its first group among the junction's roads.
    DiagonalFilter(IntersectionID, usize),
}

/// The edits of a network, apart from everything that the source map gives.
pub struct Savefile {
    pub features: Vec<SavedFeature>,
    pub study_area_name: Option<String>,
}

/// A feature read back from a savefile, already matched against the current network: the
/// roads near its point with their distances, or one score per road for its line, or the
/// intersection nearest its point.
pub struct LoadedFeature {
    pub kind: String,
    pub filter_kind: Option<String>,
    pub direction: Option<String>,
    pub name: Option<String>,
    pub split_offset: Option<u64>,
    pub near_roads: Vec<RoadCandidate>,
    pub line_scores: Vec<u64>,
    pub nearest_intersection: Option<IntersectionID>,
    /// The feature's own encoded text, kept for boundaries.
    pub feature: String,
}

#[derive(Clone, Copy, Debug, PartialEq, Eq, Structural)]
pub enum LoadProblem {
    UnknownKind,
    MissingProperty,
    BadFilterKind,
    BadDirection,
    NoMatchingRoad,
    NoMatchingIntersection,
    NotFourWay,
    DuplicateBoundary,
}

/// Why a savefile was refused, and at which feature.
#[derive(Clone, Copy, Debug, PartialEq, Eq, Structural)]
pub struct SavefileError {
    pub index: usize,
    pub problem: LoadProblem,
}

// ---- saving ----

pub open spec fn saved_filters(m: MapModel, n: int) -> Seq<SavedFeature>
    decreases n,
{
    if n <= 0 {
        seq![]
    } else {
        let f = m.modal_filters@[n - 1];
        saved_filters(m, n - 1) + if f.is_some() && f != m.original_modal_filters@[n - 1] {
            seq![SavedFeature::ModalFilter(RoadID((n - 1) as usize), f.unwrap())]
        } else {
            seq![]
        }
    }
}

pub open spec fn saved_deletions(m: MapModel, n: int) -> Seq<SavedFeature>
    decreases n,
{
    if n <= 0 {
        seq![]
    } else {
        let o = m.original_modal_filters@[n - 1];
        saved_deletions(m, n - 1) + if o.is_some() && m.modal_filters@[n - 1].is_none() {
            seq![SavedFeature::DeletedExistingModalFilter(RoadID((n - 1) as usize), o.unwrap().percent_along)]
        } else {
            seq![]
        }
    }
}

pub open spec fn saved_directions(m: MapModel, n: int) -> Seq<SavedFeature>
    decreases n,
{
    if n <= 0 {
        seq![]
    } else {
        let d = m.directions@[n - 1];
        saved_directions(m, n - 1) + if d != m.baseline().directions[n - 1] {
            seq![SavedFeature::Direction(RoadID((n - 1) as usize), d)]
        } else {
            seq![]
        }
    }
}

/// The position of the first road `r` among `roads`.
pub open spec fn position_of(roads: Seq<RoadID>, r: RoadID) -> int
    decreases roads.len(),
{
    if roads.len() == 0 {
        0
    } else if roads[0] == r {
        0
    } else {
        1 + position_of(roads.drop_first(), r)
    }
}

pub open spec fn saved_diagonals(m: MapModel, n: int) -> Seq<SavedFeature>
    decreases n,
{
    if n <= 0 {
        seq![]
    } else {
        let f = m.diagonal_filters@[n - 1];
        saved_diagonals(m, n - 1) + if f.is_some() {
            seq![SavedFeature::DiagonalFilter(
                IntersectionID((n - 1) as usize),
                position_of(m.intersections@[n - 1].roads@, f.unwrap().group_a.0) as usize,
            )]
        } else {
            seq![]
        }
    }
}

/// Everything that a savefile of `m` holds, in order.
pub open spec fn saved_features(m: MapModel) -> Seq<SavedFeature> {
    saved_filters(m, m.n_roads() as int) + saved_deletions(m, m.n_roads() as int)
        + saved_directions(m, m.n_roads() as int) + m.boundaries@.map_values(
        |b: Boundary| SavedFeature::Boundary(b),
    ) + seq![SavedFeature::StudyAreaBoundary] + saved_diagonals(m, m.n_intersections() as int)
}

fn copy_boundary(b: &Boundary) -> (r: Boundary)
    ensures
        r == *b,
{
    Boundary { name: b.name.clone(), feature: b.feature.clone() }
}

fn copy_name(n: &Option<String>) -> (r: Option<String>)
    ensures
        r == *n,
{
    match n {
        Some(s) => Some(s.clone()),
        None => None,
    }
}

/// Where `r` stands among the four `roads`.
fn find_position(roads: &Vec<RoadID>, r: RoadID) -> (p: usize)
    requires
        exists|j: int| 0 <= j < roads@.len() && roads@[j] == r,
    ensures
        p as int == position_of(roads@, r),
        p < roads@.len(),
        roads@[p as int] == r,
{
    let mut j: usize = 0;
    assert(roads@.subrange(0, roads@.len() as int) =~= roads@);
    while j < roads.len()
        invariant
            j <= roads@.len(),
            position_of(roads@, r) == j + position_of(roads@.subrange(j as int, roads@.len() as int), r),
            forall|k: int| 0 <= k < j ==> roads@[k] != r,
            exists|k: int| 0 <= k < roads@.len() && roads@[k] == r,
        decreases roads@.len() - j,
    {
        let ghost rest = roads@.subrange(j as int, roads@.len() as int);
        assert(rest.drop_first() =~= roads@.subrange(j + 1, roads@.len() as int));
        assert(rest[0] == roads@[j as int]);
        if roads[j] == r {
            return j;
        }
        j = j + 1;
    }
    assert(false);
    0
}

impl MapModel {
    /// The edits as a savefile: filters added or changed, source filters removed, changed
    /// directions, the boundaries, the study area, and diagonal filters.
    pub fn to_savefile(&self) -> (r: Savefile)
        requires
            self.wf(),
        ensures
            r.features@ == saved_features(*self),
            r.study_area_name == self.study_area_name,
    {
        let mut features: Vec<SavedFeature> = Vec::new();
        let n = self.roads.len();
        let mut r: usize = 0;
        while r < n
            invariant
                self.wf(),
                n == self.n_roads(),
                r <= n,
                features@ == saved_filters(*self, r as int),
            decreases n - r,
        {
            let f = self.modal_filters[r];
            if let Some(filter) = f {
                if f != self.original_modal_filters[r] {
                    features.push(SavedFeature::ModalFilter(RoadID(r), filter));
                }
            }
            r = r + 1;
            assert(features@ =~= saved_filters(*self, r as int));
        }
        let ghost part1 = features@;
        r = 0;
        while r < n
            invariant
                self.wf(),
                n == self.n_roads(),
                r <= n,
                features@ == part1 + saved_deletions(*self, r as int),
            decreases n - r,
        {
            if let Some(orig) = self.original_modal_filters[r] {
                if self.modal_filters[r].is_none() {
                    features.push(SavedFeature::DeletedExistingModalFilter(RoadID(r), orig.percent_along));
                }
            }
            r = r + 1;
            assert(features@ =~= part1 + saved_deletions(*self, r as int));
        }
        let ghost part2 = features@;
        let original = self.original_directions();
        r = 0;
        while r < n
            invariant
                self.wf(),
                n == self.n_roads(),
                r <= n,
                original@ == self.baseline().directions,
                features@ == part2 + saved_directions(*self, r as int),
            decreases n - r,
        {
            let d = self.directions[r];
            if d != original[r] {
                features.push(SavedFeature::Direction(RoadID(r), d));
            }
            r = r + 1;
            assert(features@ =~= part2 + saved_directions(*self, r as int));
        }
        let ghost part3 = features@;
        let mut b: usize = 0;
        while b < self.boundaries.len()
            invariant
                b <= self.boundaries@.len(),
                features@ == part3 + self.boundaries@.take(b as int).map_values(|x: Boundary| SavedFeature::Boundary(x)),
            decreases self.boundaries@.len() - b,
        {
            features.push(SavedFeature::Boundary(copy_boundary(&self.boundaries[b])));
            b = b + 1;
            assert(features@ =~= part3 + self.boundaries@.take(b as int).map_values(|x: Boundary| SavedFeature::Boundary(x)));
        }
        assert(self.boundaries@.take(self.boundaries@.len() as int) =~= self.boundaries@);
        features.push(SavedFeature::StudyAreaBoundary);
        let ghost part4 = features@;
        let ni = self.intersections.len();
        let mut i: usize = 0;
        while i < ni
            invariant
                self.wf(),
                ni == self.n_intersections(),
                i <= ni,
                features@ == part4 + saved_diagonals(*self, i as int),
            decreases ni - i,
        {
            if let Some(f) = self.diagonal_filters[i] {
                proof {
                    assert(self.diagonal_sound(IntersectionID(i), self.diagonal_filters@[i as int]));
                    let k = choose|k: int| 0 <= k < 4 && f == #[trigger] diagonal_filter_at(self.intersections@[i as int].roads@, k);
                    assert(self.intersections@[i as int].roads@[(k + 0) % 4] == f.group_a.0);
                }
                let offset = find_position(&self.intersections[i].roads, f.group_a.0);
                features.push(SavedFeature::DiagonalFilter(IntersectionID(i), offset));
            }
            i = i + 1;
            assert(features@ =~= part4 + saved_diagonals(*self, i as int));
        }
        Savefile { features, study_area_name: copy_name(&self.study_area_name) }
    }
}


// ---- loading ----

/// What one loaded feature asks for.
pub enum Step {
    Apply(Edit),
    AddBoundary(Boundary),
    Ignore,
}

pub open spec fn candidates_ok(m: MapModel, c: Seq<RoadCandidate>) -> bool {
    &&& c.len() > 0
    &&& forall|k: int| 0 <= k < c.len() ==> (#[trigger] c[k]).road.0 < m.n_roads() && c[k].percent_along <= ALONG_SCALE
}

pub open spec fn kind_named(t: Seq<char>) -> FilterKind {
    choose|k: FilterKind| filter_kind_text(k) == t
}

pub open spec fn direction_named(t: Seq<char>) -> Direction {
    choose|d: Direction| direction_text(d) == t
}

/// What loading feature `f` does, given the boundaries taken so far.
pub open spec fn load_step(m: MapModel, f: LoadedFeature, taken: Seq<Boundary>) -> Result<Step, LoadProblem> {
    let kind = f.kind@;
    if kind == "modal_filter"@ {
        match f.filter_kind {
            None => Err(LoadProblem::MissingProperty),
            Some(t) => if !(exists|k: FilterKind| filter_kind_text(k) == t@) {
                Err(LoadProblem::BadFilterKind)
            } else if !candidates_ok(m, f.near_roads@) {
                Err(LoadProblem::NoMatchingRoad)
            } else {
                let best = f.near_roads@[min_index(f.near_roads@)];
                Ok(Step::Apply(Edit::SetModalFilter(best.road, Some(ModalFilter {
                    kind: coerced_kind(m.has_bus_route(best.road), kind_named(t@)),
                    percent_along: best.percent_along,
                }))))
            },
        }
    } else if kind == "deleted_existing_modal_filter"@ {
        if !candidates_ok(m, f.near_roads@) {
            Err(LoadProblem::NoMatchingRoad)
        } else {
            Ok(Step::Apply(Edit::SetModalFilter(f.near_roads@[min_index(f.near_roads@)].road, None)))
        }
    } else if kind == "direction"@ {
        match f.direction {
            None => Err(LoadProblem::MissingProperty),
            Some(t) => if !(exists|d: Direction| direction_text(d) == t@) {
                Err(LoadProblem::BadDirection)
            } else if f.line_scores@.len() != m.n_roads() || m.n_roads() == 0 {
                Err(LoadProblem::NoMatchingRoad)
            } else {
                Ok(Step::Apply(Edit::SetDirection(RoadID(first_min(f.line_scores@) as usize), direction_named(t@))))
            },
        }
    } else if kind == "boundary"@ {
        match f.name {
            None => Err(LoadProblem::MissingProperty),
            Some(n) => if exists|j: int| 0 <= j < taken.len() && (#[trigger] taken[j]).name@ == n@ {
                Err(LoadProblem::DuplicateBoundary)
            } else {
                Ok(Step::AddBoundary(Boundary { name: n, feature: f.feature }))
            },
        }
    } else if kind == "study_area_boundary"@ {
        Ok(Step::Ignore)
    } else if kind == "diagonal_filter"@ {
        match f.nearest_intersection {
            None => Err(LoadProblem::NoMatchingIntersection),
            Some(i) => if i.0 >= m.n_intersections() {
                Err(LoadProblem::NoMatchingIntersection)
            } else {
                match f.split_offset {
                    None => Err(LoadProblem::MissingProperty),
                    Some(o) => if m.intersections@[i.0 as int].roads@.len() != 4 {
                        Err(LoadProblem::NotFourWay)
                    } else {
                        Ok(Step::Apply(Edit::SetDiagonalFilter(i, Some(
                            diagonal_filter_at(m.intersections@[i.0 as int].roads@, (o % 4) as int),
                        ))))
                    },
                }
            },
        }
    } else {
        Err(LoadProblem::UnknownKind)
    }
}

/// The edits and boundaries that loading `fs` in order yields, or the first feature refused.
pub open spec fn load_plan(m: MapModel, fs: Seq<LoadedFeature>) -> Result<(Seq<Edit>, Seq<Boundary>), SavefileError>
    decreases fs.len(),
{
    if fs.len() == 0 {
        Ok((seq![], seq![]))
    } else {
        match load_plan(m, fs.drop_last()) {
            Err(e) => Err(e),
            Ok((es, bs)) => match load_step(m, fs.last(), bs) {
                Err(p) => Err(SavefileError { index: (fs.len() - 1) as usize, problem: p }),
                Ok(Step::Apply(e)) => Ok((es.push(e), bs)),
                Ok(Step::AddBoundary(b)) => Ok((es, bs.push(b))),
                Ok(Step::Ignore) => Ok((es, bs)),
            },
        }
    }
}

/// Does one of `taken` carry the name `name`?
fn name_taken(taken: &Vec<Boundary>, name: &String) -> (r: bool)
    ensures
        r == exists|j: int| 0 <= j < taken@.len() && (#[trigger] taken@[j]).name@ == name@,
{
    let mut j: usize = 0;
    while j < taken.len()
        invariant
            j <= taken@.len(),
            forall|k: int| 0 <= k < j ==> (#[trigger] taken@[k]).name@ != name@,
        decreases taken@.len() - j,
    {
        if taken[j].name == *name {
            assert(taken@[j as int].name@ == name@);
            return true;
        }
        j = j + 1;
    }
    false
}

fn copy_text(s: &String) -> (r: String)
    ensures
        r == *s,
{
    s.clone()
}

impl MapModel {
    fn plan_step(&self, f: &LoadedFeature, taken: &Vec<Boundary>) -> (r: Result<Step, LoadProblem>)
        requires
            self.wf(),
        ensures
            r == load_step(*self, *f, taken@),
    {
        proof {
            reveal_strlit("modal_filter");
            reveal_strlit("deleted_existing_modal_filter");
            reveal_strlit("direction");
            reveal_strlit("boundary");
            reveal_strlit("study_area_boundary");
            reveal_strlit("diagonal_filter");
        }
        let n = self.roads.len();
        if text_is(f.kind.as_str(), "modal_filter") {
            match &f.filter_kind {
                None => Err(LoadProblem::MissingProperty),
                Some(t) => match FilterKind::from_string(t.as_str()) {
                    Err(_) => Err(LoadProblem::BadFilterKind),
                    Ok(kind) => {
                        proof {
                            crate::kinds::lemma_filter_kind_text_injective();
                        }
                        if !self.candidates_valid(&f.near_roads) {
                            return Err(LoadProblem::NoMatchingRoad);
                        }
                        proof {
                            crate::spatial::lemma_closest_is_minimal(f.near_roads@);
                        }
                        let (road, percent_along) = match closest_point_on_road(&f.near_roads) {
                            Some(hit) => hit,
                            None => (f.near_roads[0].road, 0),
                        };
                        let mut use_kind = kind;
                        if self.get_bus_routes_on_road(road).is_some() && kind != FilterKind::BusGate {
                            use_kind = FilterKind::BusGate;
                        }
                        Ok(Step::Apply(Edit::SetModalFilter(road, Some(ModalFilter { kind: use_kind, percent_along }))))
                    },
                },
            }
        } else if text_is(f.kind.as_str(), "deleted_existing_modal_filter") {
            if !self.candidates_valid(&f.near_roads) {
                return Err(LoadProblem::NoMatchingRoad);
            }
            let road = match closest_point_on_road(&f.near_roads) {
                Some(hit) => hit.0,
                None => f.near_roads[0].road,
            };
            Ok(Step::Apply(Edit::SetModalFilter(road, None)))
        } else if text_is(f.kind.as_str(), "direction") {
            match &f.direction {
                None => Err(LoadProblem::MissingProperty),
                Some(t) => match Direction::from_string(t.as_str()) {
                    Err(_) => Err(LoadProblem::BadDirection),
                    Ok(d) => {
                        proof {
                            crate::kinds::lemma_direction_text_injective();
                        }
                        if f.line_scores.len() != n || n == 0 {
                            return Err(LoadProblem::NoMatchingRoad);
                        }
                        let r = self.most_similar_linestring(&f.line_scores);
                        Ok(Step::Apply(Edit::SetDirection(r, d)))
                    },
                },
            }
        } else if text_is(f.kind.as_str(), "boundary") {
            match &f.name {
                None => Err(LoadProblem::MissingProperty),
                Some(name) => {
                    if name_taken(taken, name) {
                        return Err(LoadProblem::DuplicateBoundary);
                    }
                    Ok(Step::AddBoundary(Boundary { name: copy_text(name), feature: copy_text(&f.feature) }))
                },
            }
        } else if text_is(f.kind.as_str(), "study_area_boundary") {
            Ok(Step::Ignore)
        } else if text_is(f.kind.as_str(), "diagonal_filter") {
            match f.nearest_intersection {
                None => Err(LoadProblem::NoMatchingIntersection),
                Some(i) => {
                    if i.0 >= self.intersections.len() {
                        return Err(LoadProblem::NoMatchingIntersection);
                    }
                    match f.split_offset {
                        None => Err(LoadProblem::MissingProperty),
                        Some(o) => {
                            let roads = &self.get_i(i).roads;
                            if roads.len() != 4 {
                                return Err(LoadProblem::NotFourWay);
                            }
                            let offset = (o % 4) as usize;
                            Ok(Step::Apply(Edit::SetDiagonalFilter(i, Some(DiagonalFilter::new(roads, offset)))))
                        },
                    }
                },
            }
        } else {
            Err(LoadProblem::UnknownKind)
        }
    }

    fn candidates_valid(&self, c: &Vec<RoadCandidate>) -> (r: bool)
        ensures
            r == candidates_ok(*self, c@),
    {
        if c.len() == 0 {
            return false;
        }
        let mut k: usize = 0;
        while k < c.len()
            invariant
                k <= c@.len(),
                forall|j: int| 0 <= j < k ==> (#[trigger] c@[j]).road.0 < self.n_roads() && c@[j].percent_along <= ALONG_SCALE,
            decreases c@.len() - k,
        {
            if c[k].road.0 >= self.roads.len() || c[k].percent_along > ALONG_SCALE {
                return false;
            }
            k = k + 1;
        }
        true
    }
}


proof fn lemma_step_sound(m: MapModel, f: LoadedFeature, taken: Seq<Boundary>)
    requires
        m.wf(),
    ensures
        load_step(m, f, taken) matches Ok(Step::Apply(e)) ==> edit_ok(e, m.n_roads(), m.n_intersections()) && edit_sound(m, e),
{
    if candidates_ok(m, f.near_roads@) {
        crate::spatial::lemma_closest_is_minimal(f.near_roads@);
    }
    if f.line_scores@.len() > 0 {
        crate::spatial::lemma_first_min_bounds(f.line_scores@);
    }
    if let Some(o) = f.split_offset {
        let k = (o % 4) as int;
        if let Some(i) = f.nearest_intersection {
            assert(0 <= k < 4);
            let _ = diagonal_filter_at(m.intersections@[i.0 as int].roads@, k);
        }
    }
}

/// Every edit that a load plans names a real element and is one that edits may make.
proof fn lemma_plan_sound(m: MapModel, fs: Seq<LoadedFeature>)
    requires
        m.wf(),
    ensures
        load_plan(m, fs) matches Ok((es, bs)) ==> edits_ok(es, m.n_roads(), m.n_intersections()) && edits_sound(m, es),
    decreases fs.len(),
{
    if fs.len() > 0 {
        lemma_plan_sound(m, fs.drop_last());
        if let Ok((es, bs)) = load_plan(m, fs.drop_last()) {
            lemma_step_sound(m, fs.last(), bs);
            if let Ok(Step::Apply(e)) = load_step(m, fs.last(), bs) {
                let es2 = es.push(e);
                assert forall|k: int| 0 <= k < es2.len() implies edit_ok(#[trigger] es2[k], m.n_roads(), m.n_intersections()) && edit_sound(m, es2[k]) by {
                    if k < es.len() {
                        assert(es2[k] == es[k]);
                    }
                }
            }
        }
    }
}

/// Once a prefix of the features is refused, so is the whole list, with the same error.
proof fn lemma_plan_prefix_err(m: MapModel, fs: Seq<LoadedFeature>, n: int)
    requires
        0 <= n <= fs.len(),
        load_plan(m, fs.take(n)) is Err,
    ensures
        load_plan(m, fs) == load_plan(m, fs.take(n)),
    decreases fs.len() - n,
{
    if n < fs.len() {
        assert(fs.take(n + 1).drop_last() =~= fs.take(n));
        lemma_plan_prefix_err(m, fs, n + 1);
    } else {
        assert(fs.take(n) =~= fs);
    }
}

impl MapModel {
    /// Replaces the edit state by the one a savefile describes: the state goes back to the
    /// source map's, every feature's edit is applied as one batch, and both logs are left
    /// empty, so that the load itself cannot be undone. A refused feature leaves the network
    /// untouched.
    pub fn load_savefile(&mut self, features: Vec<LoadedFeature>) -> (r: Result<(), SavefileError>)
        requires
            old(self).wf(),
        ensures
            final(self).wf(),
            match load_plan(*old(self), features@) {
                Err(e) => r == Err::<(), SavefileError>(e) && *final(self) == *old(self),
                Ok((es, bs)) => {
                    &&& r is Ok
                    &&& final(self).maps() == apply_edits(old(self).baseline(), es)
                    &&& final(self).boundaries@ == bs
                    &&& final(self).undo_stack@.len() == 0
                    &&& final(self).redo_queue@.len() == 0
                    &&& final(self).roads@ == old(self).roads@
                    &&& final(self).intersections@ == old(self).intersections@
                    &&& final(self).bus_routes_on_roads@ == old(self).bus_routes_on_roads@
                    &&& final(self).original_modal_filters@ == old(self).original_modal_filters@
                    &&& final(self).study_area_name == old(self).study_area_name
                    &&& final(self).router_after.is_none()
                    &&& final(self).router_before_with_penalty == old(self).router_before_with_penalty
                    &&& final(self).road_costs@ == old(self).road_costs@
                },
            },
    {
        let mut edits: Vec<Edit> = Vec::new();
        let mut taken: Vec<Boundary> = Vec::new();
        let mut k: usize = 0;
        while k < features.len()
            invariant
                self.wf(),
                *self == *old(self),
                k <= features@.len(),
                load_plan(*self, features@.take(k as int)) == Ok::<(Seq<Edit>, Seq<Boundary>), SavefileError>((edits@, taken@)),
            decreases features@.len() - k,
        {
            assert(features@.take(k + 1).drop_last() =~= features@.take(k as int));
            assert(features@.take(k + 1).last() == features@[k as int]);
            let step = self.plan_step(&features[k], &taken);
            match step {
                Err(p) => {
                    proof {
                        lemma_plan_prefix_err(*self, features@, k + 1);
                    }
                    return Err(SavefileError { index: k, problem: p });
                },
                Ok(Step::Apply(e)) => {
                    edits.push(e);
                },
                Ok(Step::AddBoundary(b)) => {
                    taken.push(b);
                },
                Ok(Step::Ignore) => {},
            }
            k = k + 1;
        }
        assert(features@.take(features@.len() as int) =~= features@);
        proof {
            lemma_plan_sound(*self, features@);
        }
        let ghost m0 = *self;
        // Back to the source map's state.
        self.boundaries = taken;
        let n = self.roads.len();
        let mut r: usize = 0;
        while r < n
            invariant
                m0.wf(),
                n == self.n_roads(),
                r <= n,
                self.modal_filters@.len() == n,
                self.original_modal_filters@ == m0.original_modal_filters@,
                forall|j: int| 0 <= j < r ==> self.modal_filters@[j] == self.original_modal_filters@[j],
                self.roads@ == m0.roads@,
                self.intersections@ == m0.intersections@,
                self.bus_routes_on_roads@ == m0.bus_routes_on_roads@,
                self.study_area_name == m0.study_area_name,
                self.boundaries@ == taken@,
                self.road_costs@ == m0.road_costs@,
                self.router_before_with_penalty == m0.router_before_with_penalty,
                self.directions@ == m0.directions@,
                self.diagonal_filters@ == m0.diagonal_filters@,
            decreases n - r,
        {
            let orig = self.original_modal_filters[r];
            self.modal_filters.set(r, orig);
            r = r + 1;
        }
        self.directions = self.original_directions();
        let ni = self.intersections.len();
        let mut i: usize = 0;
        while i < ni
            invariant
                m0.wf(),
                ni == self.n_intersections(),
                i <= ni,
                self.diagonal_filters@.len() == ni,
                forall|j: int| 0 <= j < i ==> self.diagonal_filters@[j].is_none(),
                forall|j: int| 0 <= j < n ==> self.modal_filters@[j] == self.original_modal_filters@[j],
                self.modal_filters@.len() == n,
                n == self.n_roads(),
                self.original_modal_filters@ == m0.original_modal_filters@,
                self.roads@ == m0.roads@,
                self.intersections@ == m0.intersections@,
                self.bus_routes_on_roads@ == m0.bus_routes_on_roads@,
                self.study_area_name == m0.study_area_name,
                self.boundaries@ == taken@,
                self.road_costs@ == m0.road_costs@,
                self.router_before_with_penalty == m0.router_before_with_penalty,
                self.directions@ == m0.baseline().directions,
            decreases ni - i,
        {
            self.diagonal_filters.set(i, None);
            i = i + 1;
        }
        self.undo_stack.clear();
        self.redo_queue.clear();
        assert(self.maps().modal_filters =~= m0.baseline().modal_filters);
        assert(self.maps().diagonal_filters =~= m0.baseline().diagonal_filters);
        assert(self.maps() == m0.baseline());
        proof {
            lemma_sound_same_network(m0, *self);
            assert(maps_sound(m0, m0.baseline()));
            lemma_apply_edits_sound(m0, m0.baseline(), edits@);
            crate::edits::lemma_apply_edits_ok(m0.baseline(), edits@, m0.n_roads(), m0.n_intersections());
        }
        let ghost es = edits@;
        let _ = self.do_edit(Command::Multiple(edits));
        self.router_after = None;
        proof {
            lemma_sound_same_network(m0, *self);
            assert(maps_sound(m0, apply_edits(m0.baseline(), es)));
        }
        Ok(())
    }
}


// ---- round trip ----

/// The edit that loading saved feature `f` makes when its geometry matches back onto the
/// element it was saved from; boundaries make none.
pub open spec fn replayed(m: MapModel, f: SavedFeature) -> Seq<Edit> {
    match f {
        SavedFeature::ModalFilter(r, x) => seq![Edit::SetModalFilter(r, Some(ModalFilter {
            kind: coerced_kind(m.has_bus_route(r), x.kind),
            percent_along: x.percent_along,
        }))],
        SavedFeature::DeletedExistingModalFilter(r, _) => seq![Edit::SetModalFilter(r, None)],
        SavedFeature::Direction(r, d) => seq![Edit::SetDirection(r, d)],
        SavedFeature::DiagonalFilter(i, k) => seq![Edit::SetDiagonalFilter(i, Some(
            diagonal_filter_at(m.intersections@[i.0 as int].roads@, (k % 4) as int),
        ))],
        _ => seq![],
    }
}

pub open spec fn replayed_all(m: MapModel, fs: Seq<SavedFeature>) -> Seq<Edit>
    decreases fs.len(),
{
    if fs.len() == 0 {
        seq![]
    } else {
        replayed_all(m, fs.drop_last()) + replayed(m, fs.last())
    }
}

proof fn lemma_replayed_concat(m: MapModel, a: Seq<SavedFeature>, b: Seq<SavedFeature>)
    ensures
        replayed_all(m, a + b) == replayed_all(m, a) + replayed_all(m, b),
    decreases b.len(),
{
    if b.len() == 0 {
        assert(a + b =~= a);
        assert(replayed_all(m, a) + replayed_all(m, b) =~= replayed_all(m, a));
    } else {
        assert((a + b).drop_last() =~= a + b.drop_last());
        assert((a + b).last() == b.last());
        lemma_replayed_concat(m, a, b.drop_last());
        assert(replayed_all(m, a + b) =~= replayed_all(m, a) + replayed_all(m, b));
    }
}

proof fn lemma_apply_concat(s: EditMaps, a: Seq<Edit>, b: Seq<Edit>)
    ensures
        apply_edits(s, a + b) == apply_edits(apply_edits(s, a), b),
    decreases b.len(),
{
    if b.len() == 0 {
        assert(a + b =~= a);
    } else {
        assert((a + b).drop_last() =~= a + b.drop_last());
        assert((a + b).last() == b.last());
        lemma_apply_concat(s, a, b.drop_last());
    }
}

proof fn lemma_apply_one(s: EditMaps, e: Edit)
    ensures
        apply_edits(s, seq![e]) == apply_edit(s, e),
        apply_edits(s, seq![]) == s,
{
    assert(seq![e].drop_last() =~= Seq::<Edit>::empty());
    assert(apply_edits(s, Seq::<Edit>::empty()) == s);
    assert(seq![e].last() == e);
}

/// The part of a savefile that lists roads `0 .. n` replays, from `s`, the filters that
/// differ from the source map.
proof fn lemma_replay_filters(m: MapModel, s: EditMaps, n: int)
    requires
        m.wf(),
        0 <= n <= m.n_roads(),
        maps_ok(s, m.n_roads(), m.n_intersections()),
    ensures
        ({
            let t = apply_edits(s, replayed_all(m, saved_filters(m, n)));
            &&& t.diagonal_filters == s.diagonal_filters
            &&& t.directions == s.directions
            &&& t.modal_filters.len() == s.modal_filters.len()
            &&& forall|r: int| 0 <= r < t.modal_filters.len() ==> #[trigger] t.modal_filters[r] == if r < n
                && m.modal_filters@[r].is_some() && m.modal_filters@[r] != m.original_modal_filters@[r] {
                m.modal_filters@[r]
            } else {
                s.modal_filters[r]
            }
        }),
    decreases n,
{
    if n > 0 {
        lemma_replay_filters(m, s, n - 1);
        let prev = saved_filters(m, n - 1);
        let f = m.modal_filters@[n - 1];
        let x: Seq<SavedFeature> = if f.is_some() && f != m.original_modal_filters@[n - 1] {
            seq![SavedFeature::ModalFilter(RoadID((n - 1) as usize), f.unwrap())]
        } else {
            seq![]
        };
        assert(saved_filters(m, n) == prev + x);
        lemma_replayed_concat(m, prev, x);
        lemma_apply_concat(s, replayed_all(m, prev), replayed_all(m, x));
        let t0 = apply_edits(s, replayed_all(m, prev));
        if x.len() == 1 {
            assert(x.drop_last() =~= Seq::<SavedFeature>::empty());
            assert(replayed_all(m, Seq::<SavedFeature>::empty()) == Seq::<Edit>::empty());
            assert(x.last() == x[0]);
            assert(replayed_all(m, x) =~= replayed(m, x[0]));
            assert(m.roads@[n - 1].id.0 == n - 1);
            lemma_apply_one(t0, replayed(m, x[0])[0]);
            assert(replayed(m, x[0]) =~= seq![replayed(m, x[0])[0]]);
            assert(m.filter_sound(RoadID((n - 1) as usize), f));
            assert(((n - 1) as usize) as int == n - 1);
        } else {
            assert(replayed_all(m, x) =~= seq![]);
            lemma_apply_one(t0, Edit::SetDirection(RoadID(0), Direction::BothWays));
        }
    } else {
        lemma_apply_one(s, Edit::SetDirection(RoadID(0), Direction::BothWays));
    }
}

/// The part of a savefile that lists removed source filters replays those removals.
proof fn lemma_replay_deletions(m: MapModel, s: EditMaps, n: int)
    requires
        m.wf(),
        0 <= n <= m.n_roads(),
        maps_ok(s, m.n_roads(), m.n_intersections()),
    ensures
        ({
            let t = apply_edits(s, replayed_all(m, saved_deletions(m, n)));
            &&& t.diagonal_filters == s.diagonal_filters
            &&& t.directions == s.directions
            &&& t.modal_filters.len() == s.modal_filters.len()
            &&& forall|r: int| 0 <= r < t.modal_filters.len() ==> #[trigger] t.modal_filters[r] == if r < n
                && m.original_modal_filters@[r].is_some() && m.modal_filters@[r].is_none() {
                None
            } else {
                s.modal_filters[r]
            }
        }),
    decreases n,
{
    if n > 0 {
        lemma_replay_deletions(m, s, n - 1);
        let prev = saved_deletions(m, n - 1);
        let o = m.original_modal_filters@[n - 1];
        let x: Seq<SavedFeature> = if o.is_some() && m.modal_filters@[n - 1].is_none() {
            seq![SavedFeature::DeletedExistingModalFilter(RoadID((n - 1) as usize), o.unwrap().percent_along)]
        } else {
            seq![]
        };
        assert(saved_deletions(m, n) == prev + x);
        lemma_replayed_concat(m, prev, x);
        lemma_apply_concat(s, replayed_all(m, prev), replayed_all(m, x));
        let t0 = apply_edits(s, replayed_all(m, prev));
        if x.len() == 1 {
            assert(x.drop_last() =~= Seq::<SavedFeature>::empty());
            assert(replayed_all(m, Seq::<SavedFeature>::empty()) == Seq::<Edit>::empty());
            assert(x.last() == x[0]);
            assert(replayed_all(m, x) =~= replayed(m, x[0]));
            assert(m.roads@[n - 1].id.0 == n - 1);
            lemma_apply_one(t0, replayed(m, x[0])[0]);
            assert(replayed(m, x[0]) =~= seq![replayed(m, x[0])[0]]);
            assert(((n - 1) as usize) as int == n - 1);
        } else {
            assert(replayed_all(m, x) =~= seq![]);
            lemma_apply_one(t0, Edit::SetDirection(RoadID(0), Direction::BothWays));
        }
    } else {
        lemma_apply_one(s, Edit::SetDirection(RoadID(0), Direction::BothWays));
    }
}

/// The part of a savefile that lists changed directions replays them.
proof fn lemma_replay_directions(m: MapModel, s: EditMaps, n: int)
    requires
        m.wf(),
        0 <= n <= m.n_roads(),
        maps_ok(s, m.n_roads(), m.n_intersections()),
    ensures
        ({
            let t = apply_edits(s, replayed_all(m, saved_directions(m, n)));
            &&& t.diagonal_filters == s.diagonal_filters
            &&& t.modal_filters == s.modal_filters
            &&& t.directions.len() == s.directions.len()
            &&& forall|r: int| 0 <= r < t.directions.len() ==> #[trigger] t.directions[r] == if r < n
                && m.directions@[r] != m.baseline().directions[r] {
                m.directions@[r]
            } else {
                s.directions[r]
            }
        }),
    decreases n,
{
    if n > 0 {
        lemma_replay_directions(m, s, n - 1);
        let prev = saved_directions(m, n - 1);
        let d = m.directions@[n - 1];
        let x: Seq<SavedFeature> = if d != m.baseline().directions[n - 1] {
            seq![SavedFeature::Direction(RoadID((n - 1) as usize), d)]
        } else {
            seq![]
        };
        assert(saved_directions(m, n) == prev + x);
        lemma_replayed_concat(m, prev, x);
        lemma_apply_concat(s, replayed_all(m, prev), replayed_all(m, x));
        let t0 = apply_edits(s, replayed_all(m, prev));
        if x.len() == 1 {
            assert(x.drop_last() =~= Seq::<SavedFeature>::empty());
            assert(replayed_all(m, Seq::<SavedFeature>::empty()) == Seq::<Edit>::empty());
            assert(x.last() == x[0]);
            assert(replayed_all(m, x) =~= replayed(m, x[0]));
            assert(m.roads@[n - 1].id.0 == n - 1);
            lemma_apply_one(t0, replayed(m, x[0])[0]);
            assert(replayed(m, x[0]) =~= seq![replayed(m, x[0])[0]]);
            assert(((n - 1) as usize) as int == n - 1);
        } else {
            assert(replayed_all(m, x) =~= seq![]);
            lemma_apply_one(t0, Edit::SetModalFilter(RoadID(0), None));
            assert(apply_edits(t0, seq![]) == t0);
        }
    } else {
        lemma_apply_one(s, Edit::SetModalFilter(RoadID(0), None));
    }
}

/// Boundaries replay no edit.
proof fn lemma_replay_boundaries(m: MapModel, bs: Seq<Boundary>)
    ensures
        replayed_all(m, bs.map_values(|b: Boundary| SavedFeature::Boundary(b))) == Seq::<Edit>::empty(),
    decreases bs.len(),
{
    let fs = bs.map_values(|b: Boundary| SavedFeature::Boundary(b));
    if bs.len() > 0 {
        lemma_replay_boundaries(m, bs.drop_last());
        assert(fs.drop_last() =~= bs.drop_last().map_values(|b: Boundary| SavedFeature::Boundary(b)));
        assert(replayed_all(m, fs) =~= Seq::<Edit>::empty());
    }
}


proof fn lemma_position_of(roads: Seq<RoadID>, k: int)
    requires
        0 <= k < roads.len(),
        forall|j: int| 0 <= j < k ==> roads[j] != roads[k],
    ensures
        position_of(roads, roads[k]) == k,
    decreases k,
{
    if k > 0 {
        let rest = roads.drop_first();
        assert(rest[k - 1] == roads[k]);
        assert forall|j: int| 0 <= j < k - 1 implies #[trigger] rest[j] != rest[k - 1] by {
            assert(rest[j] == roads[j + 1]);
        }
        lemma_position_of(rest, k - 1);
    }
}

/// The part of a savefile that lists diagonal filters at intersections `0 .. n` replays them.
proof fn lemma_replay_diagonals(m: MapModel, s: EditMaps, n: int)
    requires
        m.wf(),
        0 <= n <= m.n_intersections(),
        maps_ok(s, m.n_roads(), m.n_intersections()),
    ensures
        ({
            let t = apply_edits(s, replayed_all(m, saved_diagonals(m, n)));
            &&& t.modal_filters == s.modal_filters
            &&& t.directions == s.directions
            &&& t.diagonal_filters.len() == s.diagonal_filters.len()
            &&& forall|i: int| 0 <= i < t.diagonal_filters.len() ==> #[trigger] t.diagonal_filters[i] == if i < n
                && m.diagonal_filters@[i].is_some() {
                m.diagonal_filters@[i]
            } else {
                s.diagonal_filters[i]
            }
        }),
    decreases n,
{
    if n > 0 {
        lemma_replay_diagonals(m, s, n - 1);
        let prev = saved_diagonals(m, n - 1);
        let f = m.diagonal_filters@[n - 1];
        let roads = m.intersections@[n - 1].roads@;
        assert(m.intersections@[n - 1].id.0 == n - 1);
        let x: Seq<SavedFeature> = if f.is_some() {
            seq![SavedFeature::DiagonalFilter(
                IntersectionID((n - 1) as usize),
                position_of(roads, f.unwrap().group_a.0) as usize,
            )]
        } else {
            seq![]
        };
        assert(saved_diagonals(m, n) == prev + x);
        lemma_replayed_concat(m, prev, x);
        lemma_apply_concat(s, replayed_all(m, prev), replayed_all(m, x));
        let t0 = apply_edits(s, replayed_all(m, prev));
        if x.len() == 1 {
            assert(x.drop_last() =~= Seq::<SavedFeature>::empty());
            assert(replayed_all(m, Seq::<SavedFeature>::empty()) == Seq::<Edit>::empty());
            assert(x.last() == x[0]);
            assert(replayed_all(m, x) =~= replayed(m, x[0]));
            lemma_apply_one(t0, replayed(m, x[0])[0]);
            assert(replayed(m, x[0]) =~= seq![replayed(m, x[0])[0]]);
            let d = f.unwrap();
            assert(m.diagonal_sound(IntersectionID((n - 1) as usize), f));
            let k = choose|k: int| 0 <= k < 4 && d == #[trigger] diagonal_filter_at(roads, k);
            let inter = m.intersections@[n - 1];
            assert forall|j: int| 0 <= j < k implies roads[j] != roads[k] by {
                assert(inter.roads@[j] != inter.roads@[k]);
            }
            assert(d.group_a.0 == roads[k]);
            lemma_position_of(roads, k);
            assert((k as usize) % 4 == k as usize);
        } else {
            assert(replayed_all(m, x) =~= seq![]);
            lemma_apply_one(t0, Edit::SetModalFilter(RoadID(0), None));
        }
    } else {
        lemma_apply_one(s, Edit::SetModalFilter(RoadID(0), None));
    }
}

/// Saving the edits and loading them back, each feature matched onto the element it was
/// saved from, into a network freshly built from the same source, reproduces the current
/// filters, diagonal filters and directions.
pub proof fn lemma_save_load_round_trip(m: MapModel)
    requires
        m.wf(),
    ensures
        apply_edits(m.baseline(), replayed_all(m, saved_features(m))) == m.maps(),
{
    let n = m.n_roads() as int;
    let ni = m.n_intersections() as int;
    let fa = saved_filters(m, n);
    let fd = saved_deletions(m, n);
    let fr = saved_directions(m, n);
    let fb = m.boundaries@.map_values(|b: Boundary| SavedFeature::Boundary(b));
    let fs: Seq<SavedFeature> = seq![SavedFeature::StudyAreaBoundary];
    let fg = saved_diagonals(m, ni);
    lemma_replayed_concat(m, fa, fd);
    lemma_replayed_concat(m, fa + fd, fr);
    lemma_replayed_concat(m, fa + fd + fr, fb);
    lemma_replayed_concat(m, fa + fd + fr + fb, fs);
    lemma_replayed_concat(m, fa + fd + fr + fb + fs, fg);
    lemma_replay_boundaries(m, m.boundaries@);
    assert(fs.drop_last() =~= Seq::<SavedFeature>::empty());
    assert(replayed_all(m, Seq::<SavedFeature>::empty()) == Seq::<Edit>::empty());
    assert(replayed_all(m, fs) =~= Seq::<Edit>::empty());
    let ea = replayed_all(m, fa);
    let ed = replayed_all(m, fd);
    let er = replayed_all(m, fr);
    let eg = replayed_all(m, fg);
    assert(replayed_all(m, saved_features(m)) =~= ea + ed + er + eg);
    let s0 = m.baseline();
    assert(maps_ok(s0, m.n_roads(), m.n_intersections()));
    lemma_apply_concat(s0, ea + ed + er, eg);
    lemma_apply_concat(s0, ea + ed, er);
    lemma_apply_concat(s0, ea, ed);
    lemma_replay_filters(m, s0, n);
    let s1 = apply_edits(s0, ea);
    lemma_replay_deletions(m, s1, n);
    let s2 = apply_edits(s1, ed);
    lemma_replay_directions(m, s2, n);
    let s3 = apply_edits(s2, er);
    lemma_replay_diagonals(m, s3, ni);
    let s4 = apply_edits(s3, eg);
    assert(s4.modal_filters =~= m.modal_filters@) by {
        assert forall|r: int| 0 <= r < n implies #[trigger] s4.modal_filters[r] == m.modal_filters@[r] by {
            assert(s4.modal_filters[r] == s3.modal_filters[r]);
            assert(s3.modal_filters[r] == s2.modal_filters[r]);
            assert(m.filter_sound(RoadID(r as usize), m.modal_filters@[r]));
        }
    }
    assert(s4.directions =~= m.directions@);
    assert(s4.diagonal_filters =~= m.diagonal_filters@);
}


/// A filter on the network as it stands, and whether it differs from the source map's.
#[derive(Clone, Copy, Debug, PartialEq, Eq, Structural)]
pub struct FilterView {
    pub road: RoadID,
    pub filter: ModalFilter,
    pub edited: bool,
}

pub open spec fn filter_views(m: MapModel, n: int) -> Seq<FilterView>
    decreases n,
{
    if n <= 0 {
        seq![]
    } else {
        let f = m.modal_filters@[n - 1];
        filter_views(m, n - 1) + if f.is_some() {
            seq![FilterView {
                road: RoadID((n - 1) as usize),
                filter: f.unwrap(),
                edited: f != m.original_modal_filters@[n - 1],
            }]
        } else {
            seq![]
        }
    }
}

impl MapModel {
    /// Every current filter by road, marked where it differs from the source map's.
    pub fn current_filters(&self) -> (r: Vec<FilterView>)
        requires
            self.wf(),
        ensures
            r@ == filter_views(*self, self.n_roads() as int),
    {
        let mut out: Vec<FilterView> = Vec::new();
        let n = self.roads.len();
        let mut r: usize = 0;
        while r < n
            invariant
                self.wf(),
                n == self.n_roads(),
                r <= n,
                out@ == filter_views(*self, r as int),
            decreases n - r,
        {
            let f = self.modal_filters[r];
            if let Some(filter) = f {
                out.push(FilterView { road: RoadID(r), filter, edited: f != self.original_modal_filters[r] });
            }
            r = r + 1;
            assert(out@ =~= filter_views(*self, r as int));
        }
        out
    }
}


/// `f` is saved feature `x` read back from its file with its geometry matched onto the same
/// element: the same kind and properties, the nearest candidate or most similar road being
/// the saved road, and the nearest intersection the saved one.
pub open spec fn reads_back(m: MapModel, x: SavedFeature, f: LoadedFeature) -> bool {
    match x {
        SavedFeature::ModalFilter(r, filter) => {
            &&& f.kind@ == "modal_filter"@
            &&& f.filter_kind matches Some(t) && t@ == filter_kind_text(filter.kind)
            &&& candidates_ok(m, f.near_roads@)
            &&& f.near_roads@[min_index(f.near_roads@)].road == r
            &&& f.near_roads@[min_index(f.near_roads@)].percent_along == filter.percent_along
        },
        SavedFeature::DeletedExistingModalFilter(r, _) => {
            &&& f.kind@ == "deleted_existing_modal_filter"@
            &&& candidates_ok(m, f.near_roads@)
            &&& f.near_roads@[min_index(f.near_roads@)].road == r
        },
        SavedFeature::Direction(r, d) => {
            &&& f.kind@ == "direction"@
            &&& f.direction matches Some(t) && t@ == direction_text(d)
            &&& f.line_scores@.len() == m.n_roads()
            &&& m.n_roads() > 0
            &&& first_min(f.line_scores@) == r.0
        },
        SavedFeature::Boundary(b) => {
            &&& f.kind@ == "boundary"@
            &&& f.name matches Some(n) && n@ == b.name@
        },
        SavedFeature::StudyAreaBoundary => f.kind@ == "study_area_boundary"@,
        SavedFeature::DiagonalFilter(i, k) => {
            &&& f.kind@ == "diagonal_filter"@
            &&& f.nearest_intersection == Some(i)
            &&& f.split_offset == Some(k as u64)
            &&& i.0 < m.n_intersections()
            &&& m.intersections@[i.0 as int].roads@.len() == 4
        },
    }
}

/// The names of the boundaries among `xs`, in order.
pub open spec fn boundary_names(xs: Seq<SavedFeature>) -> Seq<Seq<char>>
    decreases xs.len(),
{
    if xs.len() == 0 {
        seq![]
    } else {
        boundary_names(xs.drop_last()) + match xs.last() {
            SavedFeature::Boundary(b) => seq![b.name@],
            _ => Seq::<Seq<char>>::empty(),
        }
    }
}

proof fn lemma_kind_texts()
    ensures
        "modal_filter"@.len() == 12,
        "deleted_existing_modal_filter"@.len() == 29,
        "direction"@.len() == 9,
        "boundary"@.len() == 8,
        "study_area_boundary"@.len() == 19,
        "diagonal_filter"@.len() == 15,
{
    reveal_strlit("modal_filter");
    reveal_strlit("deleted_existing_modal_filter");
    reveal_strlit("direction");
    reveal_strlit("boundary");
    reveal_strlit("study_area_boundary");
    reveal_strlit("diagonal_filter");
}

/// Loading features that read back a list of saved features, whose boundary names differ,
/// plans exactly the replay of that list.
pub proof fn lemma_load_plans_replay(m: MapModel, xs: Seq<SavedFeature>, fs: Seq<LoadedFeature>)
    requires
        m.wf(),
        xs.len() == fs.len(),
        forall|k: int| 0 <= k < xs.len() ==> reads_back(m, #[trigger] xs[k], fs[k]),
        forall|a: int, b: int| 0 <= a < b < boundary_names(xs).len() ==> boundary_names(xs)[a] != boundary_names(xs)[b],
    ensures
        load_plan(m, fs) matches Ok((es, bs)) && es == replayed_all(m, xs)
            && bs.map_values(|b: Boundary| b.name@) == boundary_names(xs),
    decreases xs.len(),
{
    lemma_kind_texts();
    crate::kinds::lemma_filter_kind_text_injective();
    crate::kinds::lemma_direction_text_injective();
    if xs.len() > 0 {
        let xp = xs.drop_last();
        let fp = fs.drop_last();
        assert forall|k: int| 0 <= k < xp.len() implies reads_back(m, #[trigger] xp[k], fp[k]) by {
            assert(xp[k] == xs[k] && fp[k] == fs[k]);
        }
        let tail: Seq<Seq<char>> = match xs.last() {
            SavedFeature::Boundary(b) => seq![b.name@],
            _ => Seq::<Seq<char>>::empty(),
        };
        assert(boundary_names(xs) == boundary_names(xp) + tail);
        assert forall|a: int, b: int| 0 <= a < b < boundary_names(xp).len() implies boundary_names(xp)[a] != boundary_names(xp)[b] by {
            assert(boundary_names(xs)[a] == boundary_names(xp)[a]);
            assert(boundary_names(xs)[b] == boundary_names(xp)[b]);
        }
        lemma_load_plans_replay(m, xp, fp);
        let x = xs.last();
        let f = fs.last();
        assert(x == xs[xs.len() - 1] && f == fs[fs.len() - 1]);
        assert(reads_back(m, x, f));
        let (es, bs) = load_plan(m, fp).unwrap();
        let names = bs.map_values(|b: Boundary| b.name@);
        match x {
            SavedFeature::ModalFilter(r, filter) => {
                assert(filter_kind_text(kind_named(f.filter_kind.unwrap()@)) == f.filter_kind.unwrap()@);
                assert(replayed_all(m, xs) == es + replayed(m, x));
                assert(replayed(m, x) =~= seq![replayed(m, x)[0]]);
            },
            SavedFeature::DeletedExistingModalFilter(r, _) => {
                assert(replayed(m, x) =~= seq![replayed(m, x)[0]]);
            },
            SavedFeature::Direction(r, d) => {
                assert(direction_text(direction_named(f.direction.unwrap()@)) == f.direction.unwrap()@);
                assert(replayed(m, x) =~= seq![replayed(m, x)[0]]);
                assert(m.roads@[r.0 as int].id.0 == r.0) by {
                    crate::spatial::lemma_first_min_bounds(f.line_scores@);
                }
            },
            SavedFeature::Boundary(b) => {
                let n = f.name.unwrap();
                assert(boundary_names(xs) == names.push(b.name@));
                assert forall|j: int| 0 <= j < bs.len() implies (#[trigger] bs[j]).name@ != n@ by {
                    assert(names[j] == bs[j].name@);
                    assert(boundary_names(xs)[j] != boundary_names(xs)[names.len() as int]);
                }
                let b2 = Boundary { name: n, feature: f.feature };
                assert(bs.push(b2).map_values(|b: Boundary| b.name@) =~= names.push(n@));
                assert(replayed(m, x) =~= Seq::<Edit>::empty());
                assert(es + replayed(m, x) =~= es);
            },
            SavedFeature::StudyAreaBoundary => {
                assert(replayed(m, x) =~= Seq::<Edit>::empty());
                assert(es + replayed(m, x) =~= es);
                assert(boundary_names(xs) =~= names);
            },
            SavedFeature::DiagonalFilter(i, k) => {
                assert(replayed(m, x) =~= seq![replayed(m, x)[0]]);
                assert(((k as u64) % 4) as int == (k % 4) as int);
            },
        }
        if !(x is Boundary) {
            assert(boundary_names(xs) =~= names);
        }
    }
}


/// Saving `m1` and loading the file into `m2`, a network built from the same source, where
/// each feature's geometry matches back onto the element it was saved from, plans edits that
/// take `m2` from the source map's state to exactly `m1`'s filters, diagonal filters and
/// directions. `load_savefile` applies that plan.
pub proof fn lemma_load_of_save(m1: MapModel, m2: MapModel, fs: Seq<LoadedFeature>)
    requires
        m1.wf(),
        m2.wf(),
        m2.roads@ == m1.roads@,
        m2.intersections@ == m1.intersections@,
        m2.bus_routes_on_roads@ == m1.bus_routes_on_roads@,
        m2.original_modal_filters@ == m1.original_modal_filters@,
        fs.len() == saved_features(m1).len(),
        forall|k: int| 0 <= k < fs.len() ==> reads_back(m2, #[trigger] saved_features(m1)[k], fs[k]),
        forall|a: int, b: int|
            0 <= a < b < boundary_names(saved_features(m1)).len() ==> boundary_names(saved_features(m1))[a]
                != boundary_names(saved_features(m1))[b],
    ensures
        load_plan(m2, fs) matches Ok((es, bs)) && apply_edits(m2.baseline(), es) == m1.maps(),
{
    let xs = saved_features(m1);
    lemma_load_plans_replay(m2, xs, fs);
    lemma_save_load_round_trip(m1);
    lemma_replayed_same_network(m1, m2, xs);
    assert(m2.baseline().diagonal_filters =~= m1.baseline().diagonal_filters);
    assert(m2.baseline().directions =~= m1.baseline().directions);
}

/// Replaying depends on the network alone.
proof fn lemma_replayed_same_network(m1: MapModel, m2: MapModel, xs: Seq<SavedFeature>)
    requires
        m2.roads@ == m1.roads@,
        m2.intersections@ == m1.intersections@,
        m2.bus_routes_on_roads@ == m1.bus_routes_on_roads@,
    ensures
        replayed_all(m2, xs) == replayed_all(m1, xs),
    decreases xs.len(),
{
    if xs.len() > 0 {
        lemma_replayed_same_network(m1, m2, xs.drop_last());
        assert(replayed(m2, xs.last()) == replayed(m1, xs.last()));
    }
}

} // verus!
