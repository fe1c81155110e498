use vstd::prelude::*;
use std::collections::HashMap;
use crate::ids::{IntersectionID, RoadID};
use crate::kinds::{Direction, Tags, direction_of_tags};
use crate::filters::{ALONG_SCALE, DiagonalFilter, ModalFilter};

verus! {

/// A stretch of road between two intersections; nothing branches off inside it. Its line
/// geometry lives beside the network, indexed by the same id.
#[derive(Clone, Debug)]
pub struct Road {
    pub id: RoadID,
    pub src_i: IntersectionID,
    pub dst_i: IntersectionID,
    /// The source way that this road was cut from; several roads may share it.
    pub way: i64,
    pub tags: Tags,
    pub speed_mph: usize,
}

/// A point where roads meet.
#[derive(Clone, Debug)]
pub struct Intersection {
    pub id: IntersectionID,
    /// The source node of this intersection.
    pub node: i64,
    /// Incident roads, clockwise starting from north.
    pub roads: Vec<RoadID>,
    /// Movements `(from, to)` that are not allowed here.
    pub turn_restrictions: Vec<(RoadID, RoadID)>,
}

impl Intersection {
    /// The incident roads themselves, clockwise from north.
    pub fn roads_iter<'a>(&'a self, map: &'a MapModel) -> (r: Vec<&'a Road>)
        requires
            forall|k: int| 0 <= k < self.roads@.len() ==> (#[trigger] self.roads@[k]).0 < map.n_roads(),
        ensures
            r@.len() == self.roads@.len(),
            forall|k: int| 0 <= k < r@.len() ==> *(#[trigger] r@[k]) == map.roads@[self.roads@[k].0 as int],
    {
        let mut out: Vec<&'a Road> = Vec::new();
        let mut k: usize = 0;
        while k < self.roads.len()
            invariant
                k <= self.roads@.len(),
                out@.len() == k,
                forall|j: int| 0 <= j < self.roads@.len() ==> (#[trigger] self.roads@[j]).0 < map.n_roads(),
                forall|j: int| 0 <= j < k ==> *(#[trigger] out@[j]) == map.roads@[self.roads@[j].0 as int],
            decreases self.roads@.len() - k,
        {
            out.push(map.get_r(self.roads[k]));
            k = k + 1;
        }
        out
    }
}

/// A named boundary drawn by the user, kept as its encoded feature text.
#[derive(Clone, Debug)]
pub struct Boundary {
    pub name: String,
    pub feature: String,
}

/// What routing over one state of the network needs, kept until that state or the penalty
/// changes: the filters, directions and diagonal filters it was built from, and each road's
/// cost with main roads scaled by `main_road_penalty` (percent).
pub struct Router {
    pub modal_filters: Vec<Option<ModalFilter>>,
    pub directions: Vec<Direction>,
    pub diagonal_filters: Vec<Option<DiagonalFilter>>,
    pub costs: Vec<u64>,
    pub main_road_penalty: u64,
}

/// The road network together with its edit state.
pub struct MapModel {
    pub roads: Vec<Road>,
    pub intersections: Vec<Intersection>,
    /// Names of the bus routes running along each source way.
    pub bus_routes_on_roads: HashMap<i64, Vec<String>>,
    pub study_area_name: Option<String>,
    /// Filters that the source map already has, by road.
    pub original_modal_filters: Vec<Option<ModalFilter>>,
    /// Current filters, by road.
    pub modal_filters: Vec<Option<ModalFilter>>,
    /// Current diagonal filters, by intersection.
    pub diagonal_filters: Vec<Option<DiagonalFilter>>,
    /// Current direction of every road.
    pub directions: Vec<Direction>,
    pub undo_stack: Vec<crate::edits::Command>,
    pub redo_queue: Vec<crate::edits::Command>,
    pub boundaries: Vec<Boundary>,
    /// Free-flow time to drive each road, in milliseconds.
    pub road_costs: Vec<u64>,
    /// Routing over the source map's network, built on demand for one penalty.
    pub router_before_with_penalty: Option<Router>,
    /// Routing over the edited network, built on demand for one penalty; every edit drops it.
    pub router_after: Option<Router>,
}

/// Ids match positions, roads join real intersections, and each intersection lists real
/// roads that end at it, none twice.
pub open spec fn graph_ok(roads: Seq<Road>, intersections: Seq<Intersection>) -> bool {
    &&& forall|i: int|
        0 <= i < roads.len() ==> {
            &&& (#[trigger] roads[i]).id.0 == i
            &&& roads[i].src_i.0 < intersections.len()
            &&& roads[i].dst_i.0 < intersections.len()
        }
    &&& forall|i: int|
        0 <= i < intersections.len() ==> {
            &&& (#[trigger] intersections[i]).id.0 == i
            &&& forall|j: int|
                0 <= j < intersections[i].roads@.len() ==> (#[trigger] intersections[i].roads@[j]).0
                    < roads.len()
            &&& forall|j: int|
                0 <= j < intersections[i].roads@.len() ==> {
                    let r = roads[(#[trigger] intersections[i].roads@[j]).0 as int];
                    r.src_i.0 == i || r.dst_i.0 == i
                }
            &&& forall|a: int, b: int|
                0 <= a < b < intersections[i].roads@.len() ==> #[trigger] intersections[i].roads@[a]
                    != #[trigger] intersections[i].roads@[b]
        }
}

/// The directions that the roads' source tags give them.
pub open spec fn directions_from_tags(roads: Seq<Road>) -> Seq<Direction> {
    Seq::new(roads.len(), |i: int| direction_of_tags(roads[i].tags))
}

impl MapModel {
    pub open spec fn n_roads(&self) -> nat {
        self.roads@.len()
    }

    pub open spec fn n_intersections(&self) -> nat {
        self.intersections@.len()
    }

    pub open spec fn has_bus_route(&self, r: RoadID) -> bool {
        self.bus_routes_on_roads@.contains_key(self.roads@[r.0 as int].way)
    }

    /// The state as built from the source map, before any edit.
    pub open spec fn baseline(&self) -> crate::edits::EditMaps {
        crate::edits::EditMaps {
            modal_filters: self.original_modal_filters@,
            diagonal_filters: Seq::new(self.intersections@.len(), |i: int| None),
            directions: directions_from_tags(self.roads@),
        }
    }

    /// Builds a network with no edits from its parts.
    pub fn new(
        roads: Vec<Road>,
        intersections: Vec<Intersection>,
        road_costs: Vec<u64>,
        bus_routes_on_roads: HashMap<i64, Vec<String>>,
        original_modal_filters: Vec<Option<ModalFilter>>,
        study_area_name: Option<String>,
    ) -> (r: MapModel)
        requires
            graph_ok(roads@, intersections@),
            original_modal_filters@.len() == roads@.len(),
            forall|k: int| 0 <= k < original_modal_filters@.len() && (#[trigger] original_modal_filters@[k]).is_some()
                ==> original_modal_filters@[k].unwrap().percent_along <= ALONG_SCALE,
            road_costs@.len() == roads@.len(),
        ensures
            r.wf(),
            r.roads@ == roads@,
            r.road_costs@ == road_costs@,
            r.router_after.is_none(),
            r.router_before_with_penalty.is_none(),
            r.intersections@ == intersections@,
            r.bus_routes_on_roads@ == bus_routes_on_roads@,
            r.study_area_name == study_area_name,
            r.maps() == r.baseline(),
            r.undo_stack@.len() == 0,
            r.redo_queue@.len() == 0,
            r.boundaries@.len() == 0,
    {
        let mut directions: Vec<Direction> = Vec::new();
        let mut i: usize = 0;
        while i < roads.len()
            invariant
                i <= roads@.len(),
                directions@ =~= directions_from_tags(roads@).take(i as int),
            decreases roads@.len() - i,
        {
            directions.push(Direction::from_osm(&roads[i].tags));
            i = i + 1;
        }
        let mut diagonal_filters: Vec<Option<DiagonalFilter>> = Vec::new();
        let mut j: usize = 0;
        while j < intersections.len()
            invariant
                j <= intersections@.len(),
                diagonal_filters@.len() == j,
                forall|k: int| 0 <= k < j ==> diagonal_filters@[k].is_none(),
            decreases intersections@.len() - j,
        {
            diagonal_filters.push(None);
            j = j + 1;
        }
        let modal_filters = original_modal_filters.clone();
        let r = MapModel {
            roads,
            intersections,
            bus_routes_on_roads,
            study_area_name,
            original_modal_filters,
            modal_filters,
            diagonal_filters,
            directions,
            undo_stack: Vec::new(),
            redo_queue: Vec::new(),
            boundaries: Vec::new(),
            road_costs,
            router_before_with_penalty: None,
            router_after: None,
        };
        assert(r.maps().diagonal_filters =~= r.baseline().diagonal_filters);
        assert(r.maps().directions =~= r.baseline().directions);
        r
    }

    pub fn get_r(&self, r: RoadID) -> (res: &Road)
        requires
            r.0 < self.n_roads(),
        ensures
            *res == self.roads@[r.0 as int],
    {
        &self.roads[r.0]
    }

    pub fn get_i(&self, i: IntersectionID) -> (res: &Intersection)
        requires
            i.0 < self.n_intersections(),
        ensures
            *res == self.intersections@[i.0 as int],
    {
        &self.intersections[i.0]
    }

    pub open spec fn joins(&self, r: RoadID, i2: IntersectionID) -> bool {
        self.roads@[r.0 as int].src_i == i2 || self.roads@[r.0 as int].dst_i == i2
    }

    /// The first road around `i1` that also ends at `i2`.
    pub fn find_edge(&self, i1: IntersectionID, i2: IntersectionID) -> (res: &Road)
        requires
            self.wf(),
            i1.0 < self.n_intersections(),
            exists|j: int|
                0 <= j < self.intersections@[i1.0 as int].roads@.len() && self.joins(
                    #[trigger] self.intersections@[i1.0 as int].roads@[j],
                    i2,
                ),
        ensures
            exists|j: int|
                0 <= j < self.intersections@[i1.0 as int].roads@.len() && {
                    let id = #[trigger] self.intersections@[i1.0 as int].roads@[j];
                    &&& *res == self.roads@[id.0 as int]
                    &&& self.joins(id, i2)
                    &&& forall|k: int|
                        0 <= k < j ==> !self.joins(self.intersections@[i1.0 as int].roads@[k], i2)
                },
    {
        let inter = self.get_i(i1);
        let ghost around = inter.roads@;
        let mut j: usize = 0;
        while j < inter.roads.len()
            invariant
                self.wf(),
                *inter == self.intersections@[i1.0 as int],
                around == inter.roads@,
                j <= around.len(),
                i1.0 < self.n_intersections(),
                forall|k: int| 0 <= k < j ==> !self.joins(around[k], i2),
                exists|k: int| 0 <= k < around.len() && self.joins(#[trigger] around[k], i2),
            decreases around.len() - j,
        {
            let id = inter.roads[j];
            assert(id.0 < self.n_roads());
            let road = self.get_r(id);
            if road.src_i == i2 || road.dst_i == i2 {
                return road;
            }
            j = j + 1;
        }
        proof {
            let k = choose|k: int| 0 <= k < around.len() && self.joins(#[trigger] around[k], i2);
            assert(!self.joins(around[k], i2));
        }
        self.get_r(inter.roads[0])
    }

    /// The names of the bus routes along road `r`, if any run there.
    pub fn get_bus_routes_on_road(&self, r: RoadID) -> (res: Option<&Vec<String>>)
        requires
            r.0 < self.n_roads(),
        ensures
            res.is_some() == self.has_bus_route(r),
            res matches Some(v) ==> *v == self.bus_routes_on_roads@[self.roads@[r.0 as int].way],
    {
        broadcast use vstd::std_specs::hash::group_hash_axioms;
        let way = self.roads[r.0].way;
        self.bus_routes_on_roads.get(&way)
    }

    /// The direction of every road as its source tags give it.
    pub fn original_directions(&self) -> (res: Vec<Direction>)
        ensures
            res@ == directions_from_tags(self.roads@),
    {
        let mut directions: Vec<Direction> = Vec::new();
        let mut i: usize = 0;
        while i < self.roads.len()
            invariant
                i <= self.roads@.len(),
                directions@ =~= directions_from_tags(self.roads@).take(i as int),
            decreases self.roads@.len() - i,
        {
            directions.push(Direction::from_osm(&self.roads[i].tags));
            i = i + 1;
        }
        assert(directions@ =~= directions_from_tags(self.roads@));
        directions
    }
}

} // verus!
