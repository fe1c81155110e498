use vstd::prelude::*;
use crate::ids::{IntersectionID, RoadID};
use crate::kinds::{Direction, FilterKind, next_direction};
use crate::filters::{ALONG_SCALE, DiagonalFilter, ModalFilter};
use crate::network::{MapModel, Router, graph_ok};
use crate::spatial::{RoadCandidate, closest_point_on_road, min_index, first_min_index, first_min};
use crate::filters::diagonal_filter_at;

verus! {

/// One change to one attribute.
#[derive(Clone, Copy, Debug)]
pub enum Edit {
    SetModalFilter(RoadID, Option<ModalFilter>),
    SetDiagonalFilter(IntersectionID, Option<DiagonalFilter>),
    SetDirection(RoadID, Direction),
}

/// What one user action changes: a single edit, or a batch applied in order.
#[derive(Debug)]
pub enum Command {
    Single(Edit),
    Multiple(Vec<Edit>),
}

/// The editable attributes of a network.
pub struct EditMaps {
    pub modal_filters: Seq<Option<ModalFilter>>,
    pub diagonal_filters: Seq<Option<DiagonalFilter>>,
    pub directions: Seq<Direction>,
}

pub open spec fn maps_ok(s: EditMaps, n_roads: nat, n_intersections: nat) -> bool {
    &&& s.modal_filters.len() == n_roads
    &&& s.directions.len() == n_roads
    &&& s.diagonal_filters.len() == n_intersections
}

pub open spec fn edit_ok(e: Edit, n_roads: nat, n_intersections: nat) -> bool {
    match e {
        Edit::SetModalFilter(r, _) => r.0 < n_roads,
        Edit::SetDiagonalFilter(i, _) => i.0 < n_intersections,
        Edit::SetDirection(r, _) => r.0 < n_roads,
    }
}

pub open spec fn edits_ok(es: Seq<Edit>, n_roads: nat, n_intersections: nat) -> bool {
    forall|k: int| 0 <= k < es.len() ==> edit_ok(#[trigger] es[k], n_roads, n_intersections)
}

/// What an edit sets: the attribute's kind and the element's id.
pub open spec fn target(e: Edit) -> (int, int) {
    match e {
        Edit::SetModalFilter(r, _) => (0, r.0 as int),
        Edit::SetDiagonalFilter(i, _) => (1, i.0 as int),
        Edit::SetDirection(r, _) => (2, r.0 as int),
    }
}

/// No two edits of `es` set the same attribute of the same element.
pub open spec fn edits_distinct(es: Seq<Edit>) -> bool {
    forall|a: int, b: int| 0 <= a < b < es.len() ==> target(#[trigger] es[a]) != target(#[trigger] es[b])
}

/// Every edit of `c` names a real element.
pub open spec fn command_in_range(c: Command, n_roads: nat, n_intersections: nat) -> bool {
    match c {
        Command::Single(e) => edit_ok(e, n_roads, n_intersections),
        Command::Multiple(es) => edits_ok(es@, n_roads, n_intersections),
    }
}

/// A command that the logs may hold: its edits name real elements, and a batch sets each
/// attribute at most once, so that its inverses, applied in the same order, undo it.
pub open spec fn command_ok(c: Command, n_roads: nat, n_intersections: nat) -> bool {
    match c {
        Command::Single(e) => edit_ok(e, n_roads, n_intersections),
        Command::Multiple(es) => edits_ok(es@, n_roads, n_intersections) && edits_distinct(es@),
    }
}

pub open spec fn commands_ok(cs: Seq<Command>, n_roads: nat, n_intersections: nat) -> bool {
    forall|k: int| 0 <= k < cs.len() ==> command_ok(#[trigger] cs[k], n_roads, n_intersections)
}

pub open spec fn apply_edit(s: EditMaps, e: Edit) -> EditMaps {
    match e {
        Edit::SetModalFilter(r, f) => EditMaps {
            modal_filters: s.modal_filters.update(r.0 as int, f),
            ..s
        },
        Edit::SetDiagonalFilter(i, f) => EditMaps {
            diagonal_filters: s.diagonal_filters.update(i.0 as int, f),
            ..s
        },
        Edit::SetDirection(r, d) => EditMaps { directions: s.directions.update(r.0 as int, d), ..s },
    }
}

/// The edit that puts back what `e` overwrites in `s`.
pub open spec fn undo_edit(s: EditMaps, e: Edit) -> Edit {
    match e {
        Edit::SetModalFilter(r, _) => Edit::SetModalFilter(r, s.modal_filters[r.0 as int]),
        Edit::SetDiagonalFilter(i, _) => Edit::SetDiagonalFilter(
            i,
            s.diagonal_filters[i.0 as int],
        ),
        Edit::SetDirection(r, _) => Edit::SetDirection(r, s.directions[r.0 as int]),
    }
}

/// Applies `es` in order.
pub open spec fn apply_edits(s: EditMaps, es: Seq<Edit>) -> EditMaps
    decreases es.len(),
{
    if es.len() == 0 {
        s
    } else {
        apply_edit(apply_edits(s, es.drop_last()), es.last())
    }
}

/// The inverses collected while applying `es` to `s`, in the order the edits are applied:
/// each puts back what its edit overwrote.
pub open spec fn undo_edits(s: EditMaps, es: Seq<Edit>) -> Seq<Edit>
    decreases es.len(),
{
    if es.len() == 0 {
        seq![]
    } else {
        undo_edits(s, es.drop_last()).push(undo_edit(apply_edits(s, es.drop_last()), es.last()))
    }
}

pub open spec fn apply_command(s: EditMaps, c: Command) -> EditMaps {
    match c {
        Command::Single(e) => apply_edit(s, e),
        Command::Multiple(es) => apply_edits(s, es@),
    }
}

/// `inv` is the command that undoes `c` when `c` is applied to `s`.
pub open spec fn is_inverse(s: EditMaps, c: Command, inv: Command) -> bool {
    match (c, inv) {
        (Command::Single(e), Command::Single(u)) => u == undo_edit(s, e),
        (Command::Multiple(es), Command::Multiple(us)) => us@ == undo_edits(s, es@),
        _ => false,
    }
}

/// Rolls `stack` back from its top: what repeated undo reaches once the stack is empty.
pub open spec fn unwind(s: EditMaps, stack: Seq<Command>) -> EditMaps
    decreases stack.len(),
{
    if stack.len() == 0 {
        s
    } else {
        unwind(apply_command(s, stack.last()), stack.drop_last())
    }
}

/// The states that applying `cmds` in order passes through, starting at `s0`.
pub open spec fn run(s0: EditMaps, cmds: Seq<Command>) -> EditMaps
    decreases cmds.len(),
{
    if cmds.len() == 0 {
        s0
    } else {
        apply_command(run(s0, cmds.drop_last()), cmds.last())
    }
}

/// `stack` holds, in order, the inverses that applying `cmds` to `s0` pushed.
pub open spec fn recorded(s0: EditMaps, cmds: Seq<Command>, stack: Seq<Command>) -> bool {
    &&& stack.len() == cmds.len()
    &&& forall|k: int|
        0 <= k < cmds.len() ==> is_inverse(
            run(s0, cmds.take(k)),
            #[trigger] cmds[k],
            stack[k],
        )
}

pub proof fn lemma_apply_edit_ok(s: EditMaps, e: Edit, nr: nat, ni: nat)
    requires
        maps_ok(s, nr, ni),
        edit_ok(e, nr, ni),
    ensures
        maps_ok(apply_edit(s, e), nr, ni),
        edit_ok(undo_edit(s, e), nr, ni),
        apply_edit(apply_edit(s, e), undo_edit(s, e)) == s,
{
    let t = apply_edit(apply_edit(s, e), undo_edit(s, e));
    assert(t.modal_filters =~= s.modal_filters);
    assert(t.diagonal_filters =~= s.diagonal_filters);
    assert(t.directions =~= s.directions);
}

pub proof fn lemma_apply_edits_ok(s: EditMaps, es: Seq<Edit>, nr: nat, ni: nat)
    requires
        maps_ok(s, nr, ni),
        edits_ok(es, nr, ni),
    ensures
        maps_ok(apply_edits(s, es), nr, ni),
        edits_ok(undo_edits(s, es), nr, ni),
        undo_edits(s, es).len() == es.len(),
        forall|k: int| 0 <= k < es.len() ==> target(#[trigger] undo_edits(s, es)[k]) == target(es[k]),
    decreases es.len(),
{
    if es.len() > 0 {
        assert(edits_ok(es.drop_last(), nr, ni)) by {
            assert forall|k: int| 0 <= k < es.drop_last().len() implies edit_ok(
                #[trigger] es.drop_last()[k],
                nr,
                ni,
            ) by {
                assert(es.drop_last()[k] == es[k]);
            }
        }
        assert(edit_ok(es.last(), nr, ni)) by {
            assert(es.last() == es[es.len() - 1]);
        }
        lemma_apply_edits_ok(s, es.drop_last(), nr, ni);
        lemma_apply_edit_ok(apply_edits(s, es.drop_last()), es.last(), nr, ni);
        let u = undo_edits(s, es);
        let rest = undo_edits(s, es.drop_last());
        assert forall|k: int| 0 <= k < u.len() implies edit_ok(#[trigger] u[k], nr, ni) && target(u[k]) == target(es[k]) by {
            if k < u.len() - 1 {
                assert(u[k] == rest[k]);
                assert(es.drop_last()[k] == es[k]);
            }
        }
    }
}

/// Edits of different attributes commute.
proof fn lemma_commute(x: EditMaps, a: Edit, b: Edit, nr: nat, ni: nat)
    requires
        maps_ok(x, nr, ni),
        edit_ok(a, nr, ni),
        edit_ok(b, nr, ni),
        target(a) != target(b),
    ensures
        apply_edit(apply_edit(x, a), b) == apply_edit(apply_edit(x, b), a),
{
    let l = apply_edit(apply_edit(x, a), b);
    let r = apply_edit(apply_edit(x, b), a);
    assert(l.modal_filters =~= r.modal_filters);
    assert(l.diagonal_filters =~= r.diagonal_filters);
    assert(l.directions =~= r.directions);
}

/// An edit commutes with a sequence of edits of other attributes.
proof fn lemma_commute_seq(x: EditMaps, e: Edit, l: Seq<Edit>, nr: nat, ni: nat)
    requires
        maps_ok(x, nr, ni),
        edit_ok(e, nr, ni),
        edits_ok(l, nr, ni),
        forall|k: int| 0 <= k < l.len() ==> target(#[trigger] l[k]) != target(e),
    ensures
        apply_edits(apply_edit(x, e), l) == apply_edit(apply_edits(x, l), e),
    decreases l.len(),
{
    if l.len() > 0 {
        let p = l.drop_last();
        assert(edits_ok(p, nr, ni)) by {
            assert forall|k: int| 0 <= k < p.len() implies edit_ok(#[trigger] p[k], nr, ni) by {
                assert(p[k] == l[k]);
            }
        }
        assert forall|k: int| 0 <= k < p.len() implies target(#[trigger] p[k]) != target(e) by {
            assert(p[k] == l[k]);
        }
        assert(l.last() == l[l.len() - 1]);
        lemma_commute_seq(x, e, p, nr, ni);
        lemma_apply_edits_ok(x, p, nr, ni);
        lemma_commute(apply_edits(x, p), e, l.last(), nr, ni);
    }
}

/// Edits of other attributes leave what `e` overwrites as it was.
proof fn lemma_undo_edit_untouched(x: EditMaps, p: Seq<Edit>, e: Edit, nr: nat, ni: nat)
    requires
        maps_ok(x, nr, ni),
        edit_ok(e, nr, ni),
        edits_ok(p, nr, ni),
        forall|k: int| 0 <= k < p.len() ==> target(#[trigger] p[k]) != target(e),
    ensures
        undo_edit(apply_edits(x, p), e) == undo_edit(x, e),
    decreases p.len(),
{
    if p.len() > 0 {
        let q = p.drop_last();
        assert(edits_ok(q, nr, ni)) by {
            assert forall|k: int| 0 <= k < q.len() implies edit_ok(#[trigger] q[k], nr, ni) by {
                assert(q[k] == p[k]);
            }
        }
        assert forall|k: int| 0 <= k < q.len() implies target(#[trigger] q[k]) != target(e) by {
            assert(q[k] == p[k]);
        }
        assert(p.last() == p[p.len() - 1]);
        assert(target(p.last()) != target(e));
        lemma_undo_edit_untouched(x, q, e, nr, ni);
        lemma_apply_edits_ok(x, q, nr, ni);
    }
}

/// Undoing a batch that sets each attribute at most once, with its inverses in the order the
/// edits were applied, restores the state before it.
pub proof fn lemma_undo_edits_restores(s: EditMaps, es: Seq<Edit>, nr: nat, ni: nat)
    requires
        maps_ok(s, nr, ni),
        edits_ok(es, nr, ni),
        edits_distinct(es),
    ensures
        apply_edits(apply_edits(s, es), undo_edits(s, es)) == s,
    decreases es.len(),
{
    if es.len() > 0 {
        let p = es.drop_last();
        let e = es.last();
        assert(e == es[es.len() - 1]);
        assert(edits_ok(p, nr, ni)) by {
            assert forall|k: int| 0 <= k < p.len() implies edit_ok(#[trigger] p[k], nr, ni) by {
                assert(p[k] == es[k]);
            }
        }
        assert(edits_distinct(p)) by {
            assert forall|a: int, b: int| 0 <= a < b < p.len() implies target(#[trigger] p[a]) != target(#[trigger] p[b]) by {
                assert(p[a] == es[a] && p[b] == es[b]);
            }
        }
        assert forall|k: int| 0 <= k < p.len() implies target(#[trigger] p[k]) != target(e) by {
            assert(p[k] == es[k]);
        }
        let s1 = apply_edits(s, p);
        let up = undo_edits(s, p);
        lemma_apply_edits_ok(s, p, nr, ni);
        lemma_apply_edit_ok(s1, e, nr, ni);
        lemma_apply_edit_ok(s, e, nr, ni);
        assert forall|k: int| 0 <= k < up.len() implies target(#[trigger] up[k]) != target(e) by {
            assert(target(up[k]) == target(p[k]));
        }
        lemma_undo_edits_restores(s, p, nr, ni);
        lemma_commute_seq(s1, e, up, nr, ni);
        lemma_undo_edit_untouched(s, p, e, nr, ni);
        let u = undo_edit(s1, e);
        assert(undo_edits(s, es) == up.push(u));
        assert(up.push(u).drop_last() =~= up);
        assert(up.push(u).last() == u);
    }
}

/// Applying a command and then its inverse gives back the state before it.
pub proof fn lemma_inverse_restores(s: EditMaps, c: Command, inv: Command, nr: nat, ni: nat)
    requires
        maps_ok(s, nr, ni),
        command_ok(c, nr, ni),
        is_inverse(s, c, inv),
    ensures
        apply_command(apply_command(s, c), inv) == s,
        maps_ok(apply_command(s, c), nr, ni),
        command_ok(inv, nr, ni),
{
    match c {
        Command::Single(e) => {
            lemma_apply_edit_ok(s, e, nr, ni);
        },
        Command::Multiple(es) => {
            lemma_apply_edits_ok(s, es@, nr, ni);
            lemma_undo_edits_restores(s, es@, nr, ni);
            let us = undo_edits(s, es@);
            assert forall|a: int, b: int| 0 <= a < b < us.len() implies target(#[trigger] us[a]) != target(#[trigger] us[b]) by {
                assert(target(us[a]) == target(es@[a]));
                assert(target(us[b]) == target(es@[b]));
            }
        },
    }
}

/// Whatever sequence of commands was applied from `s0`, undoing every inverse they pushed,
/// newest first, gives back exactly `s0`.
pub proof fn lemma_undo_all_restores(s0: EditMaps, cmds: Seq<Command>, stack: Seq<Command>, nr: nat, ni: nat)
    requires
        maps_ok(s0, nr, ni),
        commands_ok(cmds, nr, ni),
        recorded(s0, cmds, stack),
    ensures
        unwind(run(s0, cmds), stack) == s0,
        maps_ok(run(s0, cmds), nr, ni),
    decreases cmds.len(),
{
    if cmds.len() > 0 {
        let p = cmds.drop_last();
        let n = cmds.len() - 1;
        assert(commands_ok(p, nr, ni)) by {
            assert forall|k: int| 0 <= k < p.len() implies command_ok(#[trigger] p[k], nr, ni) by {
                assert(p[k] == cmds[k]);
            }
        }
        assert(recorded(s0, p, stack.drop_last())) by {
            assert forall|k: int| 0 <= k < p.len() implies is_inverse(
                run(s0, p.take(k)),
                #[trigger] p[k],
                stack.drop_last()[k],
            ) by {
                assert(p.take(k) =~= cmds.take(k));
                assert(p[k] == cmds[k]);
            }
        }
        lemma_undo_all_restores(s0, p, stack.drop_last(), nr, ni);
        assert(cmds.take(n) =~= p);
        assert(command_ok(cmds[n], nr, ni));
        lemma_inverse_restores(run(s0, p), cmds[n], stack[n], nr, ni);
    }
}

/// Redo right after undo: undoing the inverse of `c` pushes a command that, applied again,
/// brings back the state in which `c` had been applied.
pub proof fn lemma_redo_after_undo(
    s: EditMaps,
    c: Command,
    inv: Command,
    fwd: Command,
    nr: nat,
    ni: nat,
)
    requires
        maps_ok(s, nr, ni),
        command_ok(c, nr, ni),
        is_inverse(s, c, inv),
        is_inverse(apply_command(s, c), inv, fwd),
    ensures
        apply_command(apply_command(apply_command(s, c), inv), fwd) == apply_command(s, c),
{
    lemma_inverse_restores(s, c, inv, nr, ni);
    lemma_inverse_restores(apply_command(s, c), inv, fwd, nr, ni);
}

/// What every edit of a well-formed network keeps: a filter that differs from the source map's
/// is a bus gate on a road with a bus route, and a diagonal filter fits its 4-way junction.
pub open spec fn edit_sound(m: MapModel, e: Edit) -> bool {
    match e {
        Edit::SetModalFilter(r, f) => m.filter_sound(r, f),
        Edit::SetDiagonalFilter(i, f) => m.diagonal_sound(i, f),
        Edit::SetDirection(_, _) => true,
    }
}

pub open spec fn edits_sound(m: MapModel, es: Seq<Edit>) -> bool {
    forall|k: int| 0 <= k < es.len() ==> edit_sound(m, #[trigger] es[k])
}

pub open spec fn command_sound(m: MapModel, c: Command) -> bool {
    match c {
        Command::Single(e) => edit_sound(m, e),
        Command::Multiple(es) => edits_sound(m, es@),
    }
}

pub open spec fn maps_sound(m: MapModel, s: EditMaps) -> bool {
    &&& forall|r: int| 0 <= r < s.modal_filters.len() ==> m.filter_sound(RoadID(r as usize), #[trigger] s.modal_filters[r])
    &&& forall|i: int| 0 <= i < s.diagonal_filters.len() ==> m.diagonal_sound(IntersectionID(i as usize), #[trigger] s.diagonal_filters[i])
}

pub proof fn lemma_apply_edit_sound(m: MapModel, s: EditMaps, e: Edit)
    requires
        maps_ok(s, m.n_roads(), m.n_intersections()),
        edit_ok(e, m.n_roads(), m.n_intersections()),
        maps_sound(m, s),
        edit_sound(m, e),
    ensures
        maps_sound(m, apply_edit(s, e)),
        edit_sound(m, undo_edit(s, e)),
{
    let t = apply_edit(s, e);
    match e {
        Edit::SetModalFilter(r, f) => {
            assert(s.modal_filters[r.0 as int] == s.modal_filters[RoadID(r.0).0 as int]);
            assert forall|j: int| 0 <= j < t.modal_filters.len() implies m.filter_sound(RoadID(j as usize), #[trigger] t.modal_filters[j]) by {
                if j == r.0 as int {
                    assert(RoadID(j as usize) == r);
                }
            }
        },
        Edit::SetDiagonalFilter(i, f) => {
            assert(s.diagonal_filters[i.0 as int] == s.diagonal_filters[IntersectionID(i.0).0 as int]);
            assert forall|j: int| 0 <= j < t.diagonal_filters.len() implies m.diagonal_sound(IntersectionID(j as usize), #[trigger] t.diagonal_filters[j]) by {
                if j == i.0 as int {
                    assert(IntersectionID(j as usize) == i);
                }
            }
        },
        Edit::SetDirection(_, _) => {},
    }
}

pub proof fn lemma_apply_edits_sound(m: MapModel, s: EditMaps, es: Seq<Edit>)
    requires
        maps_ok(s, m.n_roads(), m.n_intersections()),
        edits_ok(es, m.n_roads(), m.n_intersections()),
        maps_sound(m, s),
        edits_sound(m, es),
    ensures
        maps_sound(m, apply_edits(s, es)),
        edits_sound(m, undo_edits(s, es)),
    decreases es.len(),
{
    if es.len() > 0 {
        let p = es.drop_last();
        let (nr, ni) = (m.n_roads(), m.n_intersections());
        assert(edits_ok(p, nr, ni) && edits_sound(m, p)) by {
            assert forall|k: int| 0 <= k < p.len() implies edit_ok(#[trigger] p[k], nr, ni) && edit_sound(m, p[k]) by {
                assert(p[k] == es[k]);
            }
        }
        assert(es.last() == es[es.len() - 1]);
        lemma_apply_edits_sound(m, s, p);
        lemma_apply_edits_ok(s, p, nr, ni);
        lemma_apply_edit_sound(m, apply_edits(s, p), es.last());
        let u = undo_edits(s, es);
        let rest = undo_edits(s, p);
        lemma_apply_edits_ok(s, es, nr, ni);
        assert forall|k: int| 0 <= k < u.len() implies edit_sound(m, #[trigger] u[k]) by {
            if k < u.len() - 1 {
                assert(u[k] == rest[k]);
            }
        }
    }
}

pub proof fn lemma_command_sound(m: MapModel, s: EditMaps, c: Command, inv: Command)
    requires
        maps_ok(s, m.n_roads(), m.n_intersections()),
        command_ok(c, m.n_roads(), m.n_intersections()),
        maps_sound(m, s),
        command_sound(m, c),
        is_inverse(s, c, inv),
    ensures
        maps_sound(m, apply_command(s, c)),
        command_sound(m, inv),
{
    match c {
        Command::Single(e) => lemma_apply_edit_sound(m, s, e),
        Command::Multiple(es) => lemma_apply_edits_sound(m, s, es@),
    }
}

/// Soundness of edits depends on the network alone, not on its edit state.
pub proof fn lemma_sound_same_network(a: MapModel, b: MapModel)
    requires
        a.roads@ == b.roads@,
        a.intersections@ == b.intersections@,
        a.bus_routes_on_roads@ == b.bus_routes_on_roads@,
        a.original_modal_filters@ == b.original_modal_filters@,
    ensures
        forall|r: RoadID, f: Option<ModalFilter>|
            #![trigger a.filter_sound(r, f)]
            #![trigger b.filter_sound(r, f)]
            a.filter_sound(r, f) == b.filter_sound(r, f),
        forall|i: IntersectionID, f: Option<DiagonalFilter>|
            #![trigger a.diagonal_sound(i, f)]
            #![trigger b.diagonal_sound(i, f)]
            a.diagonal_sound(i, f) == b.diagonal_sound(i, f),
        forall|c: Command|
            #![trigger command_sound(a, c)]
            #![trigger command_sound(b, c)]
            command_sound(a, c) == command_sound(b, c),
        forall|s: EditMaps|
            #![trigger maps_sound(a, s)]
            #![trigger maps_sound(b, s)]
            maps_sound(a, s) == maps_sound(b, s),
{
    assert forall|e: Edit| #[trigger] edit_sound(a, e) == edit_sound(b, e) by {}
}

/// The filter kind to place on a road: a road with a bus route gets a bus gate.
pub open spec fn coerced_kind(has_bus_route: bool, kind: FilterKind) -> FilterKind {
    if has_bus_route && kind != FilterKind::BusGate {
        FilterKind::BusGate
    } else {
        kind
    }
}

impl MapModel {
    pub open spec fn maps(&self) -> EditMaps {
        EditMaps {
            modal_filters: self.modal_filters@,
            diagonal_filters: self.diagonal_filters@,
            directions: self.directions@,
        }
    }

    pub open spec fn wf(&self) -> bool {
        &&& graph_ok(self.roads@, self.intersections@)
        &&& self.original_modal_filters@.len() == self.n_roads()
        &&& forall|r: int| 0 <= r < self.n_roads() && (#[trigger] self.original_modal_filters@[r]).is_some()
            ==> self.original_modal_filters@[r].unwrap().percent_along <= ALONG_SCALE
        &&& maps_ok(self.maps(), self.n_roads(), self.n_intersections())
        &&& commands_ok(self.undo_stack@, self.n_roads(), self.n_intersections())
        &&& commands_ok(self.redo_queue@, self.n_roads(), self.n_intersections())
        &&& maps_sound(*self, self.maps())
        &&& self.road_costs@.len() == self.n_roads()
        &&& (self.router_after matches Some(r) ==> self.router_fits(r, self.maps()))
        &&& (self.router_before_with_penalty matches Some(r) ==> self.router_fits(r, self.baseline()))
        &&& forall|k: int| 0 <= k < self.undo_stack@.len() ==> command_sound(*self, #[trigger] self.undo_stack@[k])
        &&& forall|k: int| 0 <= k < self.redo_queue@.len() ==> command_sound(*self, #[trigger] self.redo_queue@[k])
    }

    /// A filter `f` on road `r` is one that edits may leave there.
    pub open spec fn filter_sound(&self, r: RoadID, f: Option<ModalFilter>) -> bool {
        &&& (f matches Some(x) ==> x.percent_along <= ALONG_SCALE)
        &&& {
            ||| f == self.original_modal_filters@[r.0 as int]
            ||| f.is_none()
            ||| !self.has_bus_route(r)
            ||| f.unwrap().kind == FilterKind::BusGate
        }
    }

    /// A diagonal filter `f` at intersection `i` groups its four roads at one of four offsets.
    pub open spec fn diagonal_sound(&self, i: IntersectionID, f: Option<DiagonalFilter>) -> bool {
        f matches Some(d) ==> {
            &&& self.intersections@[i.0 as int].roads@.len() == 4
            &&& exists|k: int| 0 <= k < 4 && d == #[trigger] diagonal_filter_at(self.intersections@[i.0 as int].roads@, k)
        }
    }

    /// Everything but the edit state and the two logs stays as it was.
    pub open spec fn same_network(&self, other: &MapModel) -> bool {
        &&& self.roads@ == other.roads@
        &&& self.intersections@ == other.intersections@
        &&& self.bus_routes_on_roads@ == other.bus_routes_on_roads@
        &&& self.study_area_name == other.study_area_name
        &&& self.original_modal_filters@ == other.original_modal_filters@
        &&& self.boundaries@ == other.boundaries@
        &&& self.road_costs@ == other.road_costs@
        &&& self.router_before_with_penalty == other.router_before_with_penalty
    }

    /// `r` is routing over state `s` of this network.
    pub open spec fn router_fits(&self, r: Router, s: EditMaps) -> bool {
        &&& r.modal_filters@ == s.modal_filters
        &&& r.directions@ == s.directions
        &&& r.diagonal_filters@ == s.diagonal_filters
        &&& r.costs@ == self.penalised_costs(r.main_road_penalty)
    }

    fn apply_one(&mut self, e: Edit) -> (inv: Edit)
        requires
            maps_ok(old(self).maps(), old(self).n_roads(), old(self).n_intersections()),
            edit_ok(e, old(self).n_roads(), old(self).n_intersections()),
        ensures
            final(self).maps() == apply_edit(old(self).maps(), e),
            inv == undo_edit(old(self).maps(), e),
            final(self).same_network(old(self)),
            final(self).undo_stack@ == old(self).undo_stack@,
            final(self).redo_queue@ == old(self).redo_queue@,
            final(self).router_after == old(self).router_after,
    {
        match e {
            Edit::SetModalFilter(r, f) => {
                let prev = self.modal_filters[r.0];
                self.modal_filters.set(r.0, f);
                Edit::SetModalFilter(r, prev)
            },
            Edit::SetDiagonalFilter(i, f) => {
                let prev = self.diagonal_filters[i.0];
                self.diagonal_filters.set(i.0, f);
                Edit::SetDiagonalFilter(i, prev)
            },
            Edit::SetDirection(r, d) => {
                let prev = self.directions[r.0];
                self.directions.set(r.0, d);
                Edit::SetDirection(r, prev)
            },
        }
    }

    /// Applies `cmd` and returns the command that undoes it.
    pub(crate) fn do_edit(&mut self, cmd: Command) -> (inv: Command)
        requires
            maps_ok(old(self).maps(), old(self).n_roads(), old(self).n_intersections()),
            command_in_range(cmd, old(self).n_roads(), old(self).n_intersections()),
        ensures
            final(self).maps() == apply_command(old(self).maps(), cmd),
            is_inverse(old(self).maps(), cmd, inv),
            final(self).same_network(old(self)),
            final(self).undo_stack@ == old(self).undo_stack@,
            final(self).redo_queue@ == old(self).redo_queue@,
            final(self).router_after == old(self).router_after,
    {
        match cmd {
            Command::Single(e) => Command::Single(self.apply_one(e)),
            Command::Multiple(list) => {
                let ghost s0 = self.maps();
                let ghost nr = self.n_roads();
                let ghost ni = self.n_intersections();
                let mut undo_list: Vec<Edit> = Vec::new();
                let mut k: usize = 0;
                while k < list.len()
                    invariant
                        k <= list@.len(),
                        nr == self.n_roads(),
                        ni == self.n_intersections(),
                        maps_ok(s0, nr, ni),
                        edits_ok(list@, nr, ni),
                        self.maps() == apply_edits(s0, list@.take(k as int)),
                        undo_list@ == undo_edits(s0, list@.take(k as int)),
                        self.same_network(old(self)),
                        self.undo_stack@ == old(self).undo_stack@,
                        self.redo_queue@ == old(self).redo_queue@,
                        self.router_after == old(self).router_after,
                    decreases list@.len() - k,
                {
                    let ghost p = list@.take(k as int);
                    assert(list@.take(k + 1).drop_last() =~= p);
                    assert(list@.take(k + 1).last() == list@[k as int]);
                    assert(edits_ok(p, nr, ni)) by {
                        assert forall|j: int| 0 <= j < p.len() implies edit_ok(#[trigger] p[j], nr, ni) by {
                            assert(p[j] == list@[j]);
                        }
                    }
                    proof {
                        lemma_apply_edits_ok(s0, p, nr, ni);
                    }
                    assert(edit_ok(list@[k as int], nr, ni));
                    let u = self.apply_one(list[k]);
                    undo_list.push(u);
                    k = k + 1;
                }
                assert(list@.take(list@.len() as int) =~= list@);
                Command::Multiple(undo_list)
            },
        }
    }
}


/// The filter edits that a line drawn across `crossings` (road, position) makes.
pub open spec fn crossing_edits(m: MapModel, crossings: Seq<(RoadID, u32)>, kind: FilterKind) -> Seq<Edit> {
    Seq::new(
        crossings.len(),
        |k: int|
            Edit::SetModalFilter(
                crossings[k].0,
                Some(
                    ModalFilter {
                        kind: coerced_kind(m.has_bus_route(crossings[k].0), kind),
                        percent_along: crossings[k].1,
                    },
                ),
            ),
    )
}

impl MapModel {
    /// `self` is `old` after the user command `c`: applied, its inverse pushed for undo, the
    /// redo queue emptied and routes over the edited network marked stale.
    pub open spec fn made_edit(&self, old: &MapModel, c: Command) -> bool {
        &&& self.maps() == apply_command(old.maps(), c)
        &&& self.undo_stack@.len() == old.undo_stack@.len() + 1
        &&& self.undo_stack@.drop_last() == old.undo_stack@
        &&& is_inverse(old.maps(), c, self.undo_stack@.last())
        &&& self.redo_queue@.len() == 0
        &&& self.same_network(old)
        &&& self.router_after.is_none()
    }

    fn commit(&mut self, cmd: Command)
        requires
            old(self).wf(),
            command_ok(cmd, old(self).n_roads(), old(self).n_intersections()),
            command_sound(*old(self), cmd),
        ensures
            final(self).wf(),
            final(self).made_edit(old(self), cmd),
    {
        let ghost s0 = self.maps();
        let inv = self.do_edit(cmd);
        proof {
            lemma_inverse_restores(s0, cmd, inv, self.n_roads(), self.n_intersections());
            lemma_command_sound(*old(self), s0, cmd, inv);
        }
        self.undo_stack.push(inv);
        self.redo_queue.clear();
        self.after_edited();
        proof {
            lemma_sound_same_network(*old(self), *self);
        }
        assert forall|k: int| 0 <= k < self.undo_stack@.len() implies command_sound(*self, #[trigger] self.undo_stack@[k]) by {
            if k < old(self).undo_stack@.len() {
                assert(self.undo_stack@[k] == old(self).undo_stack@[k]);
            }
        }
        assert(self.undo_stack@.drop_last() =~= old(self).undo_stack@);
        assert forall|k: int| 0 <= k < self.undo_stack@.len() implies command_ok(
            #[trigger] self.undo_stack@[k],
            self.n_roads(),
            self.n_intersections(),
        ) by {
            if k < old(self).undo_stack@.len() {
                assert(self.undo_stack@[k] == old(self).undo_stack@[k]);
            }
        }
    }

    fn after_edited(&mut self)
        ensures
            final(self).router_after.is_none(),
            final(self).maps() == old(self).maps(),
            final(self).same_network(old(self)),
            final(self).undo_stack@ == old(self).undo_stack@,
            final(self).redo_queue@ == old(self).redo_queue@,
    {
        self.router_after = None;
    }

    /// The command that puts a filter of `kind` on the nearest of `candidate_roads`; on a road
    /// with a bus route it becomes a bus gate.
    fn add_modal_filter_cmd(&self, candidate_roads: &Vec<RoadCandidate>, kind: FilterKind) -> (c: Command)
        requires
            candidate_roads@.len() > 0,
            forall|k: int| 0 <= k < candidate_roads@.len() ==> (#[trigger] candidate_roads@[k]).road.0 < self.n_roads()
                && candidate_roads@[k].percent_along <= ALONG_SCALE,
        ensures
            ({
                let best = candidate_roads@[min_index(candidate_roads@)];
                c == Command::Single(
                    Edit::SetModalFilter(
                        best.road,
                        Some(
                            ModalFilter {
                                kind: coerced_kind(self.has_bus_route(best.road), kind),
                                percent_along: best.percent_along,
                            },
                        ),
                    ),
                )
            }),
            command_ok(c, self.n_roads(), self.n_intersections()),
    {
        proof {
            crate::spatial::lemma_closest_is_minimal(candidate_roads@);
        }
        let (r, percent_along) = match closest_point_on_road(candidate_roads) {
            Some(hit) => hit,
            None => (candidate_roads[0].road, 0),
        };
        let mut use_kind = kind;
        if self.get_bus_routes_on_road(r).is_some() && kind != FilterKind::BusGate {
            use_kind = FilterKind::BusGate;
        }
        Command::Single(Edit::SetModalFilter(r, Some(ModalFilter { kind: use_kind, percent_along })))
    }

    /// Puts a filter of `kind` on whichever of `candidate_roads` passes nearest the clicked
    /// point. On a road with a bus route the filter is a bus gate, whatever `kind` says.
    pub fn add_modal_filter(&mut self, candidate_roads: &Vec<RoadCandidate>, kind: FilterKind)
        requires
            old(self).wf(),
            candidate_roads@.len() > 0,
            forall|k: int| 0 <= k < candidate_roads@.len() ==> (#[trigger] candidate_roads@[k]).road.0 < old(self).n_roads()
                && candidate_roads@[k].percent_along <= ALONG_SCALE,
        ensures
            final(self).wf(),
            ({
                let best = candidate_roads@[min_index(candidate_roads@)];
                final(self).made_edit(
                    old(self),
                    Command::Single(
                        Edit::SetModalFilter(
                            best.road,
                            Some(
                                ModalFilter {
                                    kind: coerced_kind(old(self).has_bus_route(best.road), kind),
                                    percent_along: best.percent_along,
                                },
                            ),
                        ),
                    ),
                )
            }),
    {
        proof {
            crate::spatial::lemma_closest_is_minimal(candidate_roads@);
            let best = min_index(candidate_roads@);
            assert(candidate_roads@[best].percent_along <= ALONG_SCALE);
        }
        let cmd = self.add_modal_filter_cmd(candidate_roads, kind);
        self.commit(cmd);
    }

    /// Puts a filter of `kind` on every road that a drawn line crosses, at the crossing, as
    /// one undoable batch; each road is listed once. Roads with a bus route get bus gates.
    pub fn add_many_modal_filters(&mut self, crossings: &Vec<(RoadID, u32)>, kind: FilterKind)
        requires
            old(self).wf(),
            forall|k: int| 0 <= k < crossings@.len() ==> (#[trigger] crossings@[k]).0.0 < old(self).n_roads()
                && crossings@[k].1 <= ALONG_SCALE,
            forall|a: int, b: int| 0 <= a < b < crossings@.len() ==> (#[trigger] crossings@[a]).0 != (#[trigger] crossings@[b]).0,
        ensures
            final(self).wf(),
            exists|es: Vec<Edit>|
                es@ == crossing_edits(*old(self), crossings@, kind) && #[trigger] final(self).made_edit(
                    old(self),
                    Command::Multiple(es),
                ),
    {
        let mut edits: Vec<Edit> = Vec::new();
        let mut k: usize = 0;
        while k < crossings.len()
            invariant
                k <= crossings@.len(),
                edits@ == crossing_edits(*self, crossings@, kind).take(k as int),
                forall|j: int| 0 <= j < crossings@.len() ==> (#[trigger] crossings@[j]).0.0 < self.n_roads()
                    && crossings@[j].1 <= ALONG_SCALE,
            decreases crossings@.len() - k,
        {
            let (r, percent_along) = crossings[k];
            let mut use_kind = kind;
            if self.get_bus_routes_on_road(r).is_some() && kind != FilterKind::BusGate {
                use_kind = FilterKind::BusGate;
            }
            edits.push(Edit::SetModalFilter(r, Some(ModalFilter { kind: use_kind, percent_along })));
            k = k + 1;
            assert(edits@ =~= crossing_edits(*self, crossings@, kind).take(k as int));
        }
        assert(edits@ =~= crossing_edits(*self, crossings@, kind));
        let ghost es = edits;
        assert(edits_ok(edits@, self.n_roads(), self.n_intersections())) by {
            assert forall|j: int| 0 <= j < edits@.len() implies edit_ok(#[trigger] edits@[j], self.n_roads(), self.n_intersections()) by {
                assert(crossings@[j].0.0 < self.n_roads());
            }
        }
        assert(edits_distinct(edits@)) by {
            assert forall|a: int, b: int| 0 <= a < b < edits@.len() implies target(#[trigger] edits@[a]) != target(#[trigger] edits@[b]) by {
                assert(crossings@[a].0 != crossings@[b].0);
            }
        }
        self.commit(Command::Multiple(edits));
        assert(self.made_edit(old(self), Command::Multiple(es)));
    }

    /// Removes the filter on road `r`, if any.
    pub fn delete_modal_filter(&mut self, r: RoadID)
        requires
            old(self).wf(),
            r.0 < old(self).n_roads(),
        ensures
            final(self).wf(),
            final(self).made_edit(old(self), Command::Single(Edit::SetModalFilter(r, None))),
    {
        self.commit(Command::Single(Edit::SetModalFilter(r, None)));
    }

    /// Places a diagonal filter at 4-way intersection `i`, grouping its first two roads.
    pub fn add_diagonal_filter(&mut self, i: IntersectionID)
        requires
            old(self).wf(),
            i.0 < old(self).n_intersections(),
            old(self).intersections@[i.0 as int].roads@.len() == 4,
        ensures
            final(self).wf(),
            final(self).made_edit(
                old(self),
                Command::Single(
                    Edit::SetDiagonalFilter(
                        i,
                        Some(diagonal_filter_at(old(self).intersections@[i.0 as int].roads@, 0)),
                    ),
                ),
            ),
    {
        let f = DiagonalFilter::new(&self.get_i(i).roads, 0);
        self.commit(Command::Single(Edit::SetDiagonalFilter(i, Some(f))));
    }

    /// Places a diagonal filter at 4-way intersection `i` in its other rotation, grouping its
    /// second and third roads.
    pub fn rotate_diagonal_filter(&mut self, i: IntersectionID)
        requires
            old(self).wf(),
            i.0 < old(self).n_intersections(),
            old(self).intersections@[i.0 as int].roads@.len() == 4,
        ensures
            final(self).wf(),
            final(self).made_edit(
                old(self),
                Command::Single(
                    Edit::SetDiagonalFilter(
                        i,
                        Some(diagonal_filter_at(old(self).intersections@[i.0 as int].roads@, 1)),
                    ),
                ),
            ),
    {
        let f = DiagonalFilter::new(&self.get_i(i).roads, 1);
        self.commit(Command::Single(Edit::SetDiagonalFilter(i, Some(f))));
    }

    /// Removes the diagonal filter at intersection `i`, if any.
    pub fn delete_diagonal_filter(&mut self, i: IntersectionID)
        requires
            old(self).wf(),
            i.0 < old(self).n_intersections(),
        ensures
            final(self).wf(),
            final(self).made_edit(old(self), Command::Single(Edit::SetDiagonalFilter(i, None))),
    {
        self.commit(Command::Single(Edit::SetDiagonalFilter(i, None)));
    }

    /// Moves road `r` to the next direction: forwards, backwards, both ways, forwards again.
    pub fn toggle_direction(&mut self, r: RoadID)
        requires
            old(self).wf(),
            r.0 < old(self).n_roads(),
        ensures
            final(self).wf(),
            final(self).made_edit(
                old(self),
                Command::Single(
                    Edit::SetDirection(r, next_direction(old(self).directions@[r.0 as int])),
                ),
            ),
    {
        let dir = self.directions[r.0].toggled();
        self.commit(Command::Single(Edit::SetDirection(r, dir)));
    }

    /// Takes back the newest edit and queues what redoes it. Does nothing when there is
    /// nothing to undo.
    pub fn undo(&mut self)
        requires
            old(self).wf(),
        ensures
            final(self).wf(),
            final(self).same_network(old(self)),
            old(self).undo_stack@.len() == 0 ==> {
                &&& final(self).maps() == old(self).maps()
                &&& final(self).undo_stack@ == old(self).undo_stack@
                &&& final(self).redo_queue@ == old(self).redo_queue@
            },
            old(self).undo_stack@.len() > 0 ==> {
                &&& final(self).maps() == apply_command(old(self).maps(), old(self).undo_stack@.last())
                &&& final(self).undo_stack@ == old(self).undo_stack@.drop_last()
                &&& final(self).redo_queue@.len() == old(self).redo_queue@.len() + 1
                &&& final(self).redo_queue@.drop_last() == old(self).redo_queue@
                &&& is_inverse(old(self).maps(), old(self).undo_stack@.last(), final(self).redo_queue@.last())
                &&& final(self).router_after.is_none()
            },
    {
        if let Some(cmd) = self.undo_stack.pop() {
            let ghost s0 = self.maps();
            assert(command_ok(old(self).undo_stack@[old(self).undo_stack@.len() - 1], self.n_roads(), self.n_intersections()));
            assert(command_sound(*old(self), old(self).undo_stack@[old(self).undo_stack@.len() - 1]));
            let inv = self.do_edit(cmd);
            proof {
                lemma_inverse_restores(s0, cmd, inv, self.n_roads(), self.n_intersections());
                lemma_command_sound(*old(self), s0, cmd, inv);
            }
            self.redo_queue.push(inv);
            self.after_edited();
            proof {
                lemma_sound_same_network(*old(self), *self);
            }
            assert forall|k: int| 0 <= k < self.redo_queue@.len() implies command_sound(*self, #[trigger] self.redo_queue@[k]) by {
                if k < old(self).redo_queue@.len() {
                    assert(self.redo_queue@[k] == old(self).redo_queue@[k]);
                }
            }
            assert forall|k: int| 0 <= k < self.undo_stack@.len() implies command_sound(*self, #[trigger] self.undo_stack@[k]) by {
                assert(self.undo_stack@[k] == old(self).undo_stack@[k]);
            }
            assert(self.redo_queue@.drop_last() =~= old(self).redo_queue@);
            assert forall|k: int| 0 <= k < self.redo_queue@.len() implies command_ok(
                #[trigger] self.redo_queue@[k],
                self.n_roads(),
                self.n_intersections(),
            ) by {
                if k < old(self).redo_queue@.len() {
                    assert(self.redo_queue@[k] == old(self).redo_queue@[k]);
                }
            }
            assert forall|k: int| 0 <= k < self.undo_stack@.len() implies command_ok(
                #[trigger] self.undo_stack@[k],
                self.n_roads(),
                self.n_intersections(),
            ) by {
                assert(self.undo_stack@[k] == old(self).undo_stack@[k]);
            }
        }
    }

    /// Applies the oldest queued redo and makes it undoable again. Does nothing when the
    /// queue is empty.
    pub fn redo(&mut self)
        requires
            old(self).wf(),
        ensures
            final(self).wf(),
            final(self).same_network(old(self)),
            old(self).redo_queue@.len() == 0 ==> {
                &&& final(self).maps() == old(self).maps()
                &&& final(self).undo_stack@ == old(self).undo_stack@
                &&& final(self).redo_queue@ == old(self).redo_queue@
            },
            old(self).redo_queue@.len() > 0 ==> {
                &&& final(self).maps() == apply_command(old(self).maps(), old(self).redo_queue@[0])
                &&& final(self).redo_queue@ == old(self).redo_queue@.drop_first()
                &&& final(self).undo_stack@.len() == old(self).undo_stack@.len() + 1
                &&& final(self).undo_stack@.drop_last() == old(self).undo_stack@
                &&& is_inverse(old(self).maps(), old(self).redo_queue@[0], final(self).undo_stack@.last())
                &&& final(self).router_after.is_none()
            },
    {
        if self.redo_queue.len() == 0 {
            return;
        }
        let cmd = self.redo_queue.remove(0);
        let ghost s0 = self.maps();
        assert(command_ok(old(self).redo_queue@[0], self.n_roads(), self.n_intersections()));
        assert(command_sound(*old(self), old(self).redo_queue@[0]));
        let inv = self.do_edit(cmd);
        proof {
            lemma_inverse_restores(s0, cmd, inv, self.n_roads(), self.n_intersections());
            lemma_command_sound(*old(self), s0, cmd, inv);
        }
        self.undo_stack.push(inv);
        self.after_edited();
        proof {
            lemma_sound_same_network(*old(self), *self);
        }
        assert forall|k: int| 0 <= k < self.redo_queue@.len() implies command_sound(*self, #[trigger] self.redo_queue@[k]) by {
            assert(self.redo_queue@[k] == old(self).redo_queue@[k + 1]);
        }
        assert forall|k: int| 0 <= k < self.undo_stack@.len() implies command_sound(*self, #[trigger] self.undo_stack@[k]) by {
            if k < old(self).undo_stack@.len() {
                assert(self.undo_stack@[k] == old(self).undo_stack@[k]);
            }
        }
        assert(self.redo_queue@ =~= old(self).redo_queue@.drop_first());
        assert(self.undo_stack@.drop_last() =~= old(self).undo_stack@);
        assert forall|k: int| 0 <= k < self.redo_queue@.len() implies command_ok(
            #[trigger] self.redo_queue@[k],
            self.n_roads(),
            self.n_intersections(),
        ) by {
            assert(self.redo_queue@[k] == old(self).redo_queue@[k + 1]);
        }
        assert forall|k: int| 0 <= k < self.undo_stack@.len() implies command_ok(
            #[trigger] self.undo_stack@[k],
            self.n_roads(),
            self.n_intersections(),
        ) by {
            if k < old(self).undo_stack@.len() {
                assert(self.undo_stack@[k] == old(self).undo_stack@[k]);
            }
        }
    }

    /// Makes the current filters part of the source map: they become the original filters,
    /// and both logs are emptied, so they can be neither undone nor saved as edits. Used once
    /// the barriers found in the source map have been placed as filters.
    pub fn adopt_filters_as_original(&mut self)
        requires
            old(self).wf(),
        ensures
            final(self).wf(),
            final(self).original_modal_filters@ == old(self).modal_filters@,
            final(self).maps() == old(self).maps(),
            final(self).undo_stack@.len() == 0,
            final(self).redo_queue@.len() == 0,
            final(self).roads@ == old(self).roads@,
            final(self).intersections@ == old(self).intersections@,
            final(self).bus_routes_on_roads@ == old(self).bus_routes_on_roads@,
            final(self).boundaries@ == old(self).boundaries@,
            final(self).study_area_name == old(self).study_area_name,
            final(self).road_costs@ == old(self).road_costs@,
            final(self).router_before_with_penalty.is_none(),
    {
        let n = self.modal_filters.len();
        let mut r: usize = 0;
        while r < n
            invariant
                old(self).wf(),
                n == self.modal_filters@.len(),
                r <= n,
                self.original_modal_filters@.len() == n,
                forall|j: int| 0 <= j < r ==> self.original_modal_filters@[j] == self.modal_filters@[j],
                self.modal_filters@ == old(self).modal_filters@,
                self.maps() == old(self).maps(),
                self.roads@ == old(self).roads@,
                self.intersections@ == old(self).intersections@,
                self.bus_routes_on_roads@ == old(self).bus_routes_on_roads@,
                self.boundaries@ == old(self).boundaries@,
                self.study_area_name == old(self).study_area_name,
                self.undo_stack@ == old(self).undo_stack@,
                self.redo_queue@ == old(self).redo_queue@,
                self.road_costs@ == old(self).road_costs@,
                self.router_after == old(self).router_after,
            decreases n - r,
        {
            let f = self.modal_filters[r];
            self.original_modal_filters.set(r, f);
            r = r + 1;
        }
        self.undo_stack.clear();
        self.redo_queue.clear();
        self.router_before_with_penalty = None;
        assert(self.original_modal_filters@ =~= self.modal_filters@);
        assert(self.intersections@ == old(self).intersections@);
        assert(self.diagonal_filters@ == old(self).diagonal_filters@);
        assert forall|r: int| 0 <= r < self.n_roads() implies self.filter_sound(RoadID(r as usize), #[trigger] self.modal_filters@[r]) by {
            assert(old(self).filter_sound(RoadID(r as usize), old(self).modal_filters@[r]));
        }
        assert forall|i: int| 0 <= i < self.diagonal_filters@.len() implies self.diagonal_sound(IntersectionID(i as usize), #[trigger] self.diagonal_filters@[i]) by {
            assert(old(self).diagonal_sound(IntersectionID(i as usize), old(self).diagonal_filters@[i]));
        }
    }

    /// Matches a saved line to the road whose endpoints lie nearest its own: `scores` holds,
    /// for each road, the summed distance between the two pairs of endpoints (hundredths).
    pub fn most_similar_linestring(&self, scores: &Vec<u64>) -> (r: RoadID)
        requires
            scores@.len() == self.n_roads(),
            self.n_roads() > 0,
        ensures
            r.0 == first_min(scores@),
            r.0 < self.n_roads(),
            forall|j: int| 0 <= j < scores@.len() ==> scores@[r.0 as int] <= #[trigger] scores@[j],
    {
        RoadID(first_min_index(scores))
    }
}


/// A user edit extends the record: when `old`'s undo stack records `cmds` applied to `s0`,
/// the stack after edit `c` records `cmds` followed by `c`.
pub proof fn lemma_edit_extends_record(s0: EditMaps, cmds: Seq<Command>, old: MapModel, new: MapModel, c: Command)
    requires
        recorded(s0, cmds, old.undo_stack@),
        old.maps() == run(s0, cmds),
        new.made_edit(&old, c),
    ensures
        recorded(s0, cmds.push(c), new.undo_stack@),
        new.maps() == run(s0, cmds.push(c)),
{
    let c2 = cmds.push(c);
    assert(c2.drop_last() =~= cmds);
    assert(c2.last() == c);
    assert forall|k: int| 0 <= k < c2.len() implies is_inverse(run(s0, c2.take(k)), #[trigger] c2[k], new.undo_stack@[k]) by {
        if k < cmds.len() {
            assert(c2.take(k) =~= cmds.take(k));
            assert(c2[k] == cmds[k]);
            assert(new.undo_stack@[k] == new.undo_stack@.drop_last()[k]);
        } else {
            assert(c2.take(k) =~= cmds);
            assert(new.undo_stack@[k] == new.undo_stack@.last());
        }
    }
}

/// One undo is one step of `unwind`: what undoing everything reaches stays the same.
pub proof fn lemma_undo_keeps_target(old: MapModel, new: MapModel)
    requires
        old.undo_stack@.len() > 0,
        new.maps() == apply_command(old.maps(), old.undo_stack@.last()),
        new.undo_stack@ == old.undo_stack@.drop_last(),
    ensures
        unwind(new.maps(), new.undo_stack@) == unwind(old.maps(), old.undo_stack@),
{
}


/// Applying `c` and pushing its inverse leaves unchanged what undoing everything reaches.
pub proof fn lemma_push_keeps_target(s: EditMaps, stack: Seq<Command>, c: Command, inv: Command, nr: nat, ni: nat)
    requires
        maps_ok(s, nr, ni),
        command_ok(c, nr, ni),
        is_inverse(s, c, inv),
    ensures
        unwind(apply_command(s, c), stack.push(inv)) == unwind(s, stack),
{
    lemma_inverse_restores(s, c, inv, nr, ni);
    assert(stack.push(inv).drop_last() =~= stack);
}

/// Every user edit leaves unchanged what undoing everything reaches.
pub proof fn lemma_edit_keeps_target(old: MapModel, new: MapModel, c: Command)
    requires
        old.wf(),
        command_ok(c, old.n_roads(), old.n_intersections()),
        new.made_edit(&old, c),
    ensures
        unwind(new.maps(), new.undo_stack@) == unwind(old.maps(), old.undo_stack@),
{
    assert(new.undo_stack@ =~= old.undo_stack@.push(new.undo_stack@.last()));
    lemma_push_keeps_target(old.maps(), old.undo_stack@, c, new.undo_stack@.last(), old.n_roads(), old.n_intersections());
}

/// A redo leaves unchanged what undoing everything reaches.
pub proof fn lemma_redo_keeps_target(old: MapModel, new: MapModel)
    requires
        old.wf(),
        old.redo_queue@.len() > 0,
        new.maps() == apply_command(old.maps(), old.redo_queue@[0]),
        new.undo_stack@.len() == old.undo_stack@.len() + 1,
        new.undo_stack@.drop_last() == old.undo_stack@,
        is_inverse(old.maps(), old.redo_queue@[0], new.undo_stack@.last()),
    ensures
        unwind(new.maps(), new.undo_stack@) == unwind(old.maps(), old.undo_stack@),
{
    assert(command_ok(old.redo_queue@[0], old.n_roads(), old.n_intersections()));
    assert(new.undo_stack@ =~= old.undo_stack@.push(new.undo_stack@.last()));
    lemma_push_keeps_target(old.maps(), old.undo_stack@, old.redo_queue@[0], new.undo_stack@.last(), old.n_roads(), old.n_intersections());
}

/// With nothing left to undo, the state is what undoing everything reaches. Together with
/// `MapModel::new` (state at the source map's, empty stack), `lemma_edit_keeps_target`,
/// `lemma_redo_keeps_target` and `lemma_undo_keeps_target`, undoing until the stack is empty
/// after any sequence of edits, undos and redos gives back the source map's state.
pub proof fn lemma_empty_stack_is_target(m: MapModel)
    requires
        m.undo_stack@.len() == 0,
    ensures
        unwind(m.maps(), m.undo_stack@) == m.maps(),
{
}


/// `b` follows `a` by one user action: an edit, an undo, a redo, or an undo or redo with
/// nothing to do.
pub open spec fn one_action(a: MapModel, b: MapModel) -> bool {
    &&& a.wf()
    &&& b.wf()
    &&& {
        ||| exists|c: Command| command_ok(c, a.n_roads(), a.n_intersections()) && #[trigger] b.made_edit(&a, c)
        ||| (a.undo_stack@.len() > 0 && b.maps() == apply_command(a.maps(), a.undo_stack@.last())
            && b.undo_stack@ == a.undo_stack@.drop_last())
        ||| (a.redo_queue@.len() > 0 && b.maps() == apply_command(a.maps(), a.redo_queue@[0])
            && b.undo_stack@.len() == a.undo_stack@.len() + 1 && b.undo_stack@.drop_last() == a.undo_stack@
            && is_inverse(a.maps(), a.redo_queue@[0], b.undo_stack@.last()))
        ||| (b.maps() == a.maps() && b.undo_stack@ == a.undo_stack@)
    }
}

proof fn lemma_action_keeps_target(a: MapModel, b: MapModel)
    requires
        one_action(a, b),
    ensures
        unwind(b.maps(), b.undo_stack@) == unwind(a.maps(), a.undo_stack@),
{
    if exists|c: Command| command_ok(c, a.n_roads(), a.n_intersections()) && #[trigger] b.made_edit(&a, c) {
        let c = choose|c: Command| command_ok(c, a.n_roads(), a.n_intersections()) && #[trigger] b.made_edit(&a, c);
        lemma_edit_keeps_target(a, b, c);
    } else if a.undo_stack@.len() > 0 && b.maps() == apply_command(a.maps(), a.undo_stack@.last())
        && b.undo_stack@ == a.undo_stack@.drop_last() {
        lemma_undo_keeps_target(a, b);
    } else if a.redo_queue@.len() > 0 && b.maps() == apply_command(a.maps(), a.redo_queue@[0])
        && b.undo_stack@.len() == a.undo_stack@.len() + 1 && b.undo_stack@.drop_last() == a.undo_stack@
        && is_inverse(a.maps(), a.redo_queue@[0], b.undo_stack@.last()) {
        lemma_redo_keeps_target(a, b);
    }
}

/// After any run of edits, undos and redos from a freshly built network (at the source map's
/// state, nothing to undo), once the undo stack is empty again the filters, diagonal filters
/// and directions are exactly the source map's.
pub proof fn lemma_undo_to_baseline(run: Seq<MapModel>)
    requires
        run.len() > 0,
        run[0].maps() == run[0].baseline(),
        run[0].undo_stack@.len() == 0,
        forall|k: int| 0 <= k < run.len() - 1 ==> one_action(#[trigger] run[k], run[k + 1]),
        run.last().undo_stack@.len() == 0,
    ensures
        run.last().maps() == run[0].baseline(),
    decreases run.len(),
{
    lemma_run_keeps_target(run, run.len() - 1);
}

proof fn lemma_run_keeps_target(run: Seq<MapModel>, k: int)
    requires
        0 <= k < run.len(),
        run[0].maps() == run[0].baseline(),
        run[0].undo_stack@.len() == 0,
        forall|j: int| 0 <= j < run.len() - 1 ==> one_action(#[trigger] run[j], run[j + 1]),
    ensures
        unwind(run[k].maps(), run[k].undo_stack@) == run[0].baseline(),
    decreases k,
{
    if k > 0 {
        lemma_run_keeps_target(run, k - 1);
        assert(one_action(run[k - 1], run[(k - 1) + 1]));
        lemma_action_keeps_target(run[k - 1], run[k]);
    }
}

} // verus!
