use vstd::prelude::*;
use crate::ids::{IntersectionID, RoadID};
use crate::network::MapModel;
use crate::routing::{Leg, is_walk, walk_cost_sat};

verus! {

/// Length (centimetres) and travel time (milliseconds) of one route.
#[derive(Clone, Copy, Debug, PartialEq, Eq, Structural)]
pub struct RouteSummary {
    pub distance: u64,
    pub time: u64,
}

/// The routes from one origin road to the destination, before and after the edits; a side is
/// missing where no path exists.
#[derive(Clone, Copy, Debug)]
pub struct OriginRoutes {
    pub road: RoadID,
    pub before: Option<RouteSummary>,
    pub after: Option<RouteSummary>,
}

/// An origin that has a route on both sides.
#[derive(Clone, Copy, Debug, PartialEq, Eq, Structural)]
pub struct ImpactRow {
    pub road: RoadID,
    pub before: RouteSummary,
    pub after: RouteSummary,
}

/// The exact fraction `num / den`.
#[derive(Clone, Copy, Debug, PartialEq, Eq, Structural)]
pub struct Ratio {
    pub num: u64,
    pub den: u64,
}

/// What the edits do to trips towards one destination.
pub struct Impact {
    pub rows: Vec<ImpactRow>,
    /// The largest `time after / time before` over the rows, and never below 1.
    pub highest_time_ratio: Ratio,
}

/// The origins that have both routes, in order.
pub open spec fn impact_rows(origins: Seq<OriginRoutes>) -> Seq<ImpactRow>
    decreases origins.len(),
{
    if origins.len() == 0 {
        seq![]
    } else {
        let o = origins.last();
        let rest = impact_rows(origins.drop_last());
        if o.before.is_some() && o.after.is_some() {
            rest.push(ImpactRow { road: o.road, before: o.before.unwrap(), after: o.after.unwrap() })
        } else {
            rest
        }
    }
}

/// `a <= b` as fractions with positive denominators.
pub open spec fn ratio_le(a: Ratio, b: Ratio) -> bool {
    (a.num as int) * (b.den as int) <= (b.num as int) * (a.den as int)
}

pub open spec fn row_ratio(r: ImpactRow) -> Ratio {
    Ratio { num: r.after.time, den: r.before.time }
}

/// The running maximum of the rows' time ratios, starting from 1; a row whose time before is
/// zero has no ratio.
pub open spec fn highest_ratio(rows: Seq<ImpactRow>) -> Ratio
    decreases rows.len(),
{
    if rows.len() == 0 {
        Ratio { num: 1, den: 1 }
    } else {
        let h = highest_ratio(rows.drop_last());
        let x = row_ratio(rows.last());
        if x.den > 0 && !ratio_le(x, h) {
            x
        } else {
            h
        }
    }
}

proof fn lemma_ratio_trans(a: Ratio, b: Ratio, c: Ratio)
    requires
        a.den > 0,
        b.den > 0,
        c.den > 0,
        ratio_le(a, b),
        ratio_le(b, c),
    ensures
        ratio_le(a, c),
{
    let (an, ad, bn, bd, cn, cd) = (a.num as int, a.den as int, b.num as int, b.den as int, c.num as int, c.den as int);
    assert(an * cd <= cn * ad) by (nonlinear_arith)
        requires
            ad > 0,
            bd > 0,
            cd > 0,
            an >= 0,
            bn >= 0,
            cn >= 0,
            an * bd <= bn * ad,
            bn * cd <= cn * bd,
    {
        assert(an * bd * cd <= bn * ad * cd);
        assert(bn * cd * ad <= cn * bd * ad);
        assert(an * cd * bd <= cn * ad * bd);
    }
}

/// The reported ratio is at least 1 and at least every row's time ratio.
pub proof fn lemma_highest_ratio_bounds(rows: Seq<ImpactRow>)
    ensures
        highest_ratio(rows).den > 0,
        ratio_le(Ratio { num: 1, den: 1 }, highest_ratio(rows)),
        forall|k: int|
            0 <= k < rows.len() && (#[trigger] rows[k]).before.time > 0 ==> ratio_le(row_ratio(rows[k]), highest_ratio(rows)),
    decreases rows.len(),
{
    if rows.len() > 0 {
        let p = rows.drop_last();
        lemma_highest_ratio_bounds(p);
        let h = highest_ratio(p);
        let x = row_ratio(rows.last());
        if x.den > 0 && !ratio_le(x, h) {
            assert(ratio_le(h, x)) by (nonlinear_arith)
                requires
                    !ratio_le(x, h),
            ;
            lemma_ratio_trans(Ratio { num: 1, den: 1 }, h, x);
            assert forall|k: int| 0 <= k < rows.len() && (#[trigger] rows[k]).before.time > 0 implies ratio_le(row_ratio(rows[k]), x) by {
                if k < rows.len() - 1 {
                    assert(rows[k] == p[k]);
                    lemma_ratio_trans(row_ratio(rows[k]), h, x);
                }
            }
        } else {
            assert forall|k: int| 0 <= k < rows.len() && (#[trigger] rows[k]).before.time > 0 implies ratio_le(row_ratio(rows[k]), h) by {
                if k < rows.len() - 1 {
                    assert(rows[k] == p[k]);
                }
            }
        }
    }
}

proof fn lemma_product_fits(a: u64, b: u64)
    ensures
        (a as int) * (b as int) <= u128::MAX,
{
    assert((a as int) * (b as int) <= u64::MAX as int * u64::MAX as int) by (nonlinear_arith);
}

/// Keeps the origins that have a route before and after the edits, and finds the largest
/// factor by which the edits lengthened a trip.
pub fn impact_to_one_destination(origins: &Vec<OriginRoutes>) -> (r: Impact)
    ensures
        r.rows@ == impact_rows(origins@),
        r.highest_time_ratio == highest_ratio(impact_rows(origins@)),
{
    let mut rows: Vec<ImpactRow> = Vec::new();
    let mut highest = Ratio { num: 1, den: 1 };
    let mut k: usize = 0;
    while k < origins.len()
        invariant
            k <= origins@.len(),
            rows@ == impact_rows(origins@.take(k as int)),
            highest == highest_ratio(rows@),
        decreases origins@.len() - k,
    {
        assert(origins@.take(k + 1).drop_last() =~= origins@.take(k as int));
        assert(origins@.take(k + 1).last() == origins@[k as int]);
        let o = origins[k];
        match (o.before, o.after) {
            (Some(before), Some(after)) => {
                let row = ImpactRow { road: o.road, before, after };
                let ghost old_rows = rows@;
                rows.push(row);
                assert(rows@.drop_last() =~= old_rows);
                let x = Ratio { num: after.time, den: before.time };
                let (xn, xd, hn, hd) = (x.num as u128, x.den as u128, highest.num as u128, highest.den as u128);
                proof {
                    lemma_product_fits(x.num, highest.den);
                    lemma_product_fits(highest.num, x.den);
                }
                if x.den > 0 && !(xn * hd <= hn * xd) {
                    highest = x;
                }
            },
            _ => {},
        }
        k = k + 1;
    }
    assert(origins@.take(origins@.len() as int) =~= origins@);
    Impact { rows, highest_time_ratio: highest }
}


/// With no edit made, the edited network is the source map's, so the cheapest routes found
/// before and after the edits, by the same costs, cost the same.
pub proof fn lemma_unedited_routes_agree(
    m: MapModel,
    costs: Seq<u64>,
    from: IntersectionID,
    to: IntersectionID,
    before: Seq<Leg>,
    after: Seq<Leg>,
)
    requires
        m.maps() == m.baseline(),
        is_walk(m, m.baseline(), before, from, to),
        is_walk(m, m.maps(), after, from, to),
        forall|w: Seq<Leg>| #[trigger] is_walk(m, m.baseline(), w, from, to) ==> walk_cost_sat(costs, before) <= walk_cost_sat(costs, w),
        forall|w: Seq<Leg>| #[trigger] is_walk(m, m.maps(), w, from, to) ==> walk_cost_sat(costs, after) <= walk_cost_sat(costs, w),
    ensures
        walk_cost_sat(costs, before) == walk_cost_sat(costs, after),
{
}

} // verus!
