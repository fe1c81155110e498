use vstd::prelude::*;
use crate::ids::RoadID;

verus! {

/// The barrier nodes that lie on some road, in their order.
pub open spec fn barriers_on_roads_spec(barriers: Seq<i64>, road_nodes: Seq<i64>) -> Seq<i64> {
    barriers.filter(|n: i64| road_nodes.contains(n))
}

fn contains_node(nodes: &Vec<i64>, n: i64) -> (r: bool)
    ensures
        r == nodes@.contains(n),
{
    let mut k: usize = 0;
    while k < nodes.len()
        invariant
            k <= nodes@.len(),
            forall|j: int| 0 <= j < k ==> nodes@[j] != n,
        decreases nodes@.len() - k,
    {
        if nodes[k] == n {
            assert(nodes@[k as int] == n);
            return true;
        }
        k = k + 1;
    }
    false
}

/// Keeps the barriers that stand on nodes of roads; others sit on paths that no vehicle uses.
pub fn barriers_on_roads(barriers: &Vec<i64>, road_nodes: &Vec<i64>) -> (r: Vec<i64>)
    ensures
        r@ == barriers_on_roads_spec(barriers@, road_nodes@),
{
    let mut out: Vec<i64> = Vec::new();
    let mut k: usize = 0;
    while k < barriers.len()
        invariant
            k <= barriers@.len(),
            out@ == barriers_on_roads_spec(barriers@.take(k as int), road_nodes@),
        decreases barriers@.len() - k,
    {
        let n = barriers[k];
        proof {
            assert(barriers@.take(k + 1).drop_last() =~= barriers@.take(k as int));
            reveal(Seq::filter);
        }
        if contains_node(road_nodes, n) {
            out.push(n);
        }
        k = k + 1;
    }
    assert(barriers@.take(barriers@.len() as int) =~= barriers@);
    out
}

/// Road `i` comes before road `j` around a junction: a smaller bearing key, or the same key
/// and an earlier place in the input.
pub open spec fn key_before(keys: Seq<i64>, i: int, j: int) -> bool {
    keys[i] < keys[j] || (keys[i] == keys[j] && i < j)
}

/// `order` lists every position `0 .. n` once, sorted by key with ties in input order.
pub open spec fn sorted_order(keys: Seq<i64>, order: Seq<int>, n: int) -> bool {
    &&& order.len() == n
    &&& forall|k: int| 0 <= k < n ==> 0 <= #[trigger] order[k] < n
    &&& forall|a: int, b: int| 0 <= a < b < n ==> key_before(keys, #[trigger] order[a], #[trigger] order[b])
}

/// Orders a junction's roads clockwise from north, given each road's bearing as an integer
/// key; roads with equal keys keep their order.
pub fn sort_clockwise(roads: &Vec<RoadID>, keys: &Vec<i64>) -> (r: Vec<RoadID>)
    requires
        keys@.len() == roads@.len(),
    ensures
        exists|order: Seq<int>|
            #[trigger] sorted_order(keys@, order, roads@.len() as int) && r@.len() == roads@.len()
                && forall|k: int| 0 <= k < r@.len() ==> r@[k] == roads@[order[k]],
{
    let n = roads.len();
    let mut order: Vec<usize> = Vec::new();
    let mut k: usize = 0;
    while k < n
        invariant
            n == roads@.len(),
            keys@.len() == n,
            k <= n,
            order@.len() == k,
            forall|a: int| 0 <= a < k ==> #[trigger] order@[a] < k,
            forall|a: int, b: int| 0 <= a < b < k ==> key_before(keys@, #[trigger] order@[a] as int, #[trigger] order@[b] as int),
        decreases n - k,
    {
        let mut p: usize = 0;
        while p < order.len() && keys[order[p]] <= keys[k]
            invariant
                p <= order@.len(),
                order@.len() == k,
                k < n,
                keys@.len() == n,
                forall|a: int| 0 <= a < k ==> #[trigger] order@[a] < k,
                forall|a: int| 0 <= a < p ==> keys@[#[trigger] order@[a] as int] <= keys@[k as int],
            decreases order@.len() - p,
        {
            p = p + 1;
        }
        let ghost before = order@;
        order.insert(p, k);
        assert forall|a: int| 0 <= a < k + 1 implies #[trigger] order@[a] < k + 1 by {
            if a < p {
                assert(order@[a] == before[a]);
            } else if a > p {
                assert(order@[a] == before[a - 1]);
            }
        }
        assert forall|a: int, b: int| 0 <= a < b < k + 1 implies key_before(keys@, #[trigger] order@[a] as int, #[trigger] order@[b] as int) by {
            if b < p {
                assert(order@[a] == before[a] && order@[b] == before[b]);
            } else if b == p {
                assert(order@[a] == before[a]);
                assert(keys@[before[a] as int] <= keys@[k as int]);
            } else if a < p {
                assert(order@[a] == before[a] && order@[b] == before[b - 1]);
            } else if a == p {
                assert(order@[b] == before[b - 1]);
                if b - 1 == p {
                    assert(keys@[before[p as int] as int] > keys@[k as int]);
                } else {
                    assert(key_before(keys@, before[p as int] as int, before[b - 1] as int));
                    assert(keys@[before[p as int] as int] > keys@[k as int]);
                }
            } else {
                assert(order@[a] == before[a - 1] && order@[b] == before[b - 1]);
            }
        }
        k = k + 1;
    }
    let mut out: Vec<RoadID> = Vec::new();
    let mut j: usize = 0;
    while j < n
        invariant
            n == roads@.len(),
            order@.len() == n,
            forall|a: int| 0 <= a < n ==> #[trigger] order@[a] < n,
            j <= n,
            out@.len() == j,
            forall|a: int| 0 <= a < j ==> out@[a] == roads@[order@[a] as int],
        decreases n - j,
    {
        out.push(roads[order[j]]);
        j = j + 1;
    }
    let ghost ord = order@.map_values(|x: usize| x as int);
    assert(sorted_order(keys@, ord, n as int)) by {
        assert forall|a: int, b: int| 0 <= a < b < n implies key_before(keys@, #[trigger] ord[a], #[trigger] ord[b]) by {
            assert(key_before(keys@, order@[a] as int, order@[b] as int));
        }
    }
    out
}

} // verus!
