use vstd::prelude::*;
use crate::calc::RouteResult;
use crate::data::MapData;
use crate::walk::{MAX_EDGE, edge, nodes_from, nodes_in_range, walk_weight, lemma_walk_prepend};

verus! {

/// Longest walk length accepted by the exhaustive search.
pub const MAX_STOPS: usize = 0xFFFF_FFFF;

/// Weight of the step into `x`: the edge from `prev`, or nothing at the start of a walk.
pub open spec fn entry(t: Seq<Seq<u32>>, prev: Option<usize>, x: usize) -> int {
    match prev {
        Some(p) => edge(t, p, x),
        None => 0,
    }
}

/// A walk of `k` nodes over the candidates `c`: each node is one of `c`.
pub open spec fn is_walk_over(s: Seq<usize>, c: Seq<usize>, k: nat) -> bool {
    s.len() == k && nodes_from(s, c)
}

/// Best continuation of `k` nodes after `prev`, as (value including the step into it, nodes).
pub open spec fn best_walk(t: Seq<Seq<u32>>, c: Seq<usize>, prev: Option<usize>, k: nat) -> (int, Seq<usize>)
    decreases k, c.len() + 1,
{
    if k == 0 {
        (0, Seq::empty())
    } else {
        best_walk_upto(t, c, prev, k, c.len())
    }
}

/// Continuation that starts with candidate `c[i]` and then goes on in the best way.
pub open spec fn walk_choice(t: Seq<Seq<u32>>, c: Seq<usize>, prev: Option<usize>, k: nat, i: int) -> (int, Seq<usize>)
    decreases k, 0nat,
{
    if k == 0 {
        (0, Seq::empty())
    } else {
        let sub = best_walk(t, c, Some(c[i]), (k - 1) as nat);
        (entry(t, prev, c[i]) + sub.0, seq![c[i]] + sub.1)
    }
}

/// The first best continuation among those starting with one of `c[0..j]`:
/// a later candidate replaces the current one only when strictly better.
pub open spec fn best_walk_upto(t: Seq<Seq<u32>>, c: Seq<usize>, prev: Option<usize>, k: nat, j: nat) -> (int, Seq<usize>)
    decreases k, j,
{
    if k == 0 || j == 0 {
        (0, Seq::empty())
    } else if j == 1 {
        walk_choice(t, c, prev, k, 0)
    } else {
        let b = best_walk_upto(t, c, prev, k, (j - 1) as nat);
        let o = walk_choice(t, c, prev, k, j - 1);
        if o.0 > b.0 {
            o
        } else {
            b
        }
    }
}

/// The route that the exhaustive search returns for walks of `num` nodes.
pub open spec fn exact_route(t: Seq<Seq<u32>>, c: Seq<usize>, num: nat) -> (int, Seq<usize>) {
    best_walk(t, c, None, num)
}

proof fn lemma_upto_pick(t: Seq<Seq<u32>>, c: Seq<usize>, prev: Option<usize>, k: nat, j: nat) -> (i: int)
    requires
        k > 0,
        1 <= j,
    ensures
        0 <= i < j,
        best_walk_upto(t, c, prev, k, j) == walk_choice(t, c, prev, k, i),
    decreases j,
{
    if j == 1 {
        0
    } else {
        let b = best_walk_upto(t, c, prev, k, (j - 1) as nat);
        let o = walk_choice(t, c, prev, k, j - 1);
        if o.0 > b.0 {
            j - 1
        } else {
            lemma_upto_pick(t, c, prev, k, (j - 1) as nat)
        }
    }
}

proof fn lemma_upto_ge(t: Seq<Seq<u32>>, c: Seq<usize>, prev: Option<usize>, k: nat, j: nat, i: int)
    requires
        k > 0,
        0 <= i < j,
    ensures
        best_walk_upto(t, c, prev, k, j).0 >= walk_choice(t, c, prev, k, i).0,
    decreases j,
{
    if j > 1 && i < j - 1 {
        lemma_upto_ge(t, c, prev, k, (j - 1) as nat, i);
    }
}

/// The chosen continuation is a walk over the candidates whose value is what it costs.
pub proof fn lemma_best_walk_valid(t: Seq<Seq<u32>>, c: Seq<usize>, prev: Option<usize>, k: nat)
    requires
        c.len() > 0,
    ensures
        is_walk_over(best_walk(t, c, prev, k).1, c, k),
        k > 0 ==> best_walk(t, c, prev, k).0 == entry(t, prev, best_walk(t, c, prev, k).1[0])
            + walk_weight(t, best_walk(t, c, prev, k).1),
        k == 0 ==> best_walk(t, c, prev, k).0 == 0,
    decreases k,
{
    if k > 0 {
        let i = lemma_upto_pick(t, c, prev, k, c.len());
        let x = c[i];
        let sub = best_walk(t, c, Some(x), (k - 1) as nat);
        lemma_best_walk_valid(t, c, Some(x), (k - 1) as nat);
        let r = seq![x] + sub.1;
        assert(r[0] == x);
        assert forall|q: int| 0 <= q < r.len() implies c.contains(#[trigger] r[q]) by {
            if q == 0 {
                assert(c[i] == r[q]);
            } else {
                assert(r[q] == sub.1[q - 1]);
            }
        }
        if k > 1 {
            lemma_walk_prepend(t, x, sub.1);
        } else {
            assert(sub.1.len() == 0);
            assert(walk_weight(t, r) == 0);
        }
    }
}

/// No walk over the candidates beats the chosen continuation.
pub proof fn lemma_best_walk_max(t: Seq<Seq<u32>>, c: Seq<usize>, prev: Option<usize>, k: nat, s: Seq<usize>)
    requires
        k > 0,
        is_walk_over(s, c, k),
    ensures
        entry(t, prev, s[0]) + walk_weight(t, s) <= best_walk(t, c, prev, k).0,
    decreases k,
{
    let x = s[0];
    assert(c.contains(s[0]));
    let i = choose|i: int| 0 <= i < c.len() && c[i] == x;
    let rest = s.drop_first();
    assert(s =~= seq![x] + rest);
    if k > 1 {
        assert forall|q: int| 0 <= q < rest.len() implies c.contains(#[trigger] rest[q]) by {
            assert(rest[q] == s[q + 1]);
        }
        lemma_best_walk_max(t, c, Some(x), (k - 1) as nat, rest);
        lemma_walk_prepend(t, x, rest);
    } else {
        assert(walk_weight(t, s) == 0);
    }
    lemma_upto_ge(t, c, prev, k, c.len(), i);
}

fn best_walk_exec(map_data: &MapData, cities: &Vec<usize>, prev: Option<usize>, k: usize) -> (r: (u64, Vec<usize>))
    requires
        map_data.wf(),
        cities@.len() > 0,
        nodes_in_range(map_data@, cities@),
        prev matches Some(p) ==> p < map_data@.len(),
        k <= MAX_STOPS,
    ensures
        r.0 == best_walk(map_data@, cities@, prev, k as nat).0,
        r.1@ == best_walk(map_data@, cities@, prev, k as nat).1,
        r.0 <= k * MAX_EDGE,
    decreases k,
{
    if k == 0 {
        return (0, Vec::new());
    }
    let ghost t = map_data@;
    let mut best_total: u64 = 0;
    let mut best_route: Vec<usize> = Vec::new();
    let mut i: usize = 0;
    while i < cities.len()
        invariant
            map_data.wf(),
            t == map_data@,
            cities@.len() > 0,
            nodes_in_range(t, cities@),
            prev matches Some(p) ==> p < t.len(),
            0 < k <= MAX_STOPS,
            i <= cities@.len(),
            0 < i ==> best_total == best_walk_upto(t, cities@, prev, k as nat, i as nat).0,
            0 < i ==> best_route@ == best_walk_upto(t, cities@, prev, k as nat, i as nat).1,
            best_total <= k * MAX_EDGE,
        decreases cities@.len() - i,
    {
        let x = cities[i];
        assert(x < t.len());
        let sub = best_walk_exec(map_data, cities, Some(x), k - 1);
        let e: u64 = match prev {
            Some(p) => map_data.mileage(p, x) as u64,
            None => 0,
        };
        assert(e <= MAX_EDGE);
        assert((k - 1) * MAX_EDGE + MAX_EDGE == k * MAX_EDGE) by (nonlinear_arith);
        let total = e + sub.0;
        if i == 0 || total > best_total {
            best_total = total;
            let mut route: Vec<usize> = Vec::new();
            route.push(x);
            let mut rest = sub.1;
            route.append(&mut rest);
            best_route = route;
        }
        proof {
            let o = walk_choice(t, cities@, prev, k as nat, i as int);
            assert(o.0 == total);
            if i == 0 || total > best_total {
                assert(best_route@ =~= o.1);
            }
        }
        i += 1;
    }
    (best_total, best_route)
}

/// Exhaustive search for the walk of `num_cities` nodes over `cities` with the highest value.
/// A node may occur more than once in the walk; among equally good walks the first
/// one in the order of `cities` wins. `None` when there is no candidate or no node to visit.
pub fn find_longest_route(map_data: &MapData, cities: &Vec<usize>, num_cities: usize) -> (r: Option<RouteResult>)
    requires
        map_data.wf(),
        nodes_in_range(map_data@, cities@),
        num_cities <= MAX_STOPS,
    ensures
        r is Some <==> cities@.len() > 0 && num_cities > 0,
        r matches Some(res) ==> {
            &&& res.mileage == exact_route(map_data@, cities@, num_cities as nat).0
            &&& res.index@ == exact_route(map_data@, cities@, num_cities as nat).1
            &&& is_walk_over(res.index@, cities@, num_cities as nat)
            &&& res.mileage == walk_weight(map_data@, res.index@)
            &&& forall|s: Seq<usize>| #[trigger] is_walk_over(s, cities@, num_cities as nat)
                ==> walk_weight(map_data@, s) <= res.mileage
        },
{
    if cities.len() == 0 || num_cities == 0 {
        return None;
    }
    let (mileage, index) = best_walk_exec(map_data, cities, None, num_cities);
    proof {
        lemma_best_walk_valid(map_data@, cities@, None, num_cities as nat);
        assert forall|s: Seq<usize>| #[trigger] is_walk_over(s, cities@, num_cities as nat)
            implies walk_weight(map_data@, s) <= mileage by {
            lemma_best_walk_max(map_data@, cities@, None, num_cities as nat, s);
        }
    }
    Some(RouteResult { mileage, index })
}

} // verus!
