use vstd::prelude::*;
use crate::calc::RouteResult;
use crate::data::MapData;
use crate::walk::{MAX_EDGE, edge, nodes_in_range, walk_weight, lemma_walk_push};
use crate::bruteforce::{MAX_STOPS, is_walk_over};

verus! {

/// One row of the successor table: the best single step out of a candidate.
pub struct LongestPathEntry {
    pub mileage: u32,
    pub next: usize,
}

/// Best step out of `c[i]` among `c[0..j]`, as (value, position in `c`);
/// with no step of positive value the candidate stays where it is.
pub open spec fn succ_upto(t: Seq<Seq<u32>>, c: Seq<usize>, i: int, j: nat) -> (int, int)
    decreases j,
{
    if j == 0 {
        (0, i)
    } else {
        let b = succ_upto(t, c, i, (j - 1) as nat);
        let w = edge(t, c[i], c[j - 1]);
        if w > b.0 {
            (w, j - 1)
        } else {
            b
        }
    }
}

/// The greedy successor of position `i`.
pub open spec fn successor(t: Seq<Seq<u32>>, c: Seq<usize>, i: int) -> (int, int) {
    succ_upto(t, c, i, c.len())
}

/// Position reached from `i` after `s` greedy steps.
pub open spec fn nth_next(t: Seq<Seq<u32>>, c: Seq<usize>, i: int, s: nat) -> int
    decreases s,
{
    if s == 0 {
        i
    } else {
        successor(t, c, nth_next(t, c, i, (s - 1) as nat)).1
    }
}

/// Value collected over `s` greedy steps from `i`.
pub open spec fn chain_total(t: Seq<Seq<u32>>, c: Seq<usize>, i: int, s: nat) -> int
    decreases s,
{
    if s == 0 {
        0
    } else {
        chain_total(t, c, i, (s - 1) as nat) + successor(t, c, nth_next(t, c, i, (s - 1) as nat)).0
    }
}

/// The first `len` nodes of the greedy chain from `i`.
pub open spec fn chain_route(t: Seq<Seq<u32>>, c: Seq<usize>, i: int, len: nat) -> Seq<usize> {
    Seq::new(len, |q: int| c[nth_next(t, c, i, q as nat)])
}

/// The best start among `c[0..j]` for chains of `num` nodes, as (value, position);
/// a later start replaces the current one only when strictly better.
pub open spec fn start_upto(t: Seq<Seq<u32>>, c: Seq<usize>, num: nat, j: nat) -> (int, int)
    decreases j,
{
    if j == 0 {
        (0, 0)
    } else {
        let b = start_upto(t, c, num, (j - 1) as nat);
        let tot = chain_total(t, c, j - 1, (num - 1) as nat);
        if tot > b.0 {
            (tot, j - 1)
        } else {
            b
        }
    }
}

/// The route that the greedy search returns for chains of `num` nodes.
pub open spec fn heuristic_route(t: Seq<Seq<u32>>, c: Seq<usize>, num: nat) -> (int, Seq<usize>) {
    let s = start_upto(t, c, num, c.len());
    (s.0, chain_route(t, c, s.1, num))
}

proof fn lemma_succ(t: Seq<Seq<u32>>, c: Seq<usize>, i: int, j: nat)
    requires
        0 <= i < c.len(),
        j <= c.len(),
    ensures
        0 <= succ_upto(t, c, i, j).1 < c.len(),
        succ_upto(t, c, i, j).0 >= 0,
        forall|q: int| 0 <= q < j ==> succ_upto(t, c, i, j).0 >= edge(t, c[i], #[trigger] c[q]),
        succ_upto(t, c, i, j).0 == edge(t, c[i], c[succ_upto(t, c, i, j).1])
            || (succ_upto(t, c, i, j).0 == 0 && succ_upto(t, c, i, j).1 == i),
    decreases j,
{
    if j > 0 {
        lemma_succ(t, c, i, (j - 1) as nat);
    }
}

proof fn lemma_successor(t: Seq<Seq<u32>>, c: Seq<usize>, i: int)
    requires
        0 <= i < c.len(),
    ensures
        0 <= successor(t, c, i).1 < c.len(),
        0 <= successor(t, c, i).0 == edge(t, c[i], c[successor(t, c, i).1]),
        successor(t, c, i).0 <= MAX_EDGE,
{
    lemma_succ(t, c, i, c.len());
}

proof fn lemma_chain(t: Seq<Seq<u32>>, c: Seq<usize>, i: int, s: nat)
    requires
        0 <= i < c.len(),
    ensures
        0 <= nth_next(t, c, i, s) < c.len(),
        0 <= chain_total(t, c, i, s) <= s * MAX_EDGE,
        chain_total(t, c, i, s) == walk_weight(t, chain_route(t, c, i, s + 1)),
    decreases s,
{
    if s > 0 {
        let p = (s - 1) as nat;
        lemma_chain(t, c, i, p);
        lemma_successor(t, c, nth_next(t, c, i, p));
        assert(chain_route(t, c, i, s + 1) =~= chain_route(t, c, i, p + 1).push(c[nth_next(t, c, i, s)]));
        lemma_walk_push(t, chain_route(t, c, i, p + 1), c[nth_next(t, c, i, s)]);
        assert(p * MAX_EDGE + MAX_EDGE == s * MAX_EDGE) by (nonlinear_arith)
            requires p + 1 == s;
    } else {
        assert(walk_weight(t, chain_route(t, c, i, 1)) == 0);
    }
}

proof fn lemma_start(t: Seq<Seq<u32>>, c: Seq<usize>, num: nat, j: nat)
    requires
        1 <= j <= c.len(),
        num > 0,
    ensures
        0 <= start_upto(t, c, num, j).1 < j,
        start_upto(t, c, num, j).0 == chain_total(t, c, start_upto(t, c, num, j).1, (num - 1) as nat),
    decreases j,
{
    lemma_chain(t, c, j - 1, (num - 1) as nat);
    assert(start_upto(t, c, num, 0) == (0int, 0int));
    if j > 1 {
        lemma_start(t, c, num, (j - 1) as nat);
    }
}

/// The greedy route is a walk over the candidates and its value is what it costs.
pub proof fn lemma_heuristic_valid(t: Seq<Seq<u32>>, c: Seq<usize>, num: nat)
    requires
        c.len() > 0,
        num > 0,
    ensures
        is_walk_over(heuristic_route(t, c, num).1, c, num),
        heuristic_route(t, c, num).0 == walk_weight(t, heuristic_route(t, c, num).1),
{
    lemma_start(t, c, num, c.len());
    let s = start_upto(t, c, num, c.len()).1;
    lemma_chain(t, c, s, (num - 1) as nat);
    let r = heuristic_route(t, c, num).1;
    assert forall|q: int| 0 <= q < r.len() implies c.contains(#[trigger] r[q]) by {
        lemma_chain(t, c, s, q as nat);
        assert(r[q] == c[nth_next(t, c, s, q as nat)]);
    }
}

/// Greedy estimate of the best walk of `num_cities` nodes over `cities`: every candidate
/// takes its single best step, and the best chain of such steps is kept. The chain may
/// cycle. `None` when there is no candidate or no node to visit.
pub fn find_longest_route(map_data: &MapData, cities: &Vec<usize>, num_cities: usize) -> (r: Option<RouteResult>)
    requires
        map_data.wf(),
        nodes_in_range(map_data@, cities@),
        num_cities <= MAX_STOPS,
    ensures
        r is Some <==> cities@.len() > 0 && num_cities > 0,
        r matches Some(res) ==> {
            &&& res.mileage == heuristic_route(map_data@, cities@, num_cities as nat).0
            &&& res.index@ == heuristic_route(map_data@, cities@, num_cities as nat).1
            &&& is_walk_over(res.index@, cities@, num_cities as nat)
            &&& res.mileage == walk_weight(map_data@, res.index@)
        },
{
    let n = cities.len();
    if n == 0 || num_cities == 0 {
        return None;
    }
    let ghost t = map_data@;
    let ghost c = cities@;
    let mut table: Vec<LongestPathEntry> = Vec::new();
    let mut i: usize = 0;
    while i < n
        invariant
            map_data.wf(),
            t == map_data@,
            c == cities@,
            n == c.len(),
            nodes_in_range(t, c),
            i <= n,
            table@.len() == i,
            forall|q: int| 0 <= q < i ==> (#[trigger] table@[q]).mileage == successor(t, c, q).0
                && table@[q].next == successor(t, c, q).1,
        decreases n - i,
    {
        let mut max_mileage: u32 = 0;
        let mut max_index: usize = i;
        let mut j: usize = 0;
        while j < n
            invariant
                map_data.wf(),
                t == map_data@,
                c == cities@,
                n == c.len(),
                nodes_in_range(t, c),
                i < n,
                j <= n,
                max_mileage == succ_upto(t, c, i as int, j as nat).0,
                max_index == succ_upto(t, c, i as int, j as nat).1,
            decreases n - j,
        {
            assert(c[i as int] < t.len() && c[j as int] < t.len());
            let mileage = map_data.mileage(cities[i], cities[j]);
            if mileage > max_mileage {
                max_mileage = mileage;
                max_index = j;
            }
            j += 1;
        }
        table.push(LongestPathEntry { mileage: max_mileage, next: max_index });
        i += 1;
    }
    let steps = num_cities - 1;
    let mut max_mileage: u64 = 0;
    let mut max_index: usize = 0;
    let mut i: usize = 0;
    while i < n
        invariant
            t == map_data@,
            c == cities@,
            n == c.len(),
            table@.len() == n,
            forall|q: int| 0 <= q < n ==> (#[trigger] table@[q]).mileage == successor(t, c, q).0
                && table@[q].next == successor(t, c, q).1,
            0 < num_cities <= MAX_STOPS,
            steps == num_cities - 1,
            i <= n,
            max_mileage == start_upto(t, c, num_cities as nat, i as nat).0,
            max_index == start_upto(t, c, num_cities as nat, i as nat).1,
        decreases n - i,
    {
        let mut total: u64 = 0;
        let mut cur: usize = i;
        let mut s: usize = 0;
        while s < steps
            invariant
                t == map_data@,
                c == cities@,
                n == c.len(),
                table@.len() == n,
                forall|q: int| 0 <= q < n ==> (#[trigger] table@[q]).mileage == successor(t, c, q).0
                    && table@[q].next == successor(t, c, q).1,
                steps < MAX_STOPS,
                i < n,
                s <= steps,
                cur == nth_next(t, c, i as int, s as nat),
                total == chain_total(t, c, i as int, s as nat),
            decreases steps - s,
        {
            proof {
                lemma_chain(t, c, i as int, s as nat);
                lemma_successor(t, c, cur as int);
                assert(s * MAX_EDGE + MAX_EDGE <= MAX_STOPS * MAX_EDGE) by (nonlinear_arith)
                    requires s < MAX_STOPS;
            }
            total = total + table[cur].mileage as u64;
            cur = table[cur].next;
            s += 1;
        }
        if total > max_mileage {
            max_mileage = total;
            max_index = i;
        }
        i += 1;
    }
    proof {
        lemma_start(t, c, num_cities as nat, n as nat);
    }
    let mut longest_path: Vec<usize> = Vec::new();
    longest_path.push(cities[max_index]);
    let mut cur: usize = max_index;
    let mut s: usize = 0;
    while s < steps
        invariant
            t == map_data@,
            c == cities@,
            n == c.len(),
            table@.len() == n,
            forall|q: int| 0 <= q < n ==> (#[trigger] table@[q]).mileage == successor(t, c, q).0
                && table@[q].next == successor(t, c, q).1,
            0 <= max_index < n,
            s <= steps,
            cur == nth_next(t, c, max_index as int, s as nat),
            longest_path@ == chain_route(t, c, max_index as int, (s + 1) as nat),
        decreases steps - s,
    {
        proof {
            lemma_chain(t, c, max_index as int, s as nat);
            lemma_chain(t, c, max_index as int, (s + 1) as nat);
        }
        cur = table[cur].next;
        longest_path.push(cities[cur]);
        s += 1;
        assert(longest_path@ =~= chain_route(t, c, max_index as int, (s + 1) as nat));
    }
    proof {
        lemma_heuristic_valid(t, c, num_cities as nat);
    }
    Some(RouteResult { mileage: max_mileage, index: longest_path })
}

} // verus!
