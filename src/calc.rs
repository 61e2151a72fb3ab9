use vstd::prelude::*;
use std::time::{Duration, Instant};
use crate::bruteforce::{self, MAX_STOPS, exact_route, lemma_best_walk_max};
use crate::data::MapData;
use crate::longest_table::{self, heuristic_route, lemma_heuristic_valid};
use crate::walk::nodes_in_range;

verus! {

/// A route: its total point value and the cities visited, in order.
pub struct RouteResult {
    pub mileage: u64,
    pub index: Vec<usize>,
}

/// A search outcome together with the wall-clock time the search took.
pub struct FindResult {
    pub route: Option<RouteResult>,
    pub elapsed_time: Duration,
}

/// The available searches over a point-value table.
#[derive(Clone, Copy, PartialEq, Eq, Debug)]
pub enum Methods {
    BruteForce,
    LongestTable1,
}

#[verifier::external_type_specification]
#[verifier::external_body]
pub struct ExInstant(Instant);

/// Relies on `Instant::now`: a reading of the monotonic clock, nothing is known of its value.
pub assume_specification[ Instant::now ]() -> Instant;

/// Relies on `Instant::elapsed`: the time since the reading; it does not panic.
pub assume_specification[ Instant::elapsed ](i: &Instant) -> Duration;

/// The route that `method` finds for walks of `num` nodes over `c`.
pub open spec fn method_route(method: Methods, t: Seq<Seq<u32>>, c: Seq<usize>, num: nat) -> (int, Seq<usize>) {
    match method {
        Methods::BruteForce => exact_route(t, c, num),
        Methods::LongestTable1 => heuristic_route(t, c, num),
    }
}

/// Runs the chosen search and measures how long it took.
pub fn find_route(method: Methods, map_data: &MapData, cities: &Vec<usize>, num_cities: usize) -> (r: FindResult)
    requires
        map_data.wf(),
        nodes_in_range(map_data@, cities@),
        num_cities <= MAX_STOPS,
    ensures
        r.route is Some <==> cities@.len() > 0 && num_cities > 0,
        r.route matches Some(res) ==> res.mileage == method_route(method, map_data@, cities@, num_cities as nat).0
            && res.index@ == method_route(method, map_data@, cities@, num_cities as nat).1,
{
    let time_start = Instant::now();
    let route = match method {
        Methods::BruteForce => bruteforce::find_longest_route(map_data, cities, num_cities),
        Methods::LongestTable1 => longest_table::find_longest_route(map_data, cities, num_cities),
    };
    let elapsed_time = time_start.elapsed();
    FindResult { route, elapsed_time }
}

/// The exhaustive search always finds a walk worth at least as much as the greedy estimate,
/// on the same table, candidates and walk length.
pub proof fn lemma_exact_at_least_heuristic(t: Seq<Seq<u32>>, c: Seq<usize>, num: nat)
    requires
        c.len() > 0,
        num > 0,
    ensures
        exact_route(t, c, num).0 >= heuristic_route(t, c, num).0,
{
    lemma_heuristic_valid(t, c, num);
    lemma_best_walk_max(t, c, None, num, heuristic_route(t, c, num).1);
}

/// Every search returns a route fixed by its inputs alone: on equal tables, equal candidate
/// sequences and equal lengths, a search returns the same route with the same value, so
/// running it twice on an unchanged table gives the same result.
pub proof fn lemma_search_repeatable(
    method: Methods,
    t1: Seq<Seq<u32>>,
    c1: Seq<usize>,
    t2: Seq<Seq<u32>>,
    c2: Seq<usize>,
    num: nat,
)
    requires
        t1 == t2,
        c1 == c2,
    ensures
        method_route(method, t1, c1, num) == method_route(method, t2, c2, num),
{
}

} // verus!
