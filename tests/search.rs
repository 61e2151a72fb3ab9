use route_finder::bruteforce;
use route_finder::calc::{find_route as run_method, Methods};
use route_finder::city::{prepare_area_data, AreaCode, City, CityData};
use route_finder::data::MapData;
use route_finder::find::{
    check_rule, find_boundary, find_continental_route, find_longest_intercontinental_routes, find_route,
    find_route_continents, find_route_in_continent, find_route_in_continent_hub_core, ContinentError, SearchError,
};
use route_finder::longest_table;

fn map(table: Vec<Vec<u32>>) -> MapData {
    let codes = (0..table.len()).map(|i| format!("C{}", i)).collect();
    MapData::new(codes, table).unwrap()
}

fn cities_of(table: Vec<Vec<u32>>, codes: &[&str], areas: &[AreaCode]) -> CityData {
    let cities = table
        .into_iter()
        .enumerate()
        .map(|(i, row)| City::new(areas[i], codes[i].to_string(), "XX".to_string(), false, row, i))
        .collect();
    CityData { cities }
}

fn plain(table: Vec<Vec<u32>>) -> CityData {
    let n = table.len();
    let codes: Vec<String> = (0..n).map(|i| format!("C{}", i)).collect();
    let refs: Vec<&str> = codes.iter().map(|s| s.as_str()).collect();
    cities_of(table, &refs, &vec![AreaCode::Asia; n])
}

#[test]
fn exact_three_node_walk() {
    let m = map(vec![vec![0, 10, 5], vec![0, 0, 20], vec![0, 0, 0]]);
    let r = bruteforce::find_longest_route(&m, &vec![0, 1, 2], 3).unwrap();
    assert_eq!(r.index, vec![0, 1, 2]);
    assert_eq!(r.mileage, 30);
}

#[test]
fn heuristic_follows_two_node_cycle() {
    let m = map(vec![vec![0, 100, 1], vec![100, 0, 1], vec![1, 1, 0]]);
    let r = longest_table::find_longest_route(&m, &vec![0, 1, 2], 4).unwrap();
    assert_eq!(r.index, vec![0, 1, 0, 1]);
    assert_eq!(r.mileage, 300);
    let r = longest_table::find_longest_route(&m, &vec![1, 0, 2], 4).unwrap();
    assert_eq!(r.index, vec![1, 0, 1, 0]);
    assert_eq!(r.mileage, 300);
}

#[test]
fn exact_never_below_heuristic() {
    let m = map(vec![
        vec![0, 9, 1, 8],
        vec![2, 0, 7, 1],
        vec![6, 1, 0, 9],
        vec![1, 5, 3, 0],
    ]);
    let c = vec![0, 1, 2, 3];
    for len in 1..6 {
        let e = bruteforce::find_longest_route(&m, &c, len).unwrap();
        let h = longest_table::find_longest_route(&m, &c, len).unwrap();
        assert!(e.mileage >= h.mileage);
        assert_eq!(e.index.len(), len);
        assert_eq!(h.index.len(), len);
    }
    // greedy: 0->1 (9), 1->2 (7), 2->3 (9) = 25 for 4 nodes
    let h = longest_table::find_longest_route(&m, &c, 4).unwrap();
    assert_eq!(h.mileage, 25);
    let e = bruteforce::find_longest_route(&m, &c, 4).unwrap();
    assert_eq!(e.mileage, 25);
    // over 5 nodes the greedy chain 0 1 2 3 1 (30) loses to 0 1 2 0 1 (31), the first of the best walks
    let h = longest_table::find_longest_route(&m, &c, 5).unwrap();
    let e = bruteforce::find_longest_route(&m, &c, 5).unwrap();
    assert_eq!(h.mileage, 30);
    assert_eq!(e.mileage, 31);
    assert_eq!(e.index, vec![0, 1, 2, 0, 1]);
}

#[test]
fn totals_match_recomputed_walks() {
    let table = vec![vec![0, 4, 7], vec![3, 0, 2], vec![8, 6, 0]];
    let m = map(table.clone());
    let c = vec![2, 0, 1];
    for r in [
        bruteforce::find_longest_route(&m, &c, 4).unwrap(),
        longest_table::find_longest_route(&m, &c, 4).unwrap(),
    ] {
        let sum: u64 = r.index.windows(2).map(|w| table[w[0]][w[1]] as u64).sum();
        assert_eq!(sum, r.mileage);
    }
}

#[test]
fn searches_repeat_identically() {
    let m = map(vec![vec![0, 5, 5], vec![5, 0, 5], vec![5, 5, 0]]);
    let c = vec![1, 2, 0];
    let a = bruteforce::find_longest_route(&m, &c, 3).unwrap();
    let b = bruteforce::find_longest_route(&m, &c, 3).unwrap();
    assert_eq!(a.index, b.index);
    assert_eq!(a.mileage, b.mileage);
    // all walks tie; the first candidate order wins
    assert_eq!(a.index, vec![1, 2, 1]);
    let a = longest_table::find_longest_route(&m, &c, 3).unwrap();
    let b = longest_table::find_longest_route(&m, &c, 3).unwrap();
    assert_eq!(a.index, b.index);
    assert_eq!(a.mileage, 10);
}

#[test]
fn empty_candidates_or_length_give_nothing() {
    let m = map(vec![vec![0, 1], vec![1, 0]]);
    assert!(bruteforce::find_longest_route(&m, &vec![], 3).is_none());
    assert!(longest_table::find_longest_route(&m, &vec![], 3).is_none());
    assert!(bruteforce::find_longest_route(&m, &vec![0, 1], 0).is_none());
    assert!(longest_table::find_longest_route(&m, &vec![0, 1], 0).is_none());
    let r = bruteforce::find_longest_route(&m, &vec![1, 0], 1).unwrap();
    assert_eq!(r.index, vec![1]);
    assert_eq!(r.mileage, 0);
}

#[test]
fn heuristic_stays_put_without_edges() {
    let m = map(vec![vec![0, 0], vec![0, 0]]);
    let r = longest_table::find_longest_route(&m, &vec![1, 0], 3).unwrap();
    assert_eq!(r.index, vec![1, 1, 1]);
    assert_eq!(r.mileage, 0);
}

#[test]
fn dispatch_runs_the_chosen_method() {
    let m = map(vec![vec![0, 9, 1, 8], vec![2, 0, 7, 1], vec![6, 1, 0, 9], vec![1, 5, 3, 0]]);
    let c = vec![0, 1, 2, 3];
    let e = run_method(Methods::BruteForce, &m, &c, 4).route.unwrap();
    let h = run_method(Methods::LongestTable1, &m, &c, 4).route.unwrap();
    assert_eq!(e.mileage, 25);
    assert_eq!(h.mileage, 25);
    assert!(run_method(Methods::BruteForce, &m, &vec![], 4).route.is_none());
}

#[test]
fn map_data_rejects_bad_tables() {
    assert!(MapData::new(vec!["A".to_string()], vec![vec![0, 1]]).is_none());
    assert!(MapData::new(vec!["A".to_string(), "B".to_string()], vec![vec![1, 1], vec![1, 0]]).is_none());
    assert!(MapData::new(vec!["A".to_string()], vec![vec![0], vec![0]]).is_none());
    let m = MapData::new(vec!["NRT".to_string(), "LHR".to_string()], vec![vec![0, 7], vec![3, 0]]).unwrap();
    assert_eq!(m.size(), 2);
    assert_eq!(m.mileage(0, 1), 7);
    assert_eq!(m.mileage(1, 0), 3);
    assert_eq!(m.find_city_by_code("LHR"), Some(1));
    assert_eq!(m.find_city_by_code("JFK"), None);
}

#[test]
fn repeated_pair_in_history_blocks_path() {
    // S = 0, M = 1, E = 2
    let cd = plain(vec![vec![0, 50, 0], vec![0, 0, 50], vec![0, 0, 0]]);
    let locks = cd.lock_flags();
    let cand = vec![0, 1, 2];
    let fresh = find_route_in_continent_hub_core(&cd, &locks, &cand, 1, 0, 2, &vec![0]).unwrap();
    assert_eq!(fresh, (100, vec![0, 1, 2]));
    let seeded = find_route_in_continent_hub_core(&cd, &locks, &cand, 1, 0, 2, &vec![0, 1, 0]);
    assert!(seeded.is_none());
}

#[test]
fn rule_checks_pairs_and_lock_cities() {
    let locks = vec![false, true, false, true];
    assert!(!check_rule(&locks, &vec![0, 2, 0], 0, 2));
    assert!(!check_rule(&locks, &vec![0, 2, 0], 2, 0));
    assert!(check_rule(&locks, &vec![0, 2, 0], 0, 1));
    assert!(!check_rule(&locks, &vec![0, 1], 1, 2));
    assert!(check_rule(&locks, &vec![0, 1], 1, 3));
    assert!(check_rule(&locks, &vec![0, 2], 2, 0));
}

#[test]
fn lock_city_is_never_left() {
    // 0 = start, 1 = HNL, 2 = ordinary, 3 = OGG, 4 = end (ordinary)
    let w = vec![
        vec![0, 100, 1, 0, 0],
        vec![0, 0, 100, 1, 1],
        vec![0, 0, 0, 1, 1],
        vec![0, 1, 0, 0, 1],
        vec![0, 0, 0, 0, 0],
    ];
    let cd = cities_of(w, &["SFO", "HNL", "LAX", "OGG", "HNL"], &vec![AreaCode::NorthAmerica; 5]);
    assert!(cd.is_well_formed());
    let cand = vec![0, 1, 2, 3];
    let (total, route) = find_route_in_continent(&cd, &cand, 2, 0, 4).unwrap();
    // 0 -> 1 -> 2 would be worth more, but 2 is not a lock city
    assert_eq!(route, vec![0, 1, 3, 4]);
    assert_eq!(total, 102);
}

#[test]
fn no_directed_pair_repeats_in_route() {
    let cd = plain(vec![vec![0, 90, 0], vec![80, 0, 1], vec![0, 0, 0]]);
    let cand = vec![0, 1];
    // 0 1 0 1 2 would repeat 0 -> 1
    let r = find_route_in_continent(&cd, &cand, 3, 0, 2);
    assert!(r.is_none());
    let (total, route) = find_route_in_continent(&cd, &cand, 2, 0, 2).unwrap();
    assert_eq!(route, vec![0, 1, 0, 2]);
    assert_eq!(total, 170);
}

fn stitch_graph() -> CityData {
    // S a1 a2 a3 B b1 b2 b3 E
    let mut w = vec![vec![0u32; 9]; 9];
    w[0][1] = 10;
    w[1][2] = 10;
    w[2][4] = 100;
    w[2][3] = 10;
    w[3][4] = 50;
    w[4][5] = 10;
    w[5][6] = 10;
    w[6][8] = 280;
    w[6][7] = 130;
    w[7][8] = 130;
    plain(w)
}

#[test]
fn stitcher_keeps_best_distribution() {
    let cd = stitch_graph();
    let sets = vec![vec![0, 1, 2, 3], vec![4, 5, 6, 7]];
    let bounds = vec![0, 4, 4, 8];
    let a = find_route_continents(&cd, &sets, &bounds, &vec![2, 3]).unwrap();
    let b = find_route_continents(&cd, &sets, &bounds, &vec![3, 2]).unwrap();
    assert_eq!(a.0, 400);
    assert_eq!(b.0, 380);
    let best = find_route(&cd, &sets, &bounds, &vec![vec![2, 3], vec![3, 2]]).unwrap();
    assert_eq!(best, (400, vec![0, 1, 2, 4, 5, 6, 7, 8]));
    let best = find_route(&cd, &sets, &bounds, &vec![vec![3, 2], vec![2, 3]]).unwrap();
    assert_eq!(best.0, 400);
}

#[test]
fn stitcher_reports_failures() {
    let cd = stitch_graph();
    let sets = vec![vec![0, 1, 2, 3], vec![4, 5, 6, 7]];
    let bounds = vec![0, 4, 4, 8];
    assert_eq!(find_route(&cd, &sets, &bounds, &vec![vec![5, 5]]), Err(SearchError::NoLegalPath));
    assert_eq!(find_route(&cd, &sets, &bounds, &vec![]), Err(SearchError::NoLegalPath));
    let ok = find_route(&cd, &sets, &bounds, &vec![vec![5, 5], vec![3, 2]]).unwrap();
    assert_eq!(ok.0, 380);
    let bad = vec![vec![1, 2, 3], vec![4, 5, 6, 7]];
    assert_eq!(find_route(&cd, &bad, &bounds, &vec![vec![2, 3]]), Err(SearchError::InconsistentBoundary));
    assert!(find_route_continents(&cd, &sets, &bounds, &vec![5, 5]).is_none());
}

#[test]
fn stitcher_keeps_inter_partition_flight() {
    let mut w = vec![vec![0u32; 4]; 4];
    w[0][1] = 5;
    w[1][2] = 7;
    w[2][3] = 11;
    let cd = plain(w);
    let sets = vec![vec![0], vec![2]];
    let r = find_route_continents(&cd, &sets, &vec![0, 1, 2, 3], &vec![0, 0]).unwrap();
    assert_eq!(r, (23, vec![0, 1, 2, 3]));
}

#[test]
fn boundary_and_intercontinental_flights() {
    let mut w = vec![vec![0u32; 4]; 4];
    w[0][2] = 30;
    w[0][3] = 10;
    w[1][3] = 30;
    let cd = plain(w);
    assert_eq!(find_boundary(&cd, &vec![0, 1], &vec![2, 3]), vec![0, 1]);
    assert_eq!(find_boundary(&cd, &vec![2, 3], &vec![0, 1]), Vec::<usize>::new());
    let flights = find_longest_intercontinental_routes(&cd, &vec![0, 1], &vec![2, 3]);
    assert_eq!(flights, vec![(10, 0, 3), (30, 0, 2), (30, 1, 3)]);
}

#[test]
fn continental_route_checks_areas() {
    let mut w = vec![vec![0u32; 4]; 4];
    w[0][1] = 10;
    w[1][2] = 20;
    let areas = [AreaCode::Japan, AreaCode::Asia, AreaCode::Asia, AreaCode::Africa];
    let cd = cities_of(w, &["NRT", "HKG", "SIN", "JNB"], &areas);
    let r = find_continental_route(&cd, 0, 2, 1).unwrap().unwrap();
    assert_eq!(r, (30, vec![0, 1, 2]));
    assert_eq!(find_continental_route(&cd, 0, 3, 1), Err(ContinentError::DifferentContinents));
    assert_eq!(find_continental_route(&cd, 3, 3, 1), Err(ContinentError::UnsupportedArea));
    assert_eq!(find_continental_route(&cd, 2, 0, 1), Ok(None));
    let (asia, europe, na) = prepare_area_data(&cd);
    assert_eq!(asia, vec![0, 1, 2]);
    assert!(europe.is_empty() && na.is_empty());
}

#[test]
fn seed_leaving_lock_city_gives_no_path() {
    // 0 = HNL (lock city), 1 = ordinary; the seed already leaves the lock city
    let cd = cities_of(vec![vec![0, 5], vec![5, 0]], &["HNL", "SFO"], &[AreaCode::NorthAmerica, AreaCode::NorthAmerica]);
    let locks = cd.lock_flags();
    assert_eq!(locks, vec![true, false]);
    assert!(find_route_in_continent_hub_core(&cd, &locks, &vec![0, 1], 0, 1, 0, &vec![0, 1]).is_none());
    assert!(!check_rule(&locks, &vec![0, 1], 1, 0));
    // a fresh itinerary from the ordinary city may still reach the lock city
    assert_eq!(find_route_in_continent(&cd, &vec![0, 1], 0, 1, 0), Some((5, vec![1, 0])));
}

#[test]
fn well_formed_needs_zero_diagonal() {
    assert!(plain(vec![vec![0, 1], vec![1, 0]]).is_well_formed());
    assert!(!plain(vec![vec![0, 1], vec![1, 3]]).is_well_formed());
    assert!(!plain(vec![vec![0, 1], vec![1]]).is_well_formed());
}
