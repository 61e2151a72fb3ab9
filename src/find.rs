use vstd::prelude::*;
use crate::city::{AreaCode, CityData, continent_of, continent_members, prepare_area_data};
use crate::walk::{MAX_EDGE, edge, nodes_in_range, walk_weight, lemma_walk_prepend};

verus! {

/// Largest hop budget accepted by the constrained search.
pub const MAX_HOPS: usize = 0xFFFF;

/// The directed pair `a -> b` occurs consecutively in `h`.
pub open spec fn has_pair(h: Seq<usize>, a: usize, b: usize) -> bool {
    exists|k: int| 0 <= k && k + 1 < h.len() && #[trigger] h[k] == a && h[k + 1] == b
}

/// Some node of `h` is a lock city.
pub open spec fn has_lock(locks: Seq<bool>, h: Seq<usize>) -> bool {
    exists|k: int| 0 <= k < h.len() && locks[#[trigger] h[k] as int]
}

/// Moving from `cur` to `next` after the history `h` keeps the itinerary legal:
/// the step was not taken before, and after a lock city only lock cities follow,
/// both within the history and at `next`.
pub open spec fn legal(locks: Seq<bool>, h: Seq<usize>, cur: usize, next: usize) -> bool {
    &&& !has_pair(h, cur, next)
    &&& lock_closed(locks, h)
    &&& has_lock(locks, h) ==> locks[next as int]
}

/// No directed pair of consecutive nodes occurs twice in `r`.
pub open spec fn no_repeat_pair(r: Seq<usize>) -> bool {
    forall|i: int, j: int|
        0 <= i < j && j + 1 < r.len() ==> !(#[trigger] r[i] == #[trigger] r[j] && r[i + 1] == r[j + 1])
}

/// Once a lock city occurs in `r`, every later node of `r` is a lock city.
pub open spec fn lock_closed(locks: Seq<bool>, r: Seq<usize>) -> bool {
    forall|i: int, j: int| 0 <= i < j < r.len() && locks[#[trigger] r[i] as int] ==> locks[#[trigger] r[j] as int]
}

/// Best legal path from `from` to `to` through `num` intermediate candidates, after the
/// history `h`, as (value, nodes from `from` to `to`); `None` when no legal path exists.
pub open spec fn segment(
    t: Seq<Seq<u32>>,
    locks: Seq<bool>,
    c: Seq<usize>,
    num: nat,
    from: usize,
    to: usize,
    h: Seq<usize>,
) -> Option<(int, Seq<usize>)>
    decreases num, c.len() + 1,
{
    if num == 0 {
        if legal(locks, h, from, to) {
            Some((edge(t, from, to), seq![from, to]))
        } else {
            None
        }
    } else {
        segment_upto(t, locks, c, num, from, to, h, c.len())
    }
}

/// Best legal path whose first step goes to one of `c[0..j]`; a later candidate
/// replaces the current one only when strictly better.
pub open spec fn segment_upto(
    t: Seq<Seq<u32>>,
    locks: Seq<bool>,
    c: Seq<usize>,
    num: nat,
    from: usize,
    to: usize,
    h: Seq<usize>,
    j: nat,
) -> Option<(int, Seq<usize>)>
    decreases num, j,
{
    if num == 0 || j == 0 {
        None
    } else {
        let b = segment_upto(t, locks, c, num, from, to, h, (j - 1) as nat);
        let x = c[j - 1];
        if edge(t, from, x) > 0 && legal(locks, h, from, x) {
            match segment(t, locks, c, (num - 1) as nat, x, to, h.push(x)) {
                Some(sub) => {
                    let tot = edge(t, from, x) + sub.0;
                    match b {
                        Some(bb) => if tot > bb.0 {
                            Some((tot, seq![from] + sub.1))
                        } else {
                            b
                        },
                        None => Some((tot, seq![from] + sub.1)),
                    }
                },
                None => b,
            }
        } else {
            b
        }
    }
}

/// Plain values of a search result.
pub open spec fn opt_view(r: Option<(u64, Vec<usize>)>) -> Option<(int, Seq<usize>)> {
    match r {
        Some(p) => Some((p.0 as int, p.1@)),
        None => None,
    }
}

proof fn lemma_segment_upto_pick(
    t: Seq<Seq<u32>>,
    locks: Seq<bool>,
    c: Seq<usize>,
    num: nat,
    from: usize,
    to: usize,
    h: Seq<usize>,
    j: nat,
) -> (i: int)
    requires
        num > 0,
        segment_upto(t, locks, c, num, from, to, h, j) is Some,
    ensures
        0 <= i < j,
        edge(t, from, c[i]) > 0,
        legal(locks, h, from, c[i]),
        segment(t, locks, c, (num - 1) as nat, c[i], to, h.push(c[i])) is Some,
        segment_upto(t, locks, c, num, from, to, h, j) == Some((
            edge(t, from, c[i]) + segment(t, locks, c, (num - 1) as nat, c[i], to, h.push(c[i])).unwrap().0,
            seq![from] + segment(t, locks, c, (num - 1) as nat, c[i], to, h.push(c[i])).unwrap().1,
        )),
    decreases j,
{
    let b = segment_upto(t, locks, c, num, from, to, h, (j - 1) as nat);
    let x = c[j - 1];
    let r = segment_upto(t, locks, c, num, from, to, h, j);
    if b is Some && r == b {
        lemma_segment_upto_pick(t, locks, c, num, from, to, h, (j - 1) as nat)
    } else {
        j - 1
    }
}

/// A found path runs from `from` to `to` through `num` candidates, its value is what it
/// costs, it repeats no step of the history or of itself, and it keeps the lock rule:
/// after a lock city of the history, every city of the path is a lock city.
pub proof fn lemma_segment_valid(
    t: Seq<Seq<u32>>,
    locks: Seq<bool>,
    c: Seq<usize>,
    num: nat,
    from: usize,
    to: usize,
    h: Seq<usize>,
)
    requires
        h.len() > 0,
        h.last() == from,
        segment(t, locks, c, num, from, to, h) is Some,
    ensures
        ({
            let (tot, r) = segment(t, locks, c, num, from, to, h).unwrap();
            &&& r.len() == num + 2
            &&& r[0] == from
            &&& r.last() == to
            &&& forall|q: int| 0 < q < r.len() - 1 ==> c.contains(#[trigger] r[q])
            &&& tot == walk_weight(t, r)
            &&& forall|q: int| 0 <= q < r.len() - 1 ==> !has_pair(h, #[trigger] r[q], r[q + 1])
            &&& no_repeat_pair(r)
            &&& has_lock(locks, h) ==> forall|q: int| 0 <= q < r.len() ==> locks[#[trigger] r[q] as int]
            &&& lock_closed(locks, r)
        }),
    decreases num,
{
    let (tot, r) = segment(t, locks, c, num, from, to, h).unwrap();
    assert(lock_closed(locks, h) && has_lock(locks, h) ==> locks[from as int]) by {
        if lock_closed(locks, h) && has_lock(locks, h) {
            let k = choose|k: int| 0 <= k < h.len() && locks[#[trigger] h[k] as int];
            if k < h.len() - 1 {
                assert(locks[h[h.len() - 1] as int]);
            }
        }
    }
    if num == 0 {
        assert(r == seq![from, to]);
        assert(walk_weight(t, seq![from, to]) == edge(t, from, to)) by {
            assert(seq![from, to].drop_last() =~= seq![from]);
            assert(walk_weight(t, seq![from]) == 0);
            assert(seq![from, to][0] == from && seq![from, to][1] == to);
        }
        assert(locks[from as int] ==> has_lock(locks, h)) by {
            if locks[from as int] {
                assert(locks[h[h.len() - 1] as int]);
            }
        }
    } else {
        let i = lemma_segment_upto_pick(t, locks, c, num, from, to, h, c.len());
        let x = c[i];
        let h2 = h.push(x);
        let (d, rs) = segment(t, locks, c, (num - 1) as nat, x, to, h2).unwrap();
        lemma_segment_valid(t, locks, c, (num - 1) as nat, x, to, h2);
        assert(r == seq![from] + rs);
        assert forall|q: int| 0 < q < r.len() implies r[q] == rs[q - 1] by {}
        lemma_walk_prepend(t, from, rs);
        assert forall|q: int| 0 < q < r.len() - 1 implies c.contains(#[trigger] r[q]) by {
            if q == 1 {
                assert(c[i] == r[q]);
            } else {
                assert(r[q] == rs[q - 1]);
            }
        }
        // every pair of the history stays a pair of the longer history
        assert forall|a: usize, b: usize| has_pair(h, a, b) implies #[trigger] has_pair(h2, a, b) by {
            let k = choose|k: int| 0 <= k && k + 1 < h.len() && #[trigger] h[k] == a && h[k + 1] == b;
            assert(h2[k] == a && h2[k + 1] == b);
        }
        assert(has_pair(h2, from, x)) by {
            assert(h2[h.len() - 1] == from && h2[h.len() as int] == x);
        }
        assert forall|q: int| 0 <= q < r.len() - 1 implies !has_pair(h, #[trigger] r[q], r[q + 1]) by {
            if q > 0 {
                assert(r[q] == rs[q - 1] && r[q + 1] == rs[q]);
                assert(!has_pair(h2, rs[q - 1], rs[q]));
            }
        }
        assert forall|a: int, b: int| 0 <= a < b && b + 1 < r.len()
            implies !(#[trigger] r[a] == #[trigger] r[b] && r[a + 1] == r[b + 1]) by {
            assert(r[b] == rs[b - 1] && r[b + 1] == rs[b]);
            if a == 0 {
                assert(!has_pair(h2, rs[b - 1], rs[b]));
            } else {
                assert(r[a] == rs[a - 1] && r[a + 1] == rs[a]);
            }
        }
        assert(has_lock(locks, h) ==> has_lock(locks, h2)) by {
            if has_lock(locks, h) {
                let k = choose|k: int| 0 <= k < h.len() && locks[#[trigger] h[k] as int];
                assert(h2[k] == h[k]);
            }
        }
        assert(locks[from as int] ==> has_lock(locks, h)) by {
            if locks[from as int] {
                assert(locks[h[h.len() - 1] as int]);
            }
        }
        assert(has_lock(locks, h) ==> forall|q: int| 0 <= q < r.len() ==> locks[#[trigger] r[q] as int]) by {
            if has_lock(locks, h) {
                assert(locks[x as int]);
                assert(has_lock(locks, h2));
                assert forall|q: int| 0 <= q < r.len() implies locks[#[trigger] r[q] as int] by {
                    if q > 0 {
                        assert(r[q] == rs[q - 1]);
                        if q == 1 {
                            assert(rs[0] == x);
                        }
                    }
                }
            }
        }
        assert forall|a: int, b: int| 0 <= a < b < r.len() && locks[#[trigger] r[a] as int]
            implies locks[#[trigger] r[b] as int] by {
            assert(r[b] == rs[b - 1]);
            if a > 0 {
                assert(r[a] == rs[a - 1]);
            }
        }
    }
}

/// A path from `from` to `to` through `num` intermediate candidates that the search may
/// take after the history `h`: each step into a candidate has positive value, and each
/// step is legal after the history extended by the path so far.
pub open spec fn is_legal_path(
    t: Seq<Seq<u32>>,
    locks: Seq<bool>,
    c: Seq<usize>,
    num: nat,
    from: usize,
    to: usize,
    h: Seq<usize>,
    r: Seq<usize>,
) -> bool {
    &&& r.len() == num + 2
    &&& r[0] == from
    &&& r.last() == to
    &&& forall|q: int| 0 < q < r.len() - 1 ==> c.contains(#[trigger] r[q])
    &&& forall|q: int| 0 <= q < r.len() - 2 ==> edge(t, #[trigger] r[q], r[q + 1]) > 0
    &&& forall|q: int| 0 <= q < r.len() - 1 ==> legal(locks, h + r.subrange(1, q + 1), #[trigger] r[q], r[q + 1])
}

proof fn lemma_unclosed_upto(
    t: Seq<Seq<u32>>,
    locks: Seq<bool>,
    c: Seq<usize>,
    num: nat,
    from: usize,
    to: usize,
    h: Seq<usize>,
    j: nat,
)
    requires
        !lock_closed(locks, h),
    ensures
        segment_upto(t, locks, c, num, from, to, h, j) is None,
    decreases j,
{
    if j > 0 {
        lemma_unclosed_upto(t, locks, c, num, from, to, h, (j - 1) as nat);
    }
}

/// A history that already leaves a lock city for another city admits no path.
pub proof fn lemma_unclosed_history_fails(
    t: Seq<Seq<u32>>,
    locks: Seq<bool>,
    c: Seq<usize>,
    num: nat,
    from: usize,
    to: usize,
    h: Seq<usize>,
)
    requires
        !lock_closed(locks, h),
    ensures
        segment(t, locks, c, num, from, to, h) is None,
{
    if num > 0 {
        lemma_unclosed_upto(t, locks, c, num, from, to, h, c.len());
    }
}

/// A found path is a legal path.
pub proof fn lemma_segment_legal(
    t: Seq<Seq<u32>>,
    locks: Seq<bool>,
    c: Seq<usize>,
    num: nat,
    from: usize,
    to: usize,
    h: Seq<usize>,
)
    requires
        segment(t, locks, c, num, from, to, h) is Some,
    ensures
        is_legal_path(t, locks, c, num, from, to, h, segment(t, locks, c, num, from, to, h).unwrap().1),
    decreases num,
{
    let r = segment(t, locks, c, num, from, to, h).unwrap().1;
    if num == 0 {
        assert(h + r.subrange(1, 1) =~= h);
        assert(r[1] == to);
    } else {
        let i = lemma_segment_upto_pick(t, locks, c, num, from, to, h, c.len());
        let x = c[i];
        let h2 = h.push(x);
        let rs = segment(t, locks, c, (num - 1) as nat, x, to, h2).unwrap().1;
        lemma_segment_legal(t, locks, c, (num - 1) as nat, x, to, h2);
        assert(r == seq![from] + rs);
        assert forall|q: int| 0 < q < r.len() implies r[q] == rs[q - 1] by {}
        assert forall|q: int| 0 < q < r.len() - 1 implies c.contains(#[trigger] r[q]) by {
            if q == 1 {
                assert(c[i] == r[q]);
            } else {
                assert(c.contains(rs[q - 1]));
            }
        }
        assert forall|q: int| 0 <= q < r.len() - 2 implies edge(t, #[trigger] r[q], r[q + 1]) > 0 by {
            if q > 0 {
                assert(edge(t, rs[q - 1], rs[q]) > 0);
            }
        }
        assert forall|q: int| 0 <= q < r.len() - 1
            implies legal(locks, h + r.subrange(1, q + 1), #[trigger] r[q], r[q + 1]) by {
            if q == 0 {
                assert(h + r.subrange(1, 1) =~= h);
            } else {
                assert(h + r.subrange(1, q + 1) =~= h2 + rs.subrange(1, q));
                assert(legal(locks, h2 + rs.subrange(1, (q - 1) + 1), rs[q - 1], rs[q]));
            }
        }
    }
}

proof fn lemma_segment_upto_ge(
    t: Seq<Seq<u32>>,
    locks: Seq<bool>,
    c: Seq<usize>,
    num: nat,
    from: usize,
    to: usize,
    h: Seq<usize>,
    j: nat,
    i: int,
)
    requires
        num > 0,
        0 <= i < j,
        edge(t, from, c[i]) > 0,
        legal(locks, h, from, c[i]),
        segment(t, locks, c, (num - 1) as nat, c[i], to, h.push(c[i])) is Some,
    ensures
        segment_upto(t, locks, c, num, from, to, h, j) is Some,
        segment_upto(t, locks, c, num, from, to, h, j).unwrap().0 >= edge(t, from, c[i])
            + segment(t, locks, c, (num - 1) as nat, c[i], to, h.push(c[i])).unwrap().0,
    decreases j,
{
    if i < j - 1 {
        lemma_segment_upto_ge(t, locks, c, num, from, to, h, (j - 1) as nat, i);
    }
}

/// Every legal path is found: the search succeeds and returns a path of no less value.
pub proof fn lemma_segment_max(
    t: Seq<Seq<u32>>,
    locks: Seq<bool>,
    c: Seq<usize>,
    num: nat,
    from: usize,
    to: usize,
    h: Seq<usize>,
    p: Seq<usize>,
)
    requires
        is_legal_path(t, locks, c, num, from, to, h, p),
    ensures
        segment(t, locks, c, num, from, to, h) is Some,
        walk_weight(t, p) <= segment(t, locks, c, num, from, to, h).unwrap().0,
    decreases num,
{
    assert(h + p.subrange(1, 1) =~= h);
    assert(legal(locks, h + p.subrange(1, 1int), p[0], p[1]));
    if num == 0 {
        assert(p =~= seq![from, to]);
        assert(seq![from, to].drop_last() =~= seq![from]);
        assert(walk_weight(t, seq![from]) == 0);
    } else {
        let x = p[1];
        let h2 = h.push(x);
        let ps = p.drop_first();
        assert(c.contains(p[1]));
        assert(edge(t, p[0], p[1]) > 0);
        let i = choose|i: int| 0 <= i < c.len() && c[i] == x;
        assert forall|q: int| 0 < q < ps.len() - 1 implies c.contains(#[trigger] ps[q]) by {
            assert(ps[q] == p[q + 1]);
        }
        assert forall|q: int| 0 <= q < ps.len() - 2 implies edge(t, #[trigger] ps[q], ps[q + 1]) > 0 by {
            assert(ps[q] == p[q + 1] && ps[q + 1] == p[q + 2]);
        }
        assert forall|q: int| 0 <= q < ps.len() - 1
            implies legal(locks, h2 + ps.subrange(1, q + 1), #[trigger] ps[q], ps[q + 1]) by {
            assert(ps[q] == p[q + 1] && ps[q + 1] == p[q + 2]);
            assert(h2 + ps.subrange(1, q + 1) =~= h + p.subrange(1, (q + 1) + 1));
        }
        assert(ps.last() == p.last());
        lemma_segment_max(t, locks, c, (num - 1) as nat, x, to, h2, ps);
        assert(p =~= seq![from] + ps);
        lemma_walk_prepend(t, from, ps);
        lemma_segment_upto_ge(t, locks, c, num, from, to, h, c.len(), i);
    }
}

/// Whether the step `current -> next` is legal after `history`.
pub fn check_rule(locks: &Vec<bool>, history: &Vec<usize>, current: usize, next: usize) -> (r: bool)
    requires
        forall|k: int| 0 <= k < history@.len() ==> (#[trigger] history@[k]) < locks@.len(),
        next < locks@.len(),
    ensures
        r == legal(locks@, history@, current, next),
{
    let mut locked = false;
    let mut i: usize = 0;
    while i < history.len()
        invariant
            forall|k: int| 0 <= k < history@.len() ==> (#[trigger] history@[k]) < locks@.len(),
            i <= history@.len(),
            forall|k: int| 0 <= k < i && k + 1 < history@.len()
                ==> !(#[trigger] history@[k] == current && history@[k + 1] == next),
            locked == exists|k: int| 0 <= k < i && locks@[#[trigger] history@[k] as int],
            forall|a: int, b: int| 0 <= a < b < i && locks@[#[trigger] history@[a] as int]
                ==> locks@[#[trigger] history@[b] as int],
        decreases history@.len() - i,
    {
        if i + 1 < history.len() && history[i] == current && history[i + 1] == next {
            assert(has_pair(history@, current, next));
            return false;
        }
        if locks[history[i]] {
            locked = true;
        } else if locked {
            assert(!lock_closed(locks@, history@));
            return false;
        }
        i += 1;
    }
    if locked && !locks[next] {
        return false;
    }
    true
}

fn extend_history(history: &Vec<usize>, x: usize) -> (r: Vec<usize>)
    ensures
        r@ == history@.push(x),
{
    let mut h: Vec<usize> = Vec::new();
    let mut i: usize = 0;
    while i < history.len()
        invariant
            i <= history@.len(),
            h@ == history@.subrange(0, i as int),
        decreases history@.len() - i,
    {
        h.push(history[i]);
        i += 1;
        assert(h@ =~= history@.subrange(0, i as int));
    }
    h.push(x);
    assert(h@ =~= history@.push(x));
    h
}

/// Backtracking search for the best legal path from `from` to `to` through exactly `num`
/// intermediate cities of `cities`, continuing the itinerary `hist` (which ends at `from`).
/// The path is returned from `from` to `to`, with its value. A history that already leaves
/// a lock city for another city admits no path.
pub fn find_route_in_continent_hub_core(
    city_data: &CityData,
    locks: &Vec<bool>,
    cities: &Vec<usize>,
    num: usize,
    from: usize,
    to: usize,
    hist: &Vec<usize>,
) -> (r: Option<(u64, Vec<usize>)>)
    requires
        city_data.wf(),
        locks@ == city_data.locks(),
        nodes_in_range(city_data@, cities@),
        nodes_in_range(city_data@, hist@),
        from < city_data@.len(),
        to < city_data@.len(),
        num <= MAX_HOPS,
    ensures
        opt_view(r) == segment(city_data@, locks@, cities@, num as nat, from, to, hist@),
        r matches Some(p) ==> p.0 <= (num + 1) * MAX_EDGE,
        !lock_closed(locks@, hist@) ==> r is None,
    decreases num,
{
    let ghost t = city_data@;
    let ghost lk = locks@;
    proof {
        if !lock_closed(lk, hist@) {
            lemma_unclosed_history_fails(t, lk, cities@, num as nat, from, to, hist@);
        }
    }
    if num == 0 {
        if check_rule(locks, hist, from, to) {
            let d = city_data.weight(from, to);
            let mut route: Vec<usize> = Vec::new();
            route.push(from);
            route.push(to);
            assert(route@ =~= seq![from, to]);
            return Some((d as u64, route));
        } else {
            return None;
        }
    }
    let mut found = false;
    let mut max_distance: u64 = 0;
    let mut max_route: Vec<usize> = Vec::new();
    let mut i: usize = 0;
    while i < cities.len()
        invariant
            city_data.wf(),
            t == city_data@,
            lk == locks@,
            locks@ == city_data.locks(),
            nodes_in_range(t, cities@),
            nodes_in_range(t, hist@),
            from < t.len(),
            to < t.len(),
            0 < num <= MAX_HOPS,
            i <= cities@.len(),
            found ==> segment_upto(t, lk, cities@, num as nat, from, to, hist@, i as nat)
                == Some((max_distance as int, max_route@)),
            !found ==> segment_upto(t, lk, cities@, num as nat, from, to, hist@, i as nat) is None,
            max_distance <= (num + 1) * MAX_EDGE,
        decreases cities@.len() - i,
    {
        let x = cities[i];
        assert(x < t.len());
        let w = city_data.weight(from, x);
        if w > 0 && check_rule(locks, hist, from, x) {
            let h2 = extend_history(hist, x);
            assert(nodes_in_range(t, h2@)) by {
                assert forall|k: int| 0 <= k < h2@.len() implies (#[trigger] h2@[k]) < t.len() by {
                    if k < hist@.len() {
                        assert(h2@[k] == hist@[k]);
                    }
                }
            }
            let sub = find_route_in_continent_hub_core(city_data, locks, cities, num - 1, x, to, &h2);
            match sub {
                Some((d, route)) => {
                    assert((num - 1 + 1) * MAX_EDGE + MAX_EDGE == (num + 1) * MAX_EDGE) by (nonlinear_arith);
                    let total = w as u64 + d;
                    if !found || total > max_distance {
                        found = true;
                        max_distance = total;
                        let mut r2: Vec<usize> = Vec::new();
                        r2.push(from);
                        let mut rest = route;
                        r2.append(&mut rest);
                        max_route = r2;
                    }
                },
                None => {},
            }
        }
        i += 1;
    }
    if found {
        Some((max_distance, max_route))
    } else {
        None
    }
}

/// Best legal path from `from` to `to` through exactly `num` intermediate cities of `cities`,
/// starting a fresh itinerary at `from`. The path is returned from `from` to `to`.
pub fn find_route_in_continent(city_data: &CityData, cities: &Vec<usize>, num: usize, from: usize, to: usize) -> (r: Option<(u64, Vec<usize>)>)
    requires
        city_data.wf(),
        nodes_in_range(city_data@, cities@),
        from < city_data@.len(),
        to < city_data@.len(),
        num <= MAX_HOPS,
    ensures
        opt_view(r) == segment(city_data@, city_data.locks(), cities@, num as nat, from, to, seq![from]),
        r matches Some(p) ==> {
            &&& p.1@.len() == num + 2
            &&& p.1@[0] == from
            &&& p.1@.last() == to
            &&& forall|q: int| 0 < q < p.1@.len() - 1 ==> cities@.contains(#[trigger] p.1@[q])
            &&& p.0 == walk_weight(city_data@, p.1@)
            &&& no_repeat_pair(p.1@)
            &&& lock_closed(city_data.locks(), p.1@)
            &&& is_legal_path(city_data@, city_data.locks(), cities@, num as nat, from, to, seq![from], p.1@)
            &&& forall|q: Seq<usize>| #[trigger] is_legal_path(city_data@, city_data.locks(), cities@, num as nat, from, to,
                seq![from], q) ==> walk_weight(city_data@, q) <= p.0
        },
        r is None <==> !exists|q: Seq<usize>| #[trigger] is_legal_path(city_data@, city_data.locks(), cities@, num as nat,
            from, to, seq![from], q),
{
    let locks = city_data.lock_flags();
    let mut hist: Vec<usize> = Vec::new();
    hist.push(from);
    assert(hist@ =~= seq![from]);
    let r = find_route_in_continent_hub_core(city_data, &locks, cities, num, from, to, &hist);
    proof {
        let t = city_data@;
        if r is Some {
            lemma_segment_valid(t, locks@, cities@, num as nat, from, to, hist@);
            lemma_segment_legal(t, locks@, cities@, num as nat, from, to, hist@);
        }
        assert forall|q: Seq<usize>| #[trigger] is_legal_path(t, locks@, cities@, num as nat, from, to, hist@, q)
            implies r is Some && walk_weight(t, q) <= r.unwrap().0 by {
            lemma_segment_max(t, locks@, cities@, num as nat, from, to, hist@, q);
        }
    }
    r
}

/// Largest number of partitions accepted by the stitcher.
pub const MAX_PARTS: usize = 0xFFFF;

/// Why a stitched search gave no route.
#[derive(Clone, Copy, PartialEq, Eq, Structural, Debug)]
pub enum SearchError {
    /// No hop distribution gave a legal path in every partition.
    NoLegalPath,
    /// The entry city of some partition is not one of its own candidates.
    InconsistentBoundary,
}

/// Plain values of a list of candidate lists.
pub open spec fn sets_view(v: Seq<Vec<usize>>) -> Seq<Seq<usize>> {
    Seq::new(v.len(), |i: int| v[i]@)
}

/// Appends a segment; where it starts at the city the route stands on, that city is not repeated.
pub open spec fn join(acc: Seq<usize>, r: Seq<usize>) -> Seq<usize> {
    if acc.len() > 0 && r.len() > 0 && acc.last() == r[0] {
        acc + r.drop_first()
    } else {
        acc + r
    }
}

/// Search of partition `p` between its boundary cities `b[2p]` and `b[2p + 1]` with hop budget `hops[p]`.
pub open spec fn part_segment(
    t: Seq<Seq<u32>>,
    locks: Seq<bool>,
    sets: Seq<Seq<usize>>,
    b: Seq<usize>,
    hops: Seq<usize>,
    p: int,
) -> Option<(int, Seq<usize>)> {
    segment(t, locks, sets[p], hops[p] as nat, b[2 * p], b[2 * p + 1], seq![b[2 * p]])
}

/// The segments of the first `i` partitions joined in order; `None` when one has no legal path.
pub open spec fn stitched(
    t: Seq<Seq<u32>>,
    locks: Seq<bool>,
    sets: Seq<Seq<usize>>,
    b: Seq<usize>,
    hops: Seq<usize>,
    i: nat,
) -> Option<Seq<usize>>
    decreases i,
{
    if i == 0 {
        Some(Seq::empty())
    } else {
        match stitched(t, locks, sets, b, hops, (i - 1) as nat) {
            Some(acc) => match part_segment(t, locks, sets, b, hops, i - 1) {
                Some(seg) => Some(join(acc, seg.1)),
                None => None,
            },
            None => None,
        }
    }
}

/// The stitched route over all partitions for one hop distribution, with its value.
pub open spec fn stitched_route(
    t: Seq<Seq<u32>>,
    locks: Seq<bool>,
    sets: Seq<Seq<usize>>,
    b: Seq<usize>,
    hops: Seq<usize>,
) -> Option<(int, Seq<usize>)> {
    match stitched(t, locks, sets, b, hops, sets.len()) {
        Some(r) => Some((walk_weight(t, r), r)),
        None => None,
    }
}

/// The best stitched route over the distributions `d[0..j]`; a later distribution
/// replaces the current one only when strictly better.
pub open spec fn best_distribution(
    t: Seq<Seq<u32>>,
    locks: Seq<bool>,
    sets: Seq<Seq<usize>>,
    b: Seq<usize>,
    d: Seq<Seq<usize>>,
    j: nat,
) -> Option<(int, Seq<usize>)>
    decreases j,
{
    if j == 0 {
        None
    } else {
        let prev = best_distribution(t, locks, sets, b, d, (j - 1) as nat);
        match stitched_route(t, locks, sets, b, d[j - 1]) {
            Some(o) => match prev {
                Some(pb) => if o.0 > pb.0 {
                    Some(o)
                } else {
                    prev
                },
                None => Some(o),
            },
            None => prev,
        }
    }
}

/// The value of the chosen stitched route is what its walk costs.
pub proof fn lemma_best_distribution_weight(
    t: Seq<Seq<u32>>,
    locks: Seq<bool>,
    sets: Seq<Seq<usize>>,
    b: Seq<usize>,
    d: Seq<Seq<usize>>,
    j: nat,
)
    ensures
        best_distribution(t, locks, sets, b, d, j) matches Some(p) ==> p.0 == walk_weight(t, p.1),
    decreases j,
{
    if j > 0 {
        lemma_best_distribution_weight(t, locks, sets, b, d, (j - 1) as nat);
    }
}

/// Some partition's entry city is not among its candidates.
pub open spec fn boundary_inconsistent(sets: Seq<Seq<usize>>, b: Seq<usize>) -> bool {
    exists|p: int| 0 <= p < sets.len() && !(#[trigger] sets[p]).contains(b[2 * p])
}

/// Requirements on a stitched search: cities in range, two boundary cities per partition.
pub open spec fn stitch_args_ok(t: Seq<Seq<u32>>, sets: Seq<Seq<usize>>, b: Seq<usize>) -> bool {
    &&& sets.len() <= MAX_PARTS
    &&& b.len() == 2 * sets.len()
    &&& nodes_in_range(t, b)
    &&& forall|p: int| 0 <= p < sets.len() ==> nodes_in_range(t, #[trigger] sets[p])
}

/// A hop distribution gives one budget, at most `MAX_HOPS`, to each partition.
pub open spec fn hops_ok(hops: Seq<usize>, parts: nat) -> bool {
    &&& hops.len() == parts
    &&& forall|p: int| 0 <= p < hops.len() ==> #[trigger] hops[p] <= MAX_HOPS
}

proof fn lemma_stitched_none(
    t: Seq<Seq<u32>>,
    locks: Seq<bool>,
    sets: Seq<Seq<usize>>,
    b: Seq<usize>,
    hops: Seq<usize>,
    i: nat,
    j: nat,
)
    requires
        i <= j,
        stitched(t, locks, sets, b, hops, i) is None,
    ensures
        stitched(t, locks, sets, b, hops, j) is None,
    decreases j - i,
{
    if i < j {
        lemma_stitched_none(t, locks, sets, b, hops, i, (j - 1) as nat);
    }
}

/// Value of a walk, summed edge by edge.
fn walk_total(city_data: &CityData, route: &Vec<usize>) -> (r: u64)
    requires
        city_data.wf(),
        nodes_in_range(city_data@, route@),
        route@.len() <= 0xFFFF_FFFF,
    ensures
        r == walk_weight(city_data@, route@),
{
    let n = route.len();
    if n < 2 {
        return 0;
    }
    let mut total: u64 = 0;
    let mut k: usize = 1;
    while k < n
        invariant
            city_data.wf(),
            nodes_in_range(city_data@, route@),
            n == route@.len(),
            n <= 0xFFFF_FFFF,
            1 <= k <= n,
            total == walk_weight(city_data@, route@.subrange(0, k as int)),
            total <= (k - 1) * MAX_EDGE,
        decreases n - k,
    {
        let w = city_data.weight(route[k - 1], route[k]);
        proof {
            let pre = route@.subrange(0, k as int);
            assert(route@.subrange(0, k + 1) =~= pre.push(route@[k as int]));
            crate::walk::lemma_walk_push(city_data@, pre, route@[k as int]);
            assert((k - 1) * MAX_EDGE + MAX_EDGE == k * MAX_EDGE) by (nonlinear_arith);
            assert(k * MAX_EDGE <= 0xFFFF_FFFF * MAX_EDGE) by (nonlinear_arith)
                requires k <= 0xFFFF_FFFF;
        }
        total = total + w as u64;
        k += 1;
    }
    assert(route@.subrange(0, n as int) =~= route@);
    total
}

/// Runs the constrained search in every partition with the hop budgets `limits` and joins
/// the segments in order. `None` when some partition has no legal path.
pub fn find_route_continents(
    city_data: &CityData,
    area_sets: &Vec<Vec<usize>>,
    boundaries: &Vec<usize>,
    limits: &Vec<usize>,
) -> (r: Option<(u64, Vec<usize>)>)
    requires
        city_data.wf(),
        stitch_args_ok(city_data@, sets_view(area_sets@), boundaries@),
        hops_ok(limits@, area_sets@.len()),
    ensures
        opt_view(r) == stitched_route(city_data@, city_data.locks(), sets_view(area_sets@), boundaries@, limits@),
{
    let ghost t = city_data@;
    let ghost lk = city_data.locks();
    let ghost sets = sets_view(area_sets@);
    let mut final_route: Vec<usize> = Vec::new();
    let mut i: usize = 0;
    while i < area_sets.len()
        invariant
            city_data.wf(),
            t == city_data@,
            lk == city_data.locks(),
            sets == sets_view(area_sets@),
            stitch_args_ok(t, sets, boundaries@),
            hops_ok(limits@, area_sets@.len()),
            i <= area_sets@.len(),
            stitched(t, lk, sets, boundaries@, limits@, i as nat) == Some(final_route@),
            final_route@.len() <= i * (MAX_HOPS + 2),
            nodes_in_range(t, final_route@),
        decreases area_sets@.len() - i,
    {
        assert(sets[i as int] == area_sets@[i as int]@);
        assert(nodes_in_range(t, sets[i as int]));
        let from = boundaries[2 * i];
        let to = boundaries[2 * i + 1];
        let result = find_route_in_continent(city_data, &area_sets[i], limits[i], from, to);
        match result {
            Some((_, seg)) => {
                let ghost acc = final_route@;
                let skip: usize = if final_route.len() > 0 && final_route[final_route.len() - 1] == seg[0] {
                    1
                } else {
                    0
                };
                let mut q: usize = skip;
                while q < seg.len()
                    invariant
                        skip <= q <= seg@.len(),
                        final_route@ == acc + seg@.subrange(skip as int, q as int),
                    decreases seg@.len() - q,
                {
                    final_route.push(seg[q]);
                    q += 1;
                    assert(final_route@ =~= acc + seg@.subrange(skip as int, q as int));
                }
                proof {
                    if skip == 1 {
                        assert(seg@.subrange(1, seg@.len() as int) =~= seg@.drop_first());
                    } else {
                        assert(seg@.subrange(0, seg@.len() as int) =~= seg@);
                    }
                    assert(final_route@ == join(acc, seg@));
                    assert(i * (MAX_HOPS + 2) + (MAX_HOPS + 2) == (i + 1) * (MAX_HOPS + 2)) by (nonlinear_arith);
                    assert forall|k: int| 0 <= k < final_route@.len() implies (#[trigger] final_route@[k]) < t.len() by {
                        if k >= acc.len() {
                            let m = k - acc.len() + skip;
                            assert(final_route@[k] == seg@[m]);
                            if 0 < m < seg@.len() - 1 {
                                assert(sets[i as int].contains(seg@[m]));
                                let w = choose|w: int| 0 <= w < sets[i as int].len() && sets[i as int][w] == seg@[m];
                                assert(sets[i as int][w] < t.len());
                            }
                        }
                    }
                }
            },
            None => {
                proof {
                    lemma_stitched_none(t, lk, sets, boundaries@, limits@, (i + 1) as nat, sets.len());
                }
                return None;
            },
        }
        i += 1;
    }
    assert(area_sets@.len() * (MAX_HOPS + 2) <= MAX_PARTS * (MAX_HOPS + 2)) by (nonlinear_arith)
        requires area_sets@.len() <= MAX_PARTS;
    let distance = walk_total(city_data, &final_route);
    Some((distance, final_route))
}

fn contains_city(v: &Vec<usize>, x: usize) -> (r: bool)
    ensures
        r == v@.contains(x),
{
    let mut i: usize = 0;
    while i < v.len()
        invariant
            i <= v@.len(),
            forall|k: int| 0 <= k < i ==> v@[k] != x,
        decreases v@.len() - i,
    {
        if v[i] == x {
            assert(v@[i as int] == x);
            return true;
        }
        i += 1;
    }
    false
}

/// Stitched search over all partitions, trying each hop distribution of `distributions`
/// and keeping the first one of highest value. Rejects a configuration where some
/// partition's entry city is not one of its candidates before searching.
pub fn find_route(
    city_data: &CityData,
    area_sets: &Vec<Vec<usize>>,
    boundaries: &Vec<usize>,
    distributions: &Vec<Vec<usize>>,
) -> (r: Result<(u64, Vec<usize>), SearchError>)
    requires
        city_data.wf(),
        stitch_args_ok(city_data@, sets_view(area_sets@), boundaries@),
        forall|j: int| 0 <= j < distributions@.len() ==> hops_ok(#[trigger] distributions@[j]@, area_sets@.len()),
    ensures
        r == Err::<(u64, Vec<usize>), SearchError>(SearchError::InconsistentBoundary)
            <==> boundary_inconsistent(sets_view(area_sets@), boundaries@),
        r == Err::<(u64, Vec<usize>), SearchError>(SearchError::NoLegalPath) <==> (
            !boundary_inconsistent(sets_view(area_sets@), boundaries@)
            && best_distribution(city_data@, city_data.locks(), sets_view(area_sets@), boundaries@,
                sets_view(distributions@), distributions@.len() as nat) is None),
        r matches Ok(p) ==> Some((p.0 as int, p.1@)) == best_distribution(city_data@, city_data.locks(),
            sets_view(area_sets@), boundaries@, sets_view(distributions@), distributions@.len() as nat),
        r matches Ok(p) ==> p.0 == walk_weight(city_data@, p.1@),
{
    let ghost t = city_data@;
    let ghost lk = city_data.locks();
    let ghost sets = sets_view(area_sets@);
    let ghost ds = sets_view(distributions@);
    let mut p: usize = 0;
    while p < area_sets.len()
        invariant
            sets == sets_view(area_sets@),
            stitch_args_ok(t, sets, boundaries@),
            p <= area_sets@.len(),
            forall|q: int| 0 <= q < p ==> (#[trigger] sets[q]).contains(boundaries@[2 * q]),
        decreases area_sets@.len() - p,
    {
        assert(sets[p as int] == area_sets@[p as int]@);
        if !contains_city(&area_sets[p], boundaries[2 * p]) {
            return Err(SearchError::InconsistentBoundary);
        }
        p += 1;
    }
    let mut found = false;
    let mut max_distance: u64 = 0;
    let mut longest_route: Vec<usize> = Vec::new();
    let mut j: usize = 0;
    while j < distributions.len()
        invariant
            city_data.wf(),
            t == city_data@,
            lk == city_data.locks(),
            sets == sets_view(area_sets@),
            ds == sets_view(distributions@),
            stitch_args_ok(t, sets, boundaries@),
            forall|q: int| 0 <= q < distributions@.len() ==> hops_ok(#[trigger] distributions@[q]@, area_sets@.len()),
            j <= distributions@.len(),
            found ==> best_distribution(t, lk, sets, boundaries@, ds, j as nat) == Some((max_distance as int, longest_route@)),
            !found ==> best_distribution(t, lk, sets, boundaries@, ds, j as nat) is None,
        decreases distributions@.len() - j,
    {
        assert(ds[j as int] == distributions@[j as int]@);
        assert(hops_ok(distributions@[j as int]@, area_sets@.len()));
        let r = find_route_continents(city_data, area_sets, boundaries, &distributions[j]);
        match r {
            Some((d, route)) => {
                if !found || d > max_distance {
                    found = true;
                    max_distance = d;
                    longest_route = route;
                }
            },
            None => {},
        }
        j += 1;
    }
    assert(ds.len() == distributions@.len());
    proof {
        lemma_best_distribution_weight(t, lk, sets, boundaries@, ds, ds.len());
    }
    if found {
        Ok((max_distance, longest_route))
    } else {
        Err(SearchError::NoLegalPath)
    }
}

/// Some city of `to` can be reached from `i` by a direct flight.
pub open spec fn reaches_any(t: Seq<Seq<u32>>, i: usize, to: Seq<usize>) -> bool {
    exists|k: int| 0 <= k < to.len() && edge(t, i, #[trigger] to[k]) > 0
}

/// The cities of `from[0..n]` with a direct flight into `to`, in order.
pub open spec fn boundary_of(t: Seq<Seq<u32>>, from: Seq<usize>, to: Seq<usize>, n: nat) -> Seq<usize>
    decreases n,
{
    if n == 0 {
        Seq::empty()
    } else {
        let prev = boundary_of(t, from, to, (n - 1) as nat);
        if reaches_any(t, from[n - 1], to) {
            prev.push(from[n - 1])
        } else {
            prev
        }
    }
}

/// The cities of `set_from` that have a direct flight into `set_to`, in the order of `set_from`.
pub fn find_boundary(city_data: &CityData, set_from: &Vec<usize>, set_to: &Vec<usize>) -> (r: Vec<usize>)
    requires
        city_data.wf(),
        nodes_in_range(city_data@, set_from@),
        nodes_in_range(city_data@, set_to@),
    ensures
        r@ == boundary_of(city_data@, set_from@, set_to@, set_from@.len()),
{
    let ghost t = city_data@;
    let mut boundary_set: Vec<usize> = Vec::new();
    let mut a: usize = 0;
    while a < set_from.len()
        invariant
            city_data.wf(),
            t == city_data@,
            nodes_in_range(t, set_from@),
            nodes_in_range(t, set_to@),
            a <= set_from@.len(),
            boundary_set@ == boundary_of(t, set_from@, set_to@, a as nat),
        decreases set_from@.len() - a,
    {
        let i = set_from[a];
        assert(i < t.len());
        let mut found = false;
        let mut b: usize = 0;
        while b < set_to.len()
            invariant
                city_data.wf(),
                t == city_data@,
                nodes_in_range(t, set_to@),
                i < t.len(),
                b <= set_to@.len(),
                found == exists|k: int| 0 <= k < b && edge(t, i, #[trigger] set_to@[k]) > 0,
            decreases set_to@.len() - b,
        {
            assert(set_to@[b as int] < t.len());
            if city_data.weight(i, set_to[b]) > 0 {
                found = true;
            }
            b += 1;
        }
        if found {
            boundary_set.push(i);
        }
        a += 1;
    }
    boundary_set
}

/// The flights from `from[a]` into `to[0..b]` that exist, as (value, origin, destination), in order.
pub open spec fn flights_from(t: Seq<Seq<u32>>, i: usize, to: Seq<usize>, b: nat) -> Seq<(u32, usize, usize)>
    decreases b,
{
    if b == 0 {
        Seq::empty()
    } else {
        let prev = flights_from(t, i, to, (b - 1) as nat);
        let j = to[b - 1];
        if edge(t, i, j) > 0 {
            prev.push((t[i as int][j as int], i, j))
        } else {
            prev
        }
    }
}

/// The flights from `from[0..a]` into `to` that exist, origin by origin.
pub open spec fn flights_between(t: Seq<Seq<u32>>, from: Seq<usize>, to: Seq<usize>, a: nat) -> Seq<(u32, usize, usize)>
    decreases a,
{
    if a == 0 {
        Seq::empty()
    } else {
        flights_between(t, from, to, (a - 1) as nat) + flights_from(t, from[a - 1], to, to.len())
    }
}

/// Inserts `x` into the list `s`, which is ordered by value, after every entry of no greater value.
pub open spec fn insert_by_value(s: Seq<(u32, usize, usize)>, x: (u32, usize, usize)) -> Seq<(u32, usize, usize)>
    decreases s.len(),
{
    if s.len() == 0 {
        seq![x]
    } else if s.last().0 > x.0 {
        insert_by_value(s.drop_last(), x).push(s.last())
    } else {
        s.push(x)
    }
}

/// Stable ordering of `s[0..n]` by ascending value.
pub open spec fn sorted_by_value(s: Seq<(u32, usize, usize)>, n: nat) -> Seq<(u32, usize, usize)>
    decreases n,
{
    if n == 0 {
        Seq::empty()
    } else {
        insert_by_value(sorted_by_value(s, (n - 1) as nat), s[n - 1])
    }
}

proof fn lemma_insert_step(s: Seq<(u32, usize, usize)>, x: (u32, usize, usize), p: int)
    requires
        0 < p <= s.len(),
        s[p - 1].0 > x.0,
    ensures
        insert_by_value(s.take(p), x) + s.skip(p) == insert_by_value(s.take(p - 1), x) + s.skip(p - 1),
{
    assert(s.take(p).drop_last() =~= s.take(p - 1));
    assert(s.take(p).last() == s[p - 1]);
    assert(insert_by_value(s.take(p - 1), x).push(s[p - 1]) + s.skip(p)
        =~= insert_by_value(s.take(p - 1), x) + s.skip(p - 1));
}

fn insert_flight(v: &mut Vec<(u32, usize, usize)>, x: (u32, usize, usize))
    ensures
        final(v)@ == insert_by_value(old(v)@, x),
{
    let ghost s = v@;
    let mut p: usize = v.len();
    assert(s.take(p as int) =~= s && s.skip(p as int) =~= Seq::<(u32, usize, usize)>::empty());
    while p > 0 && v[p - 1].0 > x.0
        invariant
            v@ == s,
            p <= s.len(),
            insert_by_value(s, x) == insert_by_value(s.take(p as int), x) + s.skip(p as int),
        decreases p,
    {
        proof {
            lemma_insert_step(s, x, p as int);
        }
        p -= 1;
    }
    proof {
        if p > 0 {
            assert(s.take(p as int).last() == s[p - 1]);
        }
        assert(insert_by_value(s.take(p as int), x) =~= s.take(p as int).push(x));
        assert(s.take(p as int).push(x) + s.skip(p as int) =~= s.insert(p as int, x));
    }
    v.insert(p, x);
}

/// Every existing flight from `set_from` into `set_to` as (value, origin, destination),
/// ordered by ascending value; flights of equal value keep the order of `set_from`, then `set_to`.
pub fn find_longest_intercontinental_routes(city_data: &CityData, set_from: &Vec<usize>, set_to: &Vec<usize>)
    -> (r: Vec<(u32, usize, usize)>)
    requires
        city_data.wf(),
        nodes_in_range(city_data@, set_from@),
        nodes_in_range(city_data@, set_to@),
    ensures
        ({
            let all = flights_between(city_data@, set_from@, set_to@, set_from@.len());
            r@ == sorted_by_value(all, all.len())
        }),
{
    let ghost t = city_data@;
    let mut result: Vec<(u32, usize, usize)> = Vec::new();
    let mut a: usize = 0;
    while a < set_from.len()
        invariant
            city_data.wf(),
            t == city_data@,
            nodes_in_range(t, set_from@),
            nodes_in_range(t, set_to@),
            a <= set_from@.len(),
            result@ == flights_between(t, set_from@, set_to@, a as nat),
        decreases set_from@.len() - a,
    {
        let i = set_from[a];
        assert(i < t.len());
        let ghost before = result@;
        let mut b: usize = 0;
        while b < set_to.len()
            invariant
                city_data.wf(),
                t == city_data@,
                nodes_in_range(t, set_to@),
                i < t.len(),
                b <= set_to@.len(),
                result@ == before + flights_from(t, i, set_to@, b as nat),
            decreases set_to@.len() - b,
        {
            let j = set_to[b];
            assert(j < t.len());
            let d = city_data.weight(i, j);
            if d > 0 {
                result.push((d, i, j));
            }
            b += 1;
            assert(result@ =~= before + flights_from(t, i, set_to@, b as nat));
        }
        a += 1;
    }
    let ghost all = result@;
    let mut sorted: Vec<(u32, usize, usize)> = Vec::new();
    let mut k: usize = 0;
    while k < result.len()
        invariant
            result@ == all,
            k <= all.len(),
            sorted@ == sorted_by_value(all, k as nat),
        decreases all.len() - k,
    {
        insert_flight(&mut sorted, result[k]);
        k += 1;
    }
    sorted
}

/// Two areas lie in the same searchable continent for a continental search.
pub open spec fn same_continent(a: AreaCode, b: AreaCode) -> bool {
    a == b || (a == AreaCode::Asia && b == AreaCode::Japan) || (a == AreaCode::Japan && b == AreaCode::Asia)
}

/// Why a continental search was not run.
#[derive(Clone, Copy, PartialEq, Eq, Structural, Debug)]
pub enum ContinentError {
    /// Origin and destination lie in different continents.
    DifferentContinents,
    /// The continent of the origin is not one that can be searched.
    UnsupportedArea,
}

/// Best legal route from city `from` to city `to` through `num` intermediate cities of
/// their continent. `Ok(None)` when no legal route exists.
pub fn find_continental_route(city_data: &CityData, from: usize, to: usize, num: usize)
    -> (r: Result<Option<(u64, Vec<usize>)>, ContinentError>)
    requires
        city_data.wf(),
        from < city_data@.len(),
        to < city_data@.len(),
        num <= MAX_HOPS,
    ensures
        ({
            let fa = city_data.cities@[from as int].area;
            let ta = city_data.cities@[to as int].area;
            &&& (r == Err::<Option<(u64, Vec<usize>)>, ContinentError>(ContinentError::DifferentContinents))
                <==> !same_continent(fa, ta)
            &&& (r == Err::<Option<(u64, Vec<usize>)>, ContinentError>(ContinentError::UnsupportedArea))
                <==> same_continent(fa, ta) && continent_of(fa) is None
            &&& r matches Ok(found) ==> opt_view(found) == segment(city_data@, city_data.locks(),
                continent_members(city_data.cities@, continent_of(fa)->0, city_data.cities@.len()),
                num as nat, from, to, seq![from])
        }),
{
    let fa = city_data.cities[from].area;
    let ta = city_data.cities[to].area;
    if !(fa == ta || (fa == AreaCode::Asia && ta == AreaCode::Japan) || (fa == AreaCode::Japan && ta == AreaCode::Asia)) {
        return Err(ContinentError::DifferentContinents);
    }
    let (cities_asia, cities_europe, cities_na) = prepare_area_data(city_data);
    let area = match fa {
        AreaCode::Asia | AreaCode::Japan => cities_asia,
        AreaCode::EuropeMiddleEast => cities_europe,
        AreaCode::NorthAmerica => cities_na,
        _ => {
            return Err(ContinentError::UnsupportedArea);
        },
    };
    proof {
        lemma_members_in_range(city_data, continent_of(fa)->0, city_data.cities@.len());
    }
    Ok(find_route_in_continent(city_data, &area, num, from, to))
}

proof fn lemma_members_in_range(city_data: &CityData, k: int, n: nat)
    requires
        city_data.wf(),
        n <= city_data.cities@.len(),
    ensures
        nodes_in_range(city_data@, continent_members(city_data.cities@, k, n)),
    decreases n,
{
    if n > 0 {
        lemma_members_in_range(city_data, k, (n - 1) as nat);
    }
}

} // verus!
