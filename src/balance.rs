use vstd::prelude::*;
use crate::config::Config;
use crate::note::Note;
use crate::postprocess::{spaced, gap_after, all_ok, note_ok};
use vstd::set_lib::{set_int_range, lemma_int_range, lemma_len_subset, lemma_map_size, lemma_subset_equality};
use vstd::relations::injective_on;
use crate::postprocess::{sorted_by_time, sort_by_time, lemma_all_ok_perm, lemma_spaced_far, lemma_spaced_sorted};

verus! {

/// Number of the first `n` notes that are in lane `l`.
pub open spec fn lane_count(s: Seq<Note>, l: int, n: int) -> nat
    decreases n,
{
    if n <= 0 {
        0
    } else {
        lane_count(s, l, n - 1) + if s[n - 1].lane == l { 1nat } else { 0nat }
    }
}

pub open spec fn max2(a: nat, b: nat) -> nat {
    if a >= b { a } else { b }
}

/// The largest lane count of the sequence.
pub open spec fn max_lane_count(s: Seq<Note>) -> nat {
    let n = s.len() as int;
    max2(max2(lane_count(s, 0, n), lane_count(s, 1, n)), max2(lane_count(s, 2, n), lane_count(s, 3, n)))
}

/// How many notes each lane keeps at most: half the largest lane count,
/// rounded down.
pub open spec fn balance_target(s: Seq<Note>) -> nat {
    max_lane_count(s) / 2
}

/// Note `j` ranks above note `i` of the same lane: more energy, or equal
/// energy and earlier.
pub open spec fn outranks(s: Seq<Note>, j: int, i: int) -> bool {
    &&& s[j].lane == s[i].lane
    &&& s[j].energy > s[i].energy || (s[j].energy == s[i].energy && j < i)
}

/// Number of the first `n` notes that rank above note `i`.
pub open spec fn rank(s: Seq<Note>, i: int, n: int) -> nat
    decreases n,
{
    if n <= 0 {
        0
    } else {
        rank(s, i, n - 1) + if outranks(s, n - 1, i) { 1nat } else { 0nat }
    }
}

/// Note `i` survives balancing: it is among the `balance_target` highest
/// ranked of its lane. A lane with no more notes than the target keeps all.
pub open spec fn kept(s: Seq<Note>, i: int) -> bool {
    rank(s, i, s.len() as int) < balance_target(s)
}

/// The surviving notes among the first `n`, in their order.
pub open spec fn balanced_upto(s: Seq<Note>, n: int) -> Seq<Note>
    decreases n,
{
    if n <= 0 {
        Seq::empty()
    } else {
        let p = balanced_upto(s, n - 1);
        if kept(s, n - 1) { p.push(s[n - 1]) } else { p }
    }
}

/// Notes after lane balancing.
pub open spec fn balanced(s: Seq<Note>) -> Seq<Note> {
    balanced_upto(s, s.len() as int)
}

pub open spec fn lanes_ok(s: Seq<Note>) -> bool {
    forall|i: int| 0 <= i < s.len() ==> (#[trigger] s[i]).lane < 4
}

/// Positions among the first `n` of lane-`l` notes that survive balancing.
pub open spec fn kept_in_lane(s: Seq<Note>, l: int, n: int) -> Set<int> {
    Set::new(|i: int| 0 <= i < n && s[i].lane == l && kept(s, i))
}

proof fn lemma_outranks_trans(s: Seq<Note>, k: int, j: int, i: int)
    requires
        outranks(s, k, j),
        outranks(s, j, i),
    ensures
        outranks(s, k, i),
{
}

/// A note that is outranked by `j` has a higher rank than `j`.
proof fn lemma_rank_gap(s: Seq<Note>, i: int, j: int, n: int)
    requires
        0 <= i < s.len(),
        0 <= j < s.len(),
        0 <= n <= s.len(),
        outranks(s, j, i),
    ensures
        rank(s, i, n) >= rank(s, j, n) + if j < n { 1int } else { 0int },
    decreases n,
{
    if n > 0 {
        lemma_rank_gap(s, i, j, n - 1);
        if outranks(s, n - 1, j) {
            lemma_outranks_trans(s, n - 1, j, i);
        }
    }
}

proof fn lemma_lane_count_prefix(p: Seq<Note>, q: Seq<Note>, l: int, n: int)
    requires
        0 <= n <= p.len(),
        n <= q.len(),
        forall|i: int| 0 <= i < n ==> p[i] == q[i],
    ensures
        lane_count(p, l, n) == lane_count(q, l, n),
    decreases n,
{
    if n > 0 {
        lemma_lane_count_prefix(p, q, l, n - 1);
    }
}

proof fn lemma_kept_count(s: Seq<Note>, l: int, n: int)
    requires
        0 <= n <= s.len(),
    ensures
        kept_in_lane(s, l, n).finite(),
        lane_count(balanced_upto(s, n), l, balanced_upto(s, n).len() as int) == kept_in_lane(s, l, n).len(),
    decreases n,
{
    if n == 0 {
        assert(kept_in_lane(s, l, 0) =~= Set::<int>::empty());
    } else {
        lemma_kept_count(s, l, n - 1);
        let p = balanced_upto(s, n - 1);
        let a = kept_in_lane(s, l, n - 1);
        assert(!a.contains(n - 1));
        if kept(s, n - 1) {
            let q = p.push(s[n - 1]);
            lemma_lane_count_prefix(p, q, l, p.len() as int);
            if s[n - 1].lane == l {
                assert(kept_in_lane(s, l, n) =~= a.insert(n - 1));
            } else {
                assert(kept_in_lane(s, l, n) =~= a);
            }
        } else {
            assert(kept_in_lane(s, l, n) =~= a);
        }
    }
}

/// After balancing, no lane holds more notes than half the largest lane
/// count before balancing, rounded down.
pub proof fn lemma_balance_bound(s: Seq<Note>, l: int)
    ensures
        lane_count(balanced(s), l, balanced(s).len() as int) <= balance_target(s),
{
    let n = s.len() as int;
    let t = balance_target(s) as int;
    let a = kept_in_lane(s, l, n);
    lemma_kept_count(s, l, n);
    let f = |i: int| rank(s, i, n) as int;
    assert(injective_on(f, a)) by {
        assert forall|i: int, j: int| a.contains(i) && a.contains(j) && #[trigger] f(i) == #[trigger] f(j) implies i == j by {
            if i != j {
                if outranks(s, j, i) {
                    lemma_rank_gap(s, i, j, n);
                } else {
                    assert(outranks(s, i, j));
                    lemma_rank_gap(s, j, i, n);
                }
            }
        }
    }
    let m = a.map(f);
    lemma_map_size(a, m, f);
    lemma_int_range(0, t);
    assert(m.subset_of(set_int_range(0, t)));
    lemma_len_subset(m, set_int_range(0, t));
}

/// Positions among the first `n` of lane-`l` notes.
pub open spec fn in_lane(s: Seq<Note>, l: int, n: int) -> Set<int> {
    Set::new(|i: int| 0 <= i < n && s[i].lane == l)
}

proof fn lemma_in_lane_count(s: Seq<Note>, l: int, n: int)
    requires
        0 <= n <= s.len(),
    ensures
        in_lane(s, l, n).finite(),
        in_lane(s, l, n).len() == lane_count(s, l, n),
    decreases n,
{
    if n == 0 {
        assert(in_lane(s, l, 0) =~= Set::<int>::empty());
    } else {
        lemma_in_lane_count(s, l, n - 1);
        assert(!in_lane(s, l, n - 1).contains(n - 1));
        if s[n - 1].lane == l {
            assert(in_lane(s, l, n) =~= in_lane(s, l, n - 1).insert(n - 1));
        } else {
            assert(in_lane(s, l, n) =~= in_lane(s, l, n - 1));
        }
    }
}

/// A note is outranked by fewer notes than its lane holds besides itself.
proof fn lemma_rank_below_count(s: Seq<Note>, i: int, m: int)
    requires
        0 <= i < s.len(),
        0 <= m <= s.len(),
    ensures
        rank(s, i, m) + (if i < m { 1int } else { 0int }) <= lane_count(s, s[i].lane as int, m),
    decreases m,
{
    if m > 0 {
        lemma_rank_below_count(s, i, m - 1);
    }
}

/// Ranks within one lane are distinct.
proof fn lemma_rank_injective(s: Seq<Note>, i: int, j: int)
    requires
        0 <= i < s.len(),
        0 <= j < s.len(),
        i != j,
        s[i].lane == s[j].lane,
    ensures
        rank(s, i, s.len() as int) != rank(s, j, s.len() as int),
{
    if outranks(s, j, i) {
        lemma_rank_gap(s, i, j, s.len() as int);
    } else {
        assert(outranks(s, i, j));
        lemma_rank_gap(s, j, i, s.len() as int);
    }
}

/// After balancing, each lane holds exactly the smaller of its count before
/// balancing and the target: lanes over the target are thinned to it, the
/// others keep every note.
pub proof fn lemma_balance_exact(s: Seq<Note>, l: int)
    ensures
        lane_count(balanced(s), l, balanced(s).len() as int)
            == if lane_count(s, l, s.len() as int) <= balance_target(s) {
                lane_count(s, l, s.len() as int)
            } else {
                balance_target(s)
            },
{
    let n = s.len() as int;
    let t = balance_target(s) as int;
    let c = lane_count(s, l, n) as int;
    let m = if c <= t { c } else { t };
    let la = in_lane(s, l, n);
    let k = kept_in_lane(s, l, n);
    lemma_in_lane_count(s, l, n);
    lemma_kept_count(s, l, n);
    let f = |i: int| rank(s, i, n) as int;
    assert(injective_on(f, la)) by {
        assert forall|i: int, j: int| la.contains(i) && la.contains(j) && #[trigger] f(i) == #[trigger] f(j) implies i == j by {
            if i != j {
                lemma_rank_injective(s, i, j);
            }
        }
    }
    let fl = la.map(f);
    lemma_map_size(la, fl, f);
    lemma_int_range(0, c);
    assert(fl.subset_of(set_int_range(0, c))) by {
        assert forall|v: int| fl.contains(v) implies set_int_range(0, c).contains(v) by {
            let i = choose|i: int| la.contains(i) && f(i) == v;
            lemma_rank_below_count(s, i, n);
        }
    }
    lemma_subset_equality(fl, set_int_range(0, c));
    assert(injective_on(f, k)) by {
        assert forall|i: int, j: int| k.contains(i) && k.contains(j) && #[trigger] f(i) == #[trigger] f(j) implies i == j by {
            if i != j {
                lemma_rank_injective(s, i, j);
            }
        }
    }
    let fk = k.map(f);
    assert(fk =~= set_int_range(0, m)) by {
        assert forall|v: int| fk.contains(v) implies set_int_range(0, m).contains(v) by {
            let i = choose|i: int| k.contains(i) && f(i) == v;
            assert(la.contains(i));
            assert(fl.contains(v));
        }
        assert forall|v: int| set_int_range(0, m).contains(v) implies fk.contains(v) by {
            assert(set_int_range(0, c).contains(v));
            assert(fl.contains(v));
            let i = choose|i: int| la.contains(i) && f(i) == v;
            assert(k.contains(i));
        }
    }
    lemma_map_size(k, fk, f);
    lemma_int_range(0, m);
}

fn count_lane(s: &Vec<Note>, l: usize) -> (r: usize)
    ensures
        r == lane_count(s@, l as int, s@.len() as int),
{
    let mut c: usize = 0;
    let mut i: usize = 0;
    while i < s.len()
        invariant
            i <= s.len(),
            c == lane_count(s@, l as int, i as int),
            c <= i,
        decreases s.len() - i,
    {
        if s[i].lane == l {
            c = c + 1;
        }
        i = i + 1;
    }
    c
}

fn rank_of(s: &Vec<Note>, i: usize) -> (r: usize)
    requires
        i < s.len(),
    ensures
        r == rank(s@, i as int, s@.len() as int),
{
    let mut c: usize = 0;
    let mut j: usize = 0;
    while j < s.len()
        invariant
            i < s.len(),
            j <= s.len(),
            c == rank(s@, i as int, j as int),
            c <= j,
        decreases s.len() - j,
    {
        let a = s[j];
        let b = s[i];
        if a.lane == b.lane && (a.energy > b.energy || (a.energy == b.energy && j < i)) {
            c = c + 1;
        }
        j = j + 1;
    }
    c
}

/// Thins the busiest lanes: with `target` half the largest lane count
/// (rounded down), each lane keeps only its `target` highest-energy notes,
/// the earlier first among equal energies; the survivors come out sorted by
/// time, in their input order among equal times.
pub fn balance_lanes(s: &Vec<Note>, cfg: &Config) -> (r: Vec<Note>)
    requires
        lanes_ok(s@),
    ensures
        sorted_by_time(r@),
        r@.to_multiset() == balanced(s@).to_multiset(),
        sorted_by_time(s@) ==> r@ == balanced(s@),
        spaced(s@, cfg.min_global_gap as int) ==> r@ == balanced(s@) && spaced(r@, cfg.min_global_gap as int),
        all_ok(s@, *cfg) ==> all_ok(r@, *cfg),
{
    let kept = survivors(s, cfg);
    let r = sort_by_time(&kept);
    proof {
        if spaced(s@, cfg.min_global_gap as int) {
            lemma_spaced_sorted(s@, cfg.min_global_gap as int);
        }
        if all_ok(s@, *cfg) {
            lemma_all_ok_perm(kept@, r@, *cfg);
        }
    }
    r
}

/// The notes that survive balancing, in their input order.
fn survivors(s: &Vec<Note>, cfg: &Config) -> (r: Vec<Note>)
    requires
        lanes_ok(s@),
    ensures
        r@ == balanced(s@),
        spaced(s@, cfg.min_global_gap as int) ==> spaced(r@, cfg.min_global_gap as int),
        sorted_by_time(s@) ==> sorted_by_time(r@),
        all_ok(s@, *cfg) ==> all_ok(r@, *cfg),
{
    let c0 = count_lane(s, 0);
    let c1 = count_lane(s, 1);
    let c2 = count_lane(s, 2);
    let c3 = count_lane(s, 3);
    let m01 = if c0 >= c1 { c0 } else { c1 };
    let m23 = if c2 >= c3 { c2 } else { c3 };
    let m = if m01 >= m23 { m01 } else { m23 };
    let target = m / 2;
    assert(target == balance_target(s@));
    let ghost g = cfg.min_global_gap as int;
    let mut out: Vec<Note> = Vec::new();
    let ghost mut last_idx: int = -1;
    let mut i: usize = 0;
    while i < s.len()
        invariant
            i <= s.len(),
            target == balance_target(s@),
            g == cfg.min_global_gap as int,
            out@ == balanced_upto(s@, i as int),
            -1 <= last_idx < i,
            out@.len() == 0 <==> last_idx == -1,
            out@.len() > 0 ==> out@.last() == s@[last_idx],
            spaced(s@, g) ==> spaced(out@, g),
            sorted_by_time(s@) ==> sorted_by_time(out@),
            all_ok(s@, *cfg) ==> all_ok(out@, *cfg),
        decreases s.len() - i,
    {
        let rk = rank_of(s, i);
        let ghost before = out@;
        if rk < target {
            out.push(s[i]);
            proof {
                if spaced(s@, g) {
                    assert forall|k: int| 1 <= k < out@.len() implies #[trigger] gap_after(out@, k, g) by {
                        if k < before.len() {
                            assert(gap_after(before, k, g));
                            assert(out@[k] == before[k] && out@[k - 1] == before[k - 1]);
                        } else {
                            assert(out@[k - 1] == s@[last_idx]);
                            lemma_spaced_far(s@, g, last_idx, i as int);
                        }
                    }
                }
                if sorted_by_time(s@) {
                    assert forall|a: int, b: int| 0 <= a < b < out@.len() implies out@[a].timestamp <= out@[b].timestamp by {
                        if b < before.len() {
                            assert(out@[a] == before[a] && out@[b] == before[b]);
                        } else {
                            assert(out@[a] == before[a]);
                            assert(before.last() == s@[last_idx]);
                            if a < before.len() - 1 {
                                assert(before[a].timestamp <= before[before.len() - 1].timestamp);
                            }
                        }
                    }
                }
                if all_ok(s@, *cfg) {
                    assert(note_ok(s@[i as int], *cfg));
                    assert forall|k: int| 0 <= k < out@.len() implies note_ok(#[trigger] out@[k], *cfg) by {
                        if k < before.len() {
                            assert(out@[k] == before[k]);
                        }
                    }
                }
                last_idx = i as int;
            }
        }
        i = i + 1;
    }
    out
}

} // verus!
