use vstd::prelude::*;
use crate::config::Config;
use crate::note::{Note, NoteKind};
use vstd::seq_lib::{to_multiset_contains, to_multiset_insert, to_multiset_build};

verus! {

/// Timestamps never decrease along the sequence.
pub open spec fn sorted_by_time(s: Seq<Note>) -> bool {
    forall|i: int, j: int| 0 <= i < j < s.len() ==> s[i].timestamp <= s[j].timestamp
}

/// Note `i` is at least `g` after note `i - 1`.
pub open spec fn gap_after(s: Seq<Note>, i: int, g: int) -> bool {
    s[i].timestamp >= s[i - 1].timestamp + g
}

/// Each note is at least `g` after the one before it.
pub open spec fn spaced(s: Seq<Note>, g: int) -> bool {
    forall|i: int| 1 <= i < s.len() ==> #[trigger] gap_after(s, i, g)
}

/// Number of notes after position `j` that continue its cluster: each next
/// note has the same lane and comes within the cluster window of the one
/// before it.
pub open spec fn run_ext(s: Seq<Note>, c: Config, j: int) -> nat
    decreases s.len() - j,
{
    if 0 <= j && j + 1 < s.len() && s[j + 1].lane == s[j].lane
        && s[j + 1].timestamp - s[j].timestamp < c.cluster_window {
        1 + run_ext(s, c, j + 1)
    } else {
        0
    }
}

/// The hold note that a cluster from `first` to `last` becomes: it starts at
/// the first note, spans to the last plus the padding, capped, and keeps the
/// first note's lane and energy.
pub open spec fn cluster_note(first: Note, last: Note, c: Config) -> Note {
    let span = last.timestamp - first.timestamp + c.cluster_pad;
    Note {
        timestamp: first.timestamp,
        lane: first.lane,
        note_type: NoteKind::Hold,
        duration: (if span < c.max_cluster { span } else { c.max_cluster as int }) as u64,
        energy: first.energy,
    }
}

/// Clustered notes from position `i` on.
pub open spec fn clustered_from(s: Seq<Note>, c: Config, i: int) -> Seq<Note>
    decreases s.len() - i,
{
    if i < 0 || i >= s.len() {
        Seq::empty()
    } else {
        let e = i + run_ext(s, c, i);
        let head = if e > i { seq![cluster_note(s[i], s[e], c)] } else { seq![s[i]] };
        if e + 1 < s.len() { head + clustered_from(s, c, e + 1) } else { head }
    }
}

/// The first `n` notes after the global gap filter: a note within `g` of the
/// last kept note is dropped, whatever its lane.
pub open spec fn gap_filtered(s: Seq<Note>, g: int, n: int) -> Seq<Note>
    decreases n,
{
    if n <= 0 {
        Seq::empty()
    } else {
        let p = gap_filtered(s, g, n - 1);
        if p.len() > 0 && s[n - 1].timestamp - p.last().timestamp < g { p } else { p.push(s[n - 1]) }
    }
}

/// Notes after post-processing.
pub open spec fn post_processed(s: Seq<Note>, c: Config) -> Seq<Note> {
    let cl = clustered_from(s, c, 0);
    gap_filtered(cl, c.min_global_gap as int, cl.len() as int)
}

/// A note that the pipeline may return: a lane in range, taps without
/// duration, holds with a positive duration within the hold range or within
/// the cluster cap.
pub open spec fn note_ok(n: Note, c: Config) -> bool {
    &&& n.lane < 4
    &&& n.note_type == NoteKind::Tap ==> n.duration == 0
    &&& n.note_type == NoteKind::Hold ==> n.duration > 0
    &&& n.note_type == NoteKind::Hold ==> (c.min_hold <= n.duration <= c.max_hold || n.duration <= c.max_cluster)
}

pub open spec fn all_ok(s: Seq<Note>, c: Config) -> bool {
    forall|i: int| 0 <= i < s.len() ==> note_ok(#[trigger] s[i], c)
}

proof fn lemma_run_ext_bound(s: Seq<Note>, c: Config, j: int)
    requires
        0 <= j < s.len(),
    ensures
        j + run_ext(s, c, j) < s.len(),
    decreases s.len() - j,
{
    if j + 1 < s.len() && s[j + 1].lane == s[j].lane && s[j + 1].timestamp - s[j].timestamp < c.cluster_window {
        lemma_run_ext_bound(s, c, j + 1);
    }
}

/// Notes with the same multiset of notes are all acceptable if one of them is.
pub proof fn lemma_all_ok_perm(a: Seq<Note>, b: Seq<Note>, c: Config)
    requires
        a.to_multiset() == b.to_multiset(),
        all_ok(a, c),
    ensures
        all_ok(b, c),
{
    assert forall|k: int| 0 <= k < b.len() implies note_ok(#[trigger] b[k], c) by {
        let x = b[k];
        assert(b.contains(x));
        to_multiset_contains(b, x);
        to_multiset_contains(a, x);
        let j = choose|j: int| 0 <= j < a.len() && a[j] == x;
        assert(note_ok(a[j], c));
    }
}

/// Orders notes by time, stably: each note goes after every note that is not
/// later than it.
pub fn sort_by_time(k: &Vec<Note>) -> (r: Vec<Note>)
    ensures
        sorted_by_time(r@),
        r@.to_multiset() == k@.to_multiset(),
        sorted_by_time(k@) ==> r@ == k@,
{
    let mut out: Vec<Note> = Vec::new();
    let mut i: usize = 0;
    assert(k@.subrange(0, 0) =~= Seq::<Note>::empty());
    while i < k.len()
        invariant
            i <= k.len(),
            sorted_by_time(out@),
            out@.to_multiset() == k@.subrange(0, i as int).to_multiset(),
            sorted_by_time(k@) ==> out@ == k@.subrange(0, i as int),
        decreases k.len() - i,
    {
        let x = k[i];
        let mut p: usize = 0;
        while p < out.len() && out[p].timestamp <= x.timestamp
            invariant
                p <= out.len(),
                forall|q: int| 0 <= q < p ==> out@[q].timestamp <= x.timestamp,
            decreases out.len() - p,
        {
            p = p + 1;
        }
        let ghost before = out@;
        proof {
            assert forall|q: int| p <= q < before.len() implies before[q].timestamp > x.timestamp by {
                assert(before[p as int].timestamp > x.timestamp);
            }
            if sorted_by_time(k@) {
                assert forall|q: int| 0 <= q < before.len() implies before[q].timestamp <= x.timestamp by {
                    assert(before[q] == k@[q]);
                }
                assert(p == before.len());
            }
        }
        out.insert(p, x);
        proof {
            let n = before.insert(p as int, x);
            assert(out@ == n);
            assert(k@.subrange(0, i + 1) =~= k@.subrange(0, i as int).push(x));
            to_multiset_insert(before, p as int, x);
            to_multiset_build(k@.subrange(0, i as int), x);
            assert forall|a: int, b: int| 0 <= a < b < n.len() implies n[a].timestamp <= n[b].timestamp by {
                if b < p {
                    assert(n[a] == before[a] && n[b] == before[b]);
                } else if b == p {
                    assert(n[a] == before[a]);
                } else if a < p {
                    assert(n[a] == before[a] && n[b] == before[b - 1]);
                } else if a == p {
                    assert(n[b] == before[b - 1]);
                } else {
                    assert(n[a] == before[a - 1] && n[b] == before[b - 1]);
                }
            }
            if sorted_by_time(k@) {
                assert(n =~= k@.subrange(0, i + 1));
            }
        }
        i = i + 1;
    }
    assert(k@.subrange(0, k.len() as int) =~= k@);
    out
}

/// Sorts the notes stably by time, merges same-lane clusters into hold notes,
/// then drops every note within the global gap of the last kept one. The
/// result is sorted by time.
pub fn post_process(s: &Vec<Note>, cfg: &Config) -> (r: Vec<Note>)
    requires
        cfg.wf(),
    ensures
        sorted_by_time(s@) ==> r@ == post_processed(s@, *cfg),
        exists|t: Seq<Note>| #![trigger post_processed(t, *cfg)]
            sorted_by_time(t) && t.to_multiset() == s@.to_multiset() && r@ == post_processed(t, *cfg),
        sorted_by_time(r@),
        spaced(r@, cfg.min_global_gap as int),
        all_ok(s@, *cfg) ==> all_ok(r@, *cfg),
{
    let t = sort_by_time(s);
    let r = process_sorted(&t, cfg);
    proof {
        if all_ok(s@, *cfg) {
            lemma_all_ok_perm(s@, t@, *cfg);
        }
        assert(post_processed(t@, *cfg) == r@);
        lemma_spaced_sorted(r@, cfg.min_global_gap as int);
    }
    r
}

/// A later note of a spaced sequence is at least the gap after any earlier.
pub proof fn lemma_spaced_far(s: Seq<Note>, g: int, k: int, i: int)
    requires
        spaced(s, g),
        g >= 0,
        0 <= k < i < s.len(),
    ensures
        s[i].timestamp >= s[k].timestamp + g,
    decreases i - k,
{
    assert(gap_after(s, i, g));
    if i > k + 1 {
        lemma_spaced_far(s, g, k, i - 1);
    }
}

/// A spaced sequence with a gap of zero or more is sorted by time.
pub proof fn lemma_spaced_sorted(s: Seq<Note>, g: int)
    requires
        spaced(s, g),
        g >= 0,
    ensures
        sorted_by_time(s),
{
    assert forall|i: int, j: int| 0 <= i < j < s.len() implies s[i].timestamp <= s[j].timestamp by {
        lemma_spaced_far(s, g, i, j);
    }
}

/// Clustering and the global gap filter on notes sorted by time.
fn process_sorted(s: &Vec<Note>, cfg: &Config) -> (r: Vec<Note>)
    requires
        sorted_by_time(s@),
        cfg.wf(),
    ensures
        r@ == post_processed(s@, *cfg),
        spaced(r@, cfg.min_global_gap as int),
        all_ok(s@, *cfg) ==> all_ok(r@, *cfg),
{
    let ghost cl = clustered_from(s@, *cfg, 0);
    let mut processed: Vec<Note> = Vec::new();
    let n = s.len();
    let mut i: usize = 0;
    while i < n
        invariant
            n == s@.len(),
            sorted_by_time(s@),
            cfg.wf(),
            i <= n,
            cl == clustered_from(s@, *cfg, 0),
            processed@ + clustered_from(s@, *cfg, i as int) == cl,
            all_ok(s@, *cfg) ==> all_ok(processed@, *cfg),
        decreases n - i,
    {
        let mut e: usize = i;
        while e + 1 < n && s[e + 1].lane == s[e].lane
            && (s[e + 1].timestamp as u128) < (s[e].timestamp as u128) + (cfg.cluster_window as u128)
            invariant
                n == s@.len(),
                i <= e < n,
                e - i + run_ext(s@, *cfg, e as int) == run_ext(s@, *cfg, i as int),
            decreases n - e,
        {
            e = e + 1;
        }
        proof {
            lemma_run_ext_bound(s@, *cfg, i as int);
            assert(e == i + run_ext(s@, *cfg, i as int));
        }
        let ghost before = processed@;
        if e > i {
            let first = s[i];
            let last = s[e];
            let span: u128 = (last.timestamp - first.timestamp) as u128 + cfg.cluster_pad as u128;
            let d: u64 = if span < cfg.max_cluster as u128 { span as u64 } else { cfg.max_cluster };
            processed.push(Note {
                timestamp: first.timestamp,
                lane: first.lane,
                note_type: NoteKind::Hold,
                duration: d,
                energy: first.energy,
            });
            assert(processed@ =~= before + seq![cluster_note(s@[i as int], s@[e as int], *cfg)]);
        } else {
            processed.push(s[i]);
            assert(processed@ =~= before + seq![s@[i as int]]);
        }
        proof {
            let head = if e > i { seq![cluster_note(s@[i as int], s@[e as int], *cfg)] } else { seq![s@[i as int]] };
            assert(clustered_from(s@, *cfg, i as int) == head + clustered_from(s@, *cfg, e + 1));
            assert(before + (head + clustered_from(s@, *cfg, e + 1)) =~= before + head + clustered_from(s@, *cfg, e + 1));
            if all_ok(s@, *cfg) {
                assert(note_ok(s@[i as int], *cfg));
                assert forall|k: int| 0 <= k < processed@.len() implies note_ok(#[trigger] processed@[k], *cfg) by {
                    if k < before.len() {
                        assert(processed@[k] == before[k]);
                    }
                }
            }
        }
        i = e + 1;
    }
    assert(processed@ =~= cl);
    global_gap_filter(&processed, cfg)
}

/// Drops each note that comes within the global gap of the last kept note.
fn global_gap_filter(processed: &Vec<Note>, cfg: &Config) -> (r: Vec<Note>)
    ensures
        r@ == gap_filtered(processed@, cfg.min_global_gap as int, processed@.len() as int),
        spaced(r@, cfg.min_global_gap as int),
        all_ok(processed@, *cfg) ==> all_ok(r@, *cfg),
{
    let ghost cl = processed@;


    let g = cfg.min_global_gap;
    let mut out: Vec<Note> = Vec::new();
    let mut j: usize = 0;
    while j < processed.len()
        invariant
            processed@ == cl,
            j <= processed@.len(),
            out@ == gap_filtered(cl, g as int, j as int),
            spaced(out@, g as int),
            all_ok(processed@, *cfg) ==> all_ok(out@, *cfg),
        decreases processed.len() - j,
    {
        let note = processed[j];
        let ghost before = out@;
        let keep = if out.len() == 0 {
            true
        } else {
            let last = out[out.len() - 1];
            !((note.timestamp as u128) < (last.timestamp as u128) + (g as u128))
        };
        proof {
            let p = gap_filtered(cl, g as int, j as int);
            assert(p == before);
            assert(gap_filtered(cl, g as int, j + 1) == if p.len() > 0 && cl[j as int].timestamp - p.last().timestamp < g {
                p
            } else {
                p.push(cl[j as int])
            });
            assert(keep <==> !(p.len() > 0 && cl[j as int].timestamp - p.last().timestamp < g));
        }
        if keep {
            out.push(note);
            proof {
                assert forall|k: int| 1 <= k < out@.len() implies #[trigger] gap_after(out@, k, g as int) by {
                    if k < before.len() {
                        assert(gap_after(before, k, g as int));
                        assert(out@[k] == before[k] && out@[k - 1] == before[k - 1]);
                    }
                }
                if all_ok(processed@, *cfg) {
                    assert(note_ok(processed@[j as int], *cfg));
                    assert forall|k: int| 0 <= k < out@.len() implies note_ok(#[trigger] out@[k], *cfg) by {
                        if k < before.len() {
                            assert(out@[k] == before[k]);
                        }
                    }
                }
            }
        }
        j = j + 1;
    }
    out
}

} // verus!
