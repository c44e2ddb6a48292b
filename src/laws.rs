//! Properties of the records that hold for every event stream.
use vstd::prelude::*;
use crate::assembler::RgResults;
use crate::model::{
    emitted, lemma_sites_placed, match_sites, records_of, site_end, SearchEvent,
};
use crate::record::{after_contiguous, before_contiguous, RecordView};
use crate::model::MatchSite;

verus! {

/// Every record has exactly `n` slots on each side, and its known slots are
/// contiguous from the end next to the match: a suffix of `before`, a
/// prefix of `after`.
pub proof fn lemma_windows_bounded(es: Seq<SearchEvent>, n: nat)
    ensures
        forall|k: int|
            0 <= k < records_of(es, n).len() ==> {
                let r = #[trigger] records_of(es, n)[k];
                &&& r.before.len() == n
                &&& r.after.len() == n
                &&& before_contiguous(r.before)
                &&& after_contiguous(r.after)
            },
{
    assert forall|k: int| 0 <= k < records_of(es, n).len() implies {
        let r = #[trigger] records_of(es, n)[k];
        &&& r.before.len() == n
        &&& r.after.len() == n
        &&& before_contiguous(r.before)
        &&& after_contiguous(r.after)
    } by {
        let r = records_of(es, n)[k];
        assert forall|i: int, j: int| 0 <= i < j < r.before.len() && (#[trigger] r.before[i]) is Some implies (#[trigger] r.before[j]) is Some by {}
        assert forall|i: int, j: int| 0 <= i < j < r.after.len() && (#[trigger] r.after[j]) is Some implies (#[trigger] r.after[i]) is Some by {}
    }
}

/// No line is made up and none near a match is lost: each record holds the
/// emitted lines of its match, each known slot holds the emitted line at
/// the position it stands for, and every emitted line within `n` lines of a
/// match is known in that match's record.
pub proof fn lemma_windows_faithful(es: Seq<SearchEvent>, n: nat)
    ensures
        forall|k: int|
            0 <= k < records_of(es, n).len() ==> {
                let flat = emitted(es);
                let m = match_sites(es)[k];
                let r = #[trigger] records_of(es, n)[k];
                &&& r.matched == Some(flat.subrange(m.pos, site_end(m)))
                &&& forall|i: int|
                    0 <= i < n ==> ((#[trigger] r.before[i]) is Some <==> 0 <= m.pos - n + i) && (
                    r.before[i] is Some ==> r.before[i] == Some(flat[m.pos - n + i]))
                &&& forall|i: int|
                    0 <= i < n ==> ((#[trigger] r.after[i]) is Some <==> site_end(m) + i
                        < flat.len()) && (r.after[i] is Some ==> r.after[i] == Some(
                        flat[site_end(m) + i],
                    ))
            },
{
    lemma_sites_placed(es);
    let flat = emitted(es);
    let ms = match_sites(es);
    assert forall|k: int| 0 <= k < records_of(es, n).len() implies {
        let m = match_sites(es)[k];
        let r = #[trigger] records_of(es, n)[k];
        &&& r.matched == Some(flat.subrange(m.pos, site_end(m)))
        &&& forall|i: int|
            0 <= i < n ==> ((#[trigger] r.before[i]) is Some <==> 0 <= m.pos - n + i) && (
            r.before[i] is Some ==> r.before[i] == Some(flat[m.pos - n + i]))
        &&& forall|i: int|
            0 <= i < n ==> ((#[trigger] r.after[i]) is Some <==> site_end(m) + i < flat.len())
                && (r.after[i] is Some ==> r.after[i] == Some(flat[site_end(m) + i]))
    } by {
        let m = ms[k];
        assert(ms[k].pos + ms[k].lines.len() <= flat.len());
        assert forall|i: int| 0 <= i < m.lines.len() implies m.lines[i] == flat.subrange(
            m.pos,
            site_end(m),
        )[i] by {
            assert(flat[ms[k].pos + i] == ms[k].lines[i]);
        }
        assert(m.lines =~= flat.subrange(m.pos, site_end(m)));
    }
}

/// A stream of plain lines alone yields no record.
pub proof fn lemma_no_match_no_records(es: Seq<SearchEvent>, n: nat)
    requires
        forall|i: int| 0 <= i < es.len() ==> (#[trigger] es[i]) is Context,
    ensures
        records_of(es, n).len() == 0,
    decreases es.len(),
{
    if es.len() > 0 {
        let prev = es.drop_last();
        assert forall|i: int| 0 <= i < prev.len() implies (#[trigger] prev[i]) is Context by {
            assert(prev[i] == es[i]);
        }
        lemma_no_match_no_records(prev, n);
        assert(es.last() is Context);
    }
}

/// A match that begins within the first `n` emitted lines has as many
/// known before-slots as there are lines before it, all at the end next to
/// the match, and unknown slots before them.
pub proof fn lemma_file_start(es: Seq<SearchEvent>, n: nat, k: int)
    requires
        0 <= k < records_of(es, n).len(),
        match_sites(es)[k].pos < n,
    ensures
        forall|i: int|
            0 <= i < n ==> ((#[trigger] records_of(es, n)[k].before[i]) is Some <==> i >= n
                - match_sites(es)[k].pos),
{
    lemma_sites_placed(es);
    assert(0 <= match_sites(es)[k].pos);
}

/// Whether the emitted line at index `j` lies within `n` lines of match `m`.
pub open spec fn near_match(m: MatchSite, j: int, n: nat) -> bool {
    m.pos - n <= j < site_end(m) + n
}

/// Whether record `r` of match `m` holds `x` where the line at index `j`
/// belongs: a before-slot, a matched line or an after-slot.
pub open spec fn holds_line(r: RecordView, m: MatchSite, j: int, x: String, n: nat) -> bool {
    ||| (m.pos - n <= j < m.pos && r.before[j - m.pos + n] == Some(x))
    ||| (m.pos <= j < site_end(m) && r.matched is Some && r.matched.unwrap()[j - m.pos] == x)
    ||| (site_end(m) <= j < site_end(m) + n && r.after[j - site_end(m)] == Some(x))
}

/// Whether the emitted line at index `j` lies within `n` lines of a match.
pub open spec fn near_some_match(es: Seq<SearchEvent>, j: int, n: nat) -> bool {
    exists|k: int| 0 <= k < match_sites(es).len() && near_match(#[trigger] match_sites(es)[k], j, n)
}

/// Whether the emitted line at index `j` stands, at its place, in a record.
pub open spec fn kept_in_records(es: Seq<SearchEvent>, j: int, n: nat) -> bool {
    exists|k: int|
        0 <= k < records_of(es, n).len() && holds_line(
            #[trigger] records_of(es, n)[k],
            match_sites(es)[k],
            j,
            emitted(es)[j],
            n,
        )
}

/// When every emitted line lies within `n` lines of some match, as with a
/// searcher that only reports context around matches, no line is lost:
/// each one stands, at its own place, in a record.
pub proof fn lemma_every_line_kept(es: Seq<SearchEvent>, n: nat)
    requires
        forall|j: int| 0 <= j < emitted(es).len() ==> #[trigger] near_some_match(es, j, n),
    ensures
        forall|j: int| 0 <= j < emitted(es).len() ==> #[trigger] kept_in_records(es, j, n),
{
    lemma_sites_placed(es);
    let flat = emitted(es);
    let ms = match_sites(es);
    let rs = records_of(es, n);
    assert forall|j: int| 0 <= j < flat.len() implies #[trigger] kept_in_records(es, j, n) by {
        assert(near_some_match(es, j, n));
        let k = choose|k: int| 0 <= k < ms.len() && near_match(#[trigger] ms[k], j, n);
        let m = ms[k];
        let r = rs[k];
        assert(0 <= m.pos && site_end(m) <= flat.len());
        if j < m.pos {
            assert(r.before[j - m.pos + n] == Some(flat[j]));
        } else if j < site_end(m) {
            assert(flat[m.pos + (j - m.pos)] == m.lines[j - m.pos]);
        } else {
            assert(r.after[j - site_end(m)] == Some(flat[j]));
        }
        assert(holds_line(rs[k], ms[k], j, flat[j], n));
    }
}

/// Two assemblers fed the same events hold the same records.
pub proof fn lemma_replay_deterministic<const CONTEXT_LENGTH: usize>(
    a: &RgResults<CONTEXT_LENGTH>,
    b: &RgResults<CONTEXT_LENGTH>,
)
    requires
        a.wf(),
        b.wf(),
        a.events() == b.events(),
    ensures
        a.records() == b.records(),
{
    a.lemma_records_model();
    b.lemma_records_model();
}

} // verus!
