//! The meaning of an event stream: the lines it emits, where each match
//! stands among them, and the record each match is owed.
use vstd::prelude::*;
use crate::record::RecordView;

verus! {

/// One event of a line searcher, in file order.
pub enum SearchEvent {
    /// Lines that matched, with the number of the first one when known.
    Match { lines: Vec<String>, line_idx: Option<u64> },
    /// A plain line near a match.
    Context { line: String },
}

/// A match as it stands in the emitted lines: `pos` is the index of its
/// first line.
pub struct MatchSite {
    pub pos: int,
    pub lines: Seq<String>,
    pub line_idx: Option<u64>,
}

pub open spec fn event_lines(e: SearchEvent) -> Seq<String> {
    match e {
        SearchEvent::Match { lines, .. } => lines@,
        SearchEvent::Context { line } => seq![line],
    }
}

/// Every line the events deliver, in order.
pub open spec fn emitted(es: Seq<SearchEvent>) -> Seq<String>
    decreases es.len(),
{
    if es.len() == 0 {
        Seq::empty()
    } else {
        emitted(es.drop_last()) + event_lines(es.last())
    }
}

/// The matches among the events, in order, with their positions.
pub open spec fn match_sites(es: Seq<SearchEvent>) -> Seq<MatchSite>
    decreases es.len(),
{
    if es.len() == 0 {
        Seq::empty()
    } else {
        let prev = es.drop_last();
        match es.last() {
            SearchEvent::Match { lines, line_idx } => match_sites(prev).push(
                MatchSite { pos: emitted(prev).len() as int, lines: lines@, line_idx },
            ),
            SearchEvent::Context { .. } => match_sites(prev),
        }
    }
}

/// The `n` lines that end just before index `end`, oldest first; a slot
/// whose line would stand before `lo` is unknown.
pub open spec fn before_window(flat: Seq<String>, end: int, lo: int, n: nat) -> Seq<
    Option<String>,
> {
    Seq::new(
        n,
        |i: int|
            if end - n + i >= lo {
                Some(flat[end - n + i])
            } else {
                None
            },
    )
}

/// The `n` lines from index `start` on; a slot past the last emitted line
/// is unknown.
pub open spec fn after_window(flat: Seq<String>, start: int, n: nat) -> Seq<Option<String>> {
    Seq::new(
        n,
        |i: int|
            if start + i < flat.len() {
                Some(flat[start + i])
            } else {
                None
            },
    )
}

/// The record owed to the match `m` once the lines `flat` are known.
pub open spec fn record_at(flat: Seq<String>, m: MatchSite, n: nat) -> RecordView {
    RecordView {
        line_idx: m.line_idx,
        before: before_window(flat, m.pos, 0, n),
        after: after_window(flat, m.pos + m.lines.len(), n),
        matched: Some(m.lines),
    }
}

/// The records of a whole file: one per match, in order.
pub open spec fn records_of(es: Seq<SearchEvent>, n: nat) -> Seq<RecordView> {
    match_sites(es).map_values(|m: MatchSite| record_at(emitted(es), m, n))
}

/// Each match site lies inside the emitted lines, holds the lines found
/// there, and precedes the next site.
pub open spec fn sites_placed(flat: Seq<String>, ms: Seq<MatchSite>) -> bool {
    &&& forall|k: int|
        0 <= k < ms.len() ==> 0 <= (#[trigger] ms[k]).pos && ms[k].pos + ms[k].lines.len()
            <= flat.len()
    &&& forall|k: int, i: int|
        0 <= k < ms.len() && 0 <= i < ms[k].lines.len() ==> flat[ms[k].pos + i] == (
        #[trigger] ms[k].lines[i])
    &&& forall|k: int, j: int|
        0 <= k < j < ms.len() ==> (#[trigger] ms[k]).pos + ms[k].lines.len() <= (
        #[trigger] ms[j]).pos
}

pub proof fn lemma_push(es: Seq<SearchEvent>, e: SearchEvent)
    ensures
        emitted(es.push(e)) == emitted(es) + event_lines(e),
        match_sites(es.push(e)) == match e {
            SearchEvent::Match { lines, line_idx } => match_sites(es).push(
                MatchSite { pos: emitted(es).len() as int, lines: lines@, line_idx },
            ),
            SearchEvent::Context { .. } => match_sites(es),
        },
{
    assert(es.push(e).drop_last() =~= es);
}

pub proof fn lemma_sites_placed(es: Seq<SearchEvent>)
    ensures
        sites_placed(emitted(es), match_sites(es)),
    decreases es.len(),
{
    if es.len() > 0 {
        let prev = es.drop_last();
        lemma_sites_placed(prev);
        assert(es =~= prev.push(es.last()));
        lemma_push(prev, es.last());
        let flat = emitted(es);
        let pf = emitted(prev);
        let ms = match_sites(es);
        let pm = match_sites(prev);
        assert forall|k: int, i: int|
            0 <= k < ms.len() && 0 <= i < ms[k].lines.len() implies flat[ms[k].pos + i] == (
            #[trigger] ms[k].lines[i]) by {
            if k < pm.len() {
                assert(ms[k] == pm[k]);
                assert(pf[pm[k].pos + i] == pm[k].lines[i]);
            }
        }
    }
}

/// Index just past the lines of a match.
pub open spec fn site_end(m: MatchSite) -> int {
    m.pos + m.lines.len()
}

pub proof fn lemma_before_extend(flat: Seq<String>, extra: Seq<String>, end: int, lo: int, n: nat)
    requires
        0 <= lo,
        end <= flat.len(),
    ensures
        before_window(flat + extra, end, lo, n) == before_window(flat, end, lo, n),
{
    assert(before_window(flat + extra, end, lo, n) =~= before_window(flat, end, lo, n));
}

pub proof fn lemma_after_extend(flat: Seq<String>, extra: Seq<String>, start: int, n: nat)
    requires
        0 <= start,
        start + n <= flat.len(),
    ensures
        after_window(flat + extra, start, n) == after_window(flat, start, n),
{
    assert(after_window(flat + extra, start, n) =~= after_window(flat, start, n));
}

pub proof fn lemma_sites_push(flat: Seq<String>, ms: Seq<MatchSite>, lines: Seq<String>, line_idx: Option<u64>)
    requires
        sites_placed(flat, ms),
    ensures
        sites_placed(
            flat + lines,
            ms.push(MatchSite { pos: flat.len() as int, lines, line_idx }),
        ),
{
    let f = flat + lines;
    let site = MatchSite { pos: flat.len() as int, lines, line_idx };
    let m = ms.push(site);
    assert forall|k: int, i: int| 0 <= k < m.len() && 0 <= i < m[k].lines.len() implies f[m[k].pos + i] == (
        #[trigger] m[k].lines[i]) by {
        if k < ms.len() {
            assert(m[k] == ms[k]);
            assert(flat[ms[k].pos + i] == ms[k].lines[i]);
        }
    }
    assert forall|k: int, j: int| 0 <= k < j < m.len() implies (#[trigger] m[k]).pos + m[k].lines.len() <= (
        #[trigger] m[j]).pos by {
        if j < ms.len() {
            assert(m[k] == ms[k] && m[j] == ms[j]);
        } else {
            assert(m[k] == ms[k]);
        }
    }
}

} // verus!
