//! The per-file assembler: consumes the searcher's events in file order and
//! keeps the records built so far.
use vstd::prelude::*;
use crate::model::{
    after_window, before_window, emitted, lemma_after_extend, lemma_before_extend,
    lemma_push, lemma_sites_push, match_sites, record_at, records_of, site_end, sites_placed, MatchSite,
    SearchEvent,
};
use crate::record::{RecordView, RgResult};

verus! {

/// The records of one file, in order. Only the last one may still lack its
/// match (a stub of leading context lines).
pub struct RgResults<const CONTEXT_LENGTH: usize> {
    inner: Vec<RgResult<CONTEXT_LENGTH>>,
    path: String,
    events: Ghost<Seq<SearchEvent>>,
}

/// What the stub at the end of the records must be: no match yet, and a
/// before-window of the latest lines since the previous record's window
/// closed.
pub open spec fn stub_fits(s: RecordView, flat: Seq<String>, ms: Seq<MatchSite>, n: nat) -> bool {
    let lo = if ms.len() == 0 {
        0
    } else {
        site_end(ms.last()) + n
    };
    &&& s.matched is None
    &&& s.line_idx is None
    &&& lo <= flat.len()
    &&& s.before == before_window(flat, flat.len() as int, lo, n)
    &&& s.after == after_window(flat, flat.len() as int, n)
}

fn clone_lines(v: &Vec<String>) -> (r: Vec<String>)
    ensures
        r@ == v@,
{
    let mut r: Vec<String> = Vec::new();
    let mut i: usize = 0;
    while i < v.len()
        invariant
            i <= v@.len(),
            r@ == v@.subrange(0, i as int),
        decreases v@.len() - i,
    {
        r.push(v[i].clone());
        i = i + 1;
        assert(r@ =~= v@.subrange(0, i as int));
    }
    assert(v@.subrange(0, v@.len() as int) =~= v@);
    r
}

impl<const CONTEXT_LENGTH: usize> RgResults<CONTEXT_LENGTH> {
    /// The events consumed so far.
    pub closed spec fn events(&self) -> Seq<SearchEvent> {
        self.events@
    }

    /// The path of the file the records belong to.
    pub closed spec fn spec_path(&self) -> String {
        self.path
    }

    /// The records of the matches seen so far, as they stand now.
    pub closed spec fn records(&self) -> Seq<RecordView> {
        self.inner@.subrange(0, match_sites(self.events@).len() as int).map_values(
            |r: RgResult<CONTEXT_LENGTH>| r@,
        )
    }

    pub closed spec fn wf(&self) -> bool {
        let n = CONTEXT_LENGTH as nat;
        let flat = emitted(self.events@);
        let ms = match_sites(self.events@);
        &&& sites_placed(flat, ms)
        &&& ms.len() <= self.inner@.len() <= ms.len() + 1
        &&& self.inner@.len() == 0 ==> flat.len() == 0
        &&& forall|k: int|
            0 <= k < ms.len() ==> (#[trigger] self.inner@[k])@ == record_at(flat, ms[k], n)
        &&& (self.inner@.len() == ms.len() && ms.len() > 0) ==> flat.len() <= site_end(ms.last())
            + n
        &&& self.inner@.len() == ms.len() + 1 ==> stub_fits(self.inner@.last()@, flat, ms, n)
    }

    /// An assembler for the file at `path` that has seen no event.
    pub fn from_path(path: String) -> (r: Self)
        ensures
            r.wf(),
            r.events() == Seq::<SearchEvent>::empty(),
            r.spec_path() == path,
    {
        RgResults { inner: Vec::new(), path, events: Ghost(Seq::empty()) }
    }

    /// Consumes a plain line: it joins the after-windows that are still
    /// open, or else the before-window of the stub that awaits the next
    /// match.
    #[verifier::rlimit(40)]
    pub fn context(&mut self, context: String)
        requires
            old(self).wf(),
        ensures
            final(self).wf(),
            final(self).events() == old(self).events().push(SearchEvent::Context { line: context }),
            final(self).spec_path() == old(self).spec_path(),
    {
        let ghost n = CONTEXT_LENGTH as nat;
        let ghost es0 = self.events@;
        let ghost ev = SearchEvent::Context { line: context };
        let ghost flat0 = emitted(es0);
        let ghost ms = match_sites(es0);
        let ghost flat = flat0 + seq![context];
        let ghost l = flat0.len() as int;
        proof {
            lemma_push(es0, ev);
            assert(emitted(es0.push(ev)) == flat);
            assert(match_sites(es0.push(ev)) == ms);
        }
        let ghost inner0 = self.inner@;
        let len = self.inner.len();
        if len == 0 {
            let mut res = RgResult::default();
            res.append_to_before(context);
            self.inner.push(res);
            proof {
                assert(self.inner@.last()@.before =~= before_window(flat, l + 1, 0, n));
                assert(self.inner@.last()@.after =~= after_window(flat, l + 1, n));
            }
        } else if self.inner[len - 1].is_matched() {
            let line = context.clone();
            let ghost last = ms.last();
            let ghost q = site_end(last);
            let appended = self.inner[len - 1].append_to_after(line);
            match appended {
                Err(_) => {
                    proof {
                        if n > 0 {
                            assert(inner0[len - 1]@.after[n - 1] is Some);
                        }
                        assert(l == q + n);
                        assert forall|k: int| 0 <= k < ms.len() implies (
                        #[trigger] self.inner@[k])@ == record_at(flat, ms[k], n) by {
                            assert(site_end(ms[k]) <= q);
                            lemma_before_extend(flat0, seq![context], ms[k].pos, 0, n);
                            lemma_after_extend(flat0, seq![context], site_end(ms[k]), n);
                        }
                    }
                    let mut res = RgResult::default();
                    res.append_to_before(context);
                    self.inner.push(res);
                    proof {
                        assert(self.inner@.last()@.before =~= before_window(flat, l + 1, l, n));
                        assert(self.inner@.last()@.after =~= after_window(flat, l + 1, n));
                        assert forall|k: int| 0 <= k < ms.len() implies (
                        #[trigger] self.inner@[k])@ == record_at(flat, ms[k], n) by {
                            assert(self.inner@[k] == old(self).inner@[k]);
                        }
                    }
                },
                Ok(_) => {
                    let src = vec![context];
                    let ghost starts = ms.subrange(0, len - 1).map_values(|m: MatchSite| site_end(m));
                    proof {
                        let c = choose|c: int| #![trigger inner0[len - 1].after@[c]]
                            0 <= c < n && inner0[len - 1].after@[c] is None && (forall|i: int|
                                0 <= i < c ==> (#[trigger] inner0[len - 1].after@[i]) is Some)
                                && self.inner@[len - 1].after@ == inner0[len - 1].after@.update(c, Some(context));
                        if c > 0 {
                            assert(inner0[len - 1].after@[c - 1] is Some);
                        }
                        assert(c == l - q);
                        assert(self.inner@[len - 1].after@ =~= after_window(flat, q, n));
                        assert(self.inner@[len - 1]@ == record_at(flat, last, n)) by {
                            lemma_before_extend(flat0, seq![context], last.pos, 0, n);
                        }
                        assert forall|k: int, j: int| 0 <= k < j < len - 1 implies #[trigger] starts[k] <= #[trigger] starts[j] by {
                            assert(site_end(ms[k]) <= ms[j].pos);
                        }
                        assert(src@ =~= seq![context]);
                    }
                    Self::update_after(&mut self.inner, len - 1, &src, Ghost(flat0), Ghost(starts));
                    proof {
                        assert forall|k: int| 0 <= k < ms.len() implies (
                        #[trigger] self.inner@[k])@ == record_at(flat, ms[k], n) by {
                            if k < len - 1 {
                                assert(starts[k] == site_end(ms[k]));
                                lemma_before_extend(flat0, seq![context], ms[k].pos, 0, n);
                            }
                        }
                    }
                },
            }
        } else {
            let ghost lo = if ms.len() == 0 { 0 } else { site_end(ms.last()) + n };
            self.inner[len - 1].append_to_before(context);
            proof {
                assert(self.inner@.last()@.before =~= before_window(flat, l + 1, lo, n));
                assert(self.inner@.last()@.after =~= after_window(flat, l + 1, n));
                assert forall|k: int| 0 <= k < ms.len() implies (
                #[trigger] self.inner@[k])@ == record_at(flat, ms[k], n) by {
                    assert(site_end(ms[k]) <= site_end(ms.last()));
                    lemma_before_extend(flat0, seq![context], ms[k].pos, 0, n);
                    lemma_after_extend(flat0, seq![context], site_end(ms[k]), n);
                }
            }
        }
        self.events = Ghost(es0.push(ev));
    }

    /// Consumes a match: its record takes as before-window the lines that
    /// precede it, and its lines join the after-windows still open.
    #[verifier::rlimit(40)]
    pub fn matched(&mut self, lines: Vec<String>, line_idx: Option<u64>)
        requires
            old(self).wf(),
        ensures
            final(self).wf(),
            final(self).events() == old(self).events().push(
                SearchEvent::Match { lines, line_idx },
            ),
            final(self).spec_path() == old(self).spec_path(),
    {
        let ghost n = CONTEXT_LENGTH as nat;
        let ghost es0 = self.events@;
        let ghost ev = SearchEvent::Match { lines, line_idx };
        let ghost flat0 = emitted(es0);
        let ghost ms0 = match_sites(es0);
        let ghost flat = flat0 + lines@;
        let ghost l = flat0.len() as int;
        let ghost site = MatchSite { pos: l, lines: lines@, line_idx };
        let ghost ms = ms0.push(site);
        proof {
            lemma_push(es0, ev);
            lemma_sites_push(flat0, ms0, lines@, line_idx);
            assert(emitted(es0.push(ev)) == flat);
            assert(match_sites(es0.push(ev)) == ms);
        }
        let ghost inner0 = self.inner@;
        let len = self.inner.len();
        if len == 0 {
            let mut res = RgResult::default();
            res.line_idx = line_idx;
            res.matched = Some(lines);
            self.inner.push(res);
            proof {
                assert(self.inner@[0]@.before =~= before_window(flat, l, 0, n));
                assert(self.inner@[0]@.after =~= after_window(flat, site_end(site), n));
                assert(self.inner@[0]@ == record_at(flat, ms[0], n));
            }
        } else if self.inner[len - 1].is_matched() {
            let ghost last = ms0.last();
            let mut res = RgResult::default();
            proof {
                assert(res.before@ =~= before_window(flat0, l, l, n));
                assert(inner0[len - 1]@ == record_at(flat0, last, n));
            }
            res.copy_before_from_prev(&self.inner[len - 1], Ghost(flat0), Ghost(last.pos), Ghost(l), Ghost(l));
            res.line_idx = line_idx;
            let src = clone_lines(&lines);
            res.matched = Some(lines);
            self.inner.push(res);
            let ghost starts = ms0.map_values(|m: MatchSite| site_end(m));
            proof {
                assert forall|k: int, j: int| 0 <= k < j < len implies #[trigger] starts[k] <= #[trigger] starts[j] by {
                    assert(site_end(ms0[k]) <= ms0[j].pos);
                }
                assert forall|k: int| 0 <= k < len implies (#[trigger] self.inner@[k]).after@ == after_window(flat0, starts[k], n) by {
                    assert(self.inner@[k] == inner0[k]);
                }
            }
            Self::update_after(&mut self.inner, len, &src, Ghost(flat0), Ghost(starts));
            proof {
                assert forall|k: int| 0 <= k < ms.len() implies (
                #[trigger] self.inner@[k])@ == record_at(flat, ms[k], n) by {
                    lemma_before_extend(flat0, lines@, ms[k].pos, 0, n);
                    if k < len {
                        assert(starts[k] == site_end(ms[k]));
                        assert(ms[k] == ms0[k]);
                        assert(inner0[k]@ == record_at(flat0, ms0[k], n));
                    } else {
                        assert(self.inner@[k]@.after =~= after_window(flat, site_end(site), n));
                    }
                }
            }
        } else {
            let mut stub = self.inner.pop().unwrap();
            if len >= 2 {
                let ghost prev = ms0.last();
                proof {
                    assert(self.inner@[len - 2] == inner0[len - 2]);
                    assert(inner0[len - 2]@ == record_at(flat0, ms0[len - 2], n));
                }
                stub.copy_before_from_prev(
                    &self.inner[len - 2],
                    Ghost(flat0),
                    Ghost(prev.pos),
                    Ghost(l),
                    Ghost(site_end(prev) + n),
                );
            }
            stub.line_idx = line_idx;
            stub.matched = Some(lines);
            self.inner.push(stub);
            proof {
                assert forall|k: int| 0 <= k < ms.len() implies (
                #[trigger] self.inner@[k])@ == record_at(flat, ms[k], n) by {
                    lemma_before_extend(flat0, lines@, ms[k].pos, 0, n);
                    if k < len - 1 {
                        assert(self.inner@[k] == inner0[k]);
                        assert(ms[k] == ms0[k]);
                        assert(site_end(ms0[k]) <= site_end(ms0.last()));
                        lemma_after_extend(flat0, lines@, site_end(ms[k]), n);
                    } else {
                        assert(self.inner@[k]@.after =~= after_window(flat, site_end(site), n));
                    }
                }
            }
        }
        self.events = Ghost(es0.push(ev));
    }

    /// Consumes one event of the file, in file order.
    pub fn process(&mut self, event: SearchEvent)
        requires
            old(self).wf(),
        ensures
            final(self).wf(),
            final(self).events() == old(self).events().push(event),
            final(self).spec_path() == old(self).spec_path(),
    {
        match event {
            SearchEvent::Match { lines, line_idx } => self.matched(lines, line_idx),
            SearchEvent::Context { line } => self.context(line),
        }
    }

    /// The records equal the model's records of the events consumed.
    pub proof fn lemma_records_model(&self)
        requires
            self.wf(),
        ensures
            self.records() == records_of(self.events(), CONTEXT_LENGTH as nat),
    {
        assert(self.records() =~= records_of(self.events(), CONTEXT_LENGTH as nat));
    }

    /// Ends the file: a stub that never met a match is dropped, and the path
    /// and the records of the matches, in order, are handed out.
    pub fn into_raw(self) -> (r: (String, Vec<RgResult<CONTEXT_LENGTH>>))
        requires
            self.wf(),
        ensures
            r.0 == self.spec_path(),
            r.1@.map_values(|x: RgResult<CONTEXT_LENGTH>| x@) == records_of(
                self.events(),
                CONTEXT_LENGTH as nat,
            ),
    {
        let ghost ms = match_sites(self.events@);
        let ghost flat = emitted(self.events@);
        let mut inner = self.inner;
        let len = inner.len();
        if len > 0 && !inner[len - 1].is_matched() {
            inner.pop();
        }
        proof {
            if len > 0 && len == ms.len() {
                assert(inner@[len - 1]@ == record_at(flat, ms[len - 1], CONTEXT_LENGTH as nat));
            }
            assert(inner@.len() == ms.len());
            assert(inner@.map_values(|x: RgResult<CONTEXT_LENGTH>| x@) =~= records_of(
                self.events@,
                CONTEXT_LENGTH as nat,
            ));
        }
        (self.path, inner)
    }

    /// Appends `src` to the after-windows of the records before `end` that
    /// are still open, nearest first; record `k` holds the lines of `flat`
    /// from `starts[k]` on.
    fn update_after(
        target: &mut Vec<RgResult<CONTEXT_LENGTH>>,
        end: usize,
        src: &Vec<String>,
        Ghost(flat): Ghost<Seq<String>>,
        Ghost(starts): Ghost<Seq<int>>,
    )
        requires
            end <= old(target)@.len(),
            starts.len() == end,
            forall|k: int| 0 <= k < end ==> 0 <= #[trigger] starts[k] <= flat.len(),
            forall|k: int, j: int| 0 <= k < j < end ==> #[trigger] starts[k] <= #[trigger] starts[j],
            forall|k: int|
                0 <= k < end ==> (#[trigger] old(target)@[k]).after@ == after_window(
                    flat,
                    starts[k],
                    CONTEXT_LENGTH as nat,
                ),
        ensures
            final(target)@.len() == old(target)@.len(),
            forall|k: int|
                0 <= k < end ==> (#[trigger] final(target)@[k]).after@ == after_window(
                    flat + src@,
                    starts[k],
                    CONTEXT_LENGTH as nat,
                ),
            forall|k: int|
                0 <= k < end ==> (#[trigger] final(target)@[k]).before == old(target)@[k].before
                    && final(target)@[k].line_idx == old(target)@[k].line_idx
                    && final(target)@[k].matched == old(target)@[k].matched,
            forall|k: int|
                end <= k < old(target)@.len() ==> #[trigger] final(target)@[k] == old(target)@[k],
    {
        let ghost n = CONTEXT_LENGTH as nat;
        let mut k: usize = end;
        while k > 0
            invariant
                k <= end <= old(target)@.len(),
                target@.len() == old(target)@.len(),
                starts.len() == end,
                forall|i: int| 0 <= i < end ==> 0 <= #[trigger] starts[i] <= flat.len(),
                forall|i: int, j: int|
                    0 <= i < j < end ==> #[trigger] starts[i] <= #[trigger] starts[j],
                forall|i: int|
                    0 <= i < end ==> (#[trigger] old(target)@[i]).after@ == after_window(
                        flat,
                        starts[i],
                        n,
                    ),
                forall|i: int| 0 <= i < k ==> #[trigger] target@[i] == old(target)@[i],
                forall|i: int|
                    k <= i < end ==> (#[trigger] target@[i]).after@ == after_window(
                        flat + src@,
                        starts[i],
                        n,
                    ),
                forall|i: int|
                    0 <= i < end ==> (#[trigger] target@[i]).before == old(target)@[i].before
                        && target@[i].line_idx == old(target)@[i].line_idx
                        && target@[i].matched == old(target)@[i].matched,
                forall|i: int|
                    end <= i < old(target)@.len() ==> #[trigger] target@[i] == old(target)@[i],
            decreases k,
        {
            let idx = target[k - 1].after_none_start();
            if idx == CONTEXT_LENGTH {
                proof {
                    let last = starts[k - 1];
                    if CONTEXT_LENGTH > 0 {
                        assert(target@[k - 1].after@[n - 1] is Some);
                    }
                    assert(last + n <= flat.len());
                    assert forall|i: int| 0 <= i < k implies (#[trigger] target@[i]).after@
                        == after_window(flat + src@, starts[i], n) by {
                        assert(starts[i] <= last);
                        lemma_after_extend(flat, src@, starts[i], n);
                    }
                }
                return ;
            }
            target[k - 1].extend_after(src, Ghost(flat), Ghost(starts[k - 1]));
            k = k - 1;
        }
    }
}

} // verus!
