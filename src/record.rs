//! One match record: the matched lines and the fixed-size windows of
//! context lines before and after them.
use vstd::prelude::*;
use crate::model::{after_window, before_window};

verus! {

/// A match record. `before` is chronological, oldest slot first, with the
/// line nearest the match in the last slot; `after` starts with the line
/// nearest the match. `None` marks a slot whose line is unknown.
#[derive(Debug)]
pub struct RgResult<const CONTEXT_LENGTH: usize> {
    pub line_idx: Option<u64>,
    pub before: [Option<String>; CONTEXT_LENGTH],
    pub after: [Option<String>; CONTEXT_LENGTH],
    pub matched: Option<Vec<String>>,
}

/// The mathematical content of a record.
pub struct RecordView {
    pub line_idx: Option<u64>,
    pub before: Seq<Option<String>>,
    pub after: Seq<Option<String>>,
    pub matched: Option<Seq<String>>,
}

impl<const CONTEXT_LENGTH: usize> View for RgResult<CONTEXT_LENGTH> {
    type V = RecordView;

    open spec fn view(&self) -> RecordView {
        RecordView {
            line_idx: self.line_idx,
            before: self.before@,
            after: self.after@,
            matched: match self.matched {
                Some(v) => Some(v@),
                None => None,
            },
        }
    }
}

/// Known slots of an after-window form a prefix.
pub open spec fn after_contiguous(s: Seq<Option<String>>) -> bool {
    forall|i: int, j: int| 0 <= i < j < s.len() && (#[trigger] s[j]) is Some ==> (#[trigger] s[i]) is Some
}

/// Known slots of a before-window form a suffix.
pub open spec fn before_contiguous(s: Seq<Option<String>>) -> bool {
    forall|i: int, j: int| 0 <= i < j < s.len() && (#[trigger] s[i]) is Some ==> (#[trigger] s[j]) is Some
}

fn unknown_slot(_i: usize) -> (r: Option<String>)
    ensures
        r is None,
{
    None
}

/// Relies on std::array::from_fn: slot i of the result is what the given
/// function returns for i, and `unknown_slot` always returns `None`.
#[verifier::external_body]
fn empty_window<const N: usize>() -> (r: [Option<String>; N])
    ensures
        forall|i: int| 0 <= i < N ==> (#[trigger] r@[i]) is None,
{
    std::array::from_fn(unknown_slot)
}

fn clone_slot(s: &Option<String>) -> (r: Option<String>)
    ensures
        r == *s,
{
    match s {
        Some(t) => Some(t.clone()),
        None => None,
    }
}

impl<const CONTEXT_LENGTH: usize> Default for RgResult<CONTEXT_LENGTH> {
    /// A record with every slot unknown and nothing matched.
    fn default() -> (r: Self)
        ensures
            r.line_idx is None,
            r.matched is None,
            forall|i: int| 0 <= i < CONTEXT_LENGTH ==> (#[trigger] r.before@[i]) is None,
            forall|i: int| 0 <= i < CONTEXT_LENGTH ==> (#[trigger] r.after@[i]) is None,
    {
        RgResult { line_idx: None, before: empty_window(), after: empty_window(), matched: None }
    }
}

impl<const CONTEXT_LENGTH: usize> RgResult<CONTEXT_LENGTH> {
    /// Index of the first unknown slot of `after`, or the window's length
    /// when it is full.
    pub fn after_none_start(&self) -> (r: usize)
        ensures
            r <= CONTEXT_LENGTH,
            forall|i: int| 0 <= i < r ==> (#[trigger] self.after@[i]) is Some,
            r < CONTEXT_LENGTH ==> self.after@[r as int] is None,
    {
        let mut i: usize = 0;
        while i < CONTEXT_LENGTH
            invariant
                i <= CONTEXT_LENGTH,
                forall|j: int| 0 <= j < i ==> (#[trigger] self.after@[j]) is Some,
            decreases CONTEXT_LENGTH - i,
        {
            if self.after[i].is_none() {
                return i;
            }
            i = i + 1;
        }
        i
    }

    /// Index just past the last unknown slot of `before`, that is the number
    /// of unknown slots when the known ones form a suffix.
    pub fn before_none_end(&self) -> (r: usize)
        ensures
            r <= CONTEXT_LENGTH,
            forall|i: int| r <= i < CONTEXT_LENGTH ==> (#[trigger] self.before@[i]) is Some,
            r > 0 ==> self.before@[r - 1] is None,
    {
        let mut i: usize = CONTEXT_LENGTH;
        while i > 0
            invariant
                i <= CONTEXT_LENGTH,
                forall|j: int| i <= j < CONTEXT_LENGTH ==> (#[trigger] self.before@[j]) is Some,
            decreases i,
        {
            if self.before[i - 1].is_none() {
                return i;
            }
            i = i - 1;
        }
        i
    }

    /// Puts `context` in the first unknown slot of `after`; fails, changing
    /// nothing, when the window is full.
    pub fn append_to_after(&mut self, context: String) -> (r: Result<(), ()>)
        ensures
            r is Err <==> forall|i: int| 0 <= i < CONTEXT_LENGTH ==> (#[trigger] old(self).after@[i]) is Some,
            r is Err ==> *final(self) == *old(self),
            r is Ok ==> exists|c: int|
                0 <= c < CONTEXT_LENGTH && old(self).after@[c] is None && (forall|i: int|
                    0 <= i < c ==> (#[trigger] old(self).after@[i]) is Some) && final(self).after@
                    == old(self).after@.update(c, Some(context)),
            final(self).before == old(self).before,
            final(self).line_idx == old(self).line_idx,
            final(self).matched == old(self).matched,
    {
        let idx = self.after_none_start();
        if idx == CONTEXT_LENGTH {
            Err(())
        } else {
            let ghost ctx = context;
            self.after[idx] = Some(context);
            assert(self.after@ == old(self).after@.update(idx as int, Some(ctx)));
            Ok(())
        }
    }

    /// Adds `context` as the newest line of `before`, dropping the oldest
    /// slot to make room.
    pub fn append_to_before(&mut self, context: String)
        ensures
            final(self).before@ == if CONTEXT_LENGTH == 0 {
                old(self).before@
            } else {
                old(self).before@.drop_first().push(Some(context))
            },
            final(self).after == old(self).after,
            final(self).line_idx == old(self).line_idx,
            final(self).matched == old(self).matched,
    {
        if CONTEXT_LENGTH == 0 {
            return ;
        }
        let mut i: usize = 0;
        while i + 1 < CONTEXT_LENGTH
            invariant
                CONTEXT_LENGTH > 0,
                i < CONTEXT_LENGTH,
                forall|j: int| 0 <= j < i ==> self.before@[j] == old(self).before@[j + 1],
                forall|j: int| i <= j < CONTEXT_LENGTH ==> self.before@[j] == old(self).before@[j],
                self.after == old(self).after,
                self.line_idx == old(self).line_idx,
                self.matched == old(self).matched,
            decreases CONTEXT_LENGTH - i,
        {
            let s = clone_slot(&self.before[i + 1]);
            self.before[i] = s;
            i = i + 1;
        }
        self.before[CONTEXT_LENGTH - 1] = Some(context);
        assert(self.before@ =~= old(self).before@.drop_first().push(Some(context)));
    }

    /// Fills the unknown slots of `before` with the lines that precede its
    /// known ones, taken nearest first from `prev`: its known after-slots,
    /// then its matched lines, then its own before-window.
    ///
    /// `flat` stands for the lines emitted so far; `prev` matched at `p`,
    /// and this window ends at `end` and holds the lines from `lo` on.
    pub(crate) fn copy_before_from_prev(
        &mut self,
        prev: &Self,
        Ghost(flat): Ghost<Seq<String>>,
        Ghost(p): Ghost<int>,
        Ghost(end): Ghost<int>,
        Ghost(lo): Ghost<int>,
    )
        requires
            prev.matched is Some,
            0 <= p,
            p + prev.matched.unwrap()@.len() <= end <= flat.len(),
            forall|i: int|
                0 <= i < prev.matched.unwrap()@.len() ==> flat[p + i]
                    == #[trigger] prev.matched.unwrap()@[i],
            prev.before@ == before_window(flat, p, 0, CONTEXT_LENGTH as nat),
            prev.after@ == after_window(
                flat,
                p + prev.matched.unwrap()@.len(),
                CONTEXT_LENGTH as nat,
            ),
            old(self).before@ == before_window(flat, end, lo, CONTEXT_LENGTH as nat),
            lo == if end <= p + prev.matched.unwrap()@.len() + CONTEXT_LENGTH {
                end
            } else {
                p + prev.matched.unwrap()@.len() + CONTEXT_LENGTH
            },
            end >= p + prev.matched.unwrap()@.len() + CONTEXT_LENGTH || end == flat.len(),
        ensures
            final(self).before@ == before_window(flat, end, 0, CONTEXT_LENGTH as nat),
            final(self).after == old(self).after,
            final(self).line_idx == old(self).line_idx,
            final(self).matched == old(self).matched,
    {
        let ghost n = CONTEXT_LENGTH as int;
        let ghost target = before_window(flat, end, 0, CONTEXT_LENGTH as nat);
        let none_end = self.before_none_end();
        let a = prev.after_none_start();
        let lines = prev.matched.as_ref().unwrap();
        let m = lines.len();
        let ghost q = p + m;
        proof {
            assert forall|k: int| 0 <= k < m implies flat[p + k] == #[trigger] lines@[k] by {
                assert(flat[p + k] == prev.matched.unwrap()@[k]);
            }
            if a < CONTEXT_LENGTH {
                assert(prev.after@[a as int] is None);
                if a > 0 {
                    assert(prev.after@[a - 1] is Some);
                }
                assert(a == flat.len() - q);
            } else if a > 0 {
                assert(prev.after@[n - 1] is Some);
            }
            if none_end > 0 {
                assert(self.before@[none_end - 1] is None);
                assert(end - n + none_end == q + a);
            }
            if none_end < CONTEXT_LENGTH {
                assert(self.before@[none_end as int] is Some);
            }
        }
        let mut i: usize = 0;
        while i < none_end
            invariant
                none_end <= CONTEXT_LENGTH,
                i <= none_end,
                n == CONTEXT_LENGTH,
                q == p + m,
                target == before_window(flat, end, 0, CONTEXT_LENGTH as nat),
                prev.after@ == after_window(flat, q, CONTEXT_LENGTH as nat),
                prev.before@ == before_window(flat, p, 0, CONTEXT_LENGTH as nat),
                0 <= p,
                a <= CONTEXT_LENGTH,
                m == lines@.len(),
                *lines == prev.matched.unwrap(),
                forall|k: int| 0 <= k < m ==> flat[p + k] == #[trigger] lines@[k],
                none_end > 0 ==> end - n + none_end == q + a,
                a < n ==> a == flat.len() - q,
                a == n ==> flat.len() >= q + n,
                forall|j: int| none_end <= j < n ==> (#[trigger] old(self).before@[j]) is Some,
                forall|j: int| 0 <= j < i ==> self.before@[j] == target[j],
                forall|j: int| i <= j < n ==> self.before@[j] == old(self).before@[j],
                self.after == old(self).after,
                self.line_idx == old(self).line_idx,
                self.matched == old(self).matched,
            decreases none_end - i,
        {
            let back = none_end - i;
            let ghost pos = end - n + i;
            assert(pos == q + a - back);
            assert(pos >= 0 ==> target[i as int] == Some(flat[pos]));
            let slot;
            if back <= a {
                slot = clone_slot(&prev.after[a - back]);
                assert(prev.after@[a - back] == after_window(flat, q, CONTEXT_LENGTH as nat)[a - back]);
                assert(slot == target[i as int]);
            } else if back - a <= m {
                let k = m - (back - a);
                slot = Some(lines[k].clone());
                assert(flat[p + k] == lines@[k as int]);
                assert(slot == target[i as int]);
            } else {
                let k = CONTEXT_LENGTH - (back - a - m);
                slot = clone_slot(&prev.before[k]);
                assert(slot == prev.before@[k as int]);
                assert(prev.before@[k as int] == before_window(flat, p, 0, CONTEXT_LENGTH as nat)[k as int]);
                assert(slot == target[i as int]);
            }
            self.before[i] = slot;
            i = i + 1;
        }
        proof {
            assert forall|j: int| none_end <= j < n implies self.before@[j] == target[j] by {
                assert(old(self).before@[j] is Some);
            }
        }
        assert(self.before@ =~= target);
    }

    /// Fills the unknown slots of `after`, in order, with the lines of
    /// `src`, as many as fit. The window holds the lines of `flat` from
    /// `start` on.
    pub(crate) fn extend_after(
        &mut self,
        src: &Vec<String>,
        Ghost(flat): Ghost<Seq<String>>,
        Ghost(start): Ghost<int>,
    )
        requires
            0 <= start <= flat.len(),
            old(self).after@ == after_window(flat, start, CONTEXT_LENGTH as nat),
        ensures
            final(self).after@ == after_window(flat + src@, start, CONTEXT_LENGTH as nat),
            final(self).before == old(self).before,
            final(self).line_idx == old(self).line_idx,
            final(self).matched == old(self).matched,
    {
        let ghost n = CONTEXT_LENGTH as int;
        let ghost target = after_window(flat + src@, start, CONTEXT_LENGTH as nat);
        let idx = self.after_none_start();
        proof {
            if idx < CONTEXT_LENGTH {
                assert(self.after@[idx as int] is None);
                if idx > 0 {
                    assert(self.after@[idx - 1] is Some);
                }
                assert(idx == flat.len() - start);
            } else if idx > 0 {
                assert(self.after@[n - 1] is Some);
            }
        }
        let mut i: usize = 0;
        while i < src.len() && i < CONTEXT_LENGTH - idx
            invariant
                idx <= CONTEXT_LENGTH,
                n == CONTEXT_LENGTH,
                i <= CONTEXT_LENGTH - idx,
                i <= src@.len(),
                0 <= start <= flat.len(),
                idx < n ==> idx == flat.len() - start,
                idx == n ==> flat.len() >= start + n,
                target == after_window(flat + src@, start, CONTEXT_LENGTH as nat),
                old(self).after@ == after_window(flat, start, CONTEXT_LENGTH as nat),
                forall|j: int| 0 <= j < idx + i ==> self.after@[j] == target[j],
                forall|j: int| idx + i <= j < n ==> self.after@[j] == old(self).after@[j],
                self.before == old(self).before,
                self.line_idx == old(self).line_idx,
                self.matched == old(self).matched,
            decreases src@.len() - i,
        {
            let line = src[i].clone();
            assert((flat + src@)[start + idx + i] == src@[i as int]);
            self.after[idx + i] = Some(line);
            i = i + 1;
        }
        assert forall|j: int| idx + i <= j < n implies self.after@[j] == target[j] by {
            assert(old(self).after@[j] == after_window(flat, start, CONTEXT_LENGTH as nat)[j]);
            if idx < n {
                assert(i == src@.len());
            }
        }
        assert(self.after@ =~= target);
    }

    /// Whether the record holds a match (as opposed to leading context
    /// awaiting one).
    pub fn is_matched(&self) -> (r: bool)
        ensures
            r == self.matched is Some,
    {
        self.matched.is_some()
    }
}

} // verus!
