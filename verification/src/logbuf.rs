//! An in-memory, size-bounded ring buffer of log lines, shared between the
//! background serial reader and anything that wants to query recent
//! history (the CLI's console mode, MCP tools) without having "been
//! watching" since the buffer's first line.

use crate::clock::system_now;
use std::collections::VecDeque;
use std::time::SystemTime;
use vstd::prelude::*;

verus! {

/// One line of the log.
#[derive(Debug, PartialEq, Eq)]
pub struct LogEntry {
    /// Monotonically increasing sequence number, stable across evictions,
    /// so callers can poll "everything since I last checked" via `since`.
    pub seq: u64,
    pub text: String,
    pub at: SystemTime,
}

/// What a log entry says.
pub struct LogEntryView {
    pub seq: u64,
    pub text: Seq<char>,
    pub at: SystemTime,
}

impl View for LogEntry {
    type V = LogEntryView;

    open spec fn view(&self) -> LogEntryView {
        LogEntryView { seq: self.seq, text: self.text@, at: self.at }
    }
}

impl Clone for LogEntry {
    fn clone(&self) -> (copy: Self)
        ensures
            copy@ == self@,
    {
        LogEntry { seq: self.seq, text: self.text.clone(), at: self.at }
    }
}

/// What each of these entries says.
pub open spec fn entry_views(entries: Seq<LogEntry>) -> Seq<LogEntryView> {
    entries.map_values(|e: LogEntry| e@)
}

/// The size of a text: the length of its UTF-8 encoding in bytes.
pub open spec fn byte_len(text: Seq<char>) -> nat {
    vstd::utf8::encode_utf8(text).len()
}

/// The size of all these entries' texts.
pub open spec fn total_bytes(entries: Seq<LogEntryView>) -> nat
    decreases entries.len(),
{
    if entries.len() == 0 {
        0
    } else {
        byte_len(entries[0].text) + total_bytes(entries.skip(1))
    }
}

/// These entries keep to both caps.
pub open spec fn fits(entries: Seq<LogEntryView>, max_lines: usize, max_bytes: usize) -> bool {
    entries.len() <= max_lines && total_bytes(entries) <= max_bytes
}

/// What is left of these entries when the oldest are dropped, one by one, until the rest
/// keeps to both caps.
pub open spec fn newest_that_fit(
    entries: Seq<LogEntryView>,
    max_lines: usize,
    max_bytes: usize,
) -> Seq<LogEntryView>
    decreases entries.len(),
{
    if entries.len() == 0 || fits(entries, max_lines, max_bytes) {
        entries
    } else {
        newest_that_fit(entries.skip(1), max_lines, max_bytes)
    }
}

/// The contents of a ring buffer.
pub struct RingView {
    /// The buffered entries, oldest first.
    pub entries: Seq<LogEntryView>,
    /// The sequence number of the next line.
    pub next_seq: u64,
    pub max_lines: usize,
    pub max_bytes: usize,
}

impl RingView {
    /// The buffer keeps to its caps, and what it holds are the latest lines, numbered
    /// without a gap.
    pub open spec fn wf(self) -> bool {
        &&& fits(self.entries, self.max_lines, self.max_bytes)
        &&& self.entries.len() <= self.next_seq
        &&& forall|i: int|
            0 <= i < self.entries.len() ==> (#[trigger] self.entries[i]).seq == self.next_seq
                - self.entries.len() + i
    }

    /// Line number `seq` is buffered.
    pub open spec fn holds(self, seq: int) -> bool {
        exists|i: int| 0 <= i < self.entries.len() && (#[trigger] self.entries[i]).seq == seq
    }

    /// Some line after number `seq` has been pushed and is no longer buffered.
    pub open spec fn has_gap_after(self, seq: u64) -> bool {
        exists|q: int| seq < q < self.next_seq && !#[trigger] self.holds(q)
    }

    /// The buffered entries that come after number `seq`, oldest first.
    pub open spec fn after(self, seq: u64) -> Seq<LogEntryView> {
        self.entries.filter(|e: LogEntryView| e.seq > seq)
    }

    /// The latest `n` entries, or all where there are fewer, oldest first.
    pub open spec fn latest(self, n: nat) -> Seq<LogEntryView> {
        if n >= self.entries.len() {
            self.entries
        } else {
            self.entries.skip(self.entries.len() - n)
        }
    }

    /// The buffer once a line has been pushed at time `at`.
    pub open spec fn pushed(self, text: Seq<char>, at: SystemTime) -> RingView {
        RingView {
            entries: newest_that_fit(
                self.entries.push(LogEntryView { seq: self.next_seq, text, at }),
                self.max_lines,
                self.max_bytes,
            ),
            next_seq: (self.next_seq + 1) as u64,
            ..self
        }
    }

    /// The buffer once these lines have been pushed, one after the other, at these times.
    pub open spec fn pushed_all(self, lines: Seq<Seq<char>>, at: Seq<SystemTime>) -> RingView
        decreases lines.len(),
    {
        if lines.len() == 0 {
            self
        } else {
            self.pushed_all(lines.drop_last(), at.drop_last()).pushed(lines.last(), at.last())
        }
    }

    /// The buffer once it has been cleared.
    pub open spec fn cleared(self) -> RingView {
        RingView { entries: Seq::empty(), ..self }
    }
}

/// A ring buffer of log lines, capped by line count and by byte size.
pub struct RingBuffer {
    entries: VecDeque<LogEntry>,
    next_seq: u64,
    max_lines: usize,
    max_bytes: usize,
    total_bytes: u128,
}

impl View for RingBuffer {
    type V = RingView;

    closed spec fn view(&self) -> RingView {
        RingView {
            entries: entry_views(self.entries@),
            next_seq: self.next_seq,
            max_lines: self.max_lines,
            max_bytes: self.max_bytes,
        }
    }
}

impl RingBuffer {
    /// The running total is the size of what is buffered.
    closed spec fn counted(&self) -> bool {
        self.total_bytes == total_bytes(self@.entries)
    }

    /// The buffer is as its methods leave it.
    pub closed spec fn wf(&self) -> bool {
        self.counted() && self@.wf()
    }

    /// A buffer as its methods leave it has well-formed contents.
    pub proof fn lemma_wf(&self)
        requires
            self.wf(),
        ensures
            self@.wf(),
    {
    }

    pub fn new(max_lines: usize, max_bytes: usize) -> (buffer: Self)
        ensures
            buffer.wf(),
            buffer@ == (RingView { entries: Seq::empty(), next_seq: 0, max_lines, max_bytes }),
    {
        let buffer = RingBuffer {
            entries: VecDeque::new(),
            next_seq: 0,
            max_lines,
            max_bytes,
            total_bytes: 0,
        };
        assert(buffer@.entries =~= Seq::empty());
        buffer
    }

    /// Appends a line, evicting the oldest entries if the line-count or
    /// byte-size cap is exceeded. Returns the new entry's sequence number.
    pub fn push(&mut self, text: String) -> (seq: u64)
        requires
            old(self).wf(),
            old(self)@.next_seq < u64::MAX,
        ensures
            final(self).wf(),
            seq == old(self)@.next_seq,
            exists|at: SystemTime| final(self)@ == #[trigger] old(self)@.pushed(text@, at),
    {
        let now = system_now();
        self.push_at(text, now)
    }

    /// Appends a line that came in at time `at`.
    pub fn push_at(&mut self, text: String, at: SystemTime) -> (seq: u64)
        requires
            old(self).wf(),
            old(self)@.next_seq < u64::MAX,
        ensures
            final(self).wf(),
            seq == old(self)@.next_seq,
            final(self)@ == old(self)@.pushed(text@, at),
    {
        let seq: u64 = self.next_seq;
        self.next_seq = self.next_seq + 1;
        let size: usize = text_size(text.as_str());
        self.total_bytes = self.total_bytes + size as u128;
        let entry = LogEntry { seq, text, at };
        self.entries.push_back(entry);
        proof {
            assert(self@.entries =~= old(self)@.entries.push(entry@));
            lemma_total_bytes_push(old(self)@.entries, entry@);
        }
        self.evict();
        proof {
            lemma_pushed_wf(old(self)@, entry@.text, at);
        }
        seq
    }

    fn evict(&mut self)
        requires
            old(self).counted(),
        ensures
            final(self).counted(),
            final(self)@ == (RingView {
                entries: newest_that_fit(
                    old(self)@.entries,
                    old(self)@.max_lines,
                    old(self)@.max_bytes,
                ),
                ..old(self)@
            }),
    {
        while self.entries.len() > self.max_lines || self.total_bytes > self.max_bytes as u128
            invariant
                self.counted(),
                self@.next_seq == old(self)@.next_seq,
                self@.max_lines == old(self)@.max_lines,
                self@.max_bytes == old(self)@.max_bytes,
                newest_that_fit(self@.entries, self.max_lines, self.max_bytes) == newest_that_fit(
                    old(self)@.entries,
                    self.max_lines,
                    self.max_bytes,
                ),
            decreases self.entries@.len(),
        {
            let ghost before = self@.entries;
            match self.entries.pop_front() {
                Some(e) => {
                    assert(before[0] == e@);
                    assert(self@.entries =~= before.skip(1));
                    let size: usize = text_size(e.text.as_str());
                    self.total_bytes = self.total_bytes - size as u128;
                },
                None => {
                    assert(before.len() == 0);
                    assert(false);
                },
            }
        }
    }

    /// The most recent `n` entries, oldest first.
    pub fn tail(&self, n: usize) -> (entries: Vec<LogEntry>)
        ensures
            entry_views(entries@) == self@.latest(n as nat),
    {
        let len: usize = self.entries.len();
        let skip: usize = if n >= len {
            0
        } else {
            len - n
        };
        let mut entries: Vec<LogEntry> = Vec::new();
        let mut i: usize = skip;
        while i < len
            invariant
                len == self.entries@.len(),
                skip <= i <= len,
                entry_views(entries@) == self@.entries.subrange(skip as int, i as int),
            decreases len - i,
        {
            let ghost before = entry_views(entries@);
            entries.push(self.entries[i].clone());
            assert(entry_views(entries@) =~= before.push(self@.entries[i as int]));
            assert(before.push(self@.entries[i as int]) =~= self@.entries.subrange(
                skip as int,
                i + 1,
            ));
            i += 1;
        }
        assert(self@.entries.subrange(skip as int, len as int) =~= self@.latest(n as nat));
        entries
    }

    /// All entries with `seq` strictly greater than `since_seq`.
    ///
    /// If `since_seq` is older than the oldest entry still buffered, the
    /// gap can't be filled in — the caller should treat the result as
    /// possibly missing history (see `is_truncated`).
    pub fn since(&self, since_seq: u64) -> (entries: Vec<LogEntry>)
        ensures
            entry_views(entries@) == self@.after(since_seq),
    {
        let len: usize = self.entries.len();
        let mut entries: Vec<LogEntry> = Vec::new();
        let mut i: usize = 0;
        let ghost newer = |e: LogEntryView| e.seq > since_seq;
        assert(self@.entries.take(0).filter(newer) =~= Seq::empty()) by {
            reveal(Seq::filter);
        }
        while i < len
            invariant
                len == self.entries@.len(),
                i <= len,
                newer == (|e: LogEntryView| e.seq > since_seq),
                entry_views(entries@) == self@.entries.take(i as int).filter(newer),
            decreases len - i,
        {
            let ghost before = entry_views(entries@);
            proof {
                lemma_filter_take(self@.entries, newer, i as int);
            }
            if self.entries[i].seq > since_seq {
                entries.push(self.entries[i].clone());
                assert(entry_views(entries@) =~= before.push(self@.entries[i as int]));
            }
            i += 1;
        }
        assert(self@.entries.take(len as int) =~= self@.entries);
        entries
    }

    /// True if `since_seq` predates what's still buffered, meaning some
    /// history between it and the oldest buffered entry was evicted.
    pub fn is_truncated(&self, since_seq: u64) -> (truncated: bool)
        requires
            self.wf(),
        ensures
            truncated == self@.has_gap_after(since_seq),
    {
        let oldest: u64 = match self.oldest_seq() {
            Some(seq) => seq,
            None => self.next_seq,
        };
        let truncated = since_seq < oldest && oldest - since_seq > 1;
        proof {
            if truncated {
                let q = since_seq + 1;
                assert(!self@.holds(q));
            } else {
                assert forall|q: int| since_seq < q < self@.next_seq implies #[trigger] self@.holds(
                    q,
                ) by {
                    let i = q - (self@.next_seq - self@.entries.len());
                    assert(self@.entries[i].seq == q);
                }
            }
        }
        truncated
    }

    /// The number of the newest buffered line.
    pub fn newest_seq(&self) -> (seq: Option<u64>)
        ensures
            seq == (if self@.entries.len() == 0 {
                None
            } else {
                Some(self@.entries.last().seq)
            }),
    {
        let len: usize = self.entries.len();
        if len == 0 {
            None
        } else {
            Some(self.entries[len - 1].seq)
        }
    }

    /// The number of the oldest buffered line.
    pub fn oldest_seq(&self) -> (seq: Option<u64>)
        ensures
            seq == (if self@.entries.len() == 0 {
                None
            } else {
                Some(self@.entries[0].seq)
            }),
    {
        if self.entries.len() == 0 {
            None
        } else {
            Some(self.entries[0].seq)
        }
    }

    /// The number that the next line will get.
    pub fn next_seq(&self) -> (seq: u64)
        ensures
            seq == self@.next_seq,
    {
        self.next_seq
    }

    pub fn len(&self) -> (n: usize)
        ensures
            n == self@.entries.len(),
    {
        self.entries.len()
    }

    pub fn is_empty(&self) -> (empty: bool)
        ensures
            empty == (self@.entries.len() == 0),
    {
        self.entries.len() == 0
    }

    pub fn capacity_lines(&self) -> (n: usize)
        ensures
            n == self@.max_lines,
    {
        self.max_lines
    }

    /// Clears all buffered entries (does not reset the sequence counter,
    /// so `seq` values remain stable/comparable across a clear).
    pub fn clear(&mut self) -> (n: usize)
        ensures
            final(self).wf(),
            n == old(self)@.entries.len(),
            final(self)@ == old(self)@.cleared(),
    {
        let n: usize = self.entries.len();
        self.entries.clear();
        self.total_bytes = 0;
        assert(self@.entries =~= Seq::empty());
        n
    }
}

/// The size of `text` in bytes.
fn text_size(text: &str) -> (n: usize)
    ensures
        n == byte_len(text@),
{
    text.as_bytes().len()
}

proof fn lemma_total_bytes_push(entries: Seq<LogEntryView>, e: LogEntryView)
    ensures
        total_bytes(entries.push(e)) == total_bytes(entries) + byte_len(e.text),
    decreases entries.len(),
{
    if entries.len() == 0 {
        assert(entries.push(e).skip(1) =~= Seq::empty());
        assert(total_bytes(entries.push(e).skip(1)) == 0);
    } else {
        assert(entries.push(e).skip(1) =~= entries.skip(1).push(e));
        lemma_total_bytes_push(entries.skip(1), e);
    }
}

pub(crate) proof fn lemma_filter_take<A>(s: Seq<A>, keep: spec_fn(A) -> bool, i: int)
    requires
        0 <= i < s.len(),
    ensures
        s.take(i + 1).filter(keep) == (if keep(s[i]) {
            s.take(i).filter(keep).push(s[i])
        } else {
            s.take(i).filter(keep)
        }),
{
    reveal(Seq::filter);
    assert(s.take(i + 1).drop_last() =~= s.take(i));
    assert(s.take(i + 1).last() == s[i]);
}

/// Eviction drops the oldest entries and no more than it must: what is kept is the tail of
/// what was there, keeps to both caps, and no longer tail does.
pub proof fn eviction_drops_no_more_than_it_must(
    entries: Seq<LogEntryView>,
    max_lines: usize,
    max_bytes: usize,
)
    ensures
        ({
            let kept = newest_that_fit(entries, max_lines, max_bytes);
            let dropped = entries.len() - kept.len();
            &&& kept.len() <= entries.len()
            &&& kept == entries.skip(dropped)
            &&& fits(kept, max_lines, max_bytes)
            &&& forall|k: int|
                0 <= k < dropped ==> !fits(#[trigger] entries.skip(k), max_lines, max_bytes)
        }),
    decreases entries.len(),
{
    let kept = newest_that_fit(entries, max_lines, max_bytes);
    if entries.len() == 0 || fits(entries, max_lines, max_bytes) {
        assert(entries.skip(0) =~= entries);
    } else {
        let rest = entries.skip(1);
        eviction_drops_no_more_than_it_must(rest, max_lines, max_bytes);
        let dropped = entries.len() - kept.len();
        assert(rest.skip(dropped - 1) =~= entries.skip(dropped));
        assert forall|k: int| 0 <= k < dropped implies !fits(
            #[trigger] entries.skip(k),
            max_lines,
            max_bytes,
        ) by {
            if k == 0 {
                assert(entries.skip(0) =~= entries);
            } else {
                assert(entries.skip(k) =~= rest.skip(k - 1));
            }
        }
    }
}

/// Filtering what is kept from position `k` on and not before is skipping the first `k`.
proof fn lemma_filter_is_skip<A>(s: Seq<A>, keep: spec_fn(A) -> bool, k: int)
    requires
        0 <= k <= s.len(),
        forall|i: int| 0 <= i < s.len() ==> (keep(#[trigger] s[i]) <==> i >= k),
    ensures
        s.filter(keep) == s.skip(k),
    decreases s.len(),
{
    reveal(Seq::filter);
    if s.len() > 0 {
        let front = s.drop_last();
        assert forall|i: int| 0 <= i < front.len() implies (keep(#[trigger] front[i]) <==> i
            >= k) by {
            assert(front[i] == s[i]);
        }
        assert(keep(s[s.len() - 1]) <==> s.len() - 1 >= k);
        if k == s.len() {
            lemma_filter_is_skip(front, keep, k - 1);
            assert(front.skip(k - 1) =~= s.skip(k));
        } else {
            lemma_filter_is_skip(front, keep, k);
            assert(front.skip(k).push(s.last()) =~= s.skip(k));
        }
    } else {
        assert(s.skip(k) =~= s);
    }
}

/// What comes after a number stands at the buffer's end.
proof fn lemma_after(v: RingView, seq: u64)
    requires
        v.wf(),
    ensures
        v.after(seq) == (if seq + 1 <= v.next_seq - v.entries.len() {
            v.entries
        } else if seq + 1 >= v.next_seq {
            Seq::empty()
        } else {
            v.entries.skip(seq + 1 - (v.next_seq - v.entries.len()))
        }),
{
    let base = v.next_seq - v.entries.len();
    let k = if seq + 1 <= base {
        0
    } else if seq + 1 >= v.next_seq {
        v.entries.len() as int
    } else {
        seq + 1 - base
    };
    lemma_filter_is_skip(v.entries, |e: LogEntryView| e.seq > seq, k);
    assert(v.entries.skip(0) =~= v.entries);
    assert(v.entries.skip(v.entries.len() as int) =~= Seq::empty());
}

/// Without a gap nothing is missed: the entries after number `seq` are then all lines
/// pushed after it, in order.
pub proof fn without_a_gap_nothing_is_missed(v: RingView, seq: u64)
    requires
        v.wf(),
        !v.has_gap_after(seq),
    ensures
        v.after(seq).len() == (if seq + 1 < v.next_seq {
            v.next_seq - seq - 1
        } else {
            0
        }),
        forall|i: int|
            0 <= i < v.after(seq).len() ==> (#[trigger] v.after(seq)[i]).seq == seq + 1 + i,
{
    lemma_after(v, seq);
    let base = v.next_seq - v.entries.len();
    if seq + 1 < base {
        assert(v.holds(seq + 1));
    }
}

/// A number that has a gap after it is one whose next line has left the buffer, so that
/// what comes after it is incomplete.
pub proof fn a_gap_means_lines_are_missing(v: RingView, seq: u64)
    requires
        v.wf(),
        v.has_gap_after(seq),
    ensures
        v.after(seq).len() < v.next_seq - seq - 1,
        !v.holds(seq + 1),
{
    lemma_after(v, seq);
    let base = v.next_seq - v.entries.len();
    let q = choose|q: int| seq < q < v.next_seq && !#[trigger] v.holds(q);
    if seq + 1 >= base {
        assert(v.entries[q - base].seq == q);
    }
    if v.holds(seq + 1) {
        assert(seq + 1 >= base);
    }
}

/// Entries for these lines, numbered from `first` on.
pub open spec fn numbered(
    first: int,
    lines: Seq<Seq<char>>,
    at: Seq<SystemTime>,
) -> Seq<LogEntryView> {
    Seq::new(
        lines.len(),
        |i: int| LogEntryView { seq: (first + i) as u64, text: lines[i], at: at[i] },
    )
}

/// Pushing keeps the contents well-formed.
proof fn lemma_pushed_wf(v: RingView, text: Seq<char>, at: SystemTime)
    requires
        v.wf(),
        v.next_seq < u64::MAX,
    ensures
        v.pushed(text, at).wf(),
{
    let all = v.entries.push(LogEntryView { seq: v.next_seq, text, at });
    eviction_drops_no_more_than_it_must(all, v.max_lines, v.max_bytes);
    let w = v.pushed(text, at);
    let dropped = all.len() - w.entries.len();
    assert forall|i: int| 0 <= i < w.entries.len() implies (#[trigger] w.entries[i]).seq
        == w.next_seq - w.entries.len() + i by {
        assert(w.entries[i] == all[dropped + i]);
    }
}

/// However many lines are pushed, the buffer stays well-formed, the numbers go on where
/// they were, and what is buffered is a tail of all that was there and all that came.
pub proof fn pushing_lines_keeps_the_latest(
    v: RingView,
    lines: Seq<Seq<char>>,
    at: Seq<SystemTime>,
)
    requires
        v.wf(),
        at.len() == lines.len(),
        v.next_seq + lines.len() <= u64::MAX,
    ensures
        ({
            let w = v.pushed_all(lines, at);
            let all = v.entries + numbered(v.next_seq as int, lines, at);
            &&& w.wf()
            &&& w.next_seq == v.next_seq + lines.len()
            &&& w.max_lines == v.max_lines
            &&& w.max_bytes == v.max_bytes
            &&& w.entries.len() <= all.len()
            &&& w.entries == all.skip(all.len() - w.entries.len())
        }),
    decreases lines.len(),
{
    let w = v.pushed_all(lines, at);
    let all = v.entries + numbered(v.next_seq as int, lines, at);
    if lines.len() == 0 {
        assert(all =~= v.entries);
        assert(all.skip(0) =~= all);
    } else {
        let u = v.pushed_all(lines.drop_last(), at.drop_last());
        pushing_lines_keeps_the_latest(v, lines.drop_last(), at.drop_last());
        lemma_pushed_wf(u, lines.last(), at.last());
        let earlier = v.entries + numbered(v.next_seq as int, lines.drop_last(), at.drop_last());
        let e = LogEntryView { seq: u.next_seq, text: lines.last(), at: at.last() };
        eviction_drops_no_more_than_it_must(u.entries.push(e), v.max_lines, v.max_bytes);
        assert(all =~= earlier.push(e));
        assert(w.entries =~= all.skip(all.len() - w.entries.len()));
    }
}

/// Pushing two batches one after the other is pushing both as one.
pub(crate) proof fn lemma_pushed_in_batches(
    v: RingView,
    first: Seq<Seq<char>>,
    at_first: Seq<SystemTime>,
    second: Seq<Seq<char>>,
    at_second: Seq<SystemTime>,
)
    requires
        at_first.len() == first.len(),
        at_second.len() == second.len(),
    ensures
        v.pushed_all(first, at_first).pushed_all(second, at_second) == v.pushed_all(
            first + second,
            at_first + at_second,
        ),
    decreases second.len(),
{
    if second.len() == 0 {
        assert(first + second =~= first);
        assert(at_first + at_second =~= at_first);
    } else {
        lemma_pushed_in_batches(v, first, at_first, second.drop_last(), at_second.drop_last());
        assert((first + second).drop_last() =~= first + second.drop_last());
        assert((at_first + at_second).drop_last() =~= at_first + at_second.drop_last());
    }
}

/// A caller who has read up to number `seen`, the newest there was, and then polls again,
/// gets exactly the lines pushed since, in order, unless the buffer reports a gap.
pub proof fn polling_yields_every_line_pushed_since(
    v: RingView,
    lines: Seq<Seq<char>>,
    at: Seq<SystemTime>,
    seen: u64,
)
    requires
        v.wf(),
        at.len() == lines.len(),
        v.next_seq + lines.len() <= u64::MAX,
        seen + 1 == v.next_seq,
        !v.pushed_all(lines, at).has_gap_after(seen),
    ensures
        v.pushed_all(lines, at).after(seen) == numbered(v.next_seq as int, lines, at),
{
    pushing_lines_keeps_the_latest(v, lines, at);
    let w = v.pushed_all(lines, at);
    let news = numbered(v.next_seq as int, lines, at);
    let all = v.entries + news;
    without_a_gap_nothing_is_missed(w, seen);
    lemma_after(w, seen);
    assert(w.after(seen) =~= news);
}

/// Clearing empties the buffer and leaves its numbering and caps alone, so that a caller
/// sees afterwards which lines are gone.
pub proof fn clearing_keeps_the_numbering(v: RingView, seq: u64)
    requires
        v.wf(),
    ensures
        v.cleared().wf(),
        v.cleared().next_seq == v.next_seq,
        v.cleared().after(seq).len() == 0,
        v.cleared().has_gap_after(seq) == (seq + 1 < v.next_seq),
{
    let w = v.cleared();
    assert(total_bytes(w.entries) == 0);
    lemma_after(w, seq);
    if seq + 1 < v.next_seq {
        assert(!w.holds(seq + 1));
    }
}

/// Something done to a ring buffer.
pub enum BufferStep {
    Push { text: Seq<char>, at: SystemTime },
    Clear,
}

/// The buffer once all this has been done to it.
pub open spec fn after_steps(v: RingView, steps: Seq<BufferStep>) -> RingView
    decreases steps.len(),
{
    if steps.len() == 0 {
        v
    } else {
        let before = after_steps(v, steps.drop_last());
        match steps.last() {
            BufferStep::Push { text, at } => before.pushed(text, at),
            BufferStep::Clear => before.cleared(),
        }
    }
}

/// How many lines these steps push.
pub open spec fn pushes_in(steps: Seq<BufferStep>) -> nat
    decreases steps.len(),
{
    if steps.len() == 0 {
        0
    } else {
        pushes_in(steps.drop_last()) + (if steps.last() is Push {
            1nat
        } else {
            0
        })
    }
}

/// Whatever is pushed to a new buffer, and whenever it is cleared, it keeps to both caps, its
/// lines are numbered one after the other, and the last has the number of the latest push,
/// as long as the numbers last.
pub proof fn buffer_keeps_to_its_caps(
    max_lines: usize,
    max_bytes: usize,
    steps: Seq<BufferStep>,
)
    requires
        pushes_in(steps) <= u64::MAX,
    ensures
        ({
            let start = RingView { entries: Seq::empty(), next_seq: 0, max_lines, max_bytes };
            let v = after_steps(start, steps);
            &&& v.wf()
            &&& v.next_seq == pushes_in(steps)
            &&& v.max_lines == max_lines && v.max_bytes == max_bytes
            &&& v.entries.len() <= max_lines
            &&& total_bytes(v.entries) <= max_bytes
            &&& forall|i: int, j: int|
                0 <= i <= j < v.entries.len() ==> (#[trigger] v.entries[j]).seq - (
                #[trigger] v.entries[i]).seq == j - i
            &&& v.entries.len() > 0 ==> v.entries.last().seq == pushes_in(steps) - 1
        }),
    decreases steps.len(),
{
    let start = RingView { entries: Seq::empty(), next_seq: 0, max_lines, max_bytes };
    if steps.len() > 0 {
        buffer_keeps_to_its_caps(max_lines, max_bytes, steps.drop_last());
        let before = after_steps(start, steps.drop_last());
        match steps.last() {
            BufferStep::Push { text, at } => {
                lemma_pushed_wf(before, text, at);
            },
            BufferStep::Clear => {
                clearing_keeps_the_numbering(before, 0);
            },
        }
    }
}

/// The latest `n` lines are as many as were asked for, or all where there are fewer; they are
/// the last lines pushed, in order, and the last of them is the newest line.
pub proof fn the_latest_are_the_last_pushed(v: RingView, n: nat)
    requires
        v.wf(),
    ensures
        ({
            let got = v.latest(n);
            let k = if n <= v.entries.len() {
                n
            } else {
                v.entries.len()
            };
            &&& got.len() == k
            &&& forall|i: int|
                0 <= i < k ==> {
                    &&& (#[trigger] got[i]).seq == v.next_seq - k + i
                    &&& got[i] == v.entries[v.entries.len() - k + i]
                }
            &&& k > 0 ==> got.last() == v.entries.last() && got.last().seq == v.next_seq - 1
        }),
{
}

/// What comes after a number is every buffered entry with a higher number, and nothing else,
/// in the order in which it was pushed.
pub proof fn what_comes_after_has_higher_numbers(v: RingView, seq: u64)
    requires
        v.wf(),
    ensures
        ({
            let got = v.after(seq);
            let left = v.entries.len() - got.len();
            &&& 0 <= left
            &&& forall|i: int| 0 <= i < got.len() ==> #[trigger] got[i] == v.entries[left + i]
            &&& forall|i: int|
                0 <= i < v.entries.len() ==> ((#[trigger] v.entries[i]).seq > seq <==> i >= left)
        }),
{
    lemma_after(v, seq);
}

/// There is a gap after a number exactly if the line that came next is older than all that is
/// buffered.
pub proof fn a_gap_is_a_line_that_is_gone(v: RingView, seq: u64)
    requires
        v.wf(),
    ensures
        v.has_gap_after(seq) <==> seq + 1 < v.next_seq - v.entries.len(),
{
    let base = v.next_seq - v.entries.len();
    if seq + 1 < base {
        assert(!v.holds(seq + 1));
    }
    if v.has_gap_after(seq) {
        let q = choose|q: int| seq < q < v.next_seq && !#[trigger] v.holds(q);
        if q >= base {
            assert(v.entries[q - base].seq == q);
        }
    }
}

/// A pushed line that fits the caps by itself is there afterwards, whole, as the newest entry,
/// with the next number; the entries before it are the latest of those that were there.
pub proof fn a_pushed_line_is_the_newest(v: RingView, text: Seq<char>, at: SystemTime)
    requires
        v.wf(),
        v.next_seq < u64::MAX,
    ensures
        ({
            let w = v.pushed(text, at);
            &&& w.next_seq == v.next_seq + 1
            &&& w.max_lines == v.max_lines && w.max_bytes == v.max_bytes
            &&& v.max_lines > 0 && vstd::utf8::encode_utf8(text).len() <= v.max_bytes
                ==> w.entries.len() > 0
            &&& w.entries.len() > 0 ==> {
                let kept = w.entries.len() - 1;
                &&& w.entries.last() == (LogEntryView { seq: v.next_seq, text, at })
                &&& kept <= v.entries.len()
                &&& w.entries.drop_last() == v.entries.skip(v.entries.len() - kept)
            }
        }),
{
    let e = LogEntryView { seq: v.next_seq, text, at };
    let all = v.entries.push(e);
    let w = v.pushed(text, at);
    eviction_drops_no_more_than_it_must(all, v.max_lines, v.max_bytes);
    let dropped = all.len() - w.entries.len();
    if v.max_lines > 0 && vstd::utf8::encode_utf8(text).len() <= v.max_bytes {
        let alone = all.skip(v.entries.len() as int);
        assert(alone =~= Seq::empty().push(e));
        lemma_total_bytes_push(Seq::empty(), e);
        assert(fits(alone, v.max_lines, v.max_bytes));
    }
    if w.entries.len() > 0 {
        let kept = w.entries.len() - 1;
        assert(w.entries.drop_last() =~= v.entries.skip(v.entries.len() - kept));
    }
}

/// Nothing is evicted while there is room: where the lines and their UTF-8 bytes, the new
/// line's counted in, keep to the caps, every entry stays. An entry leaves only if the entries
/// from it on do not keep to them.
pub proof fn nothing_leaves_while_there_is_room(v: RingView, text: Seq<char>, at: SystemTime)
    requires
        v.wf(),
        v.next_seq < u64::MAX,
    ensures
        ({
            let all = v.entries.push(LogEntryView { seq: v.next_seq, text, at });
            let w = v.pushed(text, at);
            &&& all.len() <= v.max_lines && total_bytes(all) <= v.max_bytes ==> w.entries == all
            &&& w.entries.len() <= v.max_lines
            &&& total_bytes(w.entries) <= v.max_bytes
            &&& forall|k: int|
                0 <= k < all.len() - w.entries.len() ==> (#[trigger] all.skip(k)).len()
                    > v.max_lines || total_bytes(all.skip(k)) > v.max_bytes
        }),
{
    let all = v.entries.push(LogEntryView { seq: v.next_seq, text, at });
    eviction_drops_no_more_than_it_must(all, v.max_lines, v.max_bytes);
    assert forall|k: int| 0 <= k < all.len() - v.pushed(text, at).entries.len() implies (
    #[trigger] all.skip(k)).len() > v.max_lines || total_bytes(all.skip(k)) > v.max_bytes by {
        assert(!fits(all.skip(k), v.max_lines, v.max_bytes));
    }
}

/// The size of entries is what their texts take in UTF-8, all together.
pub proof fn size_is_counted_in_utf8_bytes(entries: Seq<LogEntryView>, e: LogEntryView)
    ensures
        total_bytes(Seq::empty()) == 0,
        total_bytes(entries.push(e)) == total_bytes(entries) + vstd::utf8::encode_utf8(
            e.text,
        ).len(),
{
    lemma_total_bytes_push(entries, e);
}

/// Pushing lines is pushing each, one after the other.
pub proof fn lines_are_pushed_one_by_one(
    v: RingView,
    lines: Seq<Seq<char>>,
    at: Seq<SystemTime>,
    line: Seq<char>,
    now: SystemTime,
)
    requires
        at.len() == lines.len(),
    ensures
        v.pushed_all(Seq::empty(), Seq::empty()) == v,
        v.pushed_all(lines.push(line), at.push(now)) == v.pushed_all(lines, at).pushed(line, now),
{
    assert(lines.push(line).drop_last() =~= lines);
    assert(at.push(now).drop_last() =~= at);
}

/// Entries read as what they hold, one by one: number, text and time.
pub proof fn entries_read_as_they_are(entries: Seq<LogEntry>)
    ensures
        entry_views(entries).len() == entries.len(),
        forall|i: int|
            #![trigger entry_views(entries)[i]]
            0 <= i < entries.len() ==> {
                &&& entry_views(entries)[i].seq == entries[i].seq
                &&& entry_views(entries)[i].text == entries[i].text@
                &&& entry_views(entries)[i].at == entries[i].at
            },
{
}

/// Clearing takes all entries away and nothing else.
pub proof fn clearing_takes_the_entries_only(v: RingView)
    ensures
        v.cleared().entries.len() == 0,
        v.cleared().next_seq == v.next_seq,
        v.cleared().max_lines == v.max_lines,
        v.cleared().max_bytes == v.max_bytes,
{
}

impl RingBuffer {
    /// A buffer keeps to its caps, and its entries are the latest lines, numbered without a
    /// gap.
    pub proof fn buffered_lines_are_the_latest(&self)
        requires
            self.wf(),
        ensures
            self@.entries.len() <= self@.max_lines,
            total_bytes(self@.entries) <= self@.max_bytes,
            self@.entries.len() <= self@.next_seq,
            forall|i: int|
                0 <= i < self@.entries.len() ==> (#[trigger] self@.entries[i]).seq
                    == self@.next_seq - self@.entries.len() + i,
    {
        self.lemma_wf();
    }
}

} // verus!
