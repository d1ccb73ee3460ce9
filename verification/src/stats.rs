//! Pulls `/* ... */`-delimited "system stat" packets out of the log line
//! stream so they can be routed to a separate stats file/stream instead of
//! the regular console log.

use crate::text::{chars_of, find_from};
#[allow(unused_imports)]
use crate::text::{first_from, lemma_first_from, occurs_at, opt_text, stands_first, stands_nowhere};
#[allow(unused_imports)]
use vstd::string::StrSliceExecFns;
use vstd::prelude::*;

verus! {

/// What opens a stat packet.
pub open spec fn open_mark() -> Seq<char> {
    seq!['/', '*']
}

/// What closes a stat packet.
pub open spec fn close_mark() -> Seq<char> {
    seq!['*', '/']
}

/// What stands in `line` between the first opening mark and the first closing mark after
/// it; nothing where either is missing.
pub open spec fn stat_of(line: Seq<char>) -> Option<Seq<char>> {
    match first_from(line, open_mark(), 0) {
        Some(start) => match first_from(line, close_mark(), start + 2) {
            Some(end) => Some(line.subrange(start + 2, end)),
            None => None,
        },
        None => None,
    }
}

/// Tells stat packets from ordinary log lines.
pub struct StatsExtractor;

impl StatsExtractor {
    pub fn new() -> Self {
        StatsExtractor
    }

    /// If `line` contains a `/* ... */` block, returns its inner content
    /// (the line should then be treated as a stats packet, not a normal
    /// log line). Otherwise returns `None` and `line` is an ordinary line.
    pub fn feed_line(&self, line: &str) -> (stat: Option<String>)
        ensures
            opt_text(stat) == stat_of(line@),
    {
        let chars = chars_of(line);
        let open: Vec<char> = vec!['/', '*'];
        let close: Vec<char> = vec!['*', '/'];
        assert(open@ =~= open_mark());
        assert(close@ =~= close_mark());
        let start: usize = match find_from(&chars, &open, 0) {
            Some(start) => start,
            None => {
                return None;
            },
        };
        let end: usize = match find_from(&chars, &close, start + 2) {
            Some(end) => end,
            None => {
                return None;
            },
        };
        Some(line.substring_char(start + 2, end).to_string())
    }
}

impl Default for StatsExtractor {
    fn default() -> Self {
        Self::new()
    }
}

/// Whatever stands around it, a packet is found: `inner` comes back as it was enclosed,
/// if no opening mark comes before it and it holds no closing mark.
pub proof fn enclosed_packet_is_found(before: Seq<char>, inner: Seq<char>, after: Seq<char>)
    requires
        stands_nowhere(before, open_mark(), 0),
        stands_nowhere(inner, close_mark(), 0),
    ensures
        stat_of(before + open_mark() + inner + close_mark() + after) == Some(inner),
{
    let line = before + open_mark() + inner + close_mark() + after;
    let start = before.len() as int;
    let end = start + 2 + inner.len();
    assert(line.subrange(start, start + 2) =~= open_mark());
    assert forall|k: int| 0 <= k < start implies !occurs_at(line, open_mark(), k) by {
        if occurs_at(line, open_mark(), k) {
            let two = line.subrange(k, k + 2);
            assert(two[0] == '/' && two[1] == '*');
            assert(line[k + 1] == '*');
            assert(k + 1 < start);
            assert(before.subrange(k, k + 2) =~= two);
            assert(occurs_at(before, open_mark(), k));
        }
    }
    lemma_first_from(line, open_mark(), 0, start);
    assert(line.subrange(end, end + 2) =~= close_mark());
    assert forall|k: int| start + 2 <= k < end implies !occurs_at(line, close_mark(), k) by {
        if occurs_at(line, close_mark(), k) {
            let two = line.subrange(k, k + 2);
            assert(two[0] == '*' && two[1] == '/');
            assert(line[k + 1] == '/');
            assert(k + 1 < end);
            assert(inner.subrange(k - start - 2, k - start) =~= two);
            assert(occurs_at(inner, close_mark(), k - start - 2));
        }
    }
    lemma_first_from(line, close_mark(), start + 2, end);
    assert(line.subrange(start + 2, end) =~= inner);
}

/// A line without an opening mark is an ordinary line.
pub proof fn line_without_opening_mark_is_ordinary(line: Seq<char>)
    requires
        stands_nowhere(line, open_mark(), 0),
    ensures
        stat_of(line) is None,
{
}

/// What a packet holds is exactly what was enclosed, whatever stands around it: the first slash
/// and star open it, and the first star and slash after them close it.
pub proof fn packet_holds_what_was_enclosed(before: Seq<char>, inner: Seq<char>, after: Seq<char>)
    requires
        forall|k: int|
            0 <= k < before.len() - 1 ==> !(#[trigger] before[k] == '/' && before[k + 1] == '*'),
        forall|k: int|
            0 <= k < inner.len() - 1 ==> !(#[trigger] inner[k] == '*' && inner[k + 1] == '/'),
    ensures
        stat_of(before + seq!['/', '*'] + inner + seq!['*', '/'] + after) == Some(inner),
{
    assert forall|k: int| 0 <= k implies !occurs_at(before, open_mark(), k) by {
        if occurs_at(before, open_mark(), k) {
            let two = before.subrange(k, k + 2);
            assert(two[0] == before[k] && two[1] == before[k + 1]);
        }
    }
    assert forall|k: int| 0 <= k implies !occurs_at(inner, close_mark(), k) by {
        if occurs_at(inner, close_mark(), k) {
            let two = inner.subrange(k, k + 2);
            assert(two[0] == inner[k] && two[1] == inner[k + 1]);
        }
    }
    enclosed_packet_is_found(before, inner, after);
}

/// A line in which no slash is followed by a star is an ordinary line.
pub proof fn nothing_opened_is_ordinary(line: Seq<char>)
    requires
        forall|k: int|
            0 <= k < line.len() - 1 ==> !(#[trigger] line[k] == '/' && line[k + 1] == '*'),
    ensures
        stat_of(line) is None,
{
    assert forall|k: int| 0 <= k implies !occurs_at(line, open_mark(), k) by {
        if occurs_at(line, open_mark(), k) {
            let two = line.subrange(k, k + 2);
            assert(two[0] == line[k] && two[1] == line[k + 1]);
        }
    }
    line_without_opening_mark_is_ordinary(line);
}

/// A line that opens a packet and does not close it is an ordinary line: wherever the first
/// opening mark stands, no closing mark stands after it.
pub proof fn unclosed_packet_is_ordinary(line: Seq<char>, i: int)
    requires
        0 <= i < line.len() - 1,
        line[i] == '/' && line[i + 1] == '*',
        forall|k: int| 0 <= k < i ==> !(#[trigger] line[k] == '/' && line[k + 1] == '*'),
        forall|k: int|
            i + 2 <= k < line.len() - 1 ==> !(#[trigger] line[k] == '*' && line[k + 1] == '/'),
    ensures
        stat_of(line) is None,
{
    assert(line.subrange(i, i + 2) =~= open_mark());
    assert forall|k: int| 0 <= k < i implies !occurs_at(line, open_mark(), k) by {
        if occurs_at(line, open_mark(), k) {
            let two = line.subrange(k, k + 2);
            assert(two[0] == line[k] && two[1] == line[k + 1]);
        }
    }
    lemma_first_from(line, open_mark(), 0, i);
    assert forall|k: int| i + 2 <= k implies !occurs_at(line, close_mark(), k) by {
        if occurs_at(line, close_mark(), k) {
            let two = line.subrange(k, k + 2);
            assert(two[0] == line[k] && two[1] == line[k + 1]);
        }
    }
}

/// A packet that is found is what stands in the line between its first opening mark and the
/// first closing mark after that.
pub proof fn found_packet_stands_between_its_marks(line: Seq<char>)
    ensures
        stat_of(line) matches Some(inner) ==> exists|i: int, j: int|
            #![trigger line[i], line[j]]
            {
                &&& 0 <= i && i + 2 <= j < line.len() - 1
                &&& inner == line.subrange(i + 2, j)
                &&& line[i] == '/' && line[i + 1] == '*'
                &&& line[j] == '*' && line[j + 1] == '/'
                &&& forall|k: int|
                    0 <= k < i ==> !(#[trigger] line[k] == '/' && line[k + 1] == '*')
                &&& forall|k: int|
                    i + 2 <= k < j ==> !(#[trigger] line[k] == '*' && line[k + 1] == '/')
            },
{
    if stat_of(line) is Some {
        let i = first_from(line, open_mark(), 0)->0;
        let j = first_from(line, close_mark(), i + 2)->0;
        assert(stands_first(line, open_mark(), 0, i));
        assert(stands_first(line, close_mark(), i + 2, j));
        let open = line.subrange(i, i + 2);
        let close = line.subrange(j, j + 2);
        assert(open[0] == line[i] && open[1] == line[i + 1]);
        assert(close[0] == line[j] && close[1] == line[j + 1]);
        assert forall|k: int| 0 <= k < i implies !(#[trigger] line[k] == '/' && line[k + 1]
            == '*') by {
            if line[k] == '/' && line[k + 1] == '*' {
                assert(line.subrange(k, k + 2) =~= open_mark());
                assert(occurs_at(line, open_mark(), k));
            }
        }
        assert forall|k: int| i + 2 <= k < j implies !(#[trigger] line[k] == '*' && line[k + 1]
            == '/') by {
            if line[k] == '*' && line[k + 1] == '/' {
                assert(line.subrange(k, k + 2) =~= close_mark());
                assert(occurs_at(line, close_mark(), k));
            }
        }
    }
}

} // verus!
