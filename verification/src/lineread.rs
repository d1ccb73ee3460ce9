//! Splits a stream of raw byte chunks (as read from a serial port) into
//! complete lines, buffering any partial trailing line across calls.

use vstd::prelude::*;

verus! {

/// The byte that ends a line.
pub const NEWLINE: u8 = 10;

/// The byte that may stand before a line's end and is then not part of the line.
pub const CARRIAGE_RETURN: u8 = 13;

/// `s` holds a complete line.
pub open spec fn has_newline(s: Seq<u8>) -> bool {
    exists|i: int| 0 <= i < s.len() && s[i] == NEWLINE
}

/// How many bytes stand in `s` before its first line end, or in all where it has none.
pub open spec fn first_line_len(s: Seq<u8>) -> nat
    decreases s.len(),
{
    if s.len() == 0 || s[0] == NEWLINE {
        0
    } else {
        1 + first_line_len(s.skip(1))
    }
}

/// The complete lines of `s` in order, each without its line end.
pub open spec fn complete_lines(s: Seq<u8>) -> Seq<Seq<u8>>
    decreases s.len(),
{
    let n = first_line_len(s);
    if n >= s.len() {
        Seq::empty()
    } else {
        seq![s.take(n as int)] + complete_lines(s.skip(n as int + 1))
    }
}

/// What stands in `s` after its last line end.
pub open spec fn partial_line(s: Seq<u8>) -> Seq<u8>
    decreases s.len(),
{
    let n = first_line_len(s);
    if n >= s.len() {
        s
    } else {
        partial_line(s.skip(n as int + 1))
    }
}

/// `line` without a carriage return at its end.
pub open spec fn strip_cr(line: Seq<u8>) -> Seq<u8> {
    if line.len() > 0 && line.last() == CARRIAGE_RETURN {
        line.drop_last()
    } else {
        line
    }
}

/// The text that `String::from_utf8_lossy` makes of bytes that are not valid UTF-8.
pub uninterp spec fn utf8_lossy(bytes: Seq<u8>) -> Seq<char>;

/// The text of `bytes`: what they encode where they are valid UTF-8, else what the
/// lossy decoding makes of them.
pub open spec fn decoded(bytes: Seq<u8>) -> Seq<char> {
    if vstd::utf8::valid_utf8(bytes) {
        vstd::utf8::decode_utf8(bytes)
    } else {
        utf8_lossy(bytes)
    }
}

/// The text of each of these lines.
pub open spec fn line_texts(lines: Seq<Seq<u8>>) -> Seq<Seq<char>> {
    lines.map_values(|line: Seq<u8>| decoded(strip_cr(line)))
}

/// The text that each of these strings holds.
pub open spec fn texts(strings: Seq<String>) -> Seq<Seq<char>> {
    strings.map_values(|s: String| s@)
}

/// `String::from_utf8_lossy`: bytes that are valid UTF-8 come back as the text that
/// they encode. What comes back for other bytes, with a replacement character for what
/// cannot be decoded, is left to the name `utf8_lossy`.
#[verifier::external_body]
fn decode_lossy(bytes: &[u8]) -> (text: String)
    ensures
        text@ == (if vstd::utf8::valid_utf8(bytes@) {
            vstd::utf8::decode_utf8(bytes@)
        } else {
            utf8_lossy(bytes@)
        }),
{
    String::from_utf8_lossy(bytes).into_owned()
}

/// Takes chunks of bytes in and gives complete lines back.
pub struct LineSplitter {
    buf: Vec<u8>,
}

/// The bytes that wait for their line end.
impl View for LineSplitter {
    type V = Seq<u8>;

    closed spec fn view(&self) -> Seq<u8> {
        self.buf@
    }
}

impl Default for LineSplitter {
    fn default() -> (splitter: Self)
        ensures
            splitter@ == Seq::<u8>::empty(),
    {
        LineSplitter { buf: Vec::new() }
    }
}

impl LineSplitter {
    pub fn new() -> (splitter: Self)
        ensures
            splitter@ == Seq::<u8>::empty(),
    {
        Self::default()
    }

    /// Feed a chunk of raw bytes and get back any complete lines it
    /// produced. Bytes after the last `\n` are held until the next call.
    /// A trailing `\r` before `\n` is stripped (CRLF line endings).
    pub fn feed(&mut self, chunk: &[u8]) -> (lines: Vec<String>)
        ensures
            final(self)@ == partial_line(old(self)@ + chunk@),
            texts(lines@) == line_texts(complete_lines(old(self)@ + chunk@)),
    {
        self.buf.extend_from_slice(chunk);
        let ghost all = old(self)@ + chunk@;
        assert(self.buf@ =~= all);
        let mut lines: Vec<String> = Vec::new();
        let mut start: usize = 0;
        assert(all.skip(0) =~= all);
        loop
            invariant
                self.buf@ == all,
                start <= all.len(),
                partial_line(all.skip(start as int)) == partial_line(all),
                texts(lines@) + line_texts(complete_lines(all.skip(start as int))) == line_texts(
                    complete_lines(all),
                ),
            ensures
                self.buf@ == all,
                start <= all.len(),
                all.skip(start as int) == partial_line(all),
                texts(lines@) == line_texts(complete_lines(all)),
            decreases all.len() - start,
        {
            let end = line_end(&self.buf, start);
            let ghost rest = all.skip(start as int);
            if end == self.buf.len() {
                assert(line_texts(complete_lines(rest)) =~= Seq::<Seq<char>>::empty());
                assert(texts(lines@) =~= line_texts(complete_lines(all)));
                break;
            }
            let mut text_end: usize = end;
            if start < end && self.buf[end - 1] == CARRIAGE_RETURN {
                text_end = end - 1;
            }
            let ghost line = rest.take(end - start);
            assert(all.subrange(start as int, text_end as int) =~= strip_cr(line));
            let ghost before = texts(lines@);
            lines.push(decode_lossy(&self.buf.as_slice()[start..text_end]));
            proof {
                assert(rest.skip(end - start + 1) =~= all.skip(end + 1));
                assert(complete_lines(rest) == seq![line] + complete_lines(all.skip(end + 1)));
                assert(line_texts(complete_lines(rest)) =~= seq![decoded(strip_cr(line))]
                    + line_texts(complete_lines(all.skip(end + 1))));
                assert(texts(lines@) =~= before.push(decoded(strip_cr(line))));
                assert(texts(lines@) + line_texts(complete_lines(all.skip(end + 1)))
                    =~= before + line_texts(complete_lines(rest)));
            }
            start = end + 1;
        }
        self.buf = self.buf.split_off(start);
        lines
    }
}

/// Where the line that starts at `start` ends: the position of the first line end from
/// there on, or the length of `buf` where there is none.
fn line_end(buf: &Vec<u8>, start: usize) -> (end: usize)
    requires
        start <= buf.len(),
    ensures
        start <= end <= buf.len(),
        end - start == first_line_len(buf@.skip(start as int)),
{
    let mut i: usize = start;
    while i < buf.len() && buf[i] != NEWLINE
        invariant
            start <= i <= buf.len(),
            forall|k: int| start <= k < i ==> buf@[k] != NEWLINE,
        decreases buf.len() - i,
    {
        i += 1;
    }
    proof {
        lemma_first_line_len_is(buf@.skip(start as int), (i - start) as nat);
    }
    i
}

/// Where the first line of `s` ends.
proof fn lemma_first_line_len(s: Seq<u8>)
    ensures
        first_line_len(s) <= s.len(),
        forall|i: int| 0 <= i < first_line_len(s) ==> s[i] != NEWLINE,
        first_line_len(s) < s.len() ==> s[first_line_len(s) as int] == NEWLINE,
    decreases s.len(),
{
    if s.len() != 0 && s[0] != NEWLINE {
        lemma_first_line_len(s.skip(1));
        assert forall|i: int| 0 <= i < first_line_len(s) implies s[i] != NEWLINE by {
            if i > 0 {
                assert(s[i] == s.skip(1)[i - 1]);
            }
        }
    }
}

/// The first `n` bytes of `s` hold no line end, and one comes next or nothing does: then
/// `n` is the length of its first line.
proof fn lemma_first_line_len_is(s: Seq<u8>, n: nat)
    requires
        n <= s.len(),
        forall|i: int| 0 <= i < n ==> s[i] != NEWLINE,
        n < s.len() ==> s[n as int] == NEWLINE,
    ensures
        first_line_len(s) == n,
{
    lemma_first_line_len(s);
    let m = first_line_len(s);
    if m < n {
        assert(s[m as int] != NEWLINE);
    }
    if n < m {
        assert(s[n as int] != NEWLINE);
    }
}

/// Nothing is lost at a chunk's edge: feeding `first` and then `second` gives the lines,
/// and leaves the waiting bytes, that feeding both as one chunk does. `waiting` is what
/// the splitter held before.
pub proof fn feeding_in_pieces_changes_nothing(waiting: Seq<u8>, first: Seq<u8>, second: Seq<u8>)
    ensures
        line_texts(complete_lines(waiting + first)) + line_texts(
            complete_lines(partial_line(waiting + first) + second),
        ) == line_texts(complete_lines(waiting + (first + second))),
        partial_line(partial_line(waiting + first) + second) == partial_line(
            waiting + (first + second),
        ),
{
    let a = waiting + first;
    lemma_split_appended(a, second);
    assert(a + second =~= waiting + (first + second));
    let left = complete_lines(a);
    let right = complete_lines(partial_line(a) + second);
    assert(line_texts(left + right) =~= line_texts(left) + line_texts(right));
}

proof fn lemma_split_appended(a: Seq<u8>, b: Seq<u8>)
    ensures
        complete_lines(a + b) == complete_lines(a) + complete_lines(partial_line(a) + b),
        partial_line(a + b) == partial_line(partial_line(a) + b),
    decreases a.len(),
{
    let n = first_line_len(a);
    lemma_first_line_len(a);
    if n >= a.len() {
        assert(complete_lines(a) + complete_lines(a + b) =~= complete_lines(a + b));
    } else {
        lemma_first_line_len_is(a + b, n);
        let rest = a.skip(n as int + 1);
        assert((a + b).skip(n as int + 1) =~= rest + b);
        assert((a + b).take(n as int) =~= a.take(n as int));
        lemma_split_appended(rest, b);
        assert(complete_lines(a + b) =~= complete_lines(a) + complete_lines(
            partial_line(a) + b,
        ));
    }
}

/// There is no complete line without a line end.
pub(crate) proof fn lemma_no_newline_no_lines(s: Seq<u8>)
    requires
        !has_newline(s),
    ensures
        complete_lines(s) == Seq::<Seq<u8>>::empty(),
        partial_line(s) == s,
{
    lemma_first_line_len(s);
    if first_line_len(s) < s.len() {
        assert(s[first_line_len(s) as int] == NEWLINE);
    }
}

/// Every complete line takes at least the one byte that ends it.
proof fn lemma_line_count(s: Seq<u8>)
    ensures
        complete_lines(s).len() <= s.len(),
    decreases s.len(),
{
    let n = first_line_len(s);
    if n < s.len() {
        lemma_line_count(s.skip(n as int + 1));
    }
}

/// Where no line end was waiting, `bytes` complete no more lines than there are of them.
pub(crate) proof fn lemma_few_lines(waiting: Seq<u8>, bytes: Seq<u8>)
    requires
        !has_newline(waiting),
    ensures
        complete_lines(waiting + bytes).len() <= bytes.len(),
{
    let s = waiting + bytes;
    let n = first_line_len(s);
    lemma_first_line_len(s);
    if n < s.len() {
        if n < waiting.len() {
            assert(waiting[n as int] == NEWLINE);
        }
        lemma_line_count(s.skip(n as int + 1));
    }
}

/// These lines, each with its line end, one after the other.
pub open spec fn with_line_ends(lines: Seq<Seq<u8>>) -> Seq<u8>
    decreases lines.len(),
{
    if lines.len() == 0 {
        Seq::empty()
    } else {
        lines[0] + seq![NEWLINE] + with_line_ends(lines.skip(1))
    }
}

/// Every byte is accounted for: the complete lines with their line ends, and then the
/// partial line, are the bytes that came in, and no line holds a line end.
pub proof fn splitting_keeps_every_byte(s: Seq<u8>)
    ensures
        with_line_ends(complete_lines(s)) + partial_line(s) == s,
        !has_newline(partial_line(s)),
        forall|i: int|
            0 <= i < complete_lines(s).len() ==> !has_newline(#[trigger] complete_lines(s)[i]),
    decreases s.len(),
{
    let n = first_line_len(s);
    lemma_first_line_len(s);
    if n >= s.len() {
        assert(with_line_ends(complete_lines(s)) + partial_line(s) =~= s);
    } else {
        let rest = s.skip(n as int + 1);
        splitting_keeps_every_byte(rest);
        let line = s.take(n as int);
        let lines = complete_lines(s);
        assert(lines.skip(1) =~= complete_lines(rest));
        assert(with_line_ends(lines) + partial_line(s) =~= line + seq![NEWLINE] + (with_line_ends(
            complete_lines(rest),
        ) + partial_line(rest)));
        assert(line + seq![NEWLINE] + rest =~= s);
        assert forall|i: int| 0 <= i < lines.len() implies !has_newline(#[trigger] lines[i]) by {
            if i > 0 {
                assert(lines[i] == complete_lines(rest)[i - 1]);
            }
        }
    }
}

/// The bytes that a board sends for these lines of text, with `\n` at each line's end, or
/// `\r\n` where `crlf` holds.
pub open spec fn sent(lines: Seq<Seq<char>>, crlf: bool) -> Seq<u8>
    decreases lines.len(),
{
    if lines.len() == 0 {
        Seq::empty()
    } else {
        vstd::utf8::encode_utf8(lines[0]) + line_ending(crlf) + sent(lines.skip(1), crlf)
    }
}

pub open spec fn line_ending(crlf: bool) -> Seq<u8> {
    if crlf {
        seq![CARRIAGE_RETURN, NEWLINE]
    } else {
        seq![NEWLINE]
    }
}

/// A text that can be sent as one line: it holds no line end, and does not itself end in
/// what would be taken for part of one.
pub open spec fn is_line(text: Seq<char>, crlf: bool) -> bool {
    &&& !text.contains('\n')
    &&& !crlf && text.len() > 0 ==> text.last() != '\r'
}

/// Lines of text come back as they were sent, whichever line ending the board uses.
pub proof fn sent_lines_come_back(lines: Seq<Seq<char>>, crlf: bool)
    requires
        forall|i: int| 0 <= i < lines.len() ==> is_line(#[trigger] lines[i], crlf),
    ensures
        line_texts(complete_lines(sent(lines, crlf))) == lines,
        partial_line(sent(lines, crlf)) == Seq::<u8>::empty(),
    decreases lines.len(),
{
    if lines.len() == 0 {
        assert(line_texts(complete_lines(sent(lines, crlf))) =~= lines);
    } else {
        let text = lines[0];
        let bytes = vstd::utf8::encode_utf8(text);
        let rest = lines.skip(1);
        assert(is_line(text, crlf));
        assert forall|i: int| 0 <= i < rest.len() implies is_line(#[trigger] rest[i], crlf) by {
            assert(rest[i] == lines[i + 1]);
        }
        sent_lines_come_back(rest, crlf);
        let s = sent(lines, crlf);
        let line = if crlf {
            bytes + seq![CARRIAGE_RETURN]
        } else {
            bytes
        };
        let n = line.len();
        lemma_control_bytes(text);
        assert forall|i: int| 0 <= i < n implies s[i] != NEWLINE by {
            if i < bytes.len() {
                assert(s[i] == bytes[i]);
            }
        }
        lemma_first_line_len_is(s, n);
        assert(s.take(n as int) =~= line);
        assert(s.skip(n as int + 1) =~= sent(rest, crlf));
        assert(strip_cr(line) =~= bytes);
        vstd::utf8::encode_utf8_valid_utf8(text);
        vstd::utf8::encode_utf8_decode_utf8(text);
        assert(complete_lines(s) == seq![line] + complete_lines(sent(rest, crlf)));
        assert(line_texts(complete_lines(s)) =~= seq![text] + line_texts(
            complete_lines(sent(rest, crlf)),
        ));
        assert(seq![text] + rest =~= lines);
    }
}

/// In UTF-8 the bytes of a line end stand for nothing but a line end.
proof fn lemma_control_bytes(text: Seq<char>)
    requires
        !text.contains('\n'),
    ensures
        forall|i: int|
            0 <= i < vstd::utf8::encode_utf8(text).len() ==> vstd::utf8::encode_utf8(text)[i]
                != NEWLINE,
        text.len() > 0 && text.last() != '\r' ==> vstd::utf8::encode_utf8(text).len() > 0
            && vstd::utf8::encode_utf8(text).last() != CARRIAGE_RETURN,
        text.len() == 0 ==> vstd::utf8::encode_utf8(text).len() == 0,
    decreases text.len(),
{
    if text.len() > 0 {
        let rest = text.drop_first();
        let first = text[0];
        let head = vstd::utf8::encode_scalar(first as u32);
        let tail = vstd::utf8::encode_utf8(rest);
        assert(text.contains(text[0]));
        assert(!rest.contains('\n')) by {
            if rest.contains('\n') {
                let k = choose|k: int| 0 <= k < rest.len() && rest[k] == '\n';
                assert(text[k + 1] == '\n');
            }
        }
        lemma_control_bytes(rest);
        vstd::utf8::char_is_scalar(first);
        lemma_control_bytes_of_scalar(first as u32);
        vstd::utf8::char_u32_cast(first, first as u32);
        assert(10u32 as char == '\n' && 13u32 as char == '\r');
        let all = vstd::utf8::encode_utf8(text);
        assert(all == head + tail);
        assert forall|i: int| 0 <= i < all.len() implies all[i] != NEWLINE by {
            if i < head.len() {
                assert(all[i] == head[i]);
            } else {
                assert(all[i] == tail[i - head.len()]);
            }
        }
        if rest.len() > 0 {
            assert(rest.last() == text.last());
            assert(tail.len() > 0 ==> all.last() == tail.last());
        } else {
            assert(all.last() == head.last());
        }
    }
}

proof fn lemma_control_bytes_of_scalar(c: u32)
    requires
        vstd::utf8::is_scalar(c),
    ensures
        vstd::utf8::encode_scalar(c).len() > 0,
        c != 10 ==> forall|i: int|
            0 <= i < vstd::utf8::encode_scalar(c).len() ==> vstd::utf8::encode_scalar(c)[i]
                != NEWLINE,
        c != 13 ==> vstd::utf8::encode_scalar(c).last() != CARRIAGE_RETURN,
{
    assert(c <= 0x7f ==> (c & 0x7f) as u8 == c) by (bit_vector);
    assert(0xC0 | ((c >> 6) & 0x1F) as u8 >= 0x80) by (bit_vector);
    assert(0xE0 | ((c >> 12) & 0x0F) as u8 >= 0x80) by (bit_vector);
    assert(0xF0 | ((c >> 18) & 0x7) as u8 >= 0x80) by (bit_vector);
    assert(0x80 | (c & 0x3F) as u8 >= 0x80) by (bit_vector);
    assert(0x80 | ((c >> 6) & 0x3F) as u8 >= 0x80) by (bit_vector);
    assert(0x80 | ((c >> 12) & 0x3F) as u8 >= 0x80) by (bit_vector);
}

/// Bytes without a line feed are one line once a line feed ends them, and wait as they are
/// until then.
pub proof fn a_line_feed_ends_a_line(line: Seq<u8>)
    requires
        forall|i: int| 0 <= i < line.len() ==> #[trigger] line[i] != 10u8,
    ensures
        complete_lines(line.push(10u8)) == seq![line],
        partial_line(line.push(10u8)) == Seq::<u8>::empty(),
        complete_lines(line) == Seq::<Seq<u8>>::empty(),
        partial_line(line) == line,
{
    let s = line.push(10u8);
    lemma_first_line_len_is(s, line.len());
    assert(s.take(line.len() as int) =~= line);
    let rest = Seq::<u8>::empty();
    assert(s.skip(line.len() as int + 1) =~= rest);
    assert(first_line_len(rest) == 0);
    assert(complete_lines(rest) =~= Seq::empty());
    assert(partial_line(rest) == rest);
    assert(complete_lines(s) =~= seq![line]);
    lemma_first_line_len_is(line, line.len());
}

/// What comes after a line feed makes lines of its own: it neither changes the lines before
/// it nor is changed by them.
pub proof fn lines_stand_for_themselves(a: Seq<u8>, b: Seq<u8>)
    ensures
        complete_lines(a.push(10u8) + b) == complete_lines(a.push(10u8)) + complete_lines(b),
        partial_line(a.push(10u8) + b) == partial_line(b),
{
    let s = a.push(10u8);
    splitting_keeps_every_byte(s);
    let rest = partial_line(s);
    if rest.len() > 0 {
        let front = with_line_ends(complete_lines(s));
        assert((front + rest).last() == s.last());
        assert(rest[rest.len() - 1] == NEWLINE);
        assert(has_newline(rest));
    }
    assert(rest =~= Seq::empty());
    lemma_split_appended(s, b);
    assert(rest + b =~= b);
}

/// A line reads as its bytes do: without one carriage return at its end, where there is one,
/// as the text that they encode where they are valid UTF-8, and else as the lossy decoding
/// has it. It reads so whatever lines stand beside it.
pub proof fn a_line_reads_as_its_bytes(line: Seq<u8>, others: Seq<Seq<u8>>)
    ensures
        line_texts(others.push(line)) == line_texts(others).push(
            {
                let bytes = if line.len() > 0 && line.last() == 13u8 {
                    line.drop_last()
                } else {
                    line
                };
                if vstd::utf8::valid_utf8(bytes) {
                    vstd::utf8::decode_utf8(bytes)
                } else {
                    utf8_lossy(bytes)
                }
            },
        ),
        line_texts(Seq::empty()) == Seq::<Seq<char>>::empty(),
{
    assert(line_texts(others.push(line)) =~= line_texts(others).push(decoded(strip_cr(line))));
}

/// A text that a board sends in one go, with a line feed after it, comes back whole and alone,
/// however long it is.
pub proof fn a_sent_text_comes_back_whole(text: Seq<char>)
    requires
        forall|i: int| 0 <= i < text.len() ==> #[trigger] text[i] != '\n',
        text.len() > 0 ==> text.last() != '\r',
    ensures
        line_texts(complete_lines(vstd::utf8::encode_utf8(text).push(10u8))) == seq![text],
        line_texts(
            complete_lines(vstd::utf8::encode_utf8(text) + seq![13u8, 10u8]),
        ) == seq![text],
{
    assert forall|crlf: bool| line_texts(complete_lines(sent(seq![text], crlf))) == seq![text] by {
        sent_lines_come_back(seq![text], crlf);
    }
    let bytes = vstd::utf8::encode_utf8(text);
    assert(seq![text].skip(1) =~= Seq::empty());
    assert(sent(seq![text], false) =~= bytes.push(10u8)) by {
        assert(sent(seq![text].skip(1), false) =~= Seq::empty());
    }
    assert(sent(seq![text], true) =~= bytes + seq![13u8, 10u8]) by {
        assert(sent(seq![text].skip(1), true) =~= Seq::empty());
    }
    assert(line_texts(complete_lines(sent(seq![text], false))) == seq![text]);
    assert(line_texts(complete_lines(sent(seq![text], true))) == seq![text]);
}

/// Strings read as what they hold, one by one.
pub proof fn strings_read_as_they_are(strings: Seq<String>)
    ensures
        texts(strings).len() == strings.len(),
        forall|i: int| 0 <= i < strings.len() ==> #[trigger] texts(strings)[i] == strings[i]@,
{
}

/// The encoding of two texts, one after the other, is that of the one and then that of the
/// other.
pub(crate) proof fn lemma_encode_both(a: Seq<char>, b: Seq<char>)
    ensures
        vstd::utf8::encode_utf8(a + b) == vstd::utf8::encode_utf8(a) + vstd::utf8::encode_utf8(b),
    decreases a.len(),
{
    if a.len() == 0 {
        assert(a + b =~= b);
        assert(vstd::utf8::encode_utf8(a) =~= Seq::empty());
        assert(vstd::utf8::encode_utf8(a) + vstd::utf8::encode_utf8(b)
            =~= vstd::utf8::encode_utf8(b));
    } else {
        lemma_encode_both(a.drop_first(), b);
        assert((a + b).drop_first() =~= a.drop_first() + b);
        assert((a + b)[0] == a[0]);
        assert(vstd::utf8::encode_utf8(a + b) =~= vstd::utf8::encode_utf8(a)
            + vstd::utf8::encode_utf8(b));
    }
}

/// A line feed takes one byte.
pub(crate) proof fn lemma_encode_line_feed()
    ensures
        vstd::utf8::encode_utf8(seq!['\n']) == seq![10u8],
{
    let text = seq!['\n'];
    assert(text.drop_first() =~= Seq::empty());
    assert(vstd::utf8::encode_utf8(text.drop_first()) =~= Seq::empty());
    assert('\n' as u32 == 10u32);
    assert((10u32 & 0x7f) as u8 == 10u8) by (bit_vector);
    assert(vstd::utf8::encode_utf8(text) =~= seq![10u8]);
}

} // verus!
