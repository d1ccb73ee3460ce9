//! Searching text for other text.

use vstd::prelude::*;
#[allow(unused_imports)]
use vstd::string::StringExecFns;

verus! {

/// `needle` stands in `hay` at position `i`.
pub open spec fn occurs_at(hay: Seq<char>, needle: Seq<char>, i: int) -> bool {
    &&& 0 <= i
    &&& i + needle.len() <= hay.len()
    &&& hay.subrange(i, i + needle.len()) =~= needle
}

/// `needle` stands somewhere in `hay`.
pub open spec fn has_text(hay: Seq<char>, needle: Seq<char>) -> bool {
    exists|i: int| occurs_at(hay, needle, i)
}

/// `i` is where `needle` stands first in `hay`, looking from position `from` on.
pub open spec fn stands_first(hay: Seq<char>, needle: Seq<char>, from: int, i: int) -> bool {
    &&& from <= i
    &&& occurs_at(hay, needle, i)
    &&& forall|k: int| from <= k < i ==> !occurs_at(hay, needle, k)
}

/// `needle` stands nowhere in `hay` from position `from` on.
pub open spec fn stands_nowhere(hay: Seq<char>, needle: Seq<char>, from: int) -> bool {
    forall|k: int| from <= k ==> !occurs_at(hay, needle, k)
}

/// Where `needle` stands first in `hay`, looking from position `from` on.
pub open spec fn first_from(hay: Seq<char>, needle: Seq<char>, from: int) -> Option<int> {
    if exists|i: int| stands_first(hay, needle, from, i) {
        Some(choose|i: int| stands_first(hay, needle, from, i))
    } else {
        None
    }
}

/// A first place is the only first place.
pub proof fn lemma_first_from(hay: Seq<char>, needle: Seq<char>, from: int, i: int)
    requires
        stands_first(hay, needle, from, i),
    ensures
        first_from(hay, needle, from) == Some(i),
{
    let j = choose|j: int| stands_first(hay, needle, from, j);
    assert(stands_first(hay, needle, from, j));
    if j < i {
        assert(!occurs_at(hay, needle, j));
    }
    if i < j {
        assert(!occurs_at(hay, needle, i));
    }
}

/// The text that an optional string holds.
pub open spec fn opt_text(s: Option<String>) -> Option<Seq<char>> {
    match s {
        Some(s) => Some(s@),
        None => None,
    }
}

/// The characters of `s`, one by one.
pub fn chars_of(s: &str) -> (chars: Vec<char>)
    ensures
        chars@ == s@,
{
    let mut chars: Vec<char> = Vec::new();
    for c in rest: s.chars()
        invariant
            rest.seq() == s@,
            chars@ == s@.take(rest.index()),
    {
        chars.push(c);
    }
    chars
}

/// Whether `needle` stands in `hay` at position `i`.
fn matches_at(hay: &Vec<char>, needle: &Vec<char>, i: usize) -> (found: bool)
    requires
        i <= hay.len(),
    ensures
        found == occurs_at(hay@, needle@, i as int),
{
    if hay.len() - i < needle.len() {
        return false;
    }
    let mut k: usize = 0;
    while k < needle.len()
        invariant
            k <= needle.len(),
            i <= hay.len(),
            needle.len() <= hay.len() - i,
            forall|j: int| 0 <= j < k ==> hay@[i + j] == needle@[j],
        decreases needle.len() - k,
    {
        if hay[i + k] != needle[k] {
            assert(hay@.subrange(i as int, i + needle@.len())[k as int] != needle@[k as int]);
            return false;
        }
        k += 1;
    }
    true
}

/// Where `needle` stands first in `hay`, looking from position `from` on.
pub fn find_from(hay: &Vec<char>, needle: &Vec<char>, from: usize) -> (at: Option<usize>)
    requires
        from <= hay.len(),
    ensures
        match at {
            Some(i) => {
                &&& stands_first(hay@, needle@, from as int, i as int)
                &&& first_from(hay@, needle@, from as int) == Some(i as int)
            },
            None => {
                &&& stands_nowhere(hay@, needle@, from as int)
                &&& first_from(hay@, needle@, from as int) is None
            },
        },
{
    let mut i: usize = from;
    while i < hay.len()
        invariant
            from <= i <= hay.len(),
            forall|k: int| from <= k < i ==> !occurs_at(hay@, needle@, k),
        decreases hay.len() - i,
    {
        if matches_at(hay, needle, i) {
            proof {
                lemma_first_from(hay@, needle@, from as int, i as int);
            }
            return Some(i);
        }
        i += 1;
    }
    if matches_at(hay, needle, i) {
        proof {
            lemma_first_from(hay@, needle@, from as int, i as int);
        }
        return Some(i);
    }
    None
}

/// Whether `needle` stands somewhere in `hay`.
pub fn contains_text(hay: &str, needle: &str) -> (found: bool)
    ensures
        found == has_text(hay@, needle@),
{
    let hay_chars = chars_of(hay);
    let needle_chars = chars_of(needle);
    match find_from(&hay_chars, &needle_chars, 0) {
        Some(_) => true,
        None => false,
    }
}

/// `a` and then `b`.
pub fn joined(a: &str, b: &str) -> (both: String)
    ensures
        both@ == a@ + b@,
{
    let mut both = a.to_string();
    both.append(b);
    both
}

/// Whether two texts are the same.
pub fn same_text(a: &str, b: &str) -> (same: bool)
    ensures
        same == (a@ == b@),
{
    let a_chars = chars_of(a);
    let b_chars = chars_of(b);
    if a_chars.len() != b_chars.len() {
        return false;
    }
    let mut i: usize = 0;
    while i < a_chars.len()
        invariant
            i <= a_chars.len(),
            a_chars@ == a@,
            b_chars@ == b@,
            a_chars.len() == b_chars.len(),
            forall|k: int| 0 <= k < i ==> a_chars@[k] == b_chars@[k],
        decreases a_chars.len() - i,
    {
        if a_chars[i] != b_chars[i] {
            return false;
        }
        i += 1;
    }
    assert(a_chars@ =~= b_chars@);
    true
}

/// A copy of an optional string.
pub fn copied(s: &Option<String>) -> (copy: Option<String>)
    ensures
        opt_text(copy) == opt_text(*s),
{
    match s {
        Some(s) => Some(s.clone()),
        None => None,
    }
}

/// A text stands in another exactly if the other is made of something, the text, and
/// something more.
pub proof fn text_stands_where_it_can_be_cut_out(hay: Seq<char>, needle: Seq<char>)
    ensures
        has_text(hay, needle) <==> exists|before: Seq<char>, after: Seq<char>|
            hay == #[trigger] (before + needle + after),
{
    if has_text(hay, needle) {
        let i = choose|i: int| occurs_at(hay, needle, i);
        let before = hay.take(i);
        let after = hay.skip(i + needle.len());
        assert(hay.subrange(i, i + needle.len()) =~= needle);
        assert(hay =~= before + needle + after);
    }
    if exists|before: Seq<char>, after: Seq<char>| hay == #[trigger] (before + needle + after) {
        let (before, after) = choose|before: Seq<char>, after: Seq<char>|
            hay == #[trigger] (before + needle + after);
        let i = before.len() as int;
        assert(hay.subrange(i, i + needle.len()) =~= needle);
        assert(occurs_at(hay, needle, i));
    }
}

/// The first place of a text is the first from which on the other goes on with it.
pub proof fn first_place_is_the_first(hay: Seq<char>, needle: Seq<char>, from: int, i: int)
    requires
        0 <= from,
    ensures
        first_from(hay, needle, from) == Some(i) <==> {
            &&& from <= i <= hay.len()
            &&& needle.is_prefix_of(hay.skip(i))
            &&& forall|p: int| from <= p < i ==> !needle.is_prefix_of(#[trigger] hay.skip(p))
        },
        first_from(hay, needle, from) is None <==> forall|p: int|
            from <= p <= hay.len() ==> !needle.is_prefix_of(#[trigger] hay.skip(p)),
{
    assert forall|p: int| 0 <= p <= hay.len() implies (occurs_at(hay, needle, p)
        <==> needle.is_prefix_of(#[trigger] hay.skip(p))) by {
        if p + needle.len() <= hay.len() {
            assert(hay.skip(p).subrange(0, needle.len() as int) =~= hay.subrange(
                p,
                p + needle.len(),
            ));
        }
    }
    if from <= i <= hay.len() && needle.is_prefix_of(hay.skip(i)) && (forall|p: int|
        from <= p < i ==> !needle.is_prefix_of(#[trigger] hay.skip(p))) {
        assert forall|p: int| from <= p < i implies !occurs_at(hay, needle, p) by {
            assert(!needle.is_prefix_of(hay.skip(p)));
        }
        lemma_first_from(hay, needle, from, i);
    }
    if first_from(hay, needle, from) is Some {
        let j = first_from(hay, needle, from)->0;
        assert(stands_first(hay, needle, from, j));
        assert(needle.is_prefix_of(hay.skip(j)));
        assert forall|p: int| from <= p < j implies !needle.is_prefix_of(
            #[trigger] hay.skip(p),
        ) by {
            assert(!occurs_at(hay, needle, p));
        }
    } else {
        assert forall|p: int| from <= p <= hay.len() implies !needle.is_prefix_of(
            #[trigger] hay.skip(p),
        ) by {
            if occurs_at(hay, needle, p) {
                lemma_some_first(hay, needle, from, p);
            }
        }
    }
}

/// A text that stands somewhere stands somewhere first.
proof fn lemma_some_first(hay: Seq<char>, needle: Seq<char>, from: int, i: int)
    requires
        from <= i,
        occurs_at(hay, needle, i),
    ensures
        exists|j: int| stands_first(hay, needle, from, j),
    decreases i - from,
{
    if exists|k: int| from <= k < i && occurs_at(hay, needle, k) {
        let k = choose|k: int| from <= k < i && occurs_at(hay, needle, k);
        lemma_some_first(hay, needle, from, k);
    } else {
        assert(stands_first(hay, needle, from, i));
    }
}

/// An optional string reads as the text it holds, and as none where it holds none.
pub proof fn optional_text_is_the_text(s: String)
    ensures
        opt_text(Some(s)) == Some(s@),
        opt_text(None) == None::<Seq<char>>,
{
}

} // verus!
