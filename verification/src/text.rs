//! Texts as sequences of characters: what the rest of the library reads out
//! of a string, and how it cuts one.
use vstd::prelude::*;

verus! {

/// The characters of `text`, one by one.
pub fn chars_of(text: &str) -> (chars: Vec<char>)
    ensures
        chars@ == text@,
{
    let mut chars: Vec<char> = Vec::new();
    for c in it: text.chars()
        invariant
            it.seq() == text@,
            chars@ == it.seq().take(it.index() as int),
    {
        chars.push(c);
    }
    chars
}

/// The index of the last `c` in `text`, or `-1` where `text` holds none.
pub open spec fn last_index_of(text: Seq<char>, c: char) -> int
    decreases text.len(),
{
    if text.len() == 0 {
        -1
    } else if text.last() == c {
        text.len() - 1
    } else {
        last_index_of(text.drop_last(), c)
    }
}

/// [`last_index_of`] is an index of `c` behind which no `c` follows, and `-1`
/// only where there is no `c` at all.
pub proof fn lemma_last_index_of(text: Seq<char>, c: char)
    ensures
        -1 <= last_index_of(text, c) < text.len(),
        last_index_of(text, c) >= 0 ==> text[last_index_of(text, c)] == c,
        forall|i: int| last_index_of(text, c) < i < text.len() ==> text[i] != c,
    decreases text.len(),
{
    if text.len() > 0 && text.last() != c {
        let front = text.drop_last();
        lemma_last_index_of(front, c);
        assert forall|i: int| last_index_of(text, c) < i < text.len() implies text[i] != c by {
            if i < front.len() {
                assert(front[i] == text[i]);
            }
        }
    }
}

/// `text` without the quotation marks in front of it.
pub open spec fn without_leading_quotes(text: Seq<char>) -> Seq<char>
    decreases text.len(),
{
    if text.len() > 0 && text[0] == '"' {
        without_leading_quotes(text.drop_first())
    } else {
        text
    }
}

/// `text` without the quotation marks at its end.
pub open spec fn without_trailing_quotes(text: Seq<char>) -> Seq<char>
    decreases text.len(),
{
    if text.len() > 0 && text.last() == '"' {
        without_trailing_quotes(text.drop_last())
    } else {
        text
    }
}

/// `text` without the quotation marks that surround it, however many.
pub open spec fn trim_quotes(text: Seq<char>) -> Seq<char> {
    without_trailing_quotes(without_leading_quotes(text))
}

/// Where the quotation marks in front of `text` end at `end`, what is left
/// without them is `text` from `end` on.
proof fn lemma_leading_quotes(text: Seq<char>, end: int)
    requires
        0 <= end <= text.len(),
        forall|i: int| 0 <= i < end ==> text[i] == '"',
        end < text.len() ==> text[end] != '"',
    ensures
        without_leading_quotes(text) == text.skip(end),
    decreases end,
{
    if end == 0 {
        assert(text.skip(0) =~= text);
    } else {
        lemma_leading_quotes(text.drop_first(), end - 1);
        assert(text.drop_first().skip(end - 1) =~= text.skip(end));
    }
}

/// Where the quotation marks at the end of `text` start at `start`, what is
/// left without them is `text` up to `start`.
proof fn lemma_trailing_quotes(text: Seq<char>, start: int)
    requires
        0 <= start <= text.len(),
        forall|i: int| start <= i < text.len() ==> text[i] == '"',
        start > 0 ==> text[start - 1] != '"',
    ensures
        without_trailing_quotes(text) == text.take(start),
    decreases text.len() - start,
{
    if start == text.len() {
        assert(text.take(start) =~= text);
    } else {
        lemma_trailing_quotes(text.drop_last(), start);
        assert(text.drop_last().take(start) =~= text.take(start));
    }
}

/// `text` without the quotation marks that surround it.
pub fn trimmed_of_quotes(text: &str) -> (trimmed: &str)
    ensures
        trimmed@ == trim_quotes(text@),
{
    let chars = chars_of(text);
    let mut from: usize = 0;
    while from < chars.len() && chars[from] == '"'
        invariant
            from <= chars.len(),
            forall|i: int| 0 <= i < from ==> chars[i] == '"',
        decreases chars.len() - from,
    {
        from += 1;
    }
    let mut to: usize = chars.len();
    while to > from && chars[to - 1] == '"'
        invariant
            from <= to <= chars.len(),
            forall|i: int| to <= i < chars.len() ==> chars[i] == '"',
        decreases to,
    {
        to -= 1;
    }
    proof {
        lemma_leading_quotes(text@, from as int);
        lemma_trailing_quotes(text@.skip(from as int), to - from);
        assert(text@.skip(from as int).take(to - from) =~= text@.subrange(from as int, to as int));
    }
    text.substring_char(from, to)
}

} // verus!
