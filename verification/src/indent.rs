//! The indent that a rewritten document is printed with: the one asked for,
//! or the one that the document itself shows.
use crate::config::{Configuration, IndentStyle};
use crate::text::chars_of;
use vstd::prelude::*;
use vstd::string::StringExecFns;

verus! {

/// Whether `c`, a character beyond ASCII, has the Unicode property
/// `White_Space`, as `char::is_whitespace` tells it.
pub uninterp spec fn has_white_space_property(c: char) -> bool;

/// Whether `c` is white space. Of the ASCII characters these are the space
/// and the five from the tab to the carriage return; beyond ASCII it is the
/// Unicode property `White_Space`.
pub open spec fn is_white_space(c: char) -> bool {
    if c <= '\u{7f}' {
        c == ' ' || ('\t' <= c && c <= '\r')
    } else {
        has_white_space_property(c)
    }
}

/// `char::is_whitespace` looks at `c` alone and tells whether it has the
/// Unicode property `White_Space`. In ASCII that property is the space and
/// the characters from U+0009 to U+000D; for the rest
/// [`has_white_space_property`] names the answer.
pub assume_specification[ char::is_whitespace ](c: char) -> (white: bool)
    ensures
        white == is_white_space(c),
        c > '\u{7f}' ==> white == has_white_space_property(c),
;

/// Where the run of blanks that starts at `from` ends: the index of the first
/// character from there on that is a line feed or no white space, or the
/// length of `text`.
pub open spec fn blanks_end(text: Seq<char>, from: int) -> int
    decreases text.len() - from,
{
    if 0 <= from < text.len() && is_white_space(text[from]) && text[from] != '\n' {
        blanks_end(text, from + 1)
    } else {
        from
    }
}

/// Where the line that holds position `from` ends: the index of the first
/// line feed from there on, or the length of `text`.
pub open spec fn line_end(text: Seq<char>, from: int) -> int
    decreases text.len() - from,
{
    if 0 <= from < text.len() && text[from] != '\n' {
        line_end(text, from + 1)
    } else {
        from
    }
}

/// The indent that the lines of `text` from position `line` on show, `line`
/// being the start of a line: the blanks in front of the first line that
/// begins with blanks and goes on with something else.
pub open spec fn indent_from(text: Seq<char>, line: int) -> Option<Seq<char>>
    decreases text.len() - line,
{
    if line < 0 || line >= text.len() {
        None
    } else {
        let blanks = blanks_end(text, line);
        if line < blanks < text.len() && text[blanks] != '\n' {
            Some(text.subrange(line, blanks))
        } else {
            let end = line_end(text, line);
            if line <= end < text.len() {
                indent_from(text, end + 1)
            } else {
                None
            }
        }
    }
}

/// The indent that `text` shows: the blanks in front of its first line that
/// begins with blanks and goes on with something else. Lines end at a line
/// feed; a blank is a white-space character other than the line feed.
pub open spec fn detected_indent(text: Seq<char>) -> Option<Seq<char>> {
    indent_from(text, 0)
}

/// `count` times the character `c`.
pub open spec fn repeated(c: char, count: nat) -> Seq<char> {
    Seq::new(count, |i: int| c)
}

/// The indent to print with: `width` tabs where tabs are asked for, `width`
/// spaces where a width is given otherwise, else the indent that `data`
/// shows, else one space.
pub open spec fn indent_of(
    width: Option<usize>,
    style: Option<IndentStyle>,
    data: Seq<char>,
) -> Seq<char> {
    match width {
        Some(width) => if style == Some(IndentStyle::Tabs) {
            repeated('\t', width as nat)
        } else {
            repeated(' ', width as nat)
        },
        None => match detected_indent(data) {
            Some(indent) => indent,
            None => seq![' '],
        },
    }
}

/// A run of blanks from `from` to `end`, with no blank at `end`, ends at
/// `end`.
proof fn lemma_blanks_end(text: Seq<char>, from: int, end: int)
    requires
        0 <= from <= end <= text.len(),
        forall|i: int| from <= i < end ==> is_white_space(text[i]) && text[i] != '\n',
        end < text.len() ==> !is_white_space(text[end]) || text[end] == '\n',
    ensures
        blanks_end(text, from) == end,
    decreases end - from,
{
    if from < end {
        lemma_blanks_end(text, from + 1, end);
    }
}

/// A stretch without a line feed from `from` to `end`, with a line feed or
/// nothing at `end`, is a line that ends at `end`.
proof fn lemma_line_end(text: Seq<char>, from: int, end: int)
    requires
        0 <= from <= end <= text.len(),
        forall|i: int| from <= i < end ==> text[i] != '\n',
        end < text.len() ==> text[end] == '\n',
    ensures
        line_end(text, from) == end,
    decreases end - from,
{
    if from < end {
        lemma_line_end(text, from + 1, end);
    }
}

/// The indent that `json` shows.
pub fn detect_indent(json: &str) -> (indent: Option<String>)
    ensures
        match indent {
            Some(indent) => detected_indent(json@) == Some(indent@),
            None => detected_indent(json@) is None,
        },
{
    let chars = chars_of(json);
    let mut line: usize = 0;
    while line < chars.len()
        invariant
            chars@ == json@,
            line <= chars.len(),
            detected_indent(json@) == indent_from(json@, line as int),
        decreases chars.len() - line,
    {
        let mut blanks: usize = line;
        while blanks < chars.len() && chars[blanks].is_whitespace() && chars[blanks] != '\n'
            invariant
                line <= blanks <= chars.len(),
                forall|i: int| line <= i < blanks ==> is_white_space(chars[i]) && chars[i] != '\n',
            decreases chars.len() - blanks,
        {
            blanks += 1;
        }
        proof {
            lemma_blanks_end(chars@, line as int, blanks as int);
        }
        if blanks > line && blanks < chars.len() && chars[blanks] != '\n' {
            return Some(json.substring_char(line, blanks).to_owned());
        }
        let mut end: usize = blanks;
        while end < chars.len() && chars[end] != '\n'
            invariant
                line <= blanks <= end <= chars.len(),
                forall|i: int| line <= i < blanks ==> chars[i] != '\n',
                forall|i: int| blanks <= i < end ==> chars[i] != '\n',
            decreases chars.len() - end,
        {
            end += 1;
        }
        proof {
            lemma_line_end(chars@, line as int, end as int);
        }
        if end >= chars.len() {
            return None;
        }
        line = end + 1;
    }
    None
}

/// `count` times the one-character text `unit`.
fn repeat(unit: &str, count: usize, Ghost(c): Ghost<char>) -> (text: String)
    requires
        unit@ == seq![c],
    ensures
        text@ == repeated(c, count as nat),
{
    let mut text = String::new();
    let mut i: usize = 0;
    while i < count
        invariant
            i <= count,
            unit@ == seq![c],
            text@ == repeated(c, i as nat),
        decreases count - i,
    {
        text.append(unit);
        assert(text@ =~= repeated(c, (i + 1) as nat));
        i += 1;
    }
    text
}

/// The indent to print with, given what `cfg` asks for and the document
/// `data` as it was read.
pub fn get_indent(cfg: &Configuration, data: &str) -> (indent: String)
    ensures
        indent@ == indent_of(cfg.indent, cfg.indent_style, data@),
{
    proof {
        reveal_strlit("\t");
        reveal_strlit(" ");
    }
    assert("\t"@ =~= seq!['\t']);
    assert(" "@ =~= seq![' ']);
    match cfg.indent {
        Some(width) => match cfg.indent_style {
            Some(IndentStyle::Tabs) => repeat("\t", width, Ghost('\t')),
            _ => repeat(" ", width, Ghost(' ')),
        },
        None => match detect_indent(data) {
            Some(indent) => indent,
            None => String::from_str(" "),
        },
    }
}

} // verus!
