//! Paths as text, read the way `std::path` reads them where `/` is the
//! separator.
//!
//! A path is a run of components with `/` between them. At its end, and
//! behind a leading `.`, empty components and `.` components are passed
//! over: `a/`, `a/.` and `a//` all end in the component `a`.
use crate::text::{chars_of, last_index_of, lemma_last_index_of};
use vstd::prelude::*;
use vstd::string::StringExecFns;

verus! {

/// Whether `path` ends in something that is passed over: a separator, or a
/// component `.`.
pub open spec fn ends_in_skipped(path: Seq<char>) -> bool {
    path.len() > 0 && (path.last() == '/' || (path.last() == '.' && (path.len() == 1
        || path[path.len() - 2] == '/')))
}

/// `path` without what is passed over at its end.
pub open spec fn without_trailing_skipped(path: Seq<char>) -> Seq<char>
    decreases path.len(),
{
    if ends_in_skipped(path) {
        without_trailing_skipped(path.drop_last())
    } else {
        path
    }
}

/// Whether `path` begins with something that is passed over: a separator, or
/// a component `.`.
pub open spec fn starts_with_skipped(path: Seq<char>) -> bool {
    path.len() > 0 && (path[0] == '/' || (path[0] == '.' && (path.len() == 1 || path[1] == '/')))
}

/// `path` without what is passed over at its start.
pub open spec fn without_leading_skipped(path: Seq<char>) -> Seq<char>
    decreases path.len(),
{
    if starts_with_skipped(path) {
        without_leading_skipped(path.drop_first())
    } else {
        path
    }
}

/// The file name of `path`: its last component, what is passed over at the
/// end left aside. A path that ends in `..`, and one without a component,
/// has none.
pub open spec fn file_name(path: Seq<char>) -> Option<Seq<char>> {
    let body = without_trailing_skipped(path);
    let name = body.skip(last_index_of(body, '/') + 1);
    if name.len() == 0 || name == seq!['.', '.'] {
        None
    } else {
        Some(name)
    }
}

/// The extension of `path`: what follows the last dot of its file name. A
/// file name without a dot has none, and neither has one whose only dot
/// stands in front.
pub open spec fn extension_of(path: Seq<char>) -> Option<Seq<char>> {
    match file_name(path) {
        None => None,
        Some(name) => {
            let dot = last_index_of(name, '.');
            if dot <= 0 {
                None
            } else {
                Some(name.skip(dot + 1))
            }
        },
    }
}

/// Whether `path` begins with the component `.`.
pub open spec fn starts_at_current(path: Seq<char>) -> bool {
    path.len() > 0 && path[0] == '.' && (path.len() == 1 || path[1] == '/')
}

/// `path` as it is written below the walk's root. A path that begins with
/// the component `.` loses it, with what is passed over behind it and at the
/// end: `./a`, `././a` and `.//a/` all become `a`. Any other path stays as it
/// is written.
pub open spec fn relative_form(path: Seq<char>) -> Seq<char> {
    if starts_at_current(path) {
        without_trailing_skipped(without_leading_skipped(path.skip(1)))
    } else {
        path
    }
}

/// `path` as it is written from the walk's root: its relative form behind
/// `./`. A relative form that begins with `/` stands for itself.
pub open spec fn dotted_form(path: Seq<char>) -> Seq<char> {
    let relative = relative_form(path);
    if relative.len() > 0 && relative[0] == '/' {
        relative
    } else {
        seq!['.', '/'] + relative
    }
}

/// Whether `path` is written as a walk writes a path below its root: with
/// nothing to pass over at its start or at its end. Such a path is relative
/// and begins and ends with a component other than `.`, or it is empty.
pub open spec fn is_plain(path: Seq<char>) -> bool {
    !starts_with_skipped(path) && !ends_in_skipped(path)
}

/// Where all from `from` up to `at` is passed over at the start and what is
/// at `at` is not, what is left from `from` on starts at `at`.
proof fn lemma_leading_skipped(path: Seq<char>, from: int, at: int)
    requires
        0 <= from <= at <= path.len(),
        forall|i: int| from <= i < at ==> starts_with_skipped(#[trigger] path.skip(i)),
        !starts_with_skipped(path.skip(at)),
    ensures
        without_leading_skipped(path.skip(from)) == path.skip(at),
    decreases at - from,
{
    if from < at {
        assert(starts_with_skipped(path.skip(from)));
        assert(path.skip(from).drop_first() =~= path.skip(from + 1));
        lemma_leading_skipped(path, from + 1, at);
    }
}

/// Where all from `end` up to `to` is passed over at the end and what ends at
/// `end` is not, what is left up to `to` ends at `end`.
proof fn lemma_trailing_skipped(path: Seq<char>, from: int, end: int, to: int)
    requires
        0 <= from <= end <= to <= path.len(),
        forall|i: int| end < i <= to ==> ends_in_skipped(#[trigger] path.subrange(from, i)),
        !ends_in_skipped(path.subrange(from, end)),
    ensures
        without_trailing_skipped(path.subrange(from, to)) == path.subrange(from, end),
    decreases to - end,
{
    if end < to {
        assert(ends_in_skipped(path.subrange(from, to)));
        assert(path.subrange(from, to).drop_last() =~= path.subrange(from, to - 1));
        lemma_trailing_skipped(path, from, end, to - 1);
    }
}

/// Where what is left of `chars` from `from` on starts, once what is passed
/// over at the start is left out.
fn leading_end(chars: &Vec<char>, from: usize) -> (at: usize)
    requires
        from <= chars.len(),
    ensures
        from <= at <= chars.len(),
        without_leading_skipped(chars@.skip(from as int)) == chars@.skip(at as int),
{
    let mut at: usize = from;
    while at < chars.len() && (chars[at] == '/' || (chars[at] == '.' && (chars.len() - at == 1
        || chars[at + 1] == '/')))
        invariant
            from <= at <= chars.len(),
            forall|i: int| from <= i < at ==> starts_with_skipped(#[trigger] chars@.skip(i)),
        decreases chars.len() - at,
    {
        assert(starts_with_skipped(chars@.skip(at as int)));
        at += 1;
    }
    proof {
        lemma_leading_skipped(chars@, from as int, at as int);
    }
    at
}

/// Where what is left of `chars` from `from` on ends, once what is passed
/// over at the end is left out.
fn trailing_start(chars: &Vec<char>, from: usize) -> (end: usize)
    requires
        from <= chars.len(),
    ensures
        from <= end <= chars.len(),
        without_trailing_skipped(chars@.skip(from as int)) == chars@.subrange(
            from as int,
            end as int,
        ),
        !ends_in_skipped(chars@.subrange(from as int, end as int)),
{
    let mut end: usize = chars.len();
    while end > from && (chars[end - 1] == '/' || (chars[end - 1] == '.' && (end - from == 1
        || chars[end - 2] == '/')))
        invariant
            from <= end <= chars.len(),
            forall|i: int|
                end < i <= chars.len() ==> ends_in_skipped(#[trigger] chars@.subrange(from as int, i)),
        decreases end,
    {
        assert(ends_in_skipped(chars@.subrange(from as int, end as int)));
        end -= 1;
    }
    proof {
        lemma_trailing_skipped(chars@, from as int, end as int, chars.len() as int);
        assert(chars@.subrange(from as int, chars.len() as int) =~= chars@.skip(from as int));
    }
    end
}

/// Where the extension of `chars` begins and ends, if it has one.
pub fn extension_range(chars: &Vec<char>) -> (range: Option<(usize, usize)>)
    ensures
        match range {
            None => extension_of(chars@) is None,
            Some((start, end)) => start <= end <= chars.len() && extension_of(chars@) == Some(
                chars@.subrange(start as int, end as int),
            ),
        },
{
    let end = trailing_start(chars, 0);
    let mut name: usize = end;
    while name > 0 && chars[name - 1] != '/'
        invariant
            name <= end <= chars.len(),
            forall|i: int| name <= i < end ==> chars[i] != '/',
        decreases name,
    {
        name -= 1;
    }
    let mut after_dot: usize = end;
    while after_dot > name && chars[after_dot - 1] != '.'
        invariant
            name <= after_dot <= end <= chars.len(),
            forall|i: int| after_dot <= i < end ==> chars[i] != '.',
        decreases after_dot,
    {
        after_dot -= 1;
    }
    let ghost body = chars@.subrange(0, end as int);
    let ghost file = body.skip(name as int);
    proof {
        assert(chars@.skip(0) =~= chars@);
        lemma_last_index_of(body, '/');
        assert(last_index_of(body, '/') == name - 1);
        lemma_last_index_of(file, '.');
        assert forall|i: int| 0 <= i < file.len() implies file[i] == chars[name + i] by {}
        if after_dot > name {
            assert(file[after_dot - 1 - name] == '.');
            assert(last_index_of(file, '.') == after_dot - 1 - name);
            assert(file.skip(after_dot - name) =~= chars@.subrange(after_dot as int, end as int));
        } else {
            assert(last_index_of(file, '.') == -1);
        }
    }
    if end - name == 2 && chars[name] == '.' && chars[name + 1] == '.' {
        assert(file =~= seq!['.', '.']);
        None
    } else if after_dot - name > 1 {
        assert(file != seq!['.', '.']) by {
            if file.len() == 2 {
                assert(file[0] == chars[name as int] && file[1] == chars[name + 1]);
            }
        }
        Some((after_dot, end))
    } else {
        None
    }
}

/// `path` as it is written below the walk's root.
pub fn relative_path(path: &str) -> (relative: &str)
    ensures
        relative@ == relative_form(path@),
{
    let chars = chars_of(path);
    if chars.len() > 0 && chars[0] == '.' && (chars.len() == 1 || chars[1] == '/') {
        let from = leading_end(&chars, 1);
        let end = trailing_start(&chars, from);
        proof {
            let rest = chars@.skip(from as int);
            assert(chars@.skip(1).skip(from - 1) =~= rest);
        }
        path.substring_char(from, end)
    } else {
        path
    }
}

/// `path` as it is written from the walk's root.
pub fn dotted_path(path: &str) -> (dotted: String)
    ensures
        dotted@ == dotted_form(path@),
{
    let relative = relative_path(path);
    let chars = chars_of(relative);
    if chars.len() > 0 && chars[0] == '/' {
        relative.to_owned()
    } else {
        proof {
            reveal_strlit("./");
        }
        assert("./"@ =~= seq!['.', '/']);
        String::from_str("./").concat(relative)
    }
}

} // verus!
