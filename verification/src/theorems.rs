//! What holds of the tree engine on every tree, and of the selection engine
//! on every walk.
use crate::files::{
    extension_allowed, matches_any, matches_either_form, selects, walked, Extension, WalkEntry,
};
use crate::json::JsonView;
use crate::pattern::{is_literal, pattern_matches};
use crate::paths::{
    dotted_form, is_plain, relative_form, starts_with_skipped, without_leading_skipped,
    without_trailing_skipped,
};
use crate::key_order::{
    arrangement, is_arrangement, is_permutation, key_precedes, lemma_arrangement_exists,
    lemma_arrangement_unique, lemma_permutation_onto, lemma_precedes_total, position_order,
    positions,
};
use crate::sort::{below, keys_of, levels_left, rearranged, sorted};
use crate::SortOrder;
use vstd::prelude::*;

verus! {

/// One object further down is one level deeper: while levels are left at
/// `depth`, those left below are the ones left at `depth + 1`.
pub proof fn lemma_below_is_next_depth(depth: nat, max_depth: Option<nat>)
    requires
        levels_left(depth, max_depth) != Some(0nat),
    ensures
        below(levels_left(depth, max_depth)) == levels_left(depth + 1, max_depth),
{
}

/// With no level left, sorting changes nothing: the tree comes back as it
/// went in, the sequence of its top-level keys included.
pub proof fn lemma_no_level_left_sorted(v: JsonView, order: SortOrder)
    ensures
        sorted(v, order, Some(0nat)) == v,
    decreases v,
{
    match v {
        JsonView::Array(items) => {
            assert forall|i: int| 0 <= i < items.len() implies sorted(items[i], order, Some(0nat))
                == items[i] by {
                lemma_no_level_left_sorted(items[i], order);
            }
            assert(sorted(v, order, Some(0nat))->Array_0 =~= items);
        },
        _ => {},
    }
}

/// At or beyond the bound nothing is reordered: a tree that stands at a depth
/// of at least `max_depth` comes back as it went in. With a bound of 0 that
/// is every tree.
pub proof fn lemma_beyond_the_bound_unchanged(
    v: JsonView,
    order: SortOrder,
    depth: nat,
    max_depth: nat,
)
    requires
        depth >= max_depth,
    ensures
        sorted(v, order, levels_left(depth, Some(max_depth))) == v,
{
    lemma_no_level_left_sorted(v, order);
}

/// With one level left only the object itself is reordered: its entries
/// are listed by the arrangement of its keys, and every value stays as it is.
pub proof fn lemma_one_level_reorders_the_top_only(
    entries: Seq<(Seq<char>, JsonView)>,
    order: SortOrder,
)
    ensures
        sorted(JsonView::Object(entries), order, Some(1nat)) == JsonView::Object(
            Seq::new(entries.len(), |i: int| entries[arrangement(order, keys_of(entries))[i]]),
        ),
{
    let p = arrangement(order, keys_of(entries));
    let out = sorted(JsonView::Object(entries), order, Some(1nat))->Object_0;
    lemma_arrangement_exists(order, keys_of(entries));
    assert forall|i: int| 0 <= i < entries.len() implies out[i] == entries[p[i]] by {
        lemma_no_level_left_sorted(entries[p[i]].1, order);
    }
    assert(out =~= Seq::new(entries.len(), |i: int| entries[p[i]]));
}

/// With no level left, the only rearrangement of a tree is the tree itself.
pub proof fn lemma_no_level_left_rearranged(a: JsonView, b: JsonView)
    requires
        rearranged(a, b, Some(0nat)),
    ensures
        b == a,
    decreases a,
{
    match a {
        JsonView::Array(items) => {
            assert forall|i: int| 0 <= i < items.len() implies b->Array_0[i] == items[i] by {
                lemma_no_level_left_rearranged(items[i], b->Array_0[i]);
            }
            assert(b->Array_0 =~= items);
        },
        _ => {},
    }
}

/// Sorting only rearranges: under every order the sorted tree differs from
/// the tree in the sequence of entries within the bound, and in nothing else.
/// Arrays keep their length and the place of every element.
pub proof fn lemma_sorted_is_rearranged(v: JsonView, order: SortOrder, levels: Option<nat>)
    ensures
        rearranged(v, sorted(v, order, levels), levels),
    decreases v,
{
    match v {
        JsonView::Array(items) => {
            assert forall|i: int| 0 <= i < items.len() implies rearranged(
                items[i],
                #[trigger] sorted(v, order, levels)->Array_0[i],
                levels,
            ) by {
                lemma_sorted_is_rearranged(items[i], order, levels);
            }
        },
        JsonView::Object(entries) => {
            if levels != Some(0nat) {
                let p = arrangement(order, keys_of(entries));
                let out = sorted(v, order, levels)->Object_0;
                lemma_arrangement_exists(order, keys_of(entries));
                assert forall|i: int| 0 <= i < entries.len() implies {
                    &&& 0 <= p[i] < entries.len()
                    &&& (#[trigger] out[i]).0 == entries[p[i]].0
                    &&& rearranged(entries[p[i]].1, out[i].1, below(levels))
                } by {
                    lemma_sorted_is_rearranged(entries[p[i]].1, order, below(levels));
                }
                assert(is_permutation(p, entries.len()));
            }
        },
        _ => {},
    }
}

/// A rearranged object holds the keys that the object held: as many entries,
/// and the same set of keys. This holds of the `Random` order's outcome as of
/// any other.
pub proof fn lemma_rearranged_keeps_keys(a: JsonView, b: JsonView, levels: Option<nat>)
    requires
        rearranged(a, b, levels),
        a is Object,
    ensures
        b is Object,
        b->Object_0.len() == a->Object_0.len(),
        keys_of(b->Object_0).to_set() == keys_of(a->Object_0).to_set(),
{
    if levels != Some(0nat) {
        let (from, to) = (a->Object_0, b->Object_0);
        let p = choose|p: Seq<int>|
            {
                &&& #[trigger] is_permutation(p, from.len())
                &&& forall|i: int|
                    0 <= i < from.len() ==> {
                        &&& 0 <= p[i] < from.len()
                        &&& (#[trigger] to[i]).0 == from[p[i]].0
                        &&& rearranged(from[p[i]].1, to[i].1, below(levels))
                    }
            };
        lemma_permutation_onto(p, from.len());
        assert forall|key: Seq<char>| keys_of(to).to_set().contains(key) implies keys_of(
            from,
        ).to_set().contains(key) by {
            let i = choose|i: int| 0 <= i < to.len() && keys_of(to)[i] == key;
            assert(to[i].0 == from[p[i]].0);
            assert(keys_of(from)[p[i]] == key);
        }
        assert forall|key: Seq<char>| keys_of(from).to_set().contains(key) implies keys_of(
            to,
        ).to_set().contains(key) by {
            let j = choose|j: int| 0 <= j < from.len() && keys_of(from)[j] == key;
            assert(p.contains(j));
            let i = choose|i: int| 0 <= i < p.len() && p[i] == j;
            assert(to[i].0 == from[p[i]].0);
            assert(keys_of(to)[i] == key);
        }
        assert(keys_of(to).to_set() =~= keys_of(from).to_set());
    }
}

/// A rearranged tree is well formed where the tree was: no object of it holds
/// a key twice.
pub proof fn lemma_rearranged_well_formed(a: JsonView, b: JsonView, levels: Option<nat>)
    requires
        rearranged(a, b, levels),
        a.well_formed(),
    ensures
        b.well_formed(),
    decreases a,
{
    match a {
        JsonView::Array(items) => {
            assert forall|i: int| 0 <= i < items.len() implies (#[trigger] b->Array_0[i]).well_formed() by {
                assert(items[i].well_formed());
                lemma_rearranged_well_formed(items[i], b->Array_0[i], levels);
            }
        },
        JsonView::Object(from) => {
            if levels != Some(0nat) {
                let to = b->Object_0;
                let p = choose|p: Seq<int>|
                    {
                        &&& #[trigger] is_permutation(p, from.len())
                        &&& forall|i: int|
                            0 <= i < from.len() ==> {
                                &&& 0 <= p[i] < from.len()
                                &&& (#[trigger] to[i]).0 == from[p[i]].0
                                &&& rearranged(from[p[i]].1, to[i].1, below(levels))
                            }
                    };
                assert forall|i: int, j: int| 0 <= i < j < to.len() implies (#[trigger] to[i]).0
                    != (#[trigger] to[j]).0 by {
                    assert(to[i].0 == from[p[i]].0 && to[j].0 == from[p[j]].0);
                    assert(p[i] != p[j]);
                    if p[i] < p[j] {
                        assert(from[p[i]].0 != from[p[j]].0);
                    } else {
                        assert(from[p[j]].0 != from[p[i]].0);
                    }
                }
                assert forall|i: int| 0 <= i < to.len() implies (#[trigger] to[i]).1.well_formed() by {
                    assert(to[i].0 == from[p[i]].0);
                    assert(from[p[i]].1.well_formed());
                    lemma_rearranged_well_formed(from[p[i]].1, to[i].1, below(levels));
                }
            }
        },
        _ => {},
    }
}

/// Keys that are listed by their arrangement are in order: arranged again,
/// every position stays where it is.
pub proof fn lemma_arranged_keys_stay(order: SortOrder, keys: Seq<Seq<char>>)
    ensures
        arrangement(
            order,
            Seq::new(keys.len(), |i: int| keys[arrangement(order, keys)[i]]),
        ) == positions(0, keys.len() as int),
{
    let p = arrangement(order, keys);
    let arranged = Seq::new(keys.len(), |i: int| keys[p[i]]);
    let stay = positions(0, keys.len() as int);
    lemma_arrangement_exists(order, keys);
    assert forall|i: int, j: int| 0 <= i < j < stay.len() implies #[trigger] position_order(
        order,
        arranged,
    )(stay[i], stay[j]) by {
        assert(position_order(order, keys)(p[i], p[j]));
        assert(p[i] != p[j]);
    }
    assert(is_arrangement(order, arranged, stay));
    lemma_arrangement_unique(order, arranged, stay);
}

/// Sorting is idempotent under every order but `Random`: a sorted tree,
/// sorted again with the same order and the same bound, stays as it is.
pub proof fn lemma_sort_idempotent(v: JsonView, order: SortOrder, levels: Option<nat>)
    requires
        order != SortOrder::Random,
    ensures
        sorted(sorted(v, order, levels), order, levels) == sorted(v, order, levels),
    decreases v,
{
    let once = sorted(v, order, levels);
    let twice = sorted(once, order, levels);
    match v {
        JsonView::Array(items) => {
            assert forall|i: int| 0 <= i < items.len() implies twice->Array_0[i]
                == once->Array_0[i] by {
                lemma_sort_idempotent(items[i], order, levels);
            }
            assert(twice->Array_0 =~= once->Array_0);
        },
        JsonView::Object(entries) => {
            if levels != Some(0nat) {
                let p = arrangement(order, keys_of(entries));
                lemma_arrangement_exists(order, keys_of(entries));
                lemma_arranged_keys_stay(order, keys_of(entries));
                assert(keys_of(once->Object_0) =~= Seq::new(
                    keys_of(entries).len(),
                    |i: int| keys_of(entries)[p[i]],
                ));
                assert forall|i: int| 0 <= i < entries.len() implies twice->Object_0[i]
                    == once->Object_0[i] by {
                    lemma_sort_idempotent(entries[p[i]].1, order, below(levels));
                }
                assert(twice->Object_0 =~= once->Object_0);
            }
        },
        _ => {},
    }
}

/// Whether the keys of every object of `v` within `levels` levels stand in
/// `order`, each before the next.
pub open spec fn in_order(v: JsonView, order: SortOrder, levels: Option<nat>) -> bool
    decreases v,
{
    match v {
        JsonView::Array(items) => forall|i: int|
            0 <= i < items.len() ==> in_order(#[trigger] items[i], order, levels),
        JsonView::Object(entries) => levels == Some(0nat) || {
            &&& forall|i: int, j: int|
                0 <= i < j < entries.len() ==> key_precedes(
                    order,
                    (#[trigger] entries[i]).0,
                    (#[trigger] entries[j]).0,
                )
            &&& forall|i: int|
                0 <= i < entries.len() ==> in_order((#[trigger] entries[i]).1, order, below(levels))
        },
        _ => true,
    }
}

/// Sorting puts in order: of a tree in which no object holds a key twice,
/// the sorted tree has the keys of every object within the bound in `order`,
/// each before the next. This holds under every order but `Random`.
pub proof fn lemma_sorted_is_in_order(v: JsonView, order: SortOrder, levels: Option<nat>)
    requires
        v.well_formed(),
        order != SortOrder::Random,
    ensures
        in_order(sorted(v, order, levels), order, levels),
    decreases v,
{
    let out = sorted(v, order, levels);
    match v {
        JsonView::Array(items) => {
            assert forall|i: int| 0 <= i < items.len() implies in_order(
                #[trigger] out->Array_0[i],
                order,
                levels,
            ) by {
                assert(items[i].well_formed());
                lemma_sorted_is_in_order(items[i], order, levels);
            }
        },
        JsonView::Object(entries) => {
            if levels != Some(0nat) {
                let keys = keys_of(entries);
                let p = arrangement(order, keys);
                let to = out->Object_0;
                lemma_arrangement_exists(order, keys);
                assert forall|i: int, j: int| 0 <= i < j < to.len() implies key_precedes(
                    order,
                    (#[trigger] to[i]).0,
                    (#[trigger] to[j]).0,
                ) by {
                    assert(position_order(order, keys)(p[i], p[j]));
                    assert(p[i] != p[j]);
                    assert(to[i].0 == entries[p[i]].0 && to[j].0 == entries[p[j]].0);
                    if p[i] < p[j] {
                        assert(entries[p[i]].0 != entries[p[j]].0);
                    } else {
                        assert(entries[p[j]].0 != entries[p[i]].0);
                    }
                    lemma_precedes_total(order, keys[p[i]], keys[p[j]]);
                }
                assert forall|i: int| 0 <= i < to.len() implies in_order(
                    (#[trigger] to[i]).1,
                    order,
                    below(levels),
                ) by {
                    assert(entries[p[i]].1.well_formed());
                    lemma_sorted_is_in_order(entries[p[i]].1, order, below(levels));
                }
            }
        },
        _ => {},
    }
}

/// What sorting is: of a tree in which no object holds a key twice, the
/// sorted tree is the one rearrangement whose keys stand in order.
pub proof fn lemma_sorted_is_the_rearrangement_in_order(
    a: JsonView,
    b: JsonView,
    order: SortOrder,
    levels: Option<nat>,
)
    requires
        a.well_formed(),
        rearranged(a, b, levels),
        in_order(b, order, levels),
    ensures
        b == sorted(a, order, levels),
    decreases a,
{
    let goal = sorted(a, order, levels);
    match a {
        JsonView::Array(items) => {
            assert forall|i: int| 0 <= i < items.len() implies b->Array_0[i]
                == goal->Array_0[i] by {
                assert(items[i].well_formed());
                assert(in_order(b->Array_0[i], order, levels));
                lemma_sorted_is_the_rearrangement_in_order(items[i], b->Array_0[i], order, levels);
            }
            assert(b->Array_0 =~= goal->Array_0);
        },
        JsonView::Object(from) => {
            if levels != Some(0nat) {
                let to = b->Object_0;
                let p = choose|p: Seq<int>|
                    {
                        &&& #[trigger] is_permutation(p, from.len())
                        &&& forall|i: int|
                            0 <= i < from.len() ==> {
                                &&& 0 <= p[i] < from.len()
                                &&& (#[trigger] to[i]).0 == from[p[i]].0
                                &&& rearranged(from[p[i]].1, to[i].1, below(levels))
                            }
                    };
                assert forall|i: int, j: int| 0 <= i < j < p.len() implies #[trigger] position_order(
                    order,
                    keys_of(from),
                )(p[i], p[j]) by {
                    assert(to[i].0 == from[p[i]].0 && to[j].0 == from[p[j]].0);
                    assert(key_precedes(order, to[i].0, to[j].0));
                }
                lemma_arrangement_unique(order, keys_of(from), p);
                assert forall|i: int| 0 <= i < from.len() implies to[i] == goal->Object_0[i] by {
                    assert(to[i].0 == from[p[i]].0);
                    assert(from[p[i]].1.well_formed());
                    assert(in_order(to[i].1, order, below(levels)));
                    lemma_sorted_is_the_rearrangement_in_order(
                        from[p[i]].1,
                        to[i].1,
                        order,
                        below(levels),
                    );
                }
                assert(to =~= goal->Object_0);
            }
        },
        _ => {},
    }
}

/// A candidate is selected or not whichever way it is written: a path that
/// a walk writes below its root has the same two forms with `./` in front
/// of it as without, so the pattern set picks both or neither.
pub proof fn lemma_selection_ignores_form(
    includes: Seq<Seq<char>>,
    excludes: Seq<Seq<char>>,
    allowed: Seq<Extension>,
    path: Seq<char>,
)
    requires
        is_plain(path),
    ensures
        relative_form(seq!['.', '/'] + path) == path,
        relative_form(path) == path,
        dotted_form(seq!['.', '/'] + path) == seq!['.', '/'] + path,
        dotted_form(path) == seq!['.', '/'] + path,
        selects(includes, excludes, allowed, seq!['.', '/'] + path) == selects(
            includes,
            excludes,
            allowed,
            path,
        ),
{
    let dotted = seq!['.', '/'] + path;
    let rest = dotted.skip(1);
    assert(rest[0] == '/' && starts_with_skipped(rest));
    assert(rest.drop_first() =~= path);
    assert(without_leading_skipped(path) == path);
    assert(without_trailing_skipped(path) == path);
    assert(without_leading_skipped(rest) == path);
    assert(relative_form(dotted) == path);
}

/// A pattern that names a file picks it, written either way: where an include
/// pattern without wildcard characters reads as one of the two forms of
/// `path`, the include patterns match `path`. So the pattern `./foo.json`
/// matches the candidates `foo.json` and `./foo.json`, and so does the
/// pattern `foo.json`.
pub proof fn lemma_named_file_matches(includes: Seq<Seq<char>>, path: Seq<char>, i: int)
    requires
        0 <= i < includes.len(),
        is_literal(includes[i]),
        includes[i] == relative_form(path) || includes[i] == dotted_form(path),
    ensures
        matches_either_form(includes, path),
{
    if includes[i] == relative_form(path) {
        assert(pattern_matches(includes[i], relative_form(path)));
        assert(matches_any(includes, relative_form(path)));
    } else {
        assert(pattern_matches(includes[i], dotted_form(path)));
        assert(matches_any(includes, dotted_form(path)));
    }
}

/// A name and a pattern may each be written with `./` or without: a name
/// without wildcard characters, as a walk writes it below its root, is
/// matched in all four combinations.
pub proof fn lemma_dual_form(includes: Seq<Seq<char>>, name: Seq<char>, i: int)
    requires
        is_plain(name),
        is_literal(name),
        0 <= i < includes.len(),
        includes[i] == name || includes[i] == seq!['.', '/'] + name,
    ensures
        matches_either_form(includes, name),
        matches_either_form(includes, seq!['.', '/'] + name),
{
    let dotted = seq!['.', '/'] + name;
    lemma_selection_ignores_form(includes, Seq::empty(), Seq::empty(), name);
    assert forall|k: int| 0 <= k < dotted.len() implies (#[trigger] dotted[k]) != '?' && dotted[k]
        != '*' && dotted[k] != '[' by {
        if k >= 2 {
            assert(dotted[k] == name[k - 2]);
        }
    }
    lemma_named_file_matches(includes, name, i);
    lemma_named_file_matches(includes, dotted, i);
}

/// A file that a pattern names is selected: where the walk meets `path` and
/// could read its root, an include pattern without wildcard characters reads
/// as one of the two forms of `path`, no exclude pattern matches either form
/// and the extension is allowed, the selection holds `path`.
pub proof fn lemma_named_file_is_selected(
    includes: Seq<Seq<char>>,
    excludes: Seq<Seq<char>>,
    allowed: Seq<Extension>,
    entries: Seq<WalkEntry>,
    path: Seq<char>,
    i: int,
)
    requires
        is_file_among(entries, path),
        !root_unreadable(entries),
        0 <= i < includes.len(),
        is_literal(includes[i]),
        includes[i] == relative_form(path) || includes[i] == dotted_form(path),
        !matches_either_form(excludes, path),
        extension_allowed(relative_form(path), allowed),
    ensures
        walked(includes, excludes, allowed, entries) is Ok,
        walked(includes, excludes, allowed, entries)->Ok_0.contains(path),
{
    lemma_named_file_matches(includes, path, i);
    lemma_walk_selects_exactly(includes, excludes, allowed, entries);
}

/// Exclusion wins: a path that an exclude pattern matches, in either of its
/// forms, is not selected, whatever include pattern matches it too.
pub proof fn lemma_exclude_precedence(
    includes: Seq<Seq<char>>,
    excludes: Seq<Seq<char>>,
    allowed: Seq<Extension>,
    path: Seq<char>,
)
    requires
        matches_either_form(excludes, path),
    ensures
        !selects(includes, excludes, allowed, path),
{
}

/// Whether `entry` is the file at `path`.
pub open spec fn is_file_at(entry: WalkEntry, path: Seq<char>) -> bool {
    entry is File && entry->File_0@ == path
}

/// Whether `entry` tells that the root of the walk could not be read.
pub open spec fn is_root_failure(entry: WalkEntry) -> bool {
    entry is Unreadable && entry->depth == Some(0usize)
}

/// Whether `path` is the path of a file among `entries`.
pub open spec fn is_file_among(entries: Seq<WalkEntry>, path: Seq<char>) -> bool {
    exists|i: int| 0 <= i < entries.len() && is_file_at(#[trigger] entries[i], path)
}

/// Whether the walk over `entries` could not read its root.
pub open spec fn root_unreadable(entries: Seq<WalkEntry>) -> bool {
    exists|i: int| 0 <= i < entries.len() && is_root_failure(#[trigger] entries[i])
}

/// A walk fails exactly where it could not read its root. Where it succeeds,
/// it selects each file that the pattern set picks, once, and nothing else.
pub proof fn lemma_walk_selects_exactly(
    includes: Seq<Seq<char>>,
    excludes: Seq<Seq<char>>,
    allowed: Seq<Extension>,
    entries: Seq<WalkEntry>,
)
    ensures
        walked(includes, excludes, allowed, entries) is Err <==> root_unreadable(entries),
        walked(includes, excludes, allowed, entries) matches Ok(found) ==> {
            &&& found.no_duplicates()
            &&& forall|path: Seq<char>|
                found.contains(path) <==> selects(includes, excludes, allowed, path)
                    && is_file_among(entries, path)
        },
    decreases entries.len(),
{
    if entries.len() > 0 {
        let front = entries.drop_last();
        let last = entries.len() - 1;
        lemma_walk_selects_exactly(includes, excludes, allowed, front);
        assert(forall|i: int| 0 <= i < front.len() ==> front[i] == entries[i]);
        if root_unreadable(front) {
            let i = choose|i: int| 0 <= i < front.len() && is_root_failure(#[trigger] front[i]);
            assert(entries[i] == front[i]);
        }
        if root_unreadable(entries) && !root_unreadable(front) {
            let i = choose|i: int|
                0 <= i < entries.len() && is_root_failure(#[trigger] entries[i]);
            if i < last {
                assert(front[i] == entries[i]);
            }
        }
        if let Ok(found) = walked(includes, excludes, allowed, entries) {
            let before = walked(includes, excludes, allowed, front)->Ok_0;
            assert forall|path: Seq<char>|
                found.contains(path) <==> selects(includes, excludes, allowed, path)
                    && is_file_among(entries, path) by {
                if is_file_among(front, path) {
                    let i = choose|i: int|
                        0 <= i < front.len() && is_file_at(#[trigger] front[i], path);
                    assert(entries[i] == front[i]);
                }
                if is_file_among(entries, path) && !is_file_among(front, path) {
                    let i = choose|i: int|
                        0 <= i < entries.len() && is_file_at(#[trigger] entries[i], path);
                    if i < last {
                        assert(front[i] == entries[i]);
                    }
                }
                if before.contains(path) {
                    let k = choose|k: int| 0 <= k < before.len() && before[k] == path;
                    assert(found[k] == path);
                }
                if found.contains(path) && !before.contains(path) {
                    let k = choose|k: int| 0 <= k < found.len() && found[k] == path;
                    if k < before.len() {
                        assert(before[k] == path);
                    }
                    assert(is_file_at(entries[last], path));
                }
                if is_file_at(entries[last], path) && selects(includes, excludes, allowed, path)
                    && !before.contains(path) {
                    assert(found[found.len() - 1] == path);
                }
            }
        }
    }
}

} // verus!
