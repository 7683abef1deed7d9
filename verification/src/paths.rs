//! Lexical handling of Unix paths: splitting a path into components and
//! writing it back in normal form. Nothing here looks at a file system.

use crate::text::{chars_of, same_text};
#[allow(unused_imports)]
use crate::text::texts;
use vstd::prelude::*;

verus! {

/// One component of a Unix path.
#[derive(Clone, Debug, PartialEq, Eq)]
pub enum PathComponent {
    /// The leading `/` of an absolute path.
    RootDir,
    /// A leading `.` of a relative path.
    CurDir,
    /// A `..`.
    ParentDir,
    /// A name.
    Normal(String),
}

/// What a [`PathComponent`] stands for.
pub enum ComponentView {
    RootDir,
    CurDir,
    ParentDir,
    Normal(Seq<char>),
}

impl View for PathComponent {
    type V = ComponentView;

    open spec fn view(&self) -> ComponentView {
        match self {
            PathComponent::RootDir => ComponentView::RootDir,
            PathComponent::CurDir => ComponentView::CurDir,
            PathComponent::ParentDir => ComponentView::ParentDir,
            PathComponent::Normal(name) => ComponentView::Normal(name@),
        }
    }
}

/// The pieces of a path between its slashes. A path with `n` slashes has
/// `n + 1` pieces, some of which may be empty.
pub open spec fn segments(path: Seq<char>) -> Seq<Seq<char>>
    decreases path.len(),
{
    if path.len() == 0 {
        seq![Seq::empty()]
    } else {
        let before = segments(path.drop_last());
        if path.last() == '/' {
            before.push(Seq::empty())
        } else {
            before.drop_last().push(before.last().push(path.last()))
        }
    }
}

/// A piece that names a directory entry: neither empty nor `.`.
pub open spec fn is_name(segment: Seq<char>) -> bool {
    segment.len() > 0 && segment != seq!['.']
}

/// The entries that a path walks through, `..` among them.
pub open spec fn names(path: Seq<char>) -> Seq<Seq<char>> {
    segments(path).filter(|segment: Seq<char>| is_name(segment))
}

/// The path starts at the root.
pub open spec fn is_absolute(path: Seq<char>) -> bool {
    path.len() > 0 && path[0] == '/'
}

/// The path steps up somewhere.
pub open spec fn has_parent_step(path: Seq<char>) -> bool {
    names(path).contains(seq!['.', '.'])
}

/// The component that a name stands for.
pub open spec fn component_named(name: Seq<char>) -> ComponentView {
    if name == seq!['.', '.'] {
        ComponentView::ParentDir
    } else {
        ComponentView::Normal(name)
    }
}

/// What precedes the names: the root, or a leading `.`.
pub open spec fn leading_component(path: Seq<char>) -> Seq<ComponentView> {
    if is_absolute(path) {
        seq![ComponentView::RootDir]
    } else if segments(path)[0] == seq!['.'] {
        seq![ComponentView::CurDir]
    } else {
        Seq::empty()
    }
}

/// The components of a Unix path. Repeated and trailing slashes count for
/// nothing, and so does a `.` that does not lead a relative path.
pub open spec fn components_of(path: Seq<char>) -> Seq<ComponentView> {
    leading_component(path) + names(path).map_values(|name: Seq<char>| component_named(name))
}

/// The names with one slash between each two.
pub open spec fn joined(names: Seq<Seq<char>>) -> Seq<char>
    decreases names.len(),
{
    if names.len() == 0 {
        Seq::empty()
    } else if names.len() == 1 {
        names[0]
    } else {
        joined(names.drop_last()) + seq!['/'] + names.last()
    }
}

/// The normal form of a path: its root, if it has one, and its names.
pub open spec fn normalized(path: Seq<char>) -> Seq<char> {
    if is_absolute(path) {
        seq!['/'] + joined(names(path))
    } else {
        joined(names(path))
    }
}

/// What is left of the names when each `..` has taken away the name before
/// it. A `..` at the root is dropped; one that finds no name before it in a
/// relative path stays.
pub open spec fn walked(names: Seq<Seq<char>>, absolute: bool) -> Seq<Seq<char>>
    decreases names.len(),
{
    if names.len() == 0 {
        Seq::empty()
    } else {
        let before = walked(names.drop_last(), absolute);
        if names.last() != seq!['.', '.'] {
            before.push(names.last())
        } else if before.len() > 0 && before.last() != seq!['.', '.'] {
            before.drop_last()
        } else if absolute {
            before
        } else {
            before.push(names.last())
        }
    }
}

/// The shortest path that leads lexically to the same place.
pub open spec fn cleaned(path: Seq<char>) -> Seq<char> {
    let left = walked(names(path), is_absolute(path));
    if is_absolute(path) {
        seq!['/'] + joined(left)
    } else if left.len() == 0 {
        seq!['.']
    } else {
        joined(left)
    }
}

/// Names without a `..` are all left.
proof fn lemma_walked_without_parent_step(names: Seq<Seq<char>>, absolute: bool)
    requires
        !names.contains(seq!['.', '.']),
    ensures
        walked(names, absolute) == names,
    decreases names.len(),
{
    if names.len() > 0 {
        let shorter = names.drop_last();
        assert(names.contains(names[names.len() - 1]));
        assert forall|i: int| 0 <= i < shorter.len() implies shorter[i] != seq!['.', '.'] by {
            assert(names.contains(names[i]));
        }
        lemma_walked_without_parent_step(shorter, absolute);
        assert(shorter.push(names.last()) =~= names);
    } else {
        assert(names =~= Seq::empty());
    }
}

/// For an absolute path that never steps up, the shortest path is the normal
/// form.
pub proof fn law_cleaned_is_normal_form(path: Seq<char>)
    requires
        is_absolute(path),
        !has_parent_step(path),
    ensures
        cleaned(path) == normalized(path),
{
    lemma_walked_without_parent_step(names(path), true);
}

/// Every path has at least one piece.
proof fn lemma_segments_nonempty(path: Seq<char>)
    ensures
        segments(path).len() > 0,
    decreases path.len(),
{
    if path.len() > 0 {
        lemma_segments_nonempty(path.drop_last());
    }
}

/// Splits a path at its slashes.
fn split(path: &str) -> (pieces: Vec<String>)
    ensures
        texts(pieces@) == segments(path@),
{
    let chars = chars_of(path);
    let mut pieces: Vec<String> = Vec::new();
    let mut start: usize = 0;
    assert(path@.take(0) =~= Seq::empty());
    assert(path@.subrange(0, 0) =~= Seq::empty());
    assert(texts(pieces@).push(path@.subrange(0, 0)) =~= seq![Seq::<char>::empty()]);
    for i in 0..chars.len()
        invariant
            chars@ == path@,
            start <= i <= chars.len(),
            segments(path@.take(i as int)) == texts(pieces@).push(
                path@.subrange(start as int, i as int),
            ),
    {
        let ghost before = texts(pieces@).push(path@.subrange(start as int, i as int));
        assert(path@.take(i + 1).drop_last() =~= path@.take(i as int));
        if chars[i] == '/' {
            let piece = path.substring_char(start, i).to_owned();
            assert(texts(pieces@.push(piece)) =~= before);
            pieces.push(piece);
            start = i + 1;
            assert(path@.subrange(start as int, i + 1) =~= Seq::empty());
        } else {
            assert(before.drop_last() =~= texts(pieces@));
            assert(path@.subrange(start as int, i + 1) =~= before.last().push(path@[i as int]));
        }
    }
    let piece = path.substring_char(start, chars.len()).to_owned();
    assert(path@.take(path@.len() as int) =~= path@);
    assert(texts(pieces@.push(piece)) =~= texts(pieces@).push(piece@));
    pieces.push(piece);
    pieces
}

/// The components of a path, in order.
pub fn components(path: &str) -> (parts: Vec<PathComponent>)
    ensures
        parts@.map_values(|part: PathComponent| part@) == components_of(path@),
{
    let pieces = split(path);
    let chars = chars_of(path);
    let mut parts: Vec<PathComponent> = Vec::new();
    proof {
        lemma_segments_nonempty(path@);
        reveal_strlit(".");
        reveal_strlit("..");
        assert("."@ =~= seq!['.']);
        assert(".."@ =~= seq!['.', '.']);
        assert(pieces@[0]@ == texts(pieces@)[0]);
    }
    if chars.len() > 0 && chars[0] == '/' {
        parts.push(PathComponent::RootDir);
    } else if same_text(pieces[0].as_str(), ".") {
        parts.push(PathComponent::CurDir);
    }
    let ghost shown = |part: PathComponent| part@;
    let ghost kept = |segment: Seq<char>| is_name(segment);
    let ghost named = |name: Seq<char>| component_named(name);
    assert(parts@.map_values(shown) =~= leading_component(path@));
    assert(segments(path@).take(0).filter(kept) =~= Seq::empty()) by {
        reveal(Seq::filter);
    }
    assert(parts@.map_values(shown) =~= leading_component(path@) + segments(path@).take(0).filter(
        kept,
    ).map_values(named));
    for i in 0..pieces.len()
        invariant
            texts(pieces@) == segments(path@),
            "."@ == seq!['.'],
            ".."@ == seq!['.', '.'],
            shown == (|part: PathComponent| part@),
            kept == (|segment: Seq<char>| is_name(segment)),
            named == (|name: Seq<char>| component_named(name)),
            parts@.map_values(shown) == leading_component(path@) + segments(path@).take(
                i as int,
            ).filter(kept).map_values(named),
    {
        let ghost piece = segments(path@)[i as int];
        let ghost before = segments(path@).take(i as int);
        assert(pieces@[i as int]@ == texts(pieces@)[i as int]);
        assert(segments(path@).take(i + 1) =~= before.push(piece));
        assert(before.push(piece).filter(kept) == if kept(piece) {
            before.filter(kept).push(piece)
        } else {
            before.filter(kept)
        }) by {
            reveal(Seq::filter);
            assert(before.push(piece).drop_last() =~= before);
        }
        let ghost old_parts = parts@;
        if !pieces[i].as_str().is_empty() && !same_text(pieces[i].as_str(), ".") {
            let part = if same_text(pieces[i].as_str(), "..") {
                PathComponent::ParentDir
            } else {
                PathComponent::Normal(pieces[i].clone())
            };
            parts.push(part);
            assert(parts@.map_values(shown) =~= old_parts.map_values(shown).push(part@));
            assert(before.filter(kept).push(piece).map_values(named) =~= before.filter(
                kept,
            ).map_values(named).push(part@));
        }
    }
    assert(segments(path@).take(pieces@.len() as int) =~= segments(path@));
    parts
}

/// Writes a path in normal form: one slash between names, no `.`, no
/// trailing slash. A `..` stays where it is.
pub fn normalize_path(path: &str) -> (normal: String)
    ensures
        normal@ == normalized(path@),
{
    let parts = components(path);
    let ghost shown = parts@.map_values(|part: PathComponent| part@);
    let ghost lead = leading_component(path@).len();
    let ghost list = names(path@);
    assert(shown.len() == lead + list.len());
    assert forall|k: int| 0 <= k < list.len() implies #[trigger] shown[lead + k] == component_named(
        list[k],
    ) by {}
    let mut normal = String::new();
    let mut i: usize = 0;
    if parts.len() > 0 {
        assert(shown[0] == parts@[0]@);
        match parts[0] {
            PathComponent::RootDir => {
                normal.append("/");
                i = 1;
            },
            PathComponent::CurDir => {
                i = 1;
            },
            _ => {},
        }
    }
    proof {
        reveal_strlit("/");
        reveal_strlit("..");
        assert("/"@ =~= seq!['/']);
        assert(".."@ =~= seq!['.', '.']);
        if list.len() > 0 {
            assert(shown[lead + 0int] == component_named(list[0]));
        }
    }
    let ghost root = normal@;
    assert(i == lead);
    assert(root =~= if is_absolute(path@) {
        seq!['/']
    } else {
        Seq::empty()
    });
    let mut first = true;
    assert(root + joined(list.take(0)) =~= root);
    while i < parts.len()
        invariant
            shown == parts@.map_values(|part: PathComponent| part@),
            shown.len() == lead + list.len(),
            forall|k: int|
                0 <= k < list.len() ==> #[trigger] shown[lead + k] == component_named(list[k]),
            lead <= i <= parts.len(),
            first == (i == lead),
            "/"@ == seq!['/'],
            ".."@ == seq!['.', '.'],
            normal@ == root + joined(list.take(i - lead)),
        decreases parts.len() - i,
    {
        let ghost done = list.take(i - lead);
        let ghost name = list[i - lead];
        let ghost before = normal@;
        assert(shown[i as int] == parts@[i as int]@);
        assert(shown[lead + (i - lead)] == component_named(name));
        assert(list.take(i - lead + 1) =~= done.push(name));
        assert(done.push(name).drop_last() =~= done);
        if !first {
            normal.append("/");
        }
        match &parts[i] {
            PathComponent::ParentDir => {
                normal.append("..");
            },
            PathComponent::Normal(text) => {
                normal.append(text.as_str());
            },
            _ => {},
        }
        assert(normal@ =~= root + joined(done.push(name)));
        first = false;
        i = i + 1;
    }
    assert(list.take(list.len() as int) =~= list);
    assert(normal@ =~= normalized(path@));
    normal
}

/// No slash occurs in the text.
pub open spec fn slash_free(text: Seq<char>) -> bool {
    forall|i: int| 0 <= i < text.len() ==> text[i] != '/'
}

/// The pieces between slashes hold no slash.
proof fn lemma_segments_slash_free(path: Seq<char>)
    ensures
        segments(path).len() > 0,
        forall|i: int| 0 <= i < segments(path).len() ==> slash_free(#[trigger] segments(path)[i]),
    decreases path.len(),
{
    if path.len() > 0 {
        lemma_segments_slash_free(path.drop_last());
        let before = segments(path.drop_last());
        assert(before.last() == before[before.len() - 1]);
        assert forall|i: int| 0 <= i < segments(path).len() implies slash_free(
            #[trigger] segments(path)[i],
        ) by {
            if i < before.len() - 1 || (path.last() == '/' && i < before.len()) {
                assert(segments(path)[i] == before[i]);
            }
        }
    }
}

/// A slash-free text behind a slash is one more piece.
proof fn lemma_segments_append(path: Seq<char>, piece: Seq<char>)
    requires
        slash_free(piece),
    ensures
        segments(path + seq!['/'] + piece) == segments(path).push(piece),
    decreases piece.len(),
{
    let whole = path + seq!['/'] + piece;
    if piece.len() == 0 {
        assert(whole.drop_last() =~= path);
        assert(piece =~= Seq::empty());
    } else {
        assert(whole.drop_last() =~= path + seq!['/'] + piece.drop_last());
        lemma_segments_append(path, piece.drop_last());
        assert(segments(path).push(piece.drop_last()).drop_last() =~= segments(path));
        assert(piece.drop_last().push(piece.last()) =~= piece);
    }
}

/// A slash-free text is a single piece.
proof fn lemma_segments_single(piece: Seq<char>)
    requires
        slash_free(piece),
    ensures
        segments(piece) == seq![piece],
    decreases piece.len(),
{
    if piece.len() > 0 {
        lemma_segments_single(piece.drop_last());
        assert(piece.drop_last().push(piece.last()) =~= piece);
        assert(seq![piece.drop_last()].drop_last().push(piece) =~= seq![piece]);
    } else {
        assert(piece =~= Seq::empty());
    }
}

/// Dropping pieces leaves the rest slash-free.
proof fn lemma_kept_pieces(pieces: Seq<Seq<char>>)
    requires
        forall|i: int| 0 <= i < pieces.len() ==> slash_free(#[trigger] pieces[i]),
    ensures
        ({
            let kept = pieces.filter(|segment: Seq<char>| is_name(segment));
            forall|i: int| 0 <= i < kept.len() ==> is_name(#[trigger] kept[i]) && slash_free(kept[i])
        }),
    decreases pieces.len(),
{
    reveal(Seq::filter);
    if pieces.len() > 0 {
        let before = pieces.drop_last();
        assert forall|i: int| 0 <= i < before.len() implies slash_free(#[trigger] before[i]) by {
            assert(before[i] == pieces[i]);
        }
        lemma_kept_pieces(before);
        assert(slash_free(pieces[pieces.len() - 1]));
        let rule = |segment: Seq<char>| is_name(segment);
        let earlier = before.filter(rule);
        let kept = pieces.filter(rule);
        assert forall|i: int| 0 <= i < kept.len() implies is_name(#[trigger] kept[i]) && slash_free(
            kept[i],
        ) by {
            if i < earlier.len() {
                assert(kept[i] == earlier[i]);
            }
        }
    }
}

/// Nothing is dropped where all pieces are names.
proof fn lemma_names_stay(pieces: Seq<Seq<char>>)
    requires
        forall|i: int| 0 <= i < pieces.len() ==> is_name(#[trigger] pieces[i]),
    ensures
        pieces.filter(|segment: Seq<char>| is_name(segment)) == pieces,
    decreases pieces.len(),
{
    reveal(Seq::filter);
    if pieces.len() > 0 {
        let before = pieces.drop_last();
        assert forall|i: int| 0 <= i < before.len() implies is_name(#[trigger] before[i]) by {
            assert(before[i] == pieces[i]);
        }
        lemma_names_stay(before);
        assert(is_name(pieces[pieces.len() - 1]));
        assert(before.push(pieces.last()) =~= pieces);
    } else {
        assert(pieces.filter(|segment: Seq<char>| is_name(segment)) =~= pieces);
    }
}

/// Splitting joined names gives the names back.
proof fn lemma_segments_of_joined(list: Seq<Seq<char>>)
    requires
        list.len() > 0,
        forall|i: int| 0 <= i < list.len() ==> slash_free(#[trigger] list[i]),
    ensures
        segments(joined(list)) == list,
    decreases list.len(),
{
    if list.len() == 1 {
        assert(slash_free(list[0]));
        lemma_segments_single(list[0]);
        assert(seq![list[0]] =~= list);
    } else {
        let before = list.drop_last();
        assert forall|i: int| 0 <= i < before.len() implies slash_free(#[trigger] before[i]) by {
            assert(before[i] == list[i]);
        }
        lemma_segments_of_joined(before);
        assert(slash_free(list[list.len() - 1]));
        lemma_segments_append(joined(before), list.last());
        assert(before.push(list.last()) =~= list);
    }
}

/// A leading slash puts one empty piece in front.
proof fn lemma_segments_of_rooted(rest: Seq<char>)
    ensures
        segments(seq!['/'] + rest) == seq![Seq::<char>::empty()] + segments(rest),
    decreases rest.len(),
{
    let whole = seq!['/'] + rest;
    let empty = Seq::<char>::empty();
    if rest.len() == 0 {
        assert(whole.drop_last() =~= Seq::empty());
        assert(segments(whole.drop_last()) =~= seq![empty]);
        assert(rest =~= Seq::empty());
        assert(segments(whole) =~= seq![empty] + seq![empty]);
    } else {
        assert(whole.drop_last() =~= seq!['/'] + rest.drop_last());
        lemma_segments_of_rooted(rest.drop_last());
        lemma_segments_nonempty(rest.drop_last());
        let before = segments(rest.drop_last());
        assert((seq![empty] + before).drop_last() =~= seq![empty] + before.drop_last());
        assert((seq![empty] + before).last() == before.last());
        assert(segments(whole) =~= seq![empty] + segments(rest));
    }
}

/// The first character of joined names is the first character of the first.
proof fn lemma_joined_start(list: Seq<Seq<char>>)
    requires
        list.len() > 0,
        list[0].len() > 0,
    ensures
        joined(list).len() > 0,
        joined(list)[0] == list[0][0],
    decreases list.len(),
{
    if list.len() > 1 {
        lemma_joined_start(list.drop_last());
    }
}

/// Normalising keeps what a path means: where it starts and which entries it
/// walks through.
pub proof fn law_normalized_keeps_names(path: Seq<char>)
    ensures
        names(normalized(path)) == names(path),
        is_absolute(normalized(path)) == is_absolute(path),
{
    let list = names(path);
    let kept = |segment: Seq<char>| is_name(segment);
    lemma_segments_slash_free(path);
    lemma_kept_pieces(segments(path));
    lemma_names_stay(list);
    if list.len() > 0 {
        assert(is_name(list[0]) && slash_free(list[0]));
        lemma_segments_of_joined(list);
        lemma_joined_start(list);
        assert(joined(list)[0] != '/');
    } else {
        assert(joined(list) =~= Seq::empty());
        assert(seq![Seq::<char>::empty()].filter(kept) =~= list) by {
            reveal_with_fuel(Seq::filter, 2);
        }
    }
    if is_absolute(path) {
        lemma_segments_of_rooted(joined(list));
        Seq::filter_distributes_over_add(
            seq![Seq::<char>::empty()],
            segments(joined(list)),
            kept,
        );
        assert(seq![Seq::<char>::empty()].filter(kept) =~= Seq::empty()) by {
            reveal_with_fuel(Seq::filter, 2);
        }
        assert(Seq::<Seq<char>>::empty() + list =~= list);
    }
}

/// Normalising twice is normalising once.
pub proof fn law_normalized_idempotent(path: Seq<char>)
    ensures
        normalized(normalized(path)) == normalized(path),
{
    law_normalized_keeps_names(path);
}

/// Two paths have the same normal form exactly when they start at the same
/// place and walk through the same entries.
pub proof fn law_normalized_decides_sameness(a: Seq<char>, b: Seq<char>)
    ensures
        normalized(a) == normalized(b) <==> names(a) == names(b) && is_absolute(a) == is_absolute(b),
{
    law_normalized_keeps_names(a);
    law_normalized_keeps_names(b);
}

/// A path is absolute exactly when a slash leads it.
pub proof fn law_leading_slash_makes_absolute(path: Seq<char>)
    ensures
        is_absolute(path) <==> exists|rest: Seq<char>| path == #[trigger] (seq!['/'] + rest),
{
    if is_absolute(path) {
        let rest = path.drop_first();
        assert(path =~= seq!['/'] + rest);
    }
}

/// A slash parts what stands before it from what stands behind it.
pub proof fn law_slash_parts_pieces(before: Seq<char>, behind: Seq<char>)
    ensures
        segments(before + seq!['/'] + behind) == segments(before) + segments(behind),
    decreases behind.len(),
{
    let whole = before + seq!['/'] + behind;
    let first = segments(before);
    if behind.len() == 0 {
        assert(whole.drop_last() =~= before);
        assert(behind =~= Seq::empty());
        assert(first.push(Seq::empty()) =~= first + seq![Seq::<char>::empty()]);
    } else {
        let shorter = behind.drop_last();
        assert(whole.drop_last() =~= before + seq!['/'] + shorter);
        law_slash_parts_pieces(before, shorter);
        lemma_segments_nonempty(shorter);
        let second = segments(shorter);
        assert((first + second).drop_last() =~= first + second.drop_last());
        assert((first + second).last() == second.last());
        assert(segments(whole) =~= first + segments(behind));
    }
}

/// Nothing but a slash parts pieces.
pub proof fn law_text_without_slash_is_one_piece(text: Seq<char>)
    requires
        forall|i: int| 0 <= i < text.len() ==> #[trigger] text[i] != '/',
    ensures
        segments(text) == seq![text],
{
    lemma_segments_single(text);
}

/// Joining lists is joining each of them, with a slash between.
pub proof fn law_joining_puts_one_slash_between(a: Seq<Seq<char>>, b: Seq<Seq<char>>)
    requires
        a.len() > 0,
        b.len() > 0,
    ensures
        joined(a + b) == joined(a) + seq!['/'] + joined(b),
    decreases b.len(),
{
    let whole = a + b;
    let shorter = b.drop_last();
    assert(whole.drop_last() =~= a + shorter);
    assert(whole.last() == b.last());
    if b.len() == 1 {
        assert(a + shorter =~= a);
    } else {
        law_joining_puts_one_slash_between(a, shorter);
        assert(joined(whole) =~= joined(a) + seq!['/'] + joined(b));
    }
}

/// One name joined is that name, and nothing joined is nothing.
pub proof fn law_joining_one_name(name: Seq<char>)
    ensures
        joined(seq![name]) == name,
        joined(Seq::empty()).len() == 0,
{
}

/// The pieces of a path, joined again, are the path.
pub proof fn law_joining_undoes_splitting(path: Seq<char>)
    ensures
        joined(segments(path)) == path,
    decreases path.len(),
{
    if path.len() > 0 {
        let before = segments(path.drop_last());
        law_joining_undoes_splitting(path.drop_last());
        lemma_segments_nonempty(path.drop_last());
        if path.last() == '/' {
            let after = before.push(Seq::empty());
            assert(after.drop_last() =~= before);
            assert(joined(after) =~= path);
        } else {
            let last = before.last().push(path.last());
            let after = before.drop_last().push(last);
            assert(after.drop_last() =~= before.drop_last());
            assert(path.drop_last().push(path.last()) =~= path);
            if before.len() == 1 {
                assert(after[0] == last);
                assert(before.last() == before[0]);
                assert(joined(after) == joined(before).push(path.last()));
            } else {
                assert(joined(before) =~= joined(before.drop_last()) + seq!['/'] + before.last());
                assert(joined(after) =~= path);
            }
        }
    }
}

/// The names of a path with a slash in it are those before the slash and
/// those behind it, in order.
pub proof fn law_slash_parts_names(before: Seq<char>, behind: Seq<char>)
    ensures
        names(before + seq!['/'] + behind) == names(before) + names(behind),
{
    law_slash_parts_pieces(before, behind);
    Seq::filter_distributes_over_add(
        segments(before),
        segments(behind),
        |segment: Seq<char>| is_name(segment),
    );
}

/// A text without a slash is one name, unless it is empty or a `.`.
pub proof fn law_text_without_slash_is_one_name(text: Seq<char>)
    requires
        forall|i: int| 0 <= i < text.len() ==> #[trigger] text[i] != '/',
    ensures
        names(text) == if text.len() == 0 || (text.len() == 1 && text[0] == '.') {
            Seq::<Seq<char>>::empty()
        } else {
            seq![text]
        },
{
    lemma_segments_single(text);
    reveal_with_fuel(Seq::filter, 2);
    if text.len() == 1 && text[0] == '.' {
        assert(text =~= seq!['.']);
    }
    assert(seq![text].drop_last() =~= Seq::empty());
    assert(names(text) =~= if text.len() == 0 || (text.len() == 1 && text[0] == '.') {
        Seq::<Seq<char>>::empty()
    } else {
        seq![text]
    });
}

/// Filtering keeps the names.
proof fn lemma_names_are_pieces(pieces: Seq<Seq<char>>, name: Seq<char>)
    ensures
        pieces.filter(|segment: Seq<char>| is_name(segment)).contains(name) <==> pieces.contains(
            name,
        ) && is_name(name),
    decreases pieces.len(),
{
    reveal(Seq::filter);
    let rule = |segment: Seq<char>| is_name(segment);
    if pieces.len() > 0 {
        let before = pieces.drop_last();
        let last = pieces.last();
        lemma_names_are_pieces(before, name);
        assert(pieces[pieces.len() - 1] == last);
        if before.contains(name) {
            let k = choose|k: int| 0 <= k < before.len() && before[k] == name;
            assert(pieces[k] == name);
        }
        if pieces.contains(name) && name != last {
            let k = choose|k: int| 0 <= k < pieces.len() && pieces[k] == name;
            assert(before[k] == name);
        }
        let earlier = before.filter(rule);
        if is_name(last) {
            let kept = earlier.push(last);
            assert(kept[earlier.len() as int] == last);
            if earlier.contains(name) {
                let k = choose|k: int| 0 <= k < earlier.len() && earlier[k] == name;
                assert(kept[k] == name);
            }
            if kept.contains(name) && name != last {
                let k = choose|k: int| 0 <= k < kept.len() && kept[k] == name;
                assert(earlier[k] == name);
            }
        }
    }
}

/// A path steps up exactly when two dots stand in it by themselves: at its
/// start or behind a slash, and at its end or before a slash.
#[verifier::spinoff_prover]
#[verifier::rlimit(60)]
pub proof fn law_parent_step_is_two_dots_alone(path: Seq<char>)
    ensures
        has_parent_step(path) <==> exists|i: int|
            {
                &&& 0 <= i
                &&& i + 2 <= path.len()
                &&& #[trigger] path[i] == '.'
                &&& path[i + 1] == '.'
                &&& i == 0 || path[i - 1] == '/'
                &&& i + 2 == path.len() || path[i + 2] == '/'
            },
{
    let dots = seq!['.', '.'];
    let pieces = segments(path);
    lemma_names_are_pieces(pieces, dots);
    if has_parent_step(path) {
        let k = choose|k: int| 0 <= k < pieces.len() && pieces[k] == dots;
        let before = pieces.take(k);
        let behind = pieces.skip(k + 1);
        law_joining_undoes_splitting(path);
        assert(pieces =~= before + seq![dots] + behind);
        let start: int = if k == 0 {
            0
        } else {
            (joined(before).len() + 1) as int
        };
        let upto = joined(before + seq![dots]);
        if k == 0 {
            assert(before + seq![dots] =~= seq![dots]);
        } else {
            law_joining_puts_one_slash_between(before, seq![dots]);
        }
        if behind.len() == 0 {
            assert(pieces =~= before + seq![dots]);
        } else {
            law_joining_puts_one_slash_between(before + seq![dots], behind);
        }
        assert(path[start] == '.');
    }
    if exists|i: int|
        {
            &&& 0 <= i
            &&& i + 2 <= path.len()
            &&& #[trigger] path[i] == '.'
            &&& path[i + 1] == '.'
            &&& i == 0 || path[i - 1] == '/'
            &&& i + 2 == path.len() || path[i + 2] == '/'
        } {
        let i = choose|i: int|
            {
                &&& 0 <= i
                &&& i + 2 <= path.len()
                &&& #[trigger] path[i] == '.'
                &&& path[i + 1] == '.'
                &&& i == 0 || path[i - 1] == '/'
                &&& i + 2 == path.len() || path[i + 2] == '/'
            };
        lemma_segments_single(dots);
        let tail = path.skip(i);
        if i + 2 == path.len() {
            assert(tail =~= dots);
        } else {
            let rest = path.skip(i + 3);
            assert(tail =~= dots + seq!['/'] + rest);
            law_slash_parts_pieces(dots, rest);
        }
        assert(segments(tail)[0] == dots);
        if i == 0 {
            assert(tail =~= path);
        } else {
            let head = path.take(i - 1);
            assert(path =~= head + seq!['/'] + tail);
            law_slash_parts_pieces(head, tail);
            lemma_segments_nonempty(tail);
            assert(pieces[segments(head).len() as int] == dots);
        }
        assert(pieces.contains(dots));
    }
}

/// In normal form a path shows its names and nothing else: behind the root,
/// if it has one, its pieces are its names. A path without names is the root
/// alone, or nothing.
pub proof fn law_normal_form_shows_names_only(path: Seq<char>)
    ensures
        names(path).len() > 0 ==> segments(normalized(path)) == if is_absolute(path) {
            seq![Seq::<char>::empty()] + names(path)
        } else {
            names(path)
        },
        names(path).len() == 0 ==> normalized(path) == if is_absolute(path) {
            seq!['/']
        } else {
            Seq::<char>::empty()
        },
{
    let list = names(path);
    lemma_segments_slash_free(path);
    lemma_kept_pieces(segments(path));
    if list.len() > 0 {
        lemma_segments_of_joined(list);
        lemma_segments_of_rooted(joined(list));
    } else {
        assert(normalized(path) =~= if is_absolute(path) {
            seq!['/']
        } else {
            Seq::<char>::empty()
        });
    }
}

/// The components of a path are its root, or a leading `.` by itself, and
/// then a component for each name, in order.
pub proof fn law_components_follow_names(path: Seq<char>, k: int)
    requires
        0 <= k < names(path).len(),
    ensures
        ({
            let lead = components_of(path).len() - names(path).len();
            &&& lead == if is_absolute(path) || segments(path)[0] == seq!['.'] {
                1int
            } else {
                0int
            }
            &&& is_absolute(path) ==> components_of(path)[0] is RootDir
            &&& !is_absolute(path) && lead == 1 ==> components_of(path)[0] is CurDir
            &&& names(path)[k] == seq!['.', '.'] ==> components_of(path)[lead + k] is ParentDir
            &&& names(path)[k] != seq!['.', '.'] ==> components_of(path)[lead + k]
                == ComponentView::Normal(names(path)[k])
        }),
{
}

/// A component stands for what it says.
pub proof fn law_component_view(component: PathComponent)
    ensures
        component is RootDir <==> component@ is RootDir,
        component is CurDir <==> component@ is CurDir,
        component is ParentDir <==> component@ is ParentDir,
        component matches PathComponent::Normal(name) ==> component@ == ComponentView::Normal(name@),
{
}

/// A step up takes back the step before it, and any other step stays.
pub proof fn law_step_up_takes_a_step_back(
    names: Seq<Seq<char>>,
    name: Seq<char>,
    absolute: bool,
)
    requires
        name != seq!['.', '.'],
    ensures
        walked(names.push(name), absolute) == walked(names, absolute).push(name),
        walked(names.push(name).push(seq!['.', '.']), absolute) == walked(names, absolute),
{
    assert(names.push(name).drop_last() =~= names);
    assert(names.push(name).push(seq!['.', '.']).drop_last() =~= names.push(name));
    assert(walked(names.push(name), absolute) == walked(names, absolute).push(name));
    assert(walked(names, absolute).push(name).drop_last() =~= walked(names, absolute));
}

/// A step up that finds no name to take back does nothing at the root, and
/// stays in a relative path.
pub proof fn law_step_up_at_the_start(names: Seq<Seq<char>>, absolute: bool)
    requires
        walked(names, absolute).len() == 0 || walked(names, absolute).last() == seq!['.', '.'],
    ensures
        walked(names.push(seq!['.', '.']), absolute) == if absolute {
            walked(names, absolute)
        } else {
            walked(names, absolute).push(seq!['.', '.'])
        },
{
    assert(names.push(seq!['.', '.']).drop_last() =~= names);
}

/// A cleaned path is its root, if it has one, and what its walk leaves of its
/// names; where nothing is left of a relative path it is a `.`.
pub proof fn law_cleaned_path_is_its_walk(path: Seq<char>)
    ensures
        is_absolute(path) ==> cleaned(path) == seq!['/'] + joined(walked(names(path), true)),
        !is_absolute(path) && walked(names(path), false).len() > 0 ==> cleaned(path) == joined(
            walked(names(path), false),
        ),
        !is_absolute(path) && walked(names(path), false).len() == 0 ==> cleaned(path) == seq!['.'],
{
}

} // verus!
