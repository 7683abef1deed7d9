//! The rules for single entries: which paths a policy may name, and which
//! access a mount asks for.

use crate::cdi::{CdiAccess, CdiError};
#[allow(unused_imports)]
use crate::cdi::CdiErrorView;
use crate::paths::{components, normalize_path, PathComponent};
#[allow(unused_imports)]
use crate::paths::{
    component_named, has_parent_step, is_absolute, leading_component, names, normalized,
    ComponentView,
};
use crate::text::{eq_ignore_ascii_case, same_text};
#[allow(unused_imports)]
use crate::text::{same_but_ascii_case, texts};
use vstd::prelude::*;

verus! {

/// What keeps a path from being a plain absolute path, if anything.
pub open spec fn path_defect(path: Seq<char>) -> Option<Seq<char>> {
    if !is_absolute(path) {
        Some("path must be absolute"@)
    } else if has_parent_step(path) {
        Some("path must not contain '..'"@)
    } else {
        None
    }
}

/// Accepts an absolute path that never steps up.
pub fn validate_absolute_no_parent(path: &str) -> (result: Result<(), &'static str>)
    ensures
        match result {
            Ok(_) => path_defect(path@) is None,
            Err(reason) => path_defect(path@) == Some(reason@),
        },
{
    let parts = components(path);
    let ghost shown = parts@.map_values(|part: PathComponent| part@);
    let ghost lead = leading_component(path@).len();
    let ghost list = names(path@);
    assert(shown.len() == lead + list.len());
    assert forall|k: int| 0 <= k < list.len() implies #[trigger] shown[lead + k] == component_named(
        list[k],
    ) by {}
    assert forall|k: int| 0 <= k < shown.len() implies #[trigger] shown[k] == parts@[k]@ by {}
    let absolute = if parts.len() > 0 {
        match parts[0] {
            PathComponent::RootDir => true,
            _ => false,
        }
    } else {
        false
    };
    proof {
        if parts.len() > 0 {
            assert(shown[0] == parts@[0]@);
            if lead == 0 {
                assert(shown[lead + 0int] == component_named(list[0]));
            }
        }
        assert(absolute == is_absolute(path@));
    }
    if !absolute {
        return Err("path must be absolute");
    }
    for i in 0..parts.len()
        invariant
            absolute,
            absolute == is_absolute(path@),
            lead == 1,
            parts@.len() == shown.len(),
            shown.len() == lead + list.len(),
            list == names(path@),
            forall|k: int| 0 <= k < shown.len() ==> #[trigger] shown[k] == parts@[k]@,
            shown[0] == ComponentView::RootDir,
            forall|k: int|
                0 <= k < list.len() ==> #[trigger] shown[lead + k] == component_named(list[k]),
            forall|k: int| 0 <= k < i - lead ==> #[trigger] list[k] != seq!['.', '.'],
    {
        assert(shown[i as int] == parts@[i as int]@);
        proof {
            if i > 0 {
                assert(shown[lead + (i - lead)] == component_named(list[i - lead]));
            }
        }
        match parts[i] {
            PathComponent::ParentDir => {
                assert(list[i - lead] == seq!['.', '.']);
                return Err("path must not contain '..'");
            },
            PathComponent::CurDir => {
                return Err("path must be normalized");
            },
            PathComponent::RootDir | PathComponent::Normal(_) => {},
        }
    }
    Ok(())
}

/// A directory that is too broad to stand in a policy by itself.
pub open spec fn is_broad_root(path: Seq<char>) -> bool {
    ||| path == "/"@
    ||| path == "/dev"@
    ||| path == "/proc"@
    ||| path == "/sys"@
    ||| path == "/run"@
    ||| path == "/usr"@
}

/// The path under which an entry goes into a policy, or why it may not.
pub open spec fn policy_path(path: Seq<char>) -> Result<Seq<char>, CdiErrorView> {
    match path_defect(path) {
        Some(reason) => Err(CdiErrorView::UnsafePolicyPath { path, reason }),
        None => if is_broad_root(normalized(path)) {
            Err(
                CdiErrorView::UnsafePolicyPath {
                    path,
                    reason: "broad root path is not allowed"@,
                },
            )
        } else {
            Ok(normalized(path))
        },
    }
}

/// Brings a path into the form in which it stands in a policy.
pub fn normalize_policy_path(path: &str) -> (result: Result<String, CdiError>)
    ensures
        match result {
            Ok(normal) => policy_path(path@) == Ok::<Seq<char>, CdiErrorView>(normal@),
            Err(error) => policy_path(path@) == Err::<Seq<char>, CdiErrorView>(error@),
        },
{
    match validate_absolute_no_parent(path) {
        Ok(_) => {},
        Err(reason) => {
            return Err(CdiError::UnsafePolicyPath { path: path.to_owned(), reason });
        },
    }
    let normal = normalize_path(path);
    let text = normal.as_str();
    if same_text(text, "/") || same_text(text, "/dev") || same_text(text, "/proc") || same_text(
        text,
        "/sys",
    ) || same_text(text, "/run") || same_text(text, "/usr") {
        return Err(
            CdiError::UnsafePolicyPath {
                path: path.to_owned(),
                reason: "broad root path is not allowed",
            },
        );
    }
    Ok(normal)
}

/// An option of the list is the given word, whatever its case.
pub open spec fn asks_for(options: Seq<Seq<char>>, word: Seq<char>) -> bool {
    exists|i: int| 0 <= i < options.len() && same_but_ascii_case(#[trigger] options[i], word)
}

/// Tells whether an option of the list is the given word, whatever its case.
fn option_given(options: &[String], word: &str) -> (given: bool)
    ensures
        given == asks_for(texts(options@), word@),
{
    for i in 0..options.len()
        invariant
            forall|j: int| 0 <= j < i ==> !same_but_ascii_case(#[trigger] texts(options@)[j], word@),
    {
        assert(texts(options@)[i as int] == options@[i as int]@);
        if eq_ignore_ascii_case(options[i].as_str(), word) {
            return true;
        }
    }
    false
}

/// The access that the options of a mount ask for. Without a request for
/// writing it is read-only; a request for both is malformed.
pub open spec fn access_of(path: Seq<char>, options: Seq<Seq<char>>) -> Result<
    CdiAccess,
    CdiErrorView,
> {
    if asks_for(options, "ro"@) && asks_for(options, "rw"@) {
        Err(CdiErrorView::ConflictingMountOptions { path })
    } else if asks_for(options, "rw"@) {
        Ok(CdiAccess::ReadWrite)
    } else {
        Ok(CdiAccess::ReadOnly)
    }
}

/// Reads the access of a mount off its options.
pub fn mount_access(path: &str, options: &[String]) -> (result: Result<CdiAccess, CdiError>)
    ensures
        match result {
            Ok(access) => access_of(path@, texts(options@)) == Ok::<CdiAccess, CdiErrorView>(access),
            Err(error) => access_of(path@, texts(options@)) == Err::<CdiAccess, CdiErrorView>(
                error@,
            ),
        },
{
    let read_only_requested = option_given(options, "ro");
    let read_write_requested = option_given(options, "rw");
    // Options are plain words, and runtimes differ in which of two wins, so
    // asking for both is an error.
    if read_only_requested && read_write_requested {
        return Err(CdiError::ConflictingMountOptions { path: path.to_owned() });
    }
    if read_write_requested {
        Ok(CdiAccess::ReadWrite)
    } else {
        Ok(CdiAccess::ReadOnly)
    }
}

/// A path is plain exactly when a slash leads it and no two dots stand in it
/// by themselves; otherwise the first of these that fails is named.
pub proof fn law_plain_paths(path: Seq<char>)
    ensures
        path.len() == 0 || path[0] != '/' ==> path_defect(path) == Some("path must be absolute"@),
        path.len() > 0 && path[0] == '/' && has_parent_step(path) ==> path_defect(path) == Some(
            "path must not contain '..'"@,
        ),
        path.len() > 0 && path[0] == '/' && !has_parent_step(path) ==> path_defect(path) is None,
{
}

/// A plain path goes into a policy under its normal form, whatever it is,
/// unless that is the root or one of five directories below it.
pub proof fn law_plain_paths_go_in_under_their_normal_form(path: Seq<char>)
    requires
        path.len() > 0,
        path[0] == '/',
        !has_parent_step(path),
    ensures
        ({
            let normal = normalized(path);
            let broad = normal == "/"@ || normal == "/dev"@ || normal == "/proc"@ || normal
                == "/sys"@ || normal == "/run"@ || normal == "/usr"@;
            policy_path(path) == if broad {
                Err::<Seq<char>, CdiErrorView>(
                    CdiErrorView::UnsafePolicyPath {
                        path,
                        reason: "broad root path is not allowed"@,
                    },
                )
            } else {
                Ok::<Seq<char>, CdiErrorView>(normal)
            }
        }),
{
}

/// A path that is not plain goes into no policy; it is reported as it was
/// written, with what is wrong.
pub proof fn law_other_paths_are_refused(path: Seq<char>)
    requires
        path.len() == 0 || path[0] != '/' || has_parent_step(path),
    ensures
        policy_path(path) == Err::<Seq<char>, CdiErrorView>(
            CdiErrorView::UnsafePolicyPath {
                path,
                reason: if path.len() == 0 || path[0] != '/' {
                    "path must be absolute"@
                } else {
                    "path must not contain '..'"@
                },
            },
        ),
{
}

/// The options of a mount count wherever they stand: one that is `rw` asks
/// for writing, one that is `ro` against it, both together are refused, and
/// without a `rw` the mount is only read.
pub proof fn law_options_count_wherever_they_stand(path: Seq<char>, options: Seq<Seq<char>>)
    ensures
        (exists|i: int| 0 <= i < options.len() && same_but_ascii_case(#[trigger] options[i], "rw"@))
            && (exists|i: int|
            0 <= i < options.len() && same_but_ascii_case(#[trigger] options[i], "ro"@))
            ==> access_of(path, options) == Err::<CdiAccess, CdiErrorView>(
            CdiErrorView::ConflictingMountOptions { path },
        ),
        (exists|i: int| 0 <= i < options.len() && same_but_ascii_case(#[trigger] options[i], "rw"@))
            && (forall|i: int|
            0 <= i < options.len() ==> !same_but_ascii_case(#[trigger] options[i], "ro"@))
            ==> access_of(path, options) == Ok::<CdiAccess, CdiErrorView>(CdiAccess::ReadWrite),
        (forall|i: int|
            0 <= i < options.len() ==> !same_but_ascii_case(#[trigger] options[i], "rw"@))
            ==> access_of(path, options) == Ok::<CdiAccess, CdiErrorView>(CdiAccess::ReadOnly),
{
}

/// Options that are the same words, in whatever order and however often, ask
/// for the same access.
pub proof fn law_option_order_is_irrelevant(
    path: Seq<char>,
    options: Seq<Seq<char>>,
    others: Seq<Seq<char>>,
)
    requires
        forall|word: Seq<char>| options.contains(word) <==> #[trigger] others.contains(word),
    ensures
        access_of(path, options) == access_of(path, others),
{
    lemma_same_words_ask_alike(options, others, "ro"@);
    lemma_same_words_ask_alike(options, others, "rw"@);
    lemma_same_words_ask_alike(others, options, "ro"@);
    lemma_same_words_ask_alike(others, options, "rw"@);
}

/// What some options ask for, options with the same words ask for.
proof fn lemma_same_words_ask_alike(
    options: Seq<Seq<char>>,
    others: Seq<Seq<char>>,
    word: Seq<char>,
)
    requires
        forall|word: Seq<char>| #[trigger] options.contains(word) ==> others.contains(word),
    ensures
        asks_for(options, word) ==> asks_for(others, word),
{
    if asks_for(options, word) {
        let i = choose|i: int|
            0 <= i < options.len() && same_but_ascii_case(#[trigger] options[i], word);
        assert(options.contains(options[i]));
        let j = choose|j: int| 0 <= j < others.len() && others[j] == options[i];
        assert(same_but_ascii_case(others[j], word));
    }
}

/// Other words in front of the options, or behind them, change nothing.
pub proof fn law_other_words_do_not_matter(
    path: Seq<char>,
    front: Seq<Seq<char>>,
    options: Seq<Seq<char>>,
    behind: Seq<Seq<char>>,
)
    requires
        forall|i: int|
            0 <= i < front.len() ==> !same_but_ascii_case(#[trigger] front[i], "ro"@)
                && !same_but_ascii_case(front[i], "rw"@),
        forall|i: int|
            0 <= i < behind.len() ==> !same_but_ascii_case(#[trigger] behind[i], "ro"@)
                && !same_but_ascii_case(behind[i], "rw"@),
    ensures
        access_of(path, front + options + behind) == access_of(path, options),
{
    lemma_other_words(front, options, behind, "ro"@);
    lemma_other_words(front, options, behind, "rw"@);
}

/// Options around which stand other words ask for the word if they did.
proof fn lemma_other_words(
    front: Seq<Seq<char>>,
    options: Seq<Seq<char>>,
    behind: Seq<Seq<char>>,
    word: Seq<char>,
)
    requires
        forall|i: int| 0 <= i < front.len() ==> !same_but_ascii_case(#[trigger] front[i], word),
        forall|i: int| 0 <= i < behind.len() ==> !same_but_ascii_case(#[trigger] behind[i], word),
    ensures
        asks_for(front + options + behind, word) == asks_for(options, word),
{
    let all = front + options + behind;
    if asks_for(options, word) {
        let i = choose|i: int|
            0 <= i < options.len() && same_but_ascii_case(#[trigger] options[i], word);
        assert(all[front.len() + i] == options[i]);
    }
    if asks_for(all, word) {
        let i = choose|i: int| 0 <= i < all.len() && same_but_ascii_case(#[trigger] all[i], word);
        if i < front.len() {
            assert(all[i] == front[i]);
        } else if i < front.len() + options.len() {
            assert(all[i] == options[i - front.len()]);
        } else {
            assert(all[i] == behind[i - front.len() - options.len()]);
        }
    }
}

} // verus!
