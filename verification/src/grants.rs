//! What is granted and what is refused, entry by entry.
//!
//! The laws here speak of single entries of edits, by their places, and of
//! single paths of a policy.

#[allow(unused_imports)]
use crate::accumulator::{
    answers, gid_added, is_device, is_violation, lists_requirements, lookup_of, mount_added,
    mount_answers, no_violation_before, node_added, violation_error, writable_mounts_checked,
    Requirements,
};
#[allow(unused_imports)]
use crate::cdi::{
    error_of, kind_text, CdiAccess, CdiErrorView, CdiPathKind, MountEdit, PolicyEdits,
    RequirementLists,
};
#[allow(unused_imports)]
use crate::collect::{
    accumulated, derived, gids_added, groups_reached, lemma_mount_error_stays,
    lemma_node_error_stays, lemma_nodes_added, mount_entry, mounts_added, node_answers, nodes_added,
    normalized_all, root_groups, Findings,
};
#[allow(unused_imports)]
use crate::laws::{
    acceptable, fixed, law_granted_policy_is_what_edits_want, law_success_is_owed,
    lemma_mounts_added, lists_mount, mounts_agree, wanted, wants_mount, wants_node,
};
#[allow(unused_imports)]
use crate::paths::normalized;
#[allow(unused_imports)]
use crate::policy::{access_of, policy_path};
#[allow(unused_imports)]
use crate::text::{law_order_irreflexive, lex_lt};
use vstd::prelude::*;

verus! {

/// A lookup gives the answers that its function gives, and no others.
pub proof fn law_lookup_gives_what_its_function_gives<F: Fn(&str) -> Option<CdiPathKind>>(
    path_kind: F,
    path: Seq<char>,
    kind: Option<CdiPathKind>,
)
    ensures
        lookup_of(path_kind)(path, kind) <==> exists|text: &str|
            text@ == path && #[trigger] call_ensures(path_kind, (text,), kind),
{
}

/// A fixed lookup gives the one answer that it is fixed to.
pub proof fn law_fixed_lookup_gives_one_answer(
    kind_at: spec_fn(Seq<char>) -> Option<CdiPathKind>,
    path: Seq<char>,
    kind: Option<CdiPathKind>,
)
    ensures
        fixed(kind_at)(path, kind) <==> kind == kind_at(path),
{
}

/// Character devices and block devices are devices; files, directories, other
/// things and nothing at all are not.
pub proof fn law_two_kinds_are_devices(kind: Option<CdiPathKind>)
    ensures
        is_device(kind) == match kind {
            Some(CdiPathKind::CharacterDevice) => true,
            Some(CdiPathKind::BlockDevice) => true,
            Some(CdiPathKind::File) => false,
            Some(CdiPathKind::Directory) => false,
            Some(CdiPathKind::Other) => false,
            None => false,
        },
{
}

/// At first nothing is required, and a path is mounted as it is listed.
pub proof fn law_nothing_is_required_at_first(
    requirements: Requirements,
    path: Seq<char>,
    access: CdiAccess,
    gid: u32,
)
    ensures
        !Requirements::none().nodes.contains(path),
        !Requirements::none().mounts.contains_key(path),
        !Requirements::none().gids.contains(gid),
        requirements.mounted(path, access) <==> requirements.mounts.contains_key(path)
            && requirements.mounts[path] == access,
{
}

/// A device node is added exactly when a device was found and the path is not
/// mounted read-only. Then it is the one thing that is new.
pub proof fn law_adding_a_node(before: Requirements, path: Seq<char>, kind: Option<CdiPathKind>)
    ensures
        ({
            let (after, error) = node_added(before, path, kind);
            let device = kind == Some(CdiPathKind::CharacterDevice) || kind == Some(
                CdiPathKind::BlockDevice,
            );
            let read_only = before.mounts.contains_key(path) && before.mounts[path]
                == CdiAccess::ReadOnly;
            &&& !device ==> error == Some(
                CdiErrorView::DeviceNodeNotDevice { path, kind: kind_text(kind) },
            )
            &&& device && read_only ==> error == Some(CdiErrorView::ConflictingAccess { path })
            &&& device && !read_only ==> error is None
            &&& forall|other: Seq<char>| #[trigger]
                after.nodes.contains(other) <==> before.nodes.contains(other) || (other == path
                    && device && !read_only)
            &&& after.mounts == before.mounts
            &&& after.gids == before.gids
        }),
{
}

/// A mount is added exactly when the path is not mounted with another access
/// and, for a read-only one, is no device node. Then it is the one thing that
/// is new.
pub proof fn law_adding_a_mount(before: Requirements, path: Seq<char>, access: CdiAccess)
    ensures
        ({
            let (after, error) = mount_added(before, path, access);
            let conflict = (access == CdiAccess::ReadOnly && before.nodes.contains(path)) || (
            before.mounts.contains_key(path) && before.mounts[path] != access);
            &&& conflict ==> error == Some(CdiErrorView::ConflictingAccess { path })
            &&& !conflict ==> error is None
            &&& forall|other: Seq<char>| #[trigger]
                after.mounts.contains_key(other) <==> before.mounts.contains_key(other) || (other
                    == path && !conflict)
            &&& forall|other: Seq<char>| #[trigger]
                before.mounts.contains_key(other) ==> after.mounts[other] == before.mounts[other]
            &&& !conflict ==> after.mounts[path] == access
            &&& after.nodes == before.nodes
            &&& after.gids == before.gids
        }),
{
}

/// A group is added, and nothing else is new; the root group is not added.
pub proof fn law_adding_a_group(before: Requirements, gid: u32)
    ensures
        forall|other: u32| #[trigger]
            gid_added(before, gid).gids.contains(other) <==> before.gids.contains(other) || (other
                == gid && gid != 0),
        gid_added(before, gid).nodes == before.nodes,
        gid_added(before, gid).mounts == before.mounts,
{
}

/// Groups are added wherever they stand in the list, and nothing else is new;
/// the root group is not added.
pub proof fn law_adding_groups(before: Requirements, gids: Seq<u32>)
    ensures
        forall|gid: u32| #[trigger]
            gids_added(before, gids).gids.contains(gid) <==> before.gids.contains(gid) || (gid != 0
                && exists|i: int| 0 <= i < gids.len() && gids[i] == gid),
        gids_added(before, gids).nodes == before.nodes,
        gids_added(before, gids).mounts == before.mounts,
{
    assert forall|gid: u32| #[trigger]
        gids_added(before, gids).gids.contains(gid) <==> before.gids.contains(gid) || (gid != 0
            && exists|i: int| 0 <= i < gids.len() && gids[i] == gid) by {
        assert(gids.to_set().contains(gid) <==> gids.contains(gid));
    }
}

/// A mount goes in under the policy path of its container path, with the
/// access that its options ask for; what is wrong with the path is reported
/// before what is wrong with the options.
pub proof fn law_mount_goes_in_by_path_and_options(mount: MountEdit)
    ensures
        match policy_path(mount.container_path) {
            Err(error) => mount_entry(mount) == Err::<(Seq<char>, CdiAccess), CdiErrorView>(error),
            Ok(path) => match access_of(path, mount.options) {
                Err(error) => mount_entry(mount) == Err::<(Seq<char>, CdiAccess), CdiErrorView>(
                    error,
                ),
                Ok(access) => mount_entry(mount) == Ok::<(Seq<char>, CdiAccess), CdiErrorView>(
                    (path, access),
                ),
            },
        },
{
}

/// A path is on the allowlist exactly when it is the normal form of an entry,
/// wherever that stands.
pub proof fn law_allowlist_entries_count_wherever_they_stand(
    allowlist: Seq<Seq<char>>,
    path: Seq<char>,
)
    ensures
        normalized_all(allowlist).contains(path) <==> exists|i: int|
            0 <= i < allowlist.len() && normalized(#[trigger] allowlist[i]) == path,
        normalized_all(allowlist).len() == allowlist.len(),
        forall|i: int|
            0 <= i < allowlist.len() ==> #[trigger] normalized_all(allowlist)[i] == normalized(
                allowlist[i],
            ),
{
    let all = normalized_all(allowlist);
    if all.contains(path) {
        let i = choose|i: int| 0 <= i < all.len() && all[i] == path;
        assert(normalized(allowlist[i]) == path);
    }
    if exists|i: int| 0 <= i < allowlist.len() && normalized(#[trigger] allowlist[i]) == path {
        let i = choose|i: int|
            0 <= i < allowlist.len() && normalized(#[trigger] allowlist[i]) == path;
        assert(all[i] == path);
    }
}

/// Writable mounts that pass are all in the allowlist and found to be files.
pub proof fn law_writable_mounts_that_pass(
    lookup: spec_fn(Seq<char>, Option<CdiPathKind>) -> bool,
    mounts: Map<Seq<char>, CdiAccess>,
    allowlist: Seq<Seq<char>>,
    kinds: Map<Seq<char>, Option<CdiPathKind>>,
    path: Seq<char>,
)
    requires
        mount_answers(lookup, mounts, allowlist, kinds),
        writable_mounts_checked(mounts, allowlist, kinds, None),
        mounts.contains_key(path),
        mounts[path] == CdiAccess::ReadWrite,
    ensures
        allowlist.contains(path),
        lookup(path, Some(CdiPathKind::File)),
{
    assert(!is_violation(mounts, allowlist, kinds, path));
}

/// Where the check of the writable mounts fails, it reports a writable mount
/// that is not in the allowlist, or was found to be something else than a
/// file; and every writable mount that sorts before it is in the allowlist
/// and was found to be a file.
pub proof fn law_first_bad_writable_mount_is_reported(
    lookup: spec_fn(Seq<char>, Option<CdiPathKind>) -> bool,
    mounts: Map<Seq<char>, CdiAccess>,
    allowlist: Seq<Seq<char>>,
    kinds: Map<Seq<char>, Option<CdiPathKind>>,
    error: CdiErrorView,
)
    requires
        mount_answers(lookup, mounts, allowlist, kinds),
        writable_mounts_checked(mounts, allowlist, kinds, Some(error)),
    ensures
        exists|path: Seq<char>|
            {
                &&& #[trigger] mounts.contains_key(path)
                &&& mounts[path] == CdiAccess::ReadWrite
                &&& !allowlist.contains(path) ==> error == (CdiErrorView::WritableMountNotAllowed {
                    path,
                })
                &&& allowlist.contains(path) ==> exists|kind: Option<CdiPathKind>| #[trigger]
                    lookup(path, kind) && kind != Some(CdiPathKind::File) && error == (
                    CdiErrorView::WritableMountNotFile { path, kind: kind_text(kind) })
                &&& forall|other: Seq<char>| #[trigger]
                    mounts.contains_key(other) && mounts[other] == CdiAccess::ReadWrite && lex_lt(
                        other,
                        path,
                    ) ==> allowlist.contains(other) && lookup(other, Some(CdiPathKind::File))
            },
{
    let path = choose|path: Seq<char>| #[trigger]
        is_violation(mounts, allowlist, kinds, path) && no_violation_before(
            mounts,
            allowlist,
            kinds,
            path,
        ) && error == violation_error(allowlist, kinds, path);
    assert(mounts.contains_key(path));
    if allowlist.contains(path) {
        assert(lookup(path, kinds[path]));
    }
    assert forall|other: Seq<char>| #[trigger]
        mounts.contains_key(other) && mounts[other] == CdiAccess::ReadWrite && lex_lt(
            other,
            path,
        ) implies allowlist.contains(other) && lookup(other, Some(CdiPathKind::File)) by {
        assert(!is_violation(mounts, allowlist, kinds, other));
        assert forall|third: Seq<char>| #[trigger]
            is_violation(mounts, allowlist, kinds, third) implies !lex_lt(third, other) by {
            if lex_lt(third, other) {
                crate::text::law_order_transitive(third, other, path);
            }
        }
    }
}

/// The lists of requirements hold them and nothing else, each list in order
/// and without repetition.
pub proof fn law_lists_hold_requirements_in_order(
    lists: RequirementLists,
    requirements: Requirements,
)
    requires
        lists_requirements(lists, requirements),
    ensures
        forall|path: Seq<char>| #[trigger]
            lists.device_node_paths.contains(path) <==> requirements.nodes.contains(path),
        forall|path: Seq<char>| #[trigger]
            lists.read_only_mount_paths.contains(path) <==> requirements.mounts.contains_key(path)
                && requirements.mounts[path] == CdiAccess::ReadOnly,
        forall|path: Seq<char>| #[trigger]
            lists.read_write_mount_paths.contains(path) <==> requirements.mounts.contains_key(path)
                && requirements.mounts[path] == CdiAccess::ReadWrite,
        forall|gid: u32| #[trigger]
            lists.additional_gids.contains(gid) <==> requirements.gids.contains(gid),
        forall|i: int, j: int|
            0 <= i < j < lists.device_node_paths.len() ==> lex_lt(
                #[trigger] lists.device_node_paths[i],
                #[trigger] lists.device_node_paths[j],
            ),
        forall|i: int, j: int|
            0 <= i < j < lists.read_only_mount_paths.len() ==> lex_lt(
                #[trigger] lists.read_only_mount_paths[i],
                #[trigger] lists.read_only_mount_paths[j],
            ),
        forall|i: int, j: int|
            0 <= i < j < lists.read_write_mount_paths.len() ==> lex_lt(
                #[trigger] lists.read_write_mount_paths[i],
                #[trigger] lists.read_write_mount_paths[j],
            ),
        forall|i: int, j: int|
            0 <= i < j < lists.additional_gids.len() ==> (#[trigger] lists.additional_gids[i])
                < #[trigger] lists.additional_gids[j],
{
}

/// A granted policy lists the path of every device node, every mount under
/// the access it asks for and every group but the root group, wherever they
/// stand in the edits; it lists nothing else, and lists them in order.
#[verifier::spinoff_prover]
#[verifier::rlimit(60)]
pub proof fn law_granted_policy_entry_by_entry(
    lookup: spec_fn(Seq<char>, Option<CdiPathKind>) -> bool,
    edits: PolicyEdits,
    allowlist: Seq<Seq<char>>,
    lists: RequirementLists,
)
    requires
        derived(lookup, edits, allowlist, Ok(lists)),
    ensures
        forall|path: Seq<char>| #[trigger]
            lists.device_node_paths.contains(path) <==> exists|i: int|
                0 <= i < edits.device_nodes.len() && policy_path(#[trigger] edits.device_nodes[i])
                    == Ok::<Seq<char>, CdiErrorView>(path),
        forall|path: Seq<char>| #[trigger]
            lists.read_only_mount_paths.contains(path) <==> exists|i: int|
                0 <= i < edits.mounts.len() && policy_path(
                    (#[trigger] edits.mounts[i]).container_path,
                ) == Ok::<Seq<char>, CdiErrorView>(path) && access_of(path, edits.mounts[i].options)
                    == Ok::<CdiAccess, CdiErrorView>(CdiAccess::ReadOnly),
        forall|path: Seq<char>| #[trigger]
            lists.read_write_mount_paths.contains(path) <==> exists|i: int|
                0 <= i < edits.mounts.len() && policy_path(
                    (#[trigger] edits.mounts[i]).container_path,
                ) == Ok::<Seq<char>, CdiErrorView>(path) && access_of(path, edits.mounts[i].options)
                    == Ok::<CdiAccess, CdiErrorView>(CdiAccess::ReadWrite),
        forall|gid: u32| #[trigger]
            lists.additional_gids.contains(gid) <==> gid != 0 && exists|i: int|
                0 <= i < edits.additional_gids.len() && edits.additional_gids[i] == gid,
        forall|i: int, j: int|
            0 <= i < j < lists.device_node_paths.len() ==> lex_lt(
                #[trigger] lists.device_node_paths[i],
                #[trigger] lists.device_node_paths[j],
            ),
        forall|i: int, j: int|
            0 <= i < j < lists.read_only_mount_paths.len() ==> lex_lt(
                #[trigger] lists.read_only_mount_paths[i],
                #[trigger] lists.read_only_mount_paths[j],
            ),
        forall|i: int, j: int|
            0 <= i < j < lists.read_write_mount_paths.len() ==> lex_lt(
                #[trigger] lists.read_write_mount_paths[i],
                #[trigger] lists.read_write_mount_paths[j],
            ),
        forall|i: int, j: int|
            0 <= i < j < lists.additional_gids.len() ==> (#[trigger] lists.additional_gids[i])
                < #[trigger] lists.additional_gids[j],
{
    law_granted_policy_is_what_edits_want(lookup, edits, allowlist, lists);
    law_lists_hold_requirements_in_order(lists, wanted(edits));
    crate::laws::lemma_wanted_mounts_agree(lookup, edits, allowlist, lists);
    assert forall|path: Seq<char>| #[trigger]
        lists.read_only_mount_paths.contains(path) <==> exists|i: int|
            0 <= i < edits.mounts.len() && policy_path((#[trigger] edits.mounts[i]).container_path)
                == Ok::<Seq<char>, CdiErrorView>(path) && access_of(path, edits.mounts[i].options)
                == Ok::<CdiAccess, CdiErrorView>(CdiAccess::ReadOnly) by {
        lemma_mount_wanted(edits, path, CdiAccess::ReadOnly);
        assert(wants_mount(edits, path, CdiAccess::ReadOnly) <==> wanted(edits).mounted(
            path,
            CdiAccess::ReadOnly,
        ));
    }
    assert forall|path: Seq<char>| #[trigger]
        lists.read_write_mount_paths.contains(path) <==> exists|i: int|
            0 <= i < edits.mounts.len() && policy_path((#[trigger] edits.mounts[i]).container_path)
                == Ok::<Seq<char>, CdiErrorView>(path) && access_of(path, edits.mounts[i].options)
                == Ok::<CdiAccess, CdiErrorView>(CdiAccess::ReadWrite) by {
        lemma_mount_wanted(edits, path, CdiAccess::ReadWrite);
        assert(wants_mount(edits, path, CdiAccess::ReadWrite) <==> wanted(edits).mounted(
            path,
            CdiAccess::ReadWrite,
        ));
    }
    assert forall|gid: u32| #[trigger]
        lists.additional_gids.contains(gid) <==> gid != 0 && exists|i: int|
            0 <= i < edits.additional_gids.len() && edits.additional_gids[i] == gid by {
        crate::laws::law_groups_but_root(lookup, edits, allowlist, lists, gid);
    }
}

/// A mount is wanted exactly when it stands somewhere in the edits.
proof fn lemma_mount_wanted(edits: PolicyEdits, path: Seq<char>, access: CdiAccess)
    ensures
        wants_mount(edits, path, access) <==> exists|i: int|
            0 <= i < edits.mounts.len() && policy_path((#[trigger] edits.mounts[i]).container_path)
                == Ok::<Seq<char>, CdiErrorView>(path) && access_of(path, edits.mounts[i].options)
                == Ok::<CdiAccess, CdiErrorView>(access),
{
    let entry = Ok::<(Seq<char>, CdiAccess), CdiErrorView>((path, access));
    if wants_mount(edits, path, access) {
        let i = choose|i: int|
            0 <= i < edits.mounts.len() && mount_entry(#[trigger] edits.mounts[i]) == entry;
        assert(policy_path(edits.mounts[i].container_path) == Ok::<Seq<char>, CdiErrorView>(path));
    }
    if exists|i: int|
        0 <= i < edits.mounts.len() && policy_path((#[trigger] edits.mounts[i]).container_path)
            == Ok::<Seq<char>, CdiErrorView>(path) && access_of(path, edits.mounts[i].options)
            == Ok::<CdiAccess, CdiErrorView>(access) {
        let i = choose|i: int|
            0 <= i < edits.mounts.len() && policy_path((#[trigger] edits.mounts[i]).container_path)
                == Ok::<Seq<char>, CdiErrorView>(path) && access_of(path, edits.mounts[i].options)
                == Ok::<CdiAccess, CdiErrorView>(access);
        assert(mount_entry(edits.mounts[i]) == entry);
    }
}

/// A policy is granted exactly when every device node has a policy path at
/// which a device is found; every mount has a policy path and options that do
/// not contradict each other; no two mounts of one path differ in their
/// access; no read-only mount is a device node; and every writable mount is a
/// file and the normal form of an entry of the allowlist, wherever that
/// stands.
#[verifier::spinoff_prover]
#[verifier::rlimit(60)]
pub proof fn law_granted_exactly_when_every_entry_is_fine(
    kind_at: spec_fn(Seq<char>) -> Option<CdiPathKind>,
    edits: PolicyEdits,
    allowlist: Seq<Seq<char>>,
    outcome: Result<RequirementLists, CdiErrorView>,
)
    requires
        derived(fixed(kind_at), edits, allowlist, outcome),
    ensures
        outcome is Ok <==> {
            &&& forall|i: int|
                0 <= i < edits.device_nodes.len() ==> {
                    let path = policy_path(#[trigger] edits.device_nodes[i]);
                    path is Ok && (kind_at(path->Ok_0) == Some(CdiPathKind::CharacterDevice)
                        || kind_at(path->Ok_0) == Some(CdiPathKind::BlockDevice))
                }
            &&& forall|i: int|
                0 <= i < edits.mounts.len() ==> mount_entry(#[trigger] edits.mounts[i]) is Ok
            &&& forall|i: int, j: int|
                0 <= i < edits.mounts.len() && 0 <= j < edits.mounts.len() && mount_entry(
                    #[trigger] edits.mounts[i],
                )->Ok_0.0 == mount_entry(#[trigger] edits.mounts[j])->Ok_0.0 ==> mount_entry(
                    edits.mounts[i],
                )->Ok_0.1 == mount_entry(edits.mounts[j])->Ok_0.1
            &&& forall|i: int, j: int|
                0 <= i < edits.mounts.len() && 0 <= j < edits.device_nodes.len() && mount_entry(
                    #[trigger] edits.mounts[i],
                )->Ok_0.1 == CdiAccess::ReadOnly ==> mount_entry(edits.mounts[i])->Ok_0.0
                    != policy_path(#[trigger] edits.device_nodes[j])->Ok_0
            &&& forall|i: int|
                0 <= i < edits.mounts.len() && mount_entry(#[trigger] edits.mounts[i])->Ok_0.1
                    == CdiAccess::ReadWrite ==> kind_at(mount_entry(edits.mounts[i])->Ok_0.0)
                    == Some(CdiPathKind::File) && exists|k: int|
                    0 <= k < allowlist.len() && normalized(#[trigger] allowlist[k]) == mount_entry(
                        edits.mounts[i],
                    )->Ok_0.0
        },
{
    let nodes = edits.device_nodes;
    let mounts = edits.mounts;
    law_success_is_owed(kind_at, edits, allowlist, outcome);
    assert forall|path: Seq<char>| #[trigger]
        normalized_all(allowlist).contains(path) <==> exists|k: int|
            0 <= k < allowlist.len() && normalized(#[trigger] allowlist[k]) == path by {
        law_allowlist_entries_count_wherever_they_stand(allowlist, path);
    }
    if outcome is Ok {
        assert forall|i: int| 0 <= i < nodes.len() implies {
            let path = policy_path(#[trigger] nodes[i]);
            path is Ok && (kind_at(path->Ok_0) == Some(CdiPathKind::CharacterDevice) || kind_at(
                path->Ok_0,
            ) == Some(CdiPathKind::BlockDevice))
        } by {
            assert(wants_node(edits, policy_path(nodes[i])->Ok_0));
        }
        assert forall|i: int| 0 <= i < mounts.len() implies lists_mount(
            mounts,
            mount_entry(#[trigger] mounts[i])->Ok_0.0,
            mount_entry(mounts[i])->Ok_0.1,
        ) && wants_mount(
            edits,
            mount_entry(mounts[i])->Ok_0.0,
            mount_entry(mounts[i])->Ok_0.1,
        ) by {
            assert(mount_entry(mounts[i]) is Ok);
        }
        assert forall|i: int, j: int|
            0 <= i < mounts.len() && 0 <= j < mounts.len() && mount_entry(
                #[trigger] mounts[i],
            )->Ok_0.0 == mount_entry(#[trigger] mounts[j])->Ok_0.0 implies mount_entry(
            mounts[i],
        )->Ok_0.1 == mount_entry(mounts[j])->Ok_0.1 by {
            let path = mount_entry(mounts[i])->Ok_0.0;
            assert(wants_mount(edits, path, mount_entry(mounts[i])->Ok_0.1));
            assert(wants_mount(edits, path, mount_entry(mounts[j])->Ok_0.1));
        }
        assert forall|i: int, j: int|
            0 <= i < mounts.len() && 0 <= j < nodes.len() && mount_entry(
                #[trigger] mounts[i],
            )->Ok_0.1 == CdiAccess::ReadOnly implies mount_entry(mounts[i])->Ok_0.0 != policy_path(
            #[trigger] nodes[j],
        )->Ok_0 by {
            assert(wants_node(edits, policy_path(nodes[j])->Ok_0));
            assert(wants_mount(edits, mount_entry(mounts[i])->Ok_0.0, CdiAccess::ReadOnly));
        }
    } else {
        if forall|i: int|
            0 <= i < nodes.len() ==> {
                let path = policy_path(#[trigger] nodes[i]);
                path is Ok && (kind_at(path->Ok_0) == Some(CdiPathKind::CharacterDevice) || kind_at(
                    path->Ok_0,
                ) == Some(CdiPathKind::BlockDevice))
            } {
            lemma_fine_entries_are_acceptable(kind_at, edits, allowlist);
        }
    }
}

/// Entries that are fine one by one and with each other are acceptable.
#[verifier::spinoff_prover]
#[verifier::rlimit(60)]
proof fn lemma_fine_entries_are_acceptable(
    kind_at: spec_fn(Seq<char>) -> Option<CdiPathKind>,
    edits: PolicyEdits,
    allowlist: Seq<Seq<char>>,
)
    requires
        forall|i: int|
            0 <= i < edits.device_nodes.len() ==> {
                let path = policy_path(#[trigger] edits.device_nodes[i]);
                path is Ok && (kind_at(path->Ok_0) == Some(CdiPathKind::CharacterDevice) || kind_at(
                    path->Ok_0,
                ) == Some(CdiPathKind::BlockDevice))
            },
        !acceptable(kind_at, edits, allowlist),
    ensures
        !({
            &&& forall|i: int|
                0 <= i < edits.mounts.len() ==> mount_entry(#[trigger] edits.mounts[i]) is Ok
            &&& forall|i: int, j: int|
                0 <= i < edits.mounts.len() && 0 <= j < edits.mounts.len() && mount_entry(
                    #[trigger] edits.mounts[i],
                )->Ok_0.0 == mount_entry(#[trigger] edits.mounts[j])->Ok_0.0 ==> mount_entry(
                    edits.mounts[i],
                )->Ok_0.1 == mount_entry(edits.mounts[j])->Ok_0.1
            &&& forall|i: int, j: int|
                0 <= i < edits.mounts.len() && 0 <= j < edits.device_nodes.len() && mount_entry(
                    #[trigger] edits.mounts[i],
                )->Ok_0.1 == CdiAccess::ReadOnly ==> mount_entry(edits.mounts[i])->Ok_0.0
                    != policy_path(#[trigger] edits.device_nodes[j])->Ok_0
            &&& forall|i: int|
                0 <= i < edits.mounts.len() && mount_entry(#[trigger] edits.mounts[i])->Ok_0.1
                    == CdiAccess::ReadWrite ==> kind_at(mount_entry(edits.mounts[i])->Ok_0.0)
                    == Some(CdiPathKind::File) && exists|k: int|
                    0 <= k < allowlist.len() && normalized(#[trigger] allowlist[k]) == mount_entry(
                        edits.mounts[i],
                    )->Ok_0.0
        }),
{
    let nodes = edits.device_nodes;
    let mounts = edits.mounts;
    assert forall|path: Seq<char>| #[trigger] wants_node(edits, path) implies is_device(
        kind_at(path),
    ) by {}
    if forall|i: int| 0 <= i < mounts.len() ==> mount_entry(#[trigger] mounts[i]) is Ok {
        assert forall|path: Seq<char>| #[trigger]
            normalized_all(allowlist).contains(path) <==> exists|k: int|
                0 <= k < allowlist.len() && normalized(#[trigger] allowlist[k]) == path by {
            law_allowlist_entries_count_wherever_they_stand(allowlist, path);
        }
    }
}

/// The first device node that cannot be added is the one that is reported:
/// for its path, for not being a device, or for being mounted read-only
/// already. The nodes before it are added, and nothing else is.
#[verifier::spinoff_prover]
#[verifier::rlimit(60)]
pub proof fn law_first_bad_node_is_reported(
    kind_at: spec_fn(Seq<char>) -> Option<CdiPathKind>,
    before: Requirements,
    edits: PolicyEdits,
    allowlist: Seq<Seq<char>>,
    findings: Findings,
    after: Requirements,
    error: Option<CdiErrorView>,
    n: int,
)
    requires
        accumulated(fixed(kind_at), before, edits, allowlist, findings, after, error),
        0 <= n < edits.device_nodes.len(),
        forall|i: int|
            0 <= i < n ==> {
                let path = policy_path(#[trigger] edits.device_nodes[i]);
                path is Ok && is_device(kind_at(path->Ok_0)) && !before.mounted(
                    path->Ok_0,
                    CdiAccess::ReadOnly,
                )
            },
    ensures
        match policy_path(edits.device_nodes[n]) {
            Err(refusal) => error == Some(refusal),
            Ok(path) => if !is_device(kind_at(path)) {
                error == Some(
                    CdiErrorView::DeviceNodeNotDevice { path, kind: kind_text(kind_at(path)) },
                )
            } else {
                before.mounted(path, CdiAccess::ReadOnly) ==> error == Some(
                    CdiErrorView::ConflictingAccess { path },
                )
            },
        },
        policy_path(edits.device_nodes[n]) is Err || !is_device(
            kind_at(policy_path(edits.device_nodes[n])->Ok_0),
        ) || before.mounted(policy_path(edits.device_nodes[n])->Ok_0, CdiAccess::ReadOnly) ==> {
            &&& after.mounts == before.mounts
            &&& after.gids == before.gids
            &&& forall|path: Seq<char>| #[trigger]
                after.nodes.contains(path) <==> before.nodes.contains(path) || exists|i: int|
                    0 <= i < n && policy_path(#[trigger] edits.device_nodes[i]) == Ok::<
                        Seq<char>,
                        CdiErrorView,
                    >(path)
        },
{
    let lookup = fixed(kind_at);
    let nodes = edits.device_nodes;
    let kinds = findings.nodes;
    let leading = nodes.take(n);
    lemma_leading_nodes_pass(kind_at, before, nodes, kinds, n);
    lemma_nodes_added(before, leading, kinds);
    assert(nodes.take(n + 1).drop_last() =~= leading);
    assert(nodes.take(n + 1).last() == nodes[n]);
    if policy_path(nodes[n]) is Ok {
        assert(lookup(policy_path(nodes[n])->Ok_0, kinds[n]));
    }
    if policy_path(nodes[n]) is Err || !is_device(kind_at(policy_path(nodes[n])->Ok_0))
        || before.mounted(policy_path(nodes[n])->Ok_0, CdiAccess::ReadOnly) {
        assert(nodes_added(before, nodes.take(n + 1), kinds).1 is Some);
        lemma_node_error_stays(before, nodes, kinds, n + 1);
        let then = nodes_added(before, leading, kinds).0;
        assert(after == then);
        assert forall|path: Seq<char>| #[trigger]
            after.nodes.contains(path) <==> before.nodes.contains(path) || exists|i: int|
                0 <= i < n && policy_path(#[trigger] nodes[i]) == Ok::<Seq<char>, CdiErrorView>(
                    path,
                ) by {
            if exists|i: int|
                0 <= i < leading.len() && policy_path(#[trigger] leading[i]) == Ok::<
                    Seq<char>,
                    CdiErrorView,
                >(path) {
                let i = choose|i: int|
                    0 <= i < leading.len() && policy_path(#[trigger] leading[i]) == Ok::<
                        Seq<char>,
                        CdiErrorView,
                    >(path);
                assert(leading[i] == nodes[i]);
            }
            if exists|i: int|
                0 <= i < n && policy_path(#[trigger] nodes[i]) == Ok::<Seq<char>, CdiErrorView>(
                    path,
                ) {
                let i = choose|i: int|
                    0 <= i < n && policy_path(#[trigger] nodes[i]) == Ok::<
                        Seq<char>,
                        CdiErrorView,
                    >(path);
                assert(leading[i] == nodes[i]);
            }
        }
    }
}

/// Nodes that are fine are added.
proof fn lemma_leading_nodes_pass(
    kind_at: spec_fn(Seq<char>) -> Option<CdiPathKind>,
    before: Requirements,
    nodes: Seq<Seq<char>>,
    kinds: Seq<Option<CdiPathKind>>,
    n: int,
)
    requires
        node_answers(fixed(kind_at), before, nodes, kinds),
        0 <= n <= nodes.len(),
        forall|i: int|
            0 <= i < n ==> {
                let path = policy_path(#[trigger] nodes[i]);
                path is Ok && is_device(kind_at(path->Ok_0)) && !before.mounted(
                    path->Ok_0,
                    CdiAccess::ReadOnly,
                )
            },
    ensures
        nodes_added(before, nodes.take(n), kinds).1 is None,
    decreases n,
{
    if n > 0 {
        lemma_leading_nodes_pass(kind_at, before, nodes, kinds, n - 1);
        lemma_nodes_added(before, nodes.take(n - 1), kinds);
        assert(nodes.take(n).drop_last() =~= nodes.take(n - 1));
        assert(nodes.take(n).last() == nodes[n - 1]);
        let lookup = fixed(kind_at);
        assert(lookup(policy_path(nodes[n - 1])->Ok_0, kinds[n - 1]));
    }
}

/// Where all device nodes can be added, the first mount that cannot is the
/// one that is reported: for its path or its options, or for contradicting
/// what is required before it. What comes before it is added, and no group
/// is.
#[verifier::spinoff_prover]
#[verifier::rlimit(60)]
pub proof fn law_first_bad_mount_is_reported(
    kind_at: spec_fn(Seq<char>) -> Option<CdiPathKind>,
    before: Requirements,
    edits: PolicyEdits,
    allowlist: Seq<Seq<char>>,
    findings: Findings,
    after: Requirements,
    error: Option<CdiErrorView>,
    n: int,
)
    requires
        accumulated(fixed(kind_at), before, edits, allowlist, findings, after, error),
        forall|i: int|
            0 <= i < edits.device_nodes.len() ==> {
                let path = policy_path(#[trigger] edits.device_nodes[i]);
                path is Ok && is_device(kind_at(path->Ok_0)) && !before.mounted(
                    path->Ok_0,
                    CdiAccess::ReadOnly,
                )
            },
        0 <= n < edits.mounts.len(),
        forall|i: int| 0 <= i < n ==> mount_entry(#[trigger] edits.mounts[i]) is Ok,
        forall|i: int, j: int|
            0 <= i < n && 0 <= j < n && mount_entry(#[trigger] edits.mounts[i])->Ok_0.0
                == mount_entry(#[trigger] edits.mounts[j])->Ok_0.0 ==> mount_entry(
                edits.mounts[i],
            )->Ok_0.1 == mount_entry(edits.mounts[j])->Ok_0.1,
        forall|i: int|
            0 <= i < n ==> {
                let (path, access) = mount_entry(#[trigger] edits.mounts[i])->Ok_0;
                &&& before.mounts.contains_key(path) ==> before.mounts[path] == access
                &&& access == CdiAccess::ReadOnly ==> !before.nodes.contains(path) && forall|j: int|
                    0 <= j < edits.device_nodes.len() ==> policy_path(
                        #[trigger] edits.device_nodes[j],
                    )->Ok_0 != path
            },
    ensures
        match mount_entry(edits.mounts[n]) {
            Err(refusal) => error == Some(refusal),
            Ok((path, access)) => {
                let contradicted = {
                    ||| before.mounts.contains_key(path) && before.mounts[path] != access
                    ||| exists|i: int|
                        0 <= i < n && mount_entry(#[trigger] edits.mounts[i])->Ok_0.0 == path
                            && mount_entry(edits.mounts[i])->Ok_0.1 != access
                    ||| access == CdiAccess::ReadOnly && before.nodes.contains(path)
                    ||| access == CdiAccess::ReadOnly && exists|j: int|
                        0 <= j < edits.device_nodes.len() && policy_path(
                            #[trigger] edits.device_nodes[j],
                        )->Ok_0 == path
                };
                contradicted ==> error == Some(CdiErrorView::ConflictingAccess { path })
                    && after.gids == before.gids
            },
        },
        mount_entry(edits.mounts[n]) is Err ==> after.gids == before.gids,
{
    let nodes = edits.device_nodes;
    let mounts = edits.mounts;
    lemma_leading_nodes_pass(kind_at, before, nodes, findings.nodes, nodes.len() as int);
    assert(nodes.take(nodes.len() as int) =~= nodes);
    lemma_nodes_added(before, nodes, findings.nodes);
    let after_nodes = nodes_added(before, nodes, findings.nodes).0;
    let leading = mounts.take(n);
    assert forall|i: int| 0 <= i < leading.len() implies mount_entry(#[trigger] leading[i]) is Ok by {
        assert(leading[i] == mounts[i]);
    }
    assert forall|path: Seq<char>, access: CdiAccess| #[trigger]
        lists_mount(leading, path, access) <==> exists|i: int|
            0 <= i < n && mount_entry(#[trigger] mounts[i]) == Ok::<
                (Seq<char>, CdiAccess),
                CdiErrorView,
            >((path, access)) by {
        let entry = Ok::<(Seq<char>, CdiAccess), CdiErrorView>((path, access));
        if lists_mount(leading, path, access) {
            let i = choose|i: int|
                0 <= i < leading.len() && mount_entry(#[trigger] leading[i]) == entry;
            assert(mounts[i] == leading[i]);
        }
        if exists|i: int| 0 <= i < n && mount_entry(#[trigger] mounts[i]) == entry {
            let i = choose|i: int| 0 <= i < n && mount_entry(#[trigger] mounts[i]) == entry;
            assert(mounts[i] == leading[i]);
        }
    }
    assert(mounts_agree(after_nodes, leading));
    lemma_mounts_added(after_nodes, leading);
    assert(mounts.take(n + 1).drop_last() =~= leading);
    assert(mounts.take(n + 1).last() == mounts[n]);
    let then = mounts_added(after_nodes, leading).0;
    let (end, end_error) = mounts_added(after_nodes, mounts.take(n + 1));
    match mount_entry(mounts[n]) {
        Err(refusal) => {
            lemma_mount_error_stays(after_nodes, mounts, n + 1);
        },
        Ok((path, access)) => {
            let other = if access == CdiAccess::ReadOnly {
                CdiAccess::ReadWrite
            } else {
                CdiAccess::ReadOnly
            };
            if (before.mounts.contains_key(path) && before.mounts[path] != access) || exists|i: int|
                0 <= i < n && mount_entry(#[trigger] mounts[i])->Ok_0.0 == path && mount_entry(
                    mounts[i],
                )->Ok_0.1 != access {
                if exists|i: int|
                    0 <= i < n && mount_entry(#[trigger] mounts[i])->Ok_0.0 == path && mount_entry(
                        mounts[i],
                    )->Ok_0.1 != access {
                    let i = choose|i: int|
                        0 <= i < n && mount_entry(#[trigger] mounts[i])->Ok_0.0 == path
                            && mount_entry(mounts[i])->Ok_0.1 != access;
                    assert(mount_entry(mounts[i]) is Ok);
                    assert(lists_mount(leading, path, other));
                } else {
                    assert(after_nodes.mounted(path, other));
                }
                assert(then.mounted(path, other));
                assert(end_error == Some(CdiErrorView::ConflictingAccess { path }));
                lemma_mount_error_stays(after_nodes, mounts, n + 1);
            } else if access == CdiAccess::ReadOnly && (before.nodes.contains(path) || exists|j: int|
                0 <= j < nodes.len() && policy_path(#[trigger] nodes[j])->Ok_0 == path) {
                if !before.nodes.contains(path) {
                    let j = choose|j: int|
                        0 <= j < nodes.len() && policy_path(#[trigger] nodes[j])->Ok_0 == path;
                    assert(policy_path(nodes[j]) == Ok::<Seq<char>, CdiErrorView>(path));
                }
                assert(after_nodes.nodes.contains(path));
                lemma_mount_error_stays(after_nodes, mounts, n + 1);
            }
            lemma_mounts_added(after_nodes, mounts);
        },
    }
    lemma_mounts_added(after_nodes, mounts);
}

/// Where every device node and every mount can be added but a policy is not
/// granted, the writable mount that sorts first among those that break the
/// rules is reported: as not allowed, if its path is the normal form of no
/// entry of the allowlist, and otherwise with what was found there.
#[verifier::spinoff_prover]
#[verifier::rlimit(60)]
pub proof fn law_refused_writable_mount(
    kind_at: spec_fn(Seq<char>) -> Option<CdiPathKind>,
    edits: PolicyEdits,
    allowlist: Seq<Seq<char>>,
    error: CdiErrorView,
)
    requires
        derived(fixed(kind_at), edits, allowlist, Err(error)),
        groups_reached(Some(error)),
    ensures
        exists|n: int|
            {
                &&& 0 <= n < edits.mounts.len()
                &&& mount_entry(#[trigger] edits.mounts[n]) is Ok
                &&& mount_entry(edits.mounts[n])->Ok_0.1 == CdiAccess::ReadWrite
                &&& {
                    let path = mount_entry(edits.mounts[n])->Ok_0.0;
                    let allowed = exists|k: int|
                        0 <= k < allowlist.len() && normalized(#[trigger] allowlist[k]) == path;
                    &&& !allowed ==> error == (CdiErrorView::WritableMountNotAllowed { path })
                    &&& allowed ==> kind_at(path) != Some(CdiPathKind::File) && error == (
                    CdiErrorView::WritableMountNotFile { path, kind: kind_text(kind_at(path)) })
                    &&& forall|i: int|
                        0 <= i < edits.mounts.len() && mount_entry(
                            #[trigger] edits.mounts[i],
                        )->Ok_0.1 == CdiAccess::ReadWrite && lex_lt(
                            mount_entry(edits.mounts[i])->Ok_0.0,
                            path,
                        ) ==> kind_at(mount_entry(edits.mounts[i])->Ok_0.0) == Some(
                            CdiPathKind::File,
                        ) && exists|k: int|
                            0 <= k < allowlist.len() && normalized(#[trigger] allowlist[k])
                                == mount_entry(edits.mounts[i])->Ok_0.0
                }
            },
{
    let lookup = fixed(kind_at);
    let start = Requirements::none();
    let allowed = normalized_all(allowlist);
    let outcome = Err::<RequirementLists, CdiErrorView>(error);
    let (findings, after) = choose|findings: Findings, after: Requirements| #[trigger]
        accumulated(lookup, start, edits, allowed, findings, after, error_of(outcome)) && (
        outcome matches Ok(lists) ==> lists_requirements(lists, after));
    crate::collect::law_error_tells_whether_groups_were_reached(
        lookup,
        start,
        edits,
        allowed,
        findings,
        after,
        Some(error),
    );
    let nodes = edits.device_nodes;
    let mounts = edits.mounts;
    let after_nodes = nodes_added(start, nodes, findings.nodes).0;
    let with_mounts = mounts_added(after_nodes, mounts).0;
    lemma_nodes_added(start, nodes, findings.nodes);
    lemma_mounts_added(after_nodes, mounts);
    law_first_bad_writable_mount_is_reported(lookup, after.mounts, allowed, findings.mounts, error);
    let path = choose|path: Seq<char>|
        {
            &&& #[trigger] after.mounts.contains_key(path)
            &&& after.mounts[path] == CdiAccess::ReadWrite
            &&& !allowed.contains(path) ==> error == (CdiErrorView::WritableMountNotAllowed {
                path,
            })
            &&& allowed.contains(path) ==> exists|kind: Option<CdiPathKind>| #[trigger]
                lookup(path, kind) && kind != Some(CdiPathKind::File) && error == (
                CdiErrorView::WritableMountNotFile { path, kind: kind_text(kind) })
            &&& forall|other: Seq<char>| #[trigger]
                after.mounts.contains_key(other) && after.mounts[other] == CdiAccess::ReadWrite
                    && lex_lt(other, path) ==> allowed.contains(other) && lookup(
                    other,
                    Some(CdiPathKind::File),
                )
        };
    assert forall|p: Seq<char>| #[trigger]
        allowed.contains(p) <==> exists|k: int|
            0 <= k < allowlist.len() && normalized(#[trigger] allowlist[k]) == p by {
        law_allowlist_entries_count_wherever_they_stand(allowlist, p);
    }
    assert(with_mounts.mounted(path, CdiAccess::ReadWrite));
    assert(lists_mount(mounts, path, CdiAccess::ReadWrite));
    let n = choose|n: int|
        0 <= n < mounts.len() && mount_entry(#[trigger] mounts[n]) == Ok::<
            (Seq<char>, CdiAccess),
            CdiErrorView,
        >((path, CdiAccess::ReadWrite));
    assert forall|i: int|
        0 <= i < mounts.len() && mount_entry(#[trigger] mounts[i])->Ok_0.1 == CdiAccess::ReadWrite
            && lex_lt(mount_entry(mounts[i])->Ok_0.0, path) implies kind_at(
        mount_entry(mounts[i])->Ok_0.0,
    ) == Some(CdiPathKind::File) && exists|k: int|
        0 <= k < allowlist.len() && normalized(#[trigger] allowlist[k]) == mount_entry(
            mounts[i],
        )->Ok_0.0 by {
        let other = mount_entry(mounts[i])->Ok_0.0;
        assert(mount_entry(mounts[i]) is Ok);
        assert(lists_mount(mounts, other, CdiAccess::ReadWrite));
        assert(with_mounts.mounted(other, CdiAccess::ReadWrite));
        assert(after.mounts.contains_key(other));
    }
    assert(mount_entry(mounts[n]) is Ok);
}

/// Only the two errors of writable mounts come after the groups.
pub proof fn law_errors_after_the_groups(error: Option<CdiErrorView>)
    ensures
        groups_reached(error) <==> match error {
            None => true,
            Some(error) => error is WritableMountNotAllowed || error is WritableMountNotFile,
        },
{
}

/// Entries for the root group are counted wherever they stand: one more at
/// the end counts one more, any other group counts nothing, and the order
/// does not matter.
pub proof fn law_root_groups_are_counted(gids: Seq<u32>, more: Seq<u32>)
    ensures
        root_groups(gids + more) == root_groups(gids) + root_groups(more),
        root_groups(gids.push(0)) == root_groups(gids) + 1,
        forall|gid: u32| gid != 0 ==> #[trigger] root_groups(gids.push(gid)) == root_groups(gids),
        root_groups(Seq::empty()) == 0,
    decreases more.len(),
{
    assert(gids.push(0).drop_last() =~= gids);
    assert forall|gid: u32| gid != 0 implies #[trigger] root_groups(gids.push(gid)) == root_groups(
        gids,
    ) by {
        assert(gids.push(gid).drop_last() =~= gids);
    }
    if more.len() == 0 {
        assert(gids + more =~= gids);
    } else {
        law_root_groups_are_counted(gids, more.drop_last());
        assert((gids + more).drop_last() =~= gids + more.drop_last());
    }
}

/// Where collecting gets as far as the groups, all entries were added to what
/// was held before, wherever they stand, and nothing else was: whether the
/// check of the writable mounts then fails or not.
pub proof fn law_collected_entry_by_entry(
    lookup: spec_fn(Seq<char>, Option<CdiPathKind>) -> bool,
    before: Requirements,
    edits: PolicyEdits,
    allowlist: Seq<Seq<char>>,
    findings: Findings,
    after: Requirements,
    error: Option<CdiErrorView>,
)
    requires
        accumulated(lookup, before, edits, allowlist, findings, after, error),
        groups_reached(error),
    ensures
        forall|path: Seq<char>| #[trigger]
            after.nodes.contains(path) <==> before.nodes.contains(path) || exists|i: int|
                0 <= i < edits.device_nodes.len() && policy_path(#[trigger] edits.device_nodes[i])
                    == Ok::<Seq<char>, CdiErrorView>(path),
        forall|path: Seq<char>, access: CdiAccess| #[trigger]
            after.mounted(path, access) <==> before.mounted(path, access) || exists|i: int|
                0 <= i < edits.mounts.len() && mount_entry(#[trigger] edits.mounts[i]) == Ok::<
                    (Seq<char>, CdiAccess),
                    CdiErrorView,
                >((path, access)),
        forall|gid: u32| #[trigger]
            after.gids.contains(gid) <==> before.gids.contains(gid) || (gid != 0 && exists|i: int|
                0 <= i < edits.additional_gids.len() && edits.additional_gids[i] == gid),
{
    crate::collect::law_error_tells_whether_groups_were_reached(
        lookup,
        before,
        edits,
        allowlist,
        findings,
        after,
        error,
    );
    let after_nodes = nodes_added(before, edits.device_nodes, findings.nodes).0;
    let with_mounts = mounts_added(after_nodes, edits.mounts).0;
    lemma_nodes_added(before, edits.device_nodes, findings.nodes);
    lemma_mounts_added(after_nodes, edits.mounts);
    law_adding_groups(with_mounts, edits.additional_gids);
    assert forall|path: Seq<char>, access: CdiAccess| #[trigger]
        after.mounted(path, access) <==> before.mounted(path, access) || exists|i: int|
            0 <= i < edits.mounts.len() && mount_entry(#[trigger] edits.mounts[i]) == Ok::<
                (Seq<char>, CdiAccess),
                CdiErrorView,
            >((path, access)) by {
        assert(with_mounts.mounted(path, access) <==> after_nodes.mounted(path, access)
            || lists_mount(edits.mounts, path, access));
    }
}

/// Where a mount is refused, all device nodes were added, and the mounts
/// before it; nothing else was.
#[verifier::spinoff_prover]
#[verifier::rlimit(60)]
pub proof fn law_collected_before_a_bad_mount(
    lookup: spec_fn(Seq<char>, Option<CdiPathKind>) -> bool,
    before: Requirements,
    edits: PolicyEdits,
    allowlist: Seq<Seq<char>>,
    findings: Findings,
    after: Requirements,
    error: Option<CdiErrorView>,
)
    requires
        accumulated(lookup, before, edits, allowlist, findings, after, error),
        nodes_added(before, edits.device_nodes, findings.nodes).1 is None,
        !groups_reached(error),
    ensures
        after.gids == before.gids,
        forall|path: Seq<char>| #[trigger]
            after.nodes.contains(path) <==> before.nodes.contains(path) || exists|i: int|
                0 <= i < edits.device_nodes.len() && policy_path(#[trigger] edits.device_nodes[i])
                    == Ok::<Seq<char>, CdiErrorView>(path),
        exists|n: int|
            0 <= n < edits.mounts.len() && #[trigger] collected_up_to(
                before,
                edits.mounts,
                n,
                after,
            ),
{
    crate::collect::law_error_tells_whether_groups_were_reached(
        lookup,
        before,
        edits,
        allowlist,
        findings,
        after,
        error,
    );
    let after_nodes = nodes_added(before, edits.device_nodes, findings.nodes).0;
    lemma_nodes_added(before, edits.device_nodes, findings.nodes);
    lemma_mounts_added(after_nodes, edits.mounts);
    let n = lemma_first_refused_mount(after_nodes, edits.mounts);
    let leading = edits.mounts.take(n);
    lemma_mounts_added(after_nodes, leading);
    assert forall|path: Seq<char>, access: CdiAccess| #[trigger]
        after.mounted(path, access) <==> before.mounted(path, access) || exists|i: int|
            0 <= i < n && mount_entry(#[trigger] edits.mounts[i]) == Ok::<
                (Seq<char>, CdiAccess),
                CdiErrorView,
            >((path, access)) by {
        let entry = Ok::<(Seq<char>, CdiAccess), CdiErrorView>((path, access));
        assert(after.mounted(path, access) <==> after_nodes.mounted(path, access) || lists_mount(
            leading,
            path,
            access,
        ));
        if lists_mount(leading, path, access) {
            let i = choose|i: int|
                0 <= i < leading.len() && mount_entry(#[trigger] leading[i]) == entry;
            assert(edits.mounts[i] == leading[i]);
        }
        if exists|i: int| 0 <= i < n && mount_entry(#[trigger] edits.mounts[i]) == entry {
            let i = choose|i: int| 0 <= i < n && mount_entry(#[trigger] edits.mounts[i]) == entry;
            assert(edits.mounts[i] == leading[i]);
        }
    }
    assert(collected_up_to(before, edits.mounts, n, after));
}

/// The mounts before a place were added to those that were there, and no
/// others.
pub open spec fn collected_up_to(
    before: Requirements,
    mounts: Seq<MountEdit>,
    n: int,
    after: Requirements,
) -> bool {
    forall|path: Seq<char>, access: CdiAccess| #[trigger]
        after.mounted(path, access) <==> before.mounted(path, access) || exists|i: int|
            0 <= i < n && mount_entry(#[trigger] mounts[i]) == Ok::<
                (Seq<char>, CdiAccess),
                CdiErrorView,
            >((path, access))
}

/// Where adding mounts fails, it fails at one of them, and stops there.
proof fn lemma_first_refused_mount(before: Requirements, mounts: Seq<MountEdit>) -> (n: int)
    requires
        mounts_added(before, mounts).1 is Some,
    ensures
        0 <= n < mounts.len(),
        mounts_added(before, mounts.take(n)).1 is None,
        mounts_added(before, mounts).0 == mounts_added(before, mounts.take(n)).0,
    decreases mounts.len(),
{
    let shorter = mounts.drop_last();
    if mounts_added(before, shorter).1 is Some {
        let n = lemma_first_refused_mount(before, shorter);
        assert(mounts.take(n) =~= shorter.take(n));
        n
    } else {
        assert(mounts.take(mounts.len() - 1) =~= shorter);
        mounts.len() - 1
    }
}

} // verus!
