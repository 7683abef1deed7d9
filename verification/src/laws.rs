//! What holds of every policy that is derived from container edits.

use crate::accumulator::{
    gid_added, is_device, is_violation, lists_requirements, mount_added, mount_answers,
    no_violation_before, node_added, strictly_increasing, violation_error,
    writable_mounts_checked, Requirements,
};
use crate::cdi::{
    error_of, CdiAccess, CdiErrorView, CdiPathKind, MountEdit, PolicyEdits, RequirementLists,
};
use crate::collect::{
    accumulated, derived, gids_added, lemma_nodes_added, lemma_nodes_pass, mount_entry,
    mounts_added, node_answers, node_passes, nodes_added, nodes_pass, normalized_all, with_nodes,
    Findings,
};
use crate::devices::{brings, has_entry, law_merged_entries, merged, EditEntry};
use crate::paths::{law_normalized_idempotent, law_normalized_keeps_names, normalized};
use crate::policy::{is_broad_root, path_defect, policy_path};
use crate::text::{law_order_irreflexive, law_order_total, law_order_transitive, lex_lt, strictly_sorted};
use crate::upstream::DeviceRecord;
use vstd::prelude::*;

verus! {

/// Some device node of the edits goes into the policy under the path.
pub open spec fn wants_node(edits: PolicyEdits, path: Seq<char>) -> bool {
    exists|i: int|
        0 <= i < edits.device_nodes.len() && policy_path(#[trigger] edits.device_nodes[i]) == Ok::<
            Seq<char>,
            CdiErrorView,
        >(path)
}

/// A mount of the list goes into the policy under the path, with the access.
pub open spec fn lists_mount(mounts: Seq<MountEdit>, path: Seq<char>, access: CdiAccess) -> bool {
    exists|i: int|
        0 <= i < mounts.len() && mount_entry(#[trigger] mounts[i]) == Ok::<
            (Seq<char>, CdiAccess),
            CdiErrorView,
        >((path, access))
}

/// Some mount of the edits goes into the policy under the path, with the
/// access.
pub open spec fn wants_mount(edits: PolicyEdits, path: Seq<char>, access: CdiAccess) -> bool {
    lists_mount(edits.mounts, path, access)
}

/// The requirements with all that the edits want. A path that is mounted
/// already stays as it is.
pub open spec fn joined_with(before: Requirements, edits: PolicyEdits) -> Requirements {
    Requirements {
        nodes: Set::new(
            |path: Seq<char>| before.nodes.contains(path) || wants_node(edits, path),
        ),
        mounts: Map::new(
            |path: Seq<char>|
                before.mounts.contains_key(path) || wants_mount(edits, path, CdiAccess::ReadOnly)
                    || wants_mount(edits, path, CdiAccess::ReadWrite),
            |path: Seq<char>|
                if before.mounts.contains_key(path) {
                    before.mounts[path]
                } else if wants_mount(edits, path, CdiAccess::ReadWrite) {
                    CdiAccess::ReadWrite
                } else {
                    CdiAccess::ReadOnly
                },
        ),
        gids: before.gids.union(edits.additional_gids.to_set().remove(0)),
    }
}

/// All that the edits want.
pub open spec fn wanted(edits: PolicyEdits) -> Requirements {
    joined_with(Requirements::none(), edits)
}

/// The mounts of the list are acceptable one by one, and agree with each
/// other and with what is required already.
pub open spec fn mounts_agree(before: Requirements, mounts: Seq<MountEdit>) -> bool {
    &&& forall|i: int| 0 <= i < mounts.len() ==> mount_entry(#[trigger] mounts[i]) is Ok
    &&& forall|path: Seq<char>| #[trigger]
        lists_mount(mounts, path, CdiAccess::ReadOnly) ==> !before.nodes.contains(path)
            && !before.mounted(path, CdiAccess::ReadWrite) && !lists_mount(
            mounts,
            path,
            CdiAccess::ReadWrite,
        )
    &&& forall|path: Seq<char>| #[trigger]
        lists_mount(mounts, path, CdiAccess::ReadWrite) ==> !before.mounted(
            path,
            CdiAccess::ReadOnly,
        )
}

/// One more mount at the end is one more that the list has.
proof fn lemma_lists_mount_push(mounts: Seq<MountEdit>, path: Seq<char>, access: CdiAccess)
    requires
        mounts.len() > 0,
    ensures
        lists_mount(mounts, path, access) <==> lists_mount(mounts.drop_last(), path, access)
            || mount_entry(mounts.last()) == Ok::<(Seq<char>, CdiAccess), CdiErrorView>(
            (path, access),
        ),
{
    let shorter = mounts.drop_last();
    let entry = Ok::<(Seq<char>, CdiAccess), CdiErrorView>((path, access));
    if lists_mount(shorter, path, access) {
        let i = choose|i: int|
            0 <= i < shorter.len() && mount_entry(#[trigger] shorter[i]) == entry;
        assert(mounts[i] == shorter[i]);
    }
    if mount_entry(mounts.last()) == entry {
        assert(mounts[mounts.len() - 1] == mounts.last());
    }
    if lists_mount(mounts, path, access) {
        let i = choose|i: int| 0 <= i < mounts.len() && mount_entry(#[trigger] mounts[i]) == entry;
        if i < shorter.len() {
            assert(shorter[i] == mounts[i]);
        }
    }
}

/// Adding mounts succeeds exactly when they agree; each is then mounted with
/// its access.
pub proof fn lemma_mounts_added(before: Requirements, mounts: Seq<MountEdit>)
    ensures
        ({
            let (after, error) = mounts_added(before, mounts);
            &&& error is None <==> mounts_agree(before, mounts)
            &&& after.nodes == before.nodes
            &&& after.gids == before.gids
            &&& error is None ==> forall|path: Seq<char>, access: CdiAccess| #[trigger]
                after.mounted(path, access) <==> before.mounted(path, access) || lists_mount(
                    mounts,
                    path,
                    access,
                )
        }),
    decreases mounts.len(),
{
    if mounts.len() > 0 {
        let shorter = mounts.drop_last();
        let last = mounts.last();
        lemma_mounts_added(before, shorter);
        assert forall|path: Seq<char>, access: CdiAccess| #[trigger]
            lists_mount(mounts, path, access) <==> lists_mount(shorter, path, access) || mount_entry(
                last,
            ) == Ok::<(Seq<char>, CdiAccess), CdiErrorView>((path, access)) by {
            lemma_lists_mount_push(mounts, path, access);
        }
        let (then, error) = mounts_added(before, shorter);
        let (after, end) = mounts_added(before, mounts);
        assert(mounts[mounts.len() - 1] == last);
        if mounts_agree(before, mounts) {
            assert forall|i: int| 0 <= i < shorter.len() implies mount_entry(
                #[trigger] shorter[i],
            ) is Ok by {
                assert(shorter[i] == mounts[i]);
            }
            assert forall|path: Seq<char>, access: CdiAccess| #[trigger]
                lists_mount(shorter, path, access) implies lists_mount(mounts, path, access) by {}
            assert(mounts_agree(before, shorter));
            let (path, access) = mount_entry(last)->Ok_0;
            assert(lists_mount(mounts, path, access));
            let other = if access == CdiAccess::ReadOnly {
                CdiAccess::ReadWrite
            } else {
                CdiAccess::ReadOnly
            };
            assert(!then.mounted(path, other)) by {
                assert(then.mounted(path, other) <==> before.mounted(path, other) || lists_mount(
                    shorter,
                    path,
                    other,
                ));
                if lists_mount(shorter, path, other) {
                    assert(lists_mount(mounts, path, other));
                }
            }
            assert(end is None);
        }
        if end is None {
            let (path, access) = mount_entry(last)->Ok_0;
            assert(mounts_agree(before, shorter));
            assert forall|i: int| 0 <= i < mounts.len() implies mount_entry(
                #[trigger] mounts[i],
            ) is Ok by {
                if i < shorter.len() {
                    assert(shorter[i] == mounts[i]);
                }
            }
            let other = if access == CdiAccess::ReadOnly {
                CdiAccess::ReadWrite
            } else {
                CdiAccess::ReadOnly
            };
            assert(!then.mounted(path, other));
            assert(then.mounted(path, other) <==> before.mounted(path, other) || lists_mount(
                shorter,
                path,
                other,
            ));
            assert forall|p: Seq<char>| #[trigger]
                lists_mount(mounts, p, CdiAccess::ReadOnly) implies !before.nodes.contains(p)
                && !before.mounted(p, CdiAccess::ReadWrite) && !lists_mount(
                mounts,
                p,
                CdiAccess::ReadWrite,
            ) by {
                assert(lists_mount(mounts, p, CdiAccess::ReadWrite) <==> lists_mount(
                    shorter,
                    p,
                    CdiAccess::ReadWrite,
                ) || mount_entry(last) == Ok::<(Seq<char>, CdiAccess), CdiErrorView>(
                    (p, CdiAccess::ReadWrite),
                ));
            }
            assert forall|p: Seq<char>| #[trigger]
                lists_mount(mounts, p, CdiAccess::ReadWrite) implies !before.mounted(
                p,
                CdiAccess::ReadOnly,
            ) by {}
            assert forall|p: Seq<char>, a: CdiAccess| #[trigger]
                after.mounted(p, a) <==> before.mounted(p, a) || lists_mount(mounts, p, a) by {
                assert(then.mounted(p, a) <==> before.mounted(p, a) || lists_mount(shorter, p, a));
            }
        }
    } else {
        assert forall|path: Seq<char>, access: CdiAccess| !#[trigger]
            lists_mount(mounts, path, access) by {}
    }
}

/// Where collecting edits ends without an error, all that they want is
/// collected, and was found in order.
#[verifier::spinoff_prover]
#[verifier::rlimit(60)]
proof fn lemma_collected(
    lookup: spec_fn(Seq<char>, Option<CdiPathKind>) -> bool,
    before: Requirements,
    edits: PolicyEdits,
    allowlist: Seq<Seq<char>>,
    findings: Findings,
    after: Requirements,
)
    requires
        accumulated(lookup, before, edits, allowlist, findings, after, None),
    ensures
        after == joined_with(before, edits),
        nodes_pass(lookup, before, edits.device_nodes),
        mounts_agree(with_nodes(before, edits.device_nodes), edits.mounts),
        forall|path: Seq<char>, access: CdiAccess| #[trigger]
            after.mounted(path, access) <==> before.mounted(path, access) || wants_mount(
                edits,
                path,
                access,
            ),
        forall|path: Seq<char>| #[trigger]
            wants_node(edits, path) ==> exists|kind: Option<CdiPathKind>| #[trigger]
                lookup(path, kind) && is_device(kind),
        forall|path: Seq<char>| #[trigger]
            after.mounted(path, CdiAccess::ReadWrite) ==> allowlist.contains(path) && lookup(
                path,
                Some(CdiPathKind::File),
            ),
{
    let nodes = edits.device_nodes;
    let kinds = findings.nodes;
    let after_nodes = nodes_added(before, nodes, kinds).0;
    let with_mounts = mounts_added(after_nodes, edits.mounts).0;
    lemma_nodes_pass(lookup, before, nodes, kinds);
    lemma_mounts_added(after_nodes, edits.mounts);
    assert forall|path: Seq<char>, access: CdiAccess| #[trigger]
        after.mounted(path, access) <==> before.mounted(path, access) || wants_mount(
            edits,
            path,
            access,
        ) by {
        assert(with_mounts.mounted(path, access) <==> after_nodes.mounted(path, access)
            || lists_mount(edits.mounts, path, access));
    }
    assert(after.nodes =~= joined_with(before, edits).nodes) by {
        assert forall|path: Seq<char>| after.nodes.contains(path) == (before.nodes.contains(path)
            || wants_node(edits, path)) by {}
    }
    assert(after.mounts =~= joined_with(before, edits).mounts) by {
        assert forall|path: Seq<char>| after.mounts.contains_key(path) <==> joined_with(
            before,
            edits,
        ).mounts.contains_key(path) by {
            assert(after.mounted(path, CdiAccess::ReadOnly) || after.mounted(
                path,
                CdiAccess::ReadWrite,
            ) <==> after.mounts.contains_key(path));
            assert(before.mounted(path, CdiAccess::ReadOnly) || before.mounted(
                path,
                CdiAccess::ReadWrite,
            ) <==> before.mounts.contains_key(path));
        }
        assert forall|path: Seq<char>|
            after.mounts.contains_key(path) implies #[trigger] after.mounts[path] == joined_with(
            before,
            edits,
        ).mounts[path] by {
            assert(after.mounted(path, after.mounts[path]));
            if before.mounts.contains_key(path) {
                assert(before.mounted(path, before.mounts[path]));
                assert(after.mounted(path, before.mounts[path]));
            }
            if wants_mount(edits, path, CdiAccess::ReadWrite) {
                assert(after.mounted(path, CdiAccess::ReadWrite));
            }
        }
    }
    assert(after.gids =~= joined_with(before, edits).gids);
    assert forall|path: Seq<char>| #[trigger] wants_node(edits, path) implies exists|
        kind: Option<CdiPathKind>,
    | #[trigger] lookup(path, kind) && is_device(kind) by {
        let i = choose|i: int|
            0 <= i < nodes.len() && policy_path(#[trigger] nodes[i]) == Ok::<
                Seq<char>,
                CdiErrorView,
            >(path);
        assert(node_passes(lookup, before, nodes[i]));
    }
    assert forall|path: Seq<char>| #[trigger]
        after.mounted(path, CdiAccess::ReadWrite) implies allowlist.contains(path) && lookup(
        path,
        Some(CdiPathKind::File),
    ) by {
        assert(!is_violation(after.mounts, allowlist, findings.mounts, path));
        assert(after.mounts.contains_key(path));
    }
}

/// A granted policy lists what the edits want, and what they want is in
/// order.
pub proof fn lemma_granted(
    lookup: spec_fn(Seq<char>, Option<CdiPathKind>) -> bool,
    edits: PolicyEdits,
    allowlist: Seq<Seq<char>>,
    lists: RequirementLists,
)
    requires
        derived(lookup, edits, allowlist, Ok(lists)),
    ensures
        lists_requirements(lists, wanted(edits)),
        forall|path: Seq<char>| #[trigger]
            wants_node(edits, path) ==> exists|kind: Option<CdiPathKind>| #[trigger]
                lookup(path, kind) && is_device(kind),
        forall|path: Seq<char>| #[trigger]
            wants_mount(edits, path, CdiAccess::ReadWrite) ==> normalized_all(allowlist).contains(
                path,
            ) && lookup(path, Some(CdiPathKind::File)),
        forall|path: Seq<char>|
            !(wants_mount(edits, path, CdiAccess::ReadOnly) && wants_mount(
                edits,
                path,
                CdiAccess::ReadWrite,
            )),
        forall|path: Seq<char>|
            !(wants_node(edits, path) && wants_mount(edits, path, CdiAccess::ReadOnly)),
        forall|i: int|
            0 <= i < edits.device_nodes.len() ==> policy_path(#[trigger] edits.device_nodes[i]) is Ok,
        forall|i: int| 0 <= i < edits.mounts.len() ==> mount_entry(#[trigger] edits.mounts[i]) is Ok,
{
    let outcome = Ok::<RequirementLists, CdiErrorView>(lists);
    let (findings, after) = choose|findings: Findings, after: Requirements| #[trigger]
        accumulated(
            lookup,
            Requirements::none(),
            edits,
            normalized_all(allowlist),
            findings,
            after,
            error_of(outcome),
        ) && (outcome matches Ok(lists) ==> lists_requirements(lists, after));
    let none = Requirements::none();
    lemma_collected(lookup, none, edits, normalized_all(allowlist), findings, after);
    assert forall|path: Seq<char>| #[trigger]
        wants_mount(edits, path, CdiAccess::ReadWrite) implies normalized_all(allowlist).contains(
        path,
    ) && lookup(path, Some(CdiPathKind::File)) by {
        assert(after.mounted(path, CdiAccess::ReadWrite));
    }
    assert forall|path: Seq<char>|
        !(wants_mount(edits, path, CdiAccess::ReadOnly) && wants_mount(
            edits,
            path,
            CdiAccess::ReadWrite,
        )) && !(wants_node(edits, path) && wants_mount(edits, path, CdiAccess::ReadOnly)) by {
        if wants_mount(edits, path, CdiAccess::ReadOnly) {
            assert(lists_mount(edits.mounts, path, CdiAccess::ReadOnly));
            assert(!with_nodes(none, edits.device_nodes).nodes.contains(path));
        }
    }
    assert forall|i: int| 0 <= i < edits.device_nodes.len() implies policy_path(
        #[trigger] edits.device_nodes[i],
    ) is Ok by {
        assert(node_passes(lookup, none, edits.device_nodes[i]));
    }
}

/// A granted policy mounts what the edits want mounted, with the same access.
pub proof fn lemma_wanted_mounts_agree(
    lookup: spec_fn(Seq<char>, Option<CdiPathKind>) -> bool,
    edits: PolicyEdits,
    allowlist: Seq<Seq<char>>,
    lists: RequirementLists,
)
    requires
        derived(lookup, edits, allowlist, Ok(lists)),
    ensures
        forall|path: Seq<char>, access: CdiAccess| #[trigger]
            wanted(edits).mounted(path, access) <==> wants_mount(edits, path, access),
{
    lemma_granted(lookup, edits, allowlist, lists);
    assert forall|path: Seq<char>, access: CdiAccess| #[trigger]
        wanted(edits).mounted(path, access) <==> wants_mount(edits, path, access) by {
        assert(!(wants_mount(edits, path, CdiAccess::ReadOnly) && wants_mount(
            edits,
            path,
            CdiAccess::ReadWrite,
        )));
    }
}

/// A policy that is granted lists exactly what the edits want: the device
/// nodes, the mounts with the access they ask for, and the groups but the
/// root group.
pub proof fn law_granted_policy_is_what_edits_want(
    lookup: spec_fn(Seq<char>, Option<CdiPathKind>) -> bool,
    edits: PolicyEdits,
    allowlist: Seq<Seq<char>>,
    lists: RequirementLists,
)
    requires
        derived(lookup, edits, allowlist, Ok(lists)),
    ensures
        lists_requirements(lists, wanted(edits)),
{
    lemma_granted(lookup, edits, allowlist, lists);
}

/// Every device node of a granted policy was found to be a device.
pub proof fn law_device_nodes_are_devices(
    lookup: spec_fn(Seq<char>, Option<CdiPathKind>) -> bool,
    edits: PolicyEdits,
    allowlist: Seq<Seq<char>>,
    lists: RequirementLists,
    path: Seq<char>,
)
    requires
        derived(lookup, edits, allowlist, Ok(lists)),
        lists.device_node_paths.contains(path),
    ensures
        exists|kind: Option<CdiPathKind>| #[trigger] lookup(path, kind) && is_device(kind),
{
    lemma_granted(lookup, edits, allowlist, lists);
    assert(wants_node(edits, path));
}

/// Every writable mount of a granted policy is in the allowlist and was
/// found to be a single file.
pub proof fn law_writable_mounts_are_allowed_files(
    lookup: spec_fn(Seq<char>, Option<CdiPathKind>) -> bool,
    edits: PolicyEdits,
    allowlist: Seq<Seq<char>>,
    lists: RequirementLists,
    path: Seq<char>,
)
    requires
        derived(lookup, edits, allowlist, Ok(lists)),
        lists.read_write_mount_paths.contains(path),
    ensures
        normalized_all(allowlist).contains(path),
        lookup(path, Some(CdiPathKind::File)),
{
    lemma_granted(lookup, edits, allowlist, lists);
    assert(wanted(edits).mounted(path, CdiAccess::ReadWrite));
    assert(wants_mount(edits, path, CdiAccess::ReadWrite));
}

/// A granted policy never gives a path in two ways that contradict each
/// other: no mount is both read-only and writable, and no device node is
/// mounted read-only.
pub proof fn law_no_conflicting_access(
    lookup: spec_fn(Seq<char>, Option<CdiPathKind>) -> bool,
    edits: PolicyEdits,
    allowlist: Seq<Seq<char>>,
    lists: RequirementLists,
    path: Seq<char>,
)
    requires
        derived(lookup, edits, allowlist, Ok(lists)),
    ensures
        !(lists.read_only_mount_paths.contains(path) && lists.read_write_mount_paths.contains(path)),
        !(lists.device_node_paths.contains(path) && lists.read_only_mount_paths.contains(path)),
{
    lemma_granted(lookup, edits, allowlist, lists);
    if lists.device_node_paths.contains(path) && lists.read_only_mount_paths.contains(path) {
        assert(wants_node(edits, path));
        assert(wanted(edits).mounted(path, CdiAccess::ReadOnly));
        assert(wants_mount(edits, path, CdiAccess::ReadOnly));
    }
}

/// A granted policy lists every group that the edits name but the root group.
pub proof fn law_groups_but_root(
    lookup: spec_fn(Seq<char>, Option<CdiPathKind>) -> bool,
    edits: PolicyEdits,
    allowlist: Seq<Seq<char>>,
    lists: RequirementLists,
    gid: u32,
)
    requires
        derived(lookup, edits, allowlist, Ok(lists)),
    ensures
        lists.additional_gids.contains(gid) <==> edits.additional_gids.contains(gid) && gid != 0,
{
    law_granted_policy_is_what_edits_want(lookup, edits, allowlist, lists);
}

/// A path under which an entry goes into a policy is absolute, in normal
/// form, free of `..`, no broad root, and would go in under itself.
pub proof fn law_policy_paths_are_settled(path: Seq<char>, entry: Seq<char>)
    requires
        policy_path(path) == Ok::<Seq<char>, CdiErrorView>(entry),
    ensures
        path_defect(entry) is None,
        normalized(entry) == entry,
        !is_broad_root(entry),
        policy_path(entry) == Ok::<Seq<char>, CdiErrorView>(entry),
{
    law_normalized_keeps_names(path);
    law_normalized_idempotent(path);
}

/// Every path that a granted policy lists is settled: it would go into a
/// policy under itself.
pub proof fn law_listed_paths_are_settled(
    lookup: spec_fn(Seq<char>, Option<CdiPathKind>) -> bool,
    edits: PolicyEdits,
    allowlist: Seq<Seq<char>>,
    lists: RequirementLists,
    path: Seq<char>,
)
    requires
        derived(lookup, edits, allowlist, Ok(lists)),
        lists.device_node_paths.contains(path) || lists.read_only_mount_paths.contains(path)
            || lists.read_write_mount_paths.contains(path),
    ensures
        policy_path(path) == Ok::<Seq<char>, CdiErrorView>(path),
{
    lemma_granted(lookup, edits, allowlist, lists);
    if lists.device_node_paths.contains(path) {
        assert(wants_node(edits, path));
        let i = choose|i: int|
            0 <= i < edits.device_nodes.len() && policy_path(#[trigger] edits.device_nodes[i])
                == Ok::<Seq<char>, CdiErrorView>(path);
        law_policy_paths_are_settled(edits.device_nodes[i], path);
    } else {
        let access = if lists.read_only_mount_paths.contains(path) {
            CdiAccess::ReadOnly
        } else {
            CdiAccess::ReadWrite
        };
        assert(wanted(edits).mounted(path, access));
        assert(wants_mount(edits, path, access));
        let i = choose|i: int|
            0 <= i < edits.mounts.len() && mount_entry(#[trigger] edits.mounts[i]) == Ok::<
                (Seq<char>, CdiAccess),
                CdiErrorView,
            >((path, access));
        law_policy_paths_are_settled(edits.mounts[i].container_path, path);
    }
}

/// A lookup that always tells the same about a path.
pub open spec fn fixed(kind_at: spec_fn(Seq<char>) -> Option<CdiPathKind>) -> spec_fn(
    Seq<char>,
    Option<CdiPathKind>,
) -> bool {
    |path: Seq<char>, kind: Option<CdiPathKind>| kind == kind_at(path)
}

/// The edits may be granted: each entry is acceptable, each device node is a
/// device, the entries do not contradict each other, and each writable mount
/// is in the allowlist and a file.
pub open spec fn acceptable(
    kind_at: spec_fn(Seq<char>) -> Option<CdiPathKind>,
    edits: PolicyEdits,
    allowlist: Seq<Seq<char>>,
) -> bool {
    &&& forall|i: int|
        0 <= i < edits.device_nodes.len() ==> policy_path(#[trigger] edits.device_nodes[i]) is Ok
    &&& forall|i: int| 0 <= i < edits.mounts.len() ==> mount_entry(#[trigger] edits.mounts[i]) is Ok
    &&& forall|path: Seq<char>| #[trigger] wants_node(edits, path) ==> is_device(kind_at(path))
    &&& forall|path: Seq<char>| #[trigger]
        wants_mount(edits, path, CdiAccess::ReadOnly) ==> !wants_node(edits, path) && !wants_mount(
            edits,
            path,
            CdiAccess::ReadWrite,
        )
    &&& forall|path: Seq<char>| #[trigger]
        wants_mount(edits, path, CdiAccess::ReadWrite) ==> normalized_all(allowlist).contains(path)
            && kind_at(path) == Some(CdiPathKind::File)
}

/// The edits may be collected onto the requirements: each entry is
/// acceptable, each device node is a device, the entries contradict neither
/// each other nor what is required already, and each mount that is writable
/// in the end is in the allowlist and a file.
pub open spec fn admissible(
    kind_at: spec_fn(Seq<char>) -> Option<CdiPathKind>,
    before: Requirements,
    edits: PolicyEdits,
    allowlist: Seq<Seq<char>>,
) -> bool {
    &&& forall|i: int|
        0 <= i < edits.device_nodes.len() ==> policy_path(#[trigger] edits.device_nodes[i]) is Ok
    &&& forall|i: int| 0 <= i < edits.mounts.len() ==> mount_entry(#[trigger] edits.mounts[i]) is Ok
    &&& forall|path: Seq<char>| #[trigger]
        wants_node(edits, path) ==> is_device(kind_at(path)) && !before.mounted(
            path,
            CdiAccess::ReadOnly,
        )
    &&& forall|path: Seq<char>| #[trigger]
        wants_mount(edits, path, CdiAccess::ReadOnly) ==> !before.nodes.contains(path)
            && !wants_node(edits, path) && !before.mounted(path, CdiAccess::ReadWrite)
            && !wants_mount(edits, path, CdiAccess::ReadWrite)
    &&& forall|path: Seq<char>| #[trigger]
        wants_mount(edits, path, CdiAccess::ReadWrite) ==> !before.mounted(path, CdiAccess::ReadOnly)
    &&& forall|path: Seq<char>|
        #![trigger before.mounted(path, CdiAccess::ReadWrite)]
        #![trigger wants_mount(edits, path, CdiAccess::ReadWrite)]
        before.mounted(path, CdiAccess::ReadWrite) || wants_mount(edits, path, CdiAccess::ReadWrite)
            ==> allowlist.contains(path) && kind_at(path) == Some(CdiPathKind::File)
}

/// Admissible nodes are all added: no error ends the adding early, so each
/// is looked at.
proof fn lemma_admissible_nodes(
    kind_at: spec_fn(Seq<char>) -> Option<CdiPathKind>,
    before: Requirements,
    edits: PolicyEdits,
    allowlist: Seq<Seq<char>>,
    kinds: Seq<Option<CdiPathKind>>,
    n: int,
)
    requires
        admissible(kind_at, before, edits, allowlist),
        node_answers(fixed(kind_at), before, edits.device_nodes, kinds),
        0 <= n <= edits.device_nodes.len(),
    ensures
        nodes_added(before, edits.device_nodes.take(n), kinds).1 is None,
    decreases n,
{
    let nodes = edits.device_nodes;
    if n > 0 {
        lemma_admissible_nodes(kind_at, before, edits, allowlist, kinds, n - 1);
        assert(nodes.take(n).drop_last() =~= nodes.take(n - 1));
        assert(nodes.take(n).last() == nodes[n - 1]);
        let path = policy_path(nodes[n - 1])->Ok_0;
        assert(policy_path(nodes[n - 1]) is Ok);
        assert(wants_node(edits, path));
        let lookup = fixed(kind_at);
        assert(lookup(path, kinds[n - 1]));
        lemma_nodes_added(before, nodes.take(n - 1), kinds);
    }
}

/// Collecting edits succeeds exactly where they may be collected, and then
/// all that they want is collected.
#[verifier::spinoff_prover]
#[verifier::rlimit(60)]
pub proof fn law_collecting_succeeds_where_admissible(
    kind_at: spec_fn(Seq<char>) -> Option<CdiPathKind>,
    before: Requirements,
    edits: PolicyEdits,
    allowlist: Seq<Seq<char>>,
    findings: Findings,
    after: Requirements,
    error: Option<CdiErrorView>,
)
    requires
        accumulated(fixed(kind_at), before, edits, allowlist, findings, after, error),
    ensures
        error is None <==> admissible(kind_at, before, edits, allowlist),
        error is None ==> after == joined_with(before, edits),
{
    let lookup = fixed(kind_at);
    let nodes = edits.device_nodes;
    if error is None {
        lemma_collected(lookup, before, edits, allowlist, findings, after);
        let required = with_nodes(before, nodes);
        assert forall|i: int| 0 <= i < nodes.len() implies policy_path(#[trigger] nodes[i]) is Ok by {
            assert(node_passes(lookup, before, nodes[i]));
        }
        assert forall|path: Seq<char>| #[trigger] wants_node(edits, path) implies is_device(
            kind_at(path),
        ) && !before.mounted(path, CdiAccess::ReadOnly) by {
            let i = choose|i: int|
                0 <= i < nodes.len() && policy_path(#[trigger] nodes[i]) == Ok::<
                    Seq<char>,
                    CdiErrorView,
                >(path);
            assert(node_passes(lookup, before, nodes[i]));
        }
        assert forall|path: Seq<char>| #[trigger]
            wants_mount(edits, path, CdiAccess::ReadOnly) implies !before.nodes.contains(path)
            && !wants_node(edits, path) && !before.mounted(path, CdiAccess::ReadWrite)
            && !wants_mount(edits, path, CdiAccess::ReadWrite) by {
            assert(lists_mount(edits.mounts, path, CdiAccess::ReadOnly));
            assert(!required.nodes.contains(path));
            assert(!required.mounted(path, CdiAccess::ReadWrite));
        }
        assert forall|path: Seq<char>| #[trigger]
            wants_mount(edits, path, CdiAccess::ReadWrite) implies !before.mounted(
            path,
            CdiAccess::ReadOnly,
        ) by {
            assert(lists_mount(edits.mounts, path, CdiAccess::ReadWrite));
            assert(!required.mounted(path, CdiAccess::ReadOnly));
        }
        assert forall|path: Seq<char>|
            #![trigger before.mounted(path, CdiAccess::ReadWrite)]
            #![trigger wants_mount(edits, path, CdiAccess::ReadWrite)]
            before.mounted(path, CdiAccess::ReadWrite) || wants_mount(
                edits,
                path,
                CdiAccess::ReadWrite,
            ) implies allowlist.contains(path) && kind_at(path) == Some(CdiPathKind::File) by {
            assert(after.mounted(path, CdiAccess::ReadWrite));
            assert(lookup(path, Some(CdiPathKind::File)));
        }
    }
    if admissible(kind_at, before, edits, allowlist) {
        lemma_admissible_nodes(
            kind_at,
            before,
            edits,
            allowlist,
            findings.nodes,
            nodes.len() as int,
        );
        assert(nodes.take(nodes.len() as int) =~= nodes);
        lemma_nodes_added(before, nodes, findings.nodes);
        let after_nodes = nodes_added(before, nodes, findings.nodes).0;
        assert forall|path: Seq<char>| after_nodes.nodes.contains(path) <==> before.nodes.contains(
            path,
        ) || wants_node(edits, path) by {}
        assert forall|path: Seq<char>| #[trigger]
            lists_mount(edits.mounts, path, CdiAccess::ReadOnly) implies !after_nodes.nodes.contains(
            path,
        ) && !after_nodes.mounted(path, CdiAccess::ReadWrite) && !lists_mount(
            edits.mounts,
            path,
            CdiAccess::ReadWrite,
        ) by {
            assert(wants_mount(edits, path, CdiAccess::ReadOnly));
            assert(!wants_mount(edits, path, CdiAccess::ReadWrite));
            assert(!before.mounted(path, CdiAccess::ReadWrite));
        }
        assert forall|path: Seq<char>| #[trigger]
            lists_mount(edits.mounts, path, CdiAccess::ReadWrite) implies !after_nodes.mounted(
            path,
            CdiAccess::ReadOnly,
        ) by {
            assert(wants_mount(edits, path, CdiAccess::ReadWrite));
            assert(!before.mounted(path, CdiAccess::ReadOnly));
        }
        assert(mounts_agree(after_nodes, edits.mounts));
        lemma_mounts_added(after_nodes, edits.mounts);
        if error is Some {
            let path = choose|path: Seq<char>| #[trigger]
                is_violation(after.mounts, allowlist, findings.mounts, path)
                    && no_violation_before(after.mounts, allowlist, findings.mounts, path) && error->0
                    == violation_error(allowlist, findings.mounts, path);
            let with_mounts = mounts_added(after_nodes, edits.mounts).0;
            assert(with_mounts.mounted(path, CdiAccess::ReadWrite));
            assert(after_nodes.mounted(path, CdiAccess::ReadWrite) || lists_mount(
                edits.mounts,
                path,
                CdiAccess::ReadWrite,
            ));
            assert(before.mounted(path, CdiAccess::ReadWrite) || wants_mount(
                edits,
                path,
                CdiAccess::ReadWrite,
            ));
            assert(after.mounts.contains_key(path));
            assert(lookup(path, findings.mounts[path]));
        }
    }
}

/// Success is owed exactly where the edits may be granted.
pub proof fn law_success_is_owed(
    kind_at: spec_fn(Seq<char>) -> Option<CdiPathKind>,
    edits: PolicyEdits,
    allowlist: Seq<Seq<char>>,
    outcome: Result<RequirementLists, CdiErrorView>,
)
    requires
        derived(fixed(kind_at), edits, allowlist, outcome),
    ensures
        outcome is Ok <==> acceptable(kind_at, edits, allowlist),
{
    let start = Requirements::none();
    let allowed = normalized_all(allowlist);
    let (findings, after) = choose|findings: Findings, after: Requirements| #[trigger]
        accumulated(fixed(kind_at), start, edits, allowed, findings, after, error_of(outcome)) && (
        outcome matches Ok(lists) ==> lists_requirements(lists, after));
    law_collecting_succeeds_where_admissible(
        kind_at,
        start,
        edits,
        allowed,
        findings,
        after,
        error_of(outcome),
    );
}

/// Two strictly sorted sequences with the same members are the same.
pub proof fn law_sorted_listing_is_unique(a: Seq<Seq<char>>, b: Seq<Seq<char>>)
    requires
        strictly_sorted(a),
        strictly_sorted(b),
        forall|item: Seq<char>| a.contains(item) <==> b.contains(item),
    ensures
        a == b,
    decreases a.len() + b.len(),
{
    if a.len() == 0 {
        if b.len() > 0 {
            assert(b.contains(b[0]));
        }
        assert(a =~= b);
    } else {
        assert(a.contains(a[a.len() - 1]));
        let j = choose|j: int| 0 <= j < b.len() && b[j] == a[a.len() - 1];
        assert(b.contains(b[b.len() - 1]));
        let i = choose|i: int| 0 <= i < a.len() && a[i] == b[b.len() - 1];
        if i < a.len() - 1 && j < b.len() - 1 {
            assert(lex_lt(a[i], a[a.len() - 1]));
            assert(lex_lt(b[j], b[b.len() - 1]));
            law_order_transitive(a[i], b[j], a[i]);
            law_order_irreflexive(a[i]);
        }
        if i == a.len() - 1 || j == b.len() - 1 {
            assert(a.last() == b.last());
        }
        let last = a.last();
        let shorter_a = a.drop_last();
        let shorter_b = b.drop_last();
        law_order_irreflexive(last);
        assert forall|item: Seq<char>| shorter_a.contains(item) <==> a.contains(item) && item
            != last by {
            if shorter_a.contains(item) {
                let k = choose|k: int| 0 <= k < shorter_a.len() && shorter_a[k] == item;
                assert(a[k] == item);
                assert(lex_lt(a[k], a[a.len() - 1]));
            }
            if a.contains(item) && item != last {
                let k = choose|k: int| 0 <= k < a.len() && a[k] == item;
                assert(shorter_a[k] == item);
            }
        }
        assert forall|item: Seq<char>| shorter_b.contains(item) <==> b.contains(item) && item
            != last by {
            if shorter_b.contains(item) {
                let k = choose|k: int| 0 <= k < shorter_b.len() && shorter_b[k] == item;
                assert(b[k] == item);
                assert(lex_lt(b[k], b[b.len() - 1]));
            }
            if b.contains(item) && item != last {
                let k = choose|k: int| 0 <= k < b.len() && b[k] == item;
                assert(shorter_b[k] == item);
            }
        }
        law_sorted_listing_is_unique(shorter_a, shorter_b);
        assert(shorter_a.push(last) =~= a);
        assert(shorter_b.push(last) =~= b);
    }
}

/// The same for groups.
proof fn lemma_increasing_listing_is_unique(a: Seq<u32>, b: Seq<u32>)
    requires
        strictly_increasing(a),
        strictly_increasing(b),
        forall|item: u32| a.contains(item) <==> b.contains(item),
    ensures
        a == b,
    decreases a.len() + b.len(),
{
    if a.len() == 0 {
        if b.len() > 0 {
            assert(b.contains(b[0]));
        }
        assert(a =~= b);
    } else {
        assert(a.contains(a[a.len() - 1]));
        let j = choose|j: int| 0 <= j < b.len() && b[j] == a[a.len() - 1];
        assert(b.contains(b[b.len() - 1]));
        let i = choose|i: int| 0 <= i < a.len() && a[i] == b[b.len() - 1];
        assert(a.last() == b.last());
        let last = a.last();
        let shorter_a = a.drop_last();
        let shorter_b = b.drop_last();
        assert forall|item: u32| shorter_a.contains(item) <==> a.contains(item) && item != last by {
            if shorter_a.contains(item) {
                let k = choose|k: int| 0 <= k < shorter_a.len() && shorter_a[k] == item;
                assert(a[k] == item);
            }
            if a.contains(item) && item != last {
                let k = choose|k: int| 0 <= k < a.len() && a[k] == item;
                assert(shorter_a[k] == item);
            }
        }
        assert forall|item: u32| shorter_b.contains(item) <==> b.contains(item) && item != last by {
            if shorter_b.contains(item) {
                let k = choose|k: int| 0 <= k < shorter_b.len() && shorter_b[k] == item;
                assert(b[k] == item);
            }
            if b.contains(item) && item != last {
                let k = choose|k: int| 0 <= k < b.len() && b[k] == item;
                assert(shorter_b[k] == item);
            }
        }
        lemma_increasing_listing_is_unique(shorter_a, shorter_b);
        assert(shorter_a.push(last) =~= a);
        assert(shorter_b.push(last) =~= b);
    }
}

/// Requirements have one listing.
pub proof fn law_listing_is_unique(
    requirements: Requirements,
    a: RequirementLists,
    b: RequirementLists,
)
    requires
        lists_requirements(a, requirements),
        lists_requirements(b, requirements),
    ensures
        a == b,
{
    law_sorted_listing_is_unique(a.device_node_paths, b.device_node_paths);
    law_sorted_listing_is_unique(a.read_only_mount_paths, b.read_only_mount_paths);
    law_sorted_listing_is_unique(a.read_write_mount_paths, b.read_write_mount_paths);
    lemma_increasing_listing_is_unique(a.additional_gids, b.additional_gids);
}

/// Under a fixed lookup, adding nodes has one result.
proof fn lemma_nodes_added_fixed(
    kind_at: spec_fn(Seq<char>) -> Option<CdiPathKind>,
    before: Requirements,
    nodes: Seq<Seq<char>>,
    a: Seq<Option<CdiPathKind>>,
    b: Seq<Option<CdiPathKind>>,
    n: int,
)
    requires
        node_answers(fixed(kind_at), before, nodes, a),
        node_answers(fixed(kind_at), before, nodes, b),
        0 <= n <= nodes.len(),
    ensures
        nodes_added(before, nodes.take(n), a) == nodes_added(before, nodes.take(n), b),
    decreases n,
{
    if n > 0 {
        lemma_nodes_added_fixed(kind_at, before, nodes, a, b, n - 1);
        assert(nodes.take(n).drop_last() =~= nodes.take(n - 1));
        assert(nodes.take(n).last() == nodes[n - 1]);
        if nodes_added(before, nodes.take(n - 1), a).1 is None && policy_path(
            nodes[n - 1],
        ) is Ok {
            let lookup = fixed(kind_at);
            let path = policy_path(nodes[n - 1])->Ok_0;
            assert(lookup(path, a[n - 1]));
            assert(lookup(path, b[n - 1]));
        }
    }
}

/// Under a fixed lookup, a violation that is the first by one account is a
/// violation by another, unless that has an earlier one.
proof fn lemma_first_violation_fixed(
    kind_at: spec_fn(Seq<char>) -> Option<CdiPathKind>,
    mounts: Map<Seq<char>, CdiAccess>,
    allowlist: Seq<Seq<char>>,
    a: Map<Seq<char>, Option<CdiPathKind>>,
    b: Map<Seq<char>, Option<CdiPathKind>>,
    path: Seq<char>,
)
    requires
        mount_answers(fixed(kind_at), mounts, allowlist, a),
        mount_answers(fixed(kind_at), mounts, allowlist, b),
        is_violation(mounts, allowlist, a, path),
        no_violation_before(mounts, allowlist, a, path),
        no_violation_before(mounts, allowlist, b, path),
    ensures
        is_violation(mounts, allowlist, b, path),
        violation_error(allowlist, a, path) == violation_error(allowlist, b, path),
{
    assert(mounts.contains_key(path));
    let lookup = fixed(kind_at);
    if allowlist.contains(path) {
        assert(lookup(path, a[path]));
        assert(lookup(path, b[path]));
    }
}

/// Under a fixed lookup, the check of writable mounts has one result.
proof fn lemma_writable_mounts_fixed(
    kind_at: spec_fn(Seq<char>) -> Option<CdiPathKind>,
    mounts: Map<Seq<char>, CdiAccess>,
    allowlist: Seq<Seq<char>>,
    a: Map<Seq<char>, Option<CdiPathKind>>,
    b: Map<Seq<char>, Option<CdiPathKind>>,
    error: CdiErrorView,
    other: Option<CdiErrorView>,
)
    requires
        mount_answers(fixed(kind_at), mounts, allowlist, a),
        mount_answers(fixed(kind_at), mounts, allowlist, b),
        writable_mounts_checked(mounts, allowlist, a, Some(error)),
        writable_mounts_checked(mounts, allowlist, b, other),
    ensures
        other == Some(error),
{
    let first = choose|path: Seq<char>| #[trigger]
        is_violation(mounts, allowlist, a, path) && no_violation_before(mounts, allowlist, a, path)
            && error == violation_error(allowlist, a, path);
    if other is None {
        assert(no_violation_before(mounts, allowlist, b, first));
        lemma_first_violation_fixed(kind_at, mounts, allowlist, a, b, first);
    } else {
        let second = choose|path: Seq<char>| #[trigger]
            is_violation(mounts, allowlist, b, path) && no_violation_before(
                mounts,
                allowlist,
                b,
                path,
            ) && other->0 == violation_error(allowlist, b, path);
        law_order_total(first, second);
        if lex_lt(first, second) {
            assert forall|path: Seq<char>| #[trigger]
                is_violation(mounts, allowlist, b, path) implies !lex_lt(path, first) by {
                if lex_lt(path, first) {
                    law_order_transitive(path, first, second);
                }
            }
            lemma_first_violation_fixed(kind_at, mounts, allowlist, a, b, first);
        } else if lex_lt(second, first) {
            assert forall|path: Seq<char>| #[trigger]
                is_violation(mounts, allowlist, a, path) implies !lex_lt(path, second) by {
                if lex_lt(path, second) {
                    law_order_transitive(path, second, first);
                }
            }
            lemma_first_violation_fixed(kind_at, mounts, allowlist, b, a, second);
        } else {
            lemma_first_violation_fixed(kind_at, mounts, allowlist, a, b, first);
        }
    }
}

/// Under a fixed lookup, collecting edits has one end: the same requirements
/// and the same error, if any.
pub proof fn law_collecting_is_determined(
    kind_at: spec_fn(Seq<char>) -> Option<CdiPathKind>,
    before: Requirements,
    edits: PolicyEdits,
    allowlist: Seq<Seq<char>>,
    findings_a: Findings,
    findings_b: Findings,
    after_a: Requirements,
    after_b: Requirements,
    error_a: Option<CdiErrorView>,
    error_b: Option<CdiErrorView>,
)
    requires
        accumulated(fixed(kind_at), before, edits, allowlist, findings_a, after_a, error_a),
        accumulated(fixed(kind_at), before, edits, allowlist, findings_b, after_b, error_b),
    ensures
        after_a == after_b,
        error_a == error_b,
{
    let (kinds_a, kinds_b) = (findings_a.nodes, findings_b.nodes);
    let nodes = edits.device_nodes;
    lemma_nodes_added_fixed(kind_at, before, nodes, kinds_a, kinds_b, nodes.len() as int);
    assert(nodes.take(nodes.len() as int) =~= nodes);
    let (after_nodes, node_error) = nodes_added(before, nodes, kinds_a);
    let (with_mounts, mount_error) = mounts_added(after_nodes, edits.mounts);
    law_collecting_succeeds_where_admissible(
        kind_at,
        before,
        edits,
        allowlist,
        findings_a,
        after_a,
        error_a,
    );
    law_collecting_succeeds_where_admissible(
        kind_at,
        before,
        edits,
        allowlist,
        findings_b,
        after_b,
        error_b,
    );
    if node_error is None && mount_error is None && error_a is Some {
        lemma_writable_mounts_fixed(
            kind_at,
            gids_added(with_mounts, edits.additional_gids).mounts,
            allowlist,
            findings_a.mounts,
            findings_b.mounts,
            error_a->0,
            error_b,
        );
    }
}

/// Under a fixed lookup, edits come to one outcome.
pub proof fn law_outcome_is_determined(
    kind_at: spec_fn(Seq<char>) -> Option<CdiPathKind>,
    edits: PolicyEdits,
    allowlist: Seq<Seq<char>>,
    a: Result<RequirementLists, CdiErrorView>,
    b: Result<RequirementLists, CdiErrorView>,
)
    requires
        derived(fixed(kind_at), edits, allowlist, a),
        derived(fixed(kind_at), edits, allowlist, b),
    ensures
        a == b,
{
    let lookup = fixed(kind_at);
    let start = Requirements::none();
    let allowed = normalized_all(allowlist);
    let (findings_a, after_a) = choose|findings: Findings, after: Requirements| #[trigger]
        accumulated(lookup, start, edits, allowed, findings, after, error_of(a)) && (
        a matches Ok(lists) ==> lists_requirements(lists, after));
    let (findings_b, after_b) = choose|findings: Findings, after: Requirements| #[trigger]
        accumulated(lookup, start, edits, allowed, findings, after, error_of(b)) && (
        b matches Ok(lists) ==> lists_requirements(lists, after));
    law_collecting_is_determined(
        kind_at,
        start,
        edits,
        allowed,
        findings_a,
        findings_b,
        after_a,
        after_b,
        error_of(a),
        error_of(b),
    );
    if a is Ok {
        law_listing_is_unique(after_a, a->Ok_0, b->Ok_0);
    }
}

/// The edits name the same things, in whatever order and however often.
pub open spec fn same_entries(a: PolicyEdits, b: PolicyEdits) -> bool {
    &&& forall|path: Seq<char>|
        a.device_nodes.contains(path) <==> #[trigger] b.device_nodes.contains(path)
    &&& forall|mount: MountEdit| a.mounts.contains(mount) <==> #[trigger] b.mounts.contains(mount)
    &&& forall|gid: u32|
        a.additional_gids.contains(gid) <==> #[trigger] b.additional_gids.contains(gid)
}

/// Edits that name the same things want the same.
proof fn lemma_same_entries_want(a: PolicyEdits, b: PolicyEdits)
    requires
        same_entries(a, b),
    ensures
        forall|path: Seq<char>| #[trigger] wants_node(a, path) ==> wants_node(b, path),
        forall|path: Seq<char>, access: CdiAccess| #[trigger]
            wants_mount(a, path, access) ==> wants_mount(b, path, access),
        (forall|i: int|
            0 <= i < b.device_nodes.len() ==> policy_path(#[trigger] b.device_nodes[i]) is Ok) ==> (
        forall|i: int|
            0 <= i < a.device_nodes.len() ==> policy_path(#[trigger] a.device_nodes[i]) is Ok),
        (forall|i: int| 0 <= i < b.mounts.len() ==> mount_entry(#[trigger] b.mounts[i]) is Ok) ==> (
        forall|i: int| 0 <= i < a.mounts.len() ==> mount_entry(#[trigger] a.mounts[i]) is Ok),
{
    assert forall|i: int| 0 <= i < a.device_nodes.len() implies exists|j: int|
        0 <= j < b.device_nodes.len() && b.device_nodes[j] == #[trigger] a.device_nodes[i] by {
        assert(a.device_nodes.contains(a.device_nodes[i]));
        assert(b.device_nodes.contains(a.device_nodes[i]));
    }
    assert forall|i: int| 0 <= i < a.mounts.len() implies exists|j: int|
        0 <= j < b.mounts.len() && b.mounts[j] == #[trigger] a.mounts[i] by {
        assert(a.mounts.contains(a.mounts[i]));
        assert(b.mounts.contains(a.mounts[i]));
    }
    assert forall|path: Seq<char>| #[trigger] wants_node(a, path) implies wants_node(b, path) by {
        let i = choose|i: int|
            0 <= i < a.device_nodes.len() && policy_path(#[trigger] a.device_nodes[i]) == Ok::<
                Seq<char>,
                CdiErrorView,
            >(path);
        let j = choose|j: int|
            0 <= j < b.device_nodes.len() && b.device_nodes[j] == a.device_nodes[i];
        assert(policy_path(b.device_nodes[j]) == Ok::<Seq<char>, CdiErrorView>(path));
    }
    assert forall|path: Seq<char>, access: CdiAccess| #[trigger]
        wants_mount(a, path, access) implies wants_mount(b, path, access) by {
        let entry = Ok::<(Seq<char>, CdiAccess), CdiErrorView>((path, access));
        let i = choose|i: int|
            0 <= i < a.mounts.len() && mount_entry(#[trigger] a.mounts[i]) == entry;
        let j = choose|j: int| 0 <= j < b.mounts.len() && b.mounts[j] == a.mounts[i];
        assert(mount_entry(b.mounts[j]) == entry);
    }
}

/// Neither the order of the entries nor their repetition matters for what is
/// collected: edits that name the same things are collected to the same, onto
/// whatever is held already, or neither is accepted.
pub proof fn law_entry_order_is_irrelevant(
    kind_at: spec_fn(Seq<char>) -> Option<CdiPathKind>,
    before: Requirements,
    a: PolicyEdits,
    b: PolicyEdits,
    allowlist: Seq<Seq<char>>,
    findings_a: Findings,
    findings_b: Findings,
    after_a: Requirements,
    after_b: Requirements,
    error_a: Option<CdiErrorView>,
    error_b: Option<CdiErrorView>,
)
    requires
        same_entries(a, b),
        accumulated(fixed(kind_at), before, a, allowlist, findings_a, after_a, error_a),
        accumulated(fixed(kind_at), before, b, allowlist, findings_b, after_b, error_b),
    ensures
        error_a is None <==> error_b is None,
        error_a is None ==> after_a == after_b,
{
    law_collecting_succeeds_where_admissible(
        kind_at,
        before,
        a,
        allowlist,
        findings_a,
        after_a,
        error_a,
    );
    law_collecting_succeeds_where_admissible(
        kind_at,
        before,
        b,
        allowlist,
        findings_b,
        after_b,
        error_b,
    );
    lemma_same_entries_want(a, b);
    lemma_same_entries_want(b, a);
    assert forall|path: Seq<char>| wants_node(a, path) == wants_node(b, path) by {}
    assert forall|path: Seq<char>, access: CdiAccess| wants_mount(a, path, access) == wants_mount(
        b,
        path,
        access,
    ) by {}
    if admissible(kind_at, before, a, allowlist) {
        assert(admissible(kind_at, before, b, allowlist));
    }
    if admissible(kind_at, before, b, allowlist) {
        assert(admissible(kind_at, before, a, allowlist));
    }
    assert(a.additional_gids.to_set() =~= b.additional_gids.to_set());
    assert(joined_with(before, a) =~= joined_with(before, b));
}

/// Neither the order of the entries nor their repetition matters for what is
/// granted: edits that name the same things are granted the same policy, or
/// neither is granted any.
pub proof fn law_entry_order_is_irrelevant_to_policies(
    kind_at: spec_fn(Seq<char>) -> Option<CdiPathKind>,
    a: PolicyEdits,
    b: PolicyEdits,
    allowlist: Seq<Seq<char>>,
    outcome_a: Result<RequirementLists, CdiErrorView>,
    outcome_b: Result<RequirementLists, CdiErrorView>,
)
    requires
        same_entries(a, b),
        derived(fixed(kind_at), a, allowlist, outcome_a),
        derived(fixed(kind_at), b, allowlist, outcome_b),
    ensures
        outcome_a is Ok <==> outcome_b is Ok,
        outcome_a is Ok ==> outcome_a == outcome_b,
{
    let lookup = fixed(kind_at);
    let start = Requirements::none();
    let allowed = normalized_all(allowlist);
    let (findings_a, after_a) = choose|findings: Findings, after: Requirements| #[trigger]
        accumulated(lookup, start, a, allowed, findings, after, error_of(outcome_a)) && (
        outcome_a matches Ok(lists) ==> lists_requirements(lists, after));
    let (findings_b, after_b) = choose|findings: Findings, after: Requirements| #[trigger]
        accumulated(lookup, start, b, allowed, findings, after, error_of(outcome_b)) && (
        outcome_b matches Ok(lists) ==> lists_requirements(lists, after));
    law_entry_order_is_irrelevant(
        kind_at,
        start,
        a,
        b,
        allowed,
        findings_a,
        findings_b,
        after_a,
        after_b,
        error_of(outcome_a),
        error_of(outcome_b),
    );
    if outcome_a is Ok {
        law_listing_is_unique(after_a, outcome_a->Ok_0, outcome_b->Ok_0);
    }
}

/// A longer allowlist takes nothing away: what was granted stays granted,
/// and is the same. Paths of the lists that have the same normal form count
/// as the same.
pub proof fn law_allowlist_only_adds(
    kind_at: spec_fn(Seq<char>) -> Option<CdiPathKind>,
    edits: PolicyEdits,
    shorter: Seq<Seq<char>>,
    longer: Seq<Seq<char>>,
    granted: RequirementLists,
    outcome: Result<RequirementLists, CdiErrorView>,
)
    requires
        forall|path: Seq<char>|
            normalized_all(shorter).contains(path) ==> #[trigger] normalized_all(longer).contains(
                path,
            ),
        derived(fixed(kind_at), edits, shorter, Ok(granted)),
        derived(fixed(kind_at), edits, longer, outcome),
    ensures
        outcome == Ok::<RequirementLists, CdiErrorView>(granted),
{
    law_success_is_owed(kind_at, edits, shorter, Ok(granted));
    law_success_is_owed(kind_at, edits, longer, outcome);
    assert(acceptable(kind_at, edits, longer));
    lemma_granted(fixed(kind_at), edits, shorter, granted);
    lemma_granted(fixed(kind_at), edits, longer, outcome->Ok_0);
    law_listing_is_unique(wanted(edits), granted, outcome->Ok_0);
}

/// No device node is mounted read-only.
pub open spec fn consistent(requirements: Requirements) -> bool {
    forall|path: Seq<char>| #[trigger]
        requirements.nodes.contains(path) ==> !requirements.mounted(path, CdiAccess::ReadOnly)
}

/// Adding entries keeps requirements consistent, whether they are accepted
/// or refused, and never brings the root group in.
pub proof fn law_adding_keeps_consistency(
    before: Requirements,
    path: Seq<char>,
    kind: Option<CdiPathKind>,
    access: CdiAccess,
    gid: u32,
)
    ensures
        consistent(before) ==> consistent(node_added(before, path, kind).0),
        consistent(before) ==> consistent(mount_added(before, path, access).0),
        consistent(before) ==> consistent(gid_added(before, gid)),
        !before.gids.contains(0) ==> !node_added(before, path, kind).0.gids.contains(0),
        !before.gids.contains(0) ==> !mount_added(before, path, access).0.gids.contains(0),
        !before.gids.contains(0) ==> !gid_added(before, gid).gids.contains(0),
{
}

/// A refused entry leaves the requirements as they were.
pub proof fn law_refused_entry_changes_nothing(
    before: Requirements,
    path: Seq<char>,
    kind: Option<CdiPathKind>,
    access: CdiAccess,
)
    ensures
        node_added(before, path, kind).1 is Some ==> node_added(before, path, kind).0 == before,
        mount_added(before, path, access).1 is Some ==> mount_added(before, path, access).0 == before,
{
}

/// An entry that was accepted is accepted again, and changes nothing then.
pub proof fn law_repeated_entry_changes_nothing(
    before: Requirements,
    path: Seq<char>,
    kind: Option<CdiPathKind>,
    access: CdiAccess,
)
    ensures
        node_added(before, path, kind).1 is None ==> node_added(
            node_added(before, path, kind).0,
            path,
            kind,
        ) == node_added(before, path, kind),
        mount_added(before, path, access).1 is None ==> mount_added(
            mount_added(before, path, access).0,
            path,
            access,
        ) == mount_added(before, path, access),
{
    let (with_node, _) = node_added(before, path, kind);
    let (with_mount, _) = mount_added(before, path, access);
    assert(with_node.nodes.insert(path) =~= with_node.nodes || node_added(
        before,
        path,
        kind,
    ).1 is Some);
    assert(with_mount.mounts.insert(path, access) =~= with_mount.mounts || mount_added(
        before,
        path,
        access,
    ).1 is Some);
}

/// The device at some place of the list brings the entry.
pub open spec fn brought(
    devices: Map<Seq<char>, DeviceRecord>,
    ids: Seq<Seq<char>>,
    entry: EditEntry,
) -> bool {
    exists|i: int| 0 <= i < ids.len() && #[trigger] brings(devices, ids, i, entry)
}

/// A policy that is granted for selected devices lists what these devices
/// bring, and nothing else.
pub proof fn law_policy_comes_from_devices(
    lookup: spec_fn(Seq<char>, Option<CdiPathKind>) -> bool,
    devices: Map<Seq<char>, DeviceRecord>,
    ids: Seq<Seq<char>>,
    refresh_error: Option<Seq<char>>,
    allowlist: Seq<Seq<char>>,
    lists: RequirementLists,
    path: Seq<char>,
    gid: u32,
)
    requires
        merged(devices, ids, refresh_error) is Ok,
        derived(lookup, merged(devices, ids, refresh_error)->Ok_0.0, allowlist, Ok(lists)),
    ensures
        lists.device_node_paths.contains(path) <==> exists|node: Seq<char>| #[trigger]
            brought(devices, ids, EditEntry::DeviceNode(node)) && policy_path(node) == Ok::<
                Seq<char>,
                CdiErrorView,
            >(path),
        lists.read_only_mount_paths.contains(path) <==> exists|mount: MountEdit| #[trigger]
            brought(devices, ids, EditEntry::Mount(mount)) && mount_entry(mount) == Ok::<
                (Seq<char>, CdiAccess),
                CdiErrorView,
            >((path, CdiAccess::ReadOnly)),
        lists.read_write_mount_paths.contains(path) <==> exists|mount: MountEdit| #[trigger]
            brought(devices, ids, EditEntry::Mount(mount)) && mount_entry(mount) == Ok::<
                (Seq<char>, CdiAccess),
                CdiErrorView,
            >((path, CdiAccess::ReadWrite)),
        lists.additional_gids.contains(gid) <==> brought(devices, ids, EditEntry::Gid(gid)) && gid
            != 0,
{
    let edits = merged(devices, ids, refresh_error)->Ok_0.0;
    lemma_granted(lookup, edits, allowlist, lists);
    assert forall|entry: EditEntry| #[trigger] brought(devices, ids, entry) <==> has_entry(
        edits,
        entry,
    ) by {
        law_merged_entries(devices, ids, refresh_error, entry);
    }
    assert(wants_node(edits, path) <==> exists|node: Seq<char>| #[trigger]
        brought(devices, ids, EditEntry::DeviceNode(node)) && policy_path(node) == Ok::<
            Seq<char>,
            CdiErrorView,
        >(path)) by {
        if wants_node(edits, path) {
            let i = choose|i: int|
                0 <= i < edits.device_nodes.len() && policy_path(#[trigger] edits.device_nodes[i])
                    == Ok::<Seq<char>, CdiErrorView>(path);
            assert(edits.device_nodes.contains(edits.device_nodes[i]));
            assert(brought(devices, ids, EditEntry::DeviceNode(edits.device_nodes[i])));
        }
        if exists|node: Seq<char>| #[trigger]
            brought(devices, ids, EditEntry::DeviceNode(node)) && policy_path(node) == Ok::<
                Seq<char>,
                CdiErrorView,
            >(path) {
            let node = choose|node: Seq<char>| #[trigger]
                brought(devices, ids, EditEntry::DeviceNode(node)) && policy_path(node) == Ok::<
                    Seq<char>,
                    CdiErrorView,
                >(path);
            assert(edits.device_nodes.contains(node));
            let i = choose|i: int|
                0 <= i < edits.device_nodes.len() && edits.device_nodes[i] == node;
            assert(policy_path(edits.device_nodes[i]) == Ok::<Seq<char>, CdiErrorView>(path));
        }
    }
    lemma_wanted_mounts_are_brought(devices, ids, edits, path, CdiAccess::ReadOnly);
    lemma_wanted_mounts_are_brought(devices, ids, edits, path, CdiAccess::ReadWrite);
    assert(brought(devices, ids, EditEntry::Gid(gid)) <==> has_entry(edits, EditEntry::Gid(gid)));
    assert(wanted(edits).mounted(path, CdiAccess::ReadOnly) <==> wants_mount(
        edits,
        path,
        CdiAccess::ReadOnly,
    ));
    assert(wanted(edits).mounted(path, CdiAccess::ReadWrite) <==> wants_mount(
        edits,
        path,
        CdiAccess::ReadWrite,
    ));
}

/// A mount is wanted exactly when some device brings it.
proof fn lemma_wanted_mounts_are_brought(
    devices: Map<Seq<char>, DeviceRecord>,
    ids: Seq<Seq<char>>,
    edits: PolicyEdits,
    path: Seq<char>,
    access: CdiAccess,
)
    requires
        forall|entry: EditEntry| #[trigger]
            brought(devices, ids, entry) <==> has_entry(edits, entry),
    ensures
        wants_mount(edits, path, access) <==> exists|mount: MountEdit| #[trigger]
            brought(devices, ids, EditEntry::Mount(mount)) && mount_entry(mount) == Ok::<
                (Seq<char>, CdiAccess),
                CdiErrorView,
            >((path, access)),
{
    let entry = Ok::<(Seq<char>, CdiAccess), CdiErrorView>((path, access));
    if wants_mount(edits, path, access) {
        let i = choose|i: int|
            0 <= i < edits.mounts.len() && mount_entry(#[trigger] edits.mounts[i]) == entry;
        assert(edits.mounts.contains(edits.mounts[i]));
        assert(brought(devices, ids, EditEntry::Mount(edits.mounts[i])));
    }
    if exists|mount: MountEdit| #[trigger]
        brought(devices, ids, EditEntry::Mount(mount)) && mount_entry(mount) == entry {
        let mount = choose|mount: MountEdit| #[trigger]
            brought(devices, ids, EditEntry::Mount(mount)) && mount_entry(mount) == entry;
        assert(edits.mounts.contains(mount));
        let i = choose|i: int| 0 <= i < edits.mounts.len() && edits.mounts[i] == mount;
        assert(mount_entry(edits.mounts[i]) == entry);
    }
}

} // verus!
