//! Turning container edits into requirements.

use crate::accumulator::RequirementAccumulator;
#[allow(unused_imports)]
use crate::accumulator::{
    answers, can_ask, gid_added, is_device, lists_requirements, lookup_of, mount_added,
    mount_answers, mount_asked, node_added, writable_mounts_checked, Requirements,
};
#[allow(unused_imports)]
use crate::cdi::CdiAccess;
use crate::cdi::{
    CdiContainerEdits, CdiDerivedRequirements, CdiDeviceNode, CdiError, CdiMount, CdiPathKind,
};
#[allow(unused_imports)]
use crate::cdi::{
    error_of, failure, mount_edits, node_paths, outcome, CdiErrorView, MountEdit, PolicyEdits,
    RequirementLists,
};
use crate::paths::normalize_path;
#[allow(unused_imports)]
use crate::paths::normalized;
use crate::policy::{mount_access, normalize_policy_path};
#[allow(unused_imports)]
use crate::policy::{access_of, policy_path};
#[allow(unused_imports)]
use crate::text::texts;
use vstd::prelude::*;

verus! {

/// Adding device nodes one after the other: the requirements after them, and
/// the error that ended it, if any. `kinds` holds what was found at each.
pub open spec fn nodes_added(
    before: Requirements,
    nodes: Seq<Seq<char>>,
    kinds: Seq<Option<CdiPathKind>>,
) -> (Requirements, Option<CdiErrorView>)
    decreases nodes.len(),
{
    if nodes.len() == 0 {
        (before, None)
    } else {
        let (then, error) = nodes_added(before, nodes.drop_last(), kinds);
        if error is Some {
            (then, error)
        } else {
            match policy_path(nodes.last()) {
                Err(error) => (then, Some(error)),
                Ok(path) => node_added(then, path, kinds[nodes.len() - 1]),
            }
        }
    }
}

/// The path and the access under which a mount goes into a policy, or why it
/// may not.
pub open spec fn mount_entry(mount: MountEdit) -> Result<(Seq<char>, CdiAccess), CdiErrorView> {
    match policy_path(mount.container_path) {
        Err(error) => Err(error),
        Ok(path) => match access_of(path, mount.options) {
            Err(error) => Err(error),
            Ok(access) => Ok((path, access)),
        },
    }
}

/// Adding mounts one after the other: the requirements after them, and the
/// error that ended it, if any.
pub open spec fn mounts_added(before: Requirements, mounts: Seq<MountEdit>) -> (
    Requirements,
    Option<CdiErrorView>,
)
    decreases mounts.len(),
{
    if mounts.len() == 0 {
        (before, None)
    } else {
        let (then, error) = mounts_added(before, mounts.drop_last());
        if error is Some {
            (then, error)
        } else {
            match mount_entry(mounts.last()) {
                Err(error) => (then, Some(error)),
                Ok((path, access)) => mount_added(then, path, access),
            }
        }
    }
}

/// Adding groups: all but the root group.
pub open spec fn gids_added(before: Requirements, gids: Seq<u32>) -> Requirements {
    Requirements { gids: before.gids.union(gids.to_set().remove(0)), ..before }
}

/// The kinds are what the lookup answered for each device node that was
/// reached and has an acceptable path.
pub open spec fn node_answers(
    lookup: spec_fn(Seq<char>, Option<CdiPathKind>) -> bool,
    before: Requirements,
    nodes: Seq<Seq<char>>,
    kinds: Seq<Option<CdiPathKind>>,
) -> bool {
    &&& kinds.len() == nodes.len()
    &&& forall|i: int|
        0 <= i < nodes.len() && nodes_added(before, nodes.take(i), kinds).1 is None && policy_path(
            nodes[i],
        ) is Ok ==> lookup(policy_path(nodes[i])->Ok_0, #[trigger] kinds[i])
}

/// What was found at the paths that had to be looked at.
pub struct Findings {
    /// For each device node.
    pub nodes: Seq<Option<CdiPathKind>>,
    /// For each writable mount.
    pub mounts: Map<Seq<char>, Option<CdiPathKind>>,
}

/// Collecting edits onto requirements: the requirements after it, and the
/// error that ended it, if any. Device nodes come first, then mounts, then
/// groups, and last the check of all writable mounts.
pub open spec fn accumulated(
    lookup: spec_fn(Seq<char>, Option<CdiPathKind>) -> bool,
    before: Requirements,
    edits: PolicyEdits,
    allowlist: Seq<Seq<char>>,
    findings: Findings,
    after: Requirements,
    error: Option<CdiErrorView>,
) -> bool {
    let (after_nodes, node_error) = nodes_added(before, edits.device_nodes, findings.nodes);
    let (with_mounts, mount_error) = mounts_added(after_nodes, edits.mounts);
    let with_gids = gids_added(with_mounts, edits.additional_gids);
    &&& node_answers(lookup, before, edits.device_nodes, findings.nodes)
    &&& if node_error is Some {
        after == after_nodes && error == node_error
    } else if mount_error is Some {
        after == with_mounts && error == mount_error
    } else {
        &&& after == with_gids
        &&& mount_answers(lookup, with_gids.mounts, allowlist, findings.mounts)
        &&& writable_mounts_checked(with_gids.mounts, allowlist, findings.mounts, error)
    }
}

/// The device node gets past its check: its path is acceptable and not
/// mounted read-only, and a device may have been found there.
pub open spec fn node_passes(
    lookup: spec_fn(Seq<char>, Option<CdiPathKind>) -> bool,
    before: Requirements,
    node: Seq<char>,
) -> bool {
    &&& policy_path(node) is Ok
    &&& !before.mounted(policy_path(node)->Ok_0, CdiAccess::ReadOnly)
    &&& exists|kind: Option<CdiPathKind>| #[trigger]
        lookup(policy_path(node)->Ok_0, kind) && is_device(kind)
}

/// All device nodes of the list get past their checks.
pub open spec fn nodes_pass(
    lookup: spec_fn(Seq<char>, Option<CdiPathKind>) -> bool,
    before: Requirements,
    nodes: Seq<Seq<char>>,
) -> bool {
    forall|i: int| 0 <= i < nodes.len() ==> node_passes(lookup, before, #[trigger] nodes[i])
}

/// The collection of device nodes may ask about the path: one of them goes
/// into the policy under it, and all before that one get past their checks.
pub open spec fn node_asked(
    lookup: spec_fn(Seq<char>, Option<CdiPathKind>) -> bool,
    before: Requirements,
    nodes: Seq<Seq<char>>,
    path: Seq<char>,
) -> bool {
    exists|i: int|
        0 <= i < nodes.len() && policy_path(#[trigger] nodes[i]) == Ok::<Seq<char>, CdiErrorView>(
            path,
        ) && nodes_pass(lookup, before, nodes.take(i))
}

/// The requirements with the policy paths of all the device nodes.
pub open spec fn with_nodes(before: Requirements, nodes: Seq<Seq<char>>) -> Requirements {
    Requirements {
        nodes: Set::new(
            |path: Seq<char>|
                before.nodes.contains(path) || exists|i: int|
                    0 <= i < nodes.len() && policy_path(#[trigger] nodes[i]) == Ok::<
                        Seq<char>,
                        CdiErrorView,
                    >(path),
        ),
        ..before
    }
}

/// The collection of edits may ask about the path: for a device node, or,
/// once all nodes and mounts were collected, for a writable mount.
pub open spec fn asked(
    lookup: spec_fn(Seq<char>, Option<CdiPathKind>) -> bool,
    before: Requirements,
    edits: PolicyEdits,
    allowlist: Seq<Seq<char>>,
    path: Seq<char>,
) -> bool {
    ||| node_asked(lookup, before, edits.device_nodes, path)
    ||| {
        let (collected, error) = mounts_added(with_nodes(before, edits.device_nodes), edits.mounts);
        &&& nodes_pass(lookup, before, edits.device_nodes)
        &&& error is None
        &&& mount_asked(lookup, collected.mounts, allowlist, path)
    }
}

/// The lookup can be asked about every path about which the collection of
/// the edits may ask it.
pub open spec fn can_ask_for<F: Fn(&str) -> Option<CdiPathKind>>(
    path_kind: F,
    before: Requirements,
    edits: PolicyEdits,
    allowlist: Seq<Seq<char>>,
) -> bool {
    forall|path: Seq<char>| #[trigger]
        asked(lookup_of(path_kind), before, edits, allowlist, path) ==> can_ask(path_kind, path)
}

/// What may be asked about under a lookup, may be asked about under one that
/// can give all the same answers.
pub proof fn law_asked_monotone(
    narrow: spec_fn(Seq<char>, Option<CdiPathKind>) -> bool,
    wide: spec_fn(Seq<char>, Option<CdiPathKind>) -> bool,
    before: Requirements,
    edits: PolicyEdits,
    allowlist: Seq<Seq<char>>,
    path: Seq<char>,
)
    requires
        asked(narrow, before, edits, allowlist, path),
        forall|path: Seq<char>, kind: Option<CdiPathKind>| #[trigger]
            narrow(path, kind) ==> wide(path, kind),
    ensures
        asked(wide, before, edits, allowlist, path),
{
    let nodes = edits.device_nodes;
    assert forall|node: Seq<char>| #[trigger] node_passes(narrow, before, node) implies node_passes(
        wide,
        before,
        node,
    ) by {
        let kind = choose|kind: Option<CdiPathKind>| #[trigger]
            narrow(policy_path(node)->Ok_0, kind) && is_device(kind);
        assert(wide(policy_path(node)->Ok_0, kind));
    }
    if node_asked(narrow, before, nodes, path) {
        let i = choose|i: int|
            0 <= i < nodes.len() && policy_path(#[trigger] nodes[i]) == Ok::<
                Seq<char>,
                CdiErrorView,
            >(path) && nodes_pass(narrow, before, nodes.take(i));
        assert(nodes_pass(wide, before, nodes.take(i)));
        assert(policy_path(nodes[i]) == Ok::<Seq<char>, CdiErrorView>(path));
    } else {
        assert(nodes_pass(wide, before, nodes));
    }
}

/// Adding nodes succeeds exactly when each has an acceptable path, is a
/// device and is not mounted read-only; the paths are then added.
pub proof fn lemma_nodes_added(
    before: Requirements,
    nodes: Seq<Seq<char>>,
    kinds: Seq<Option<CdiPathKind>>,
)
    ensures
        ({
            let (after, error) = nodes_added(before, nodes, kinds);
            let fine = forall|i: int|
                0 <= i < nodes.len() ==> policy_path(#[trigger] nodes[i]) is Ok && is_device(kinds[i])
                    && !before.mounted(policy_path(nodes[i])->Ok_0, CdiAccess::ReadOnly);
            &&& error is None <==> fine
            &&& after.mounts == before.mounts
            &&& after.gids == before.gids
            &&& fine ==> forall|path: Seq<char>| #[trigger]
                after.nodes.contains(path) <==> before.nodes.contains(path) || exists|i: int|
                    0 <= i < nodes.len() && policy_path(#[trigger] nodes[i]) == Ok::<
                        Seq<char>,
                        CdiErrorView,
                    >(path)
        }),
    decreases nodes.len(),
{
    if nodes.len() > 0 {
        let shorter = nodes.drop_last();
        let last = nodes.len() - 1;
        lemma_nodes_added(before, shorter, kinds);
        assert(nodes.last() == nodes[last]);
        assert(forall|i: int| 0 <= i < shorter.len() ==> shorter[i] == nodes[i]);
        let (then, error) = nodes_added(before, shorter, kinds);
        let (after, end) = nodes_added(before, nodes, kinds);
        if end is None {
            assert(error is None);
            assert forall|i: int| 0 <= i < nodes.len() implies policy_path(#[trigger] nodes[i]) is Ok
                && is_device(kinds[i]) && !before.mounted(
                policy_path(nodes[i])->Ok_0,
                CdiAccess::ReadOnly,
            ) by {
                if i < last {
                    assert(shorter[i] == nodes[i]);
                }
            }
            assert forall|path: Seq<char>| #[trigger]
                after.nodes.contains(path) <==> before.nodes.contains(path) || exists|i: int|
                    0 <= i < nodes.len() && policy_path(#[trigger] nodes[i]) == Ok::<
                        Seq<char>,
                        CdiErrorView,
                    >(path) by {
                if then.nodes.contains(path) && !before.nodes.contains(path) {
                    let i = choose|i: int|
                        0 <= i < shorter.len() && policy_path(#[trigger] shorter[i]) == Ok::<
                            Seq<char>,
                            CdiErrorView,
                        >(path);
                    assert(nodes[i] == shorter[i]);
                }
                if exists|i: int|
                    0 <= i < nodes.len() && policy_path(#[trigger] nodes[i]) == Ok::<
                        Seq<char>,
                        CdiErrorView,
                    >(path) {
                    let i = choose|i: int|
                        0 <= i < nodes.len() && policy_path(#[trigger] nodes[i]) == Ok::<
                            Seq<char>,
                            CdiErrorView,
                        >(path);
                    if i < last {
                        assert(shorter[i] == nodes[i]);
                    }
                }
            }
        } else if forall|i: int|
            0 <= i < nodes.len() ==> policy_path(#[trigger] nodes[i]) is Ok && is_device(kinds[i])
                && !before.mounted(policy_path(nodes[i])->Ok_0, CdiAccess::ReadOnly) {
            assert forall|i: int| 0 <= i < shorter.len() implies policy_path(
                #[trigger] shorter[i],
            ) is Ok && is_device(kinds[i]) && !before.mounted(
                policy_path(shorter[i])->Ok_0,
                CdiAccess::ReadOnly,
            ) by {
                assert(shorter[i] == nodes[i]);
            }
            assert(policy_path(nodes[last]) is Ok);
            assert(false);
        }
    }
}

/// Device nodes that were all added got past their checks, and their paths
/// are collected.
pub proof fn lemma_nodes_pass(
    lookup: spec_fn(Seq<char>, Option<CdiPathKind>) -> bool,
    before: Requirements,
    nodes: Seq<Seq<char>>,
    kinds: Seq<Option<CdiPathKind>>,
)
    requires
        nodes_added(before, nodes, kinds).1 is None,
        forall|i: int|
            0 <= i < nodes.len() && nodes_added(before, nodes.take(i), kinds).1 is None
                && policy_path(nodes[i]) is Ok ==> lookup(
                policy_path(nodes[i])->Ok_0,
                #[trigger] kinds[i],
            ),
    ensures
        nodes_pass(lookup, before, nodes),
        nodes_added(before, nodes, kinds).0 == with_nodes(before, nodes),
{
    lemma_nodes_added(before, nodes, kinds);
    assert forall|i: int| 0 <= i < nodes.len() implies node_passes(
        lookup,
        before,
        #[trigger] nodes[i],
    ) by {
        if nodes_added(before, nodes.take(i), kinds).1 is Some {
            lemma_node_error_stays(before, nodes, kinds, i);
        }
        assert(lookup(policy_path(nodes[i])->Ok_0, kinds[i]));
    }
    assert(nodes_added(before, nodes, kinds).0.nodes =~= with_nodes(before, nodes).nodes);
}

/// Only the kinds of the nodes themselves matter for adding them.
proof fn lemma_nodes_added_same(
    before: Requirements,
    nodes: Seq<Seq<char>>,
    kinds: Seq<Option<CdiPathKind>>,
    others: Seq<Option<CdiPathKind>>,
)
    requires
        kinds.len() >= nodes.len(),
        others.len() >= nodes.len(),
        forall|i: int| 0 <= i < nodes.len() ==> kinds[i] == others[i],
    ensures
        nodes_added(before, nodes, kinds) == nodes_added(before, nodes, others),
    decreases nodes.len(),
{
    if nodes.len() > 0 {
        lemma_nodes_added_same(before, nodes.drop_last(), kinds, others);
    }
}

/// The error of some leading nodes is the error of all.
pub proof fn lemma_node_error_stays(
    before: Requirements,
    nodes: Seq<Seq<char>>,
    kinds: Seq<Option<CdiPathKind>>,
    n: int,
)
    requires
        0 <= n <= nodes.len(),
        nodes_added(before, nodes.take(n), kinds).1 is Some,
    ensures
        nodes_added(before, nodes, kinds) == nodes_added(before, nodes.take(n), kinds),
    decreases nodes.len() - n,
{
    if n == nodes.len() {
        assert(nodes.take(n) =~= nodes);
    } else {
        assert(nodes.take(n + 1).drop_last() =~= nodes.take(n));
        lemma_node_error_stays(before, nodes, kinds, n + 1);
    }
}

/// The error of some leading mounts is the error of all.
pub proof fn lemma_mount_error_stays(before: Requirements, mounts: Seq<MountEdit>, n: int)
    requires
        0 <= n <= mounts.len(),
        mounts_added(before, mounts.take(n)).1 is Some,
    ensures
        mounts_added(before, mounts) == mounts_added(before, mounts.take(n)),
    decreases mounts.len() - n,
{
    if n == mounts.len() {
        assert(mounts.take(n) =~= mounts);
    } else {
        assert(mounts.take(n + 1).drop_last() =~= mounts.take(n));
        lemma_mount_error_stays(before, mounts, n + 1);
    }
}

/// Adds the device nodes of edits, in order.
fn add_device_nodes<F>(
    nodes: &Vec<CdiDeviceNode>,
    path_kind: &F,
    accumulator: &mut RequirementAccumulator,
) -> (result: Result<(), CdiError>) where F: Fn(&str) -> Option<CdiPathKind>
    requires
        old(accumulator).wf(),
        forall|path: Seq<char>| #[trigger]
            node_asked(lookup_of(*path_kind), old(accumulator)@, node_paths(nodes@), path)
                ==> can_ask(*path_kind, path),
    ensures
        final(accumulator).wf(),
        exists|kinds: Seq<Option<CdiPathKind>>| #[trigger]
            node_answers(lookup_of(*path_kind), old(accumulator)@, node_paths(nodes@), kinds) && (
                final(accumulator)@,
                failure(result),
            ) == nodes_added(old(accumulator)@, node_paths(nodes@), kinds),
        result is Ok ==> nodes_pass(
            lookup_of(*path_kind),
            old(accumulator)@,
            node_paths(nodes@),
        ) && final(accumulator)@ == with_nodes(old(accumulator)@, node_paths(nodes@)),
{
    let ghost lookup = lookup_of(*path_kind);
    let ghost start = accumulator@;
    let ghost paths = node_paths(nodes@);
    let ghost mut kinds: Seq<Option<CdiPathKind>> = Seq::new(paths.len(), |i: int| None);
    assert(paths.take(0) =~= Seq::empty());
    for i in 0..nodes.len()
        invariant
            lookup == lookup_of(*path_kind),
            forall|path: Seq<char>| #[trigger]
                node_asked(lookup, start, paths, path) ==> can_ask(*path_kind, path),
            start == old(accumulator)@,
            accumulator.wf(),
            paths == node_paths(nodes@),
            kinds.len() == paths.len(),
            nodes_added(start, paths.take(i as int), kinds) == (accumulator@, None::<CdiErrorView>),
            forall|j: int|
                0 <= j < i && policy_path(paths[j]) is Ok ==> lookup(
                    policy_path(paths[j])->Ok_0,
                    #[trigger] kinds[j],
                ),
    {
        assert(paths[i as int] == nodes@[i as int].path@);
        assert(paths.take(i + 1).drop_last() =~= paths.take(i as int));
        assert(paths.take(i + 1).last() == paths[i as int]);
        match normalize_policy_path(nodes[i].path.as_str()) {
            Err(error) => {
                proof {
                    lemma_node_error_stays(start, paths, kinds, i + 1);
                    lemma_later_nodes_unasked(lookup, start, paths, kinds, i + 1);
                }
                return Err(error);
            },
            Ok(path) => {
                let ghost so_far = accumulator@;
                proof {
                    let leading = paths.take(i as int);
                    assert forall|j: int|
                        0 <= j < leading.len() && policy_path(leading[j]) is Ok implies lookup(
                        policy_path(leading[j])->Ok_0,
                        #[trigger] kinds[j],
                    ) by {
                        assert(leading[j] == paths[j]);
                    }
                    lemma_nodes_pass(lookup, start, leading, kinds);
                    assert(policy_path(paths[i as int]) == Ok::<Seq<char>, CdiErrorView>(path@));
                    assert(node_asked(lookup, start, paths, path@));
                }
                let outcome = accumulator.add_device_node(path, path_kind);
                proof {
                    let kind = choose|kind: Option<CdiPathKind>| #[trigger]
                        answers(*path_kind, path@, kind) && (accumulator@, failure(outcome))
                            == node_added(so_far, path@, kind);
                    let before = kinds;
                    kinds = kinds.update(i as int, kind);
                    lemma_nodes_added_same(start, paths.take(i as int), before, kinds);
                    assert(lookup(policy_path(paths[i as int])->Ok_0, kinds[i as int]));
                    assert(nodes_added(start, paths.take(i + 1), kinds) == (
                        accumulator@,
                        failure(outcome),
                    ));
                }
                match outcome {
                    Ok(_) => {},
                    Err(error) => {
                        proof {
                            lemma_node_error_stays(start, paths, kinds, i + 1);
                            lemma_later_nodes_unasked(lookup, start, paths, kinds, i + 1);
                        }
                        return Err(error);
                    },
                }
            },
        }
    }
    assert(paths.take(paths.len() as int) =~= paths);
    assert(node_answers(lookup, start, paths, kinds));
    proof {
        lemma_nodes_pass(lookup, start, paths, kinds);
    }
    Ok(())
}

/// Once an error ended the adding, later nodes are not looked at.
proof fn lemma_later_nodes_unasked(
    lookup: spec_fn(Seq<char>, Option<CdiPathKind>) -> bool,
    before: Requirements,
    nodes: Seq<Seq<char>>,
    kinds: Seq<Option<CdiPathKind>>,
    n: int,
)
    requires
        0 <= n <= nodes.len(),
        kinds.len() == nodes.len(),
        nodes_added(before, nodes.take(n), kinds).1 is Some,
        forall|j: int|
            0 <= j < n && policy_path(nodes[j]) is Ok ==> lookup(
                policy_path(nodes[j])->Ok_0,
                #[trigger] kinds[j],
            ),
    ensures
        node_answers(lookup, before, nodes, kinds),
{
    assert forall|i: int|
        0 <= i < nodes.len() && nodes_added(before, nodes.take(i), kinds).1 is None && policy_path(
            nodes[i],
        ) is Ok implies lookup(policy_path(nodes[i])->Ok_0, #[trigger] kinds[i]) by {
        if n <= i {
            assert(nodes.take(i).take(n) =~= nodes.take(n));
            lemma_node_error_stays(before, nodes.take(i), kinds, n);
        }
    }
}

/// Adds the mounts of edits, in order.
fn add_mounts(mounts: &Vec<CdiMount>, accumulator: &mut RequirementAccumulator) -> (result: Result<
    (),
    CdiError,
>)
    requires
        old(accumulator).wf(),
    ensures
        final(accumulator).wf(),
        (final(accumulator)@, failure(result)) == mounts_added(
            old(accumulator)@,
            mount_edits(mounts@),
        ),
{
    let ghost start = accumulator@;
    let ghost list = mount_edits(mounts@);
    assert(list.take(0) =~= Seq::empty());
    for i in 0..mounts.len()
        invariant
            start == old(accumulator)@,
            accumulator.wf(),
            list == mount_edits(mounts@),
            mounts_added(start, list.take(i as int)) == (accumulator@, None::<CdiErrorView>),
    {
        assert(list[i as int] == mounts@[i as int]@);
        assert(list.take(i + 1).drop_last() =~= list.take(i as int));
        assert(list.take(i + 1).last() == list[i as int]);
        match normalize_policy_path(mounts[i].container_path.as_str()) {
            Err(error) => {
                proof {
                    lemma_mount_error_stays(start, list, i + 1);
                }
                return Err(error);
            },
            Ok(path) => {
                match mount_access(path.as_str(), mounts[i].options.as_slice()) {
                    Err(error) => {
                        proof {
                            lemma_mount_error_stays(start, list, i + 1);
                        }
                        return Err(error);
                    },
                    Ok(access) => {
                        let outcome = accumulator.add_mount(path, access);
                        assert(mounts_added(start, list.take(i + 1)) == (
                            accumulator@,
                            failure(outcome),
                        ));
                        match outcome {
                            Ok(_) => {},
                            Err(error) => {
                                proof {
                                    lemma_mount_error_stays(start, list, i + 1);
                                }
                                return Err(error);
                            },
                        }
                    },
                }
            },
        }
    }
    assert(list.take(list.len() as int) =~= list);
    Ok(())
}

/// Adds the groups of edits.
fn add_gids(gids: &Vec<u32>, accumulator: &mut RequirementAccumulator)
    requires
        old(accumulator).wf(),
    ensures
        final(accumulator).wf(),
        final(accumulator)@ == gids_added(old(accumulator)@, gids@),
{
    let ghost start = accumulator@;
    assert(gids_added(start, gids@.take(0)) =~= start);
    for i in 0..gids.len()
        invariant
            accumulator.wf(),
            accumulator@ == gids_added(start, gids@.take(i as int)),
    {
        let ghost so_far = accumulator@;
        let ghost before = gids@.take(i as int);
        accumulator.add_gid(gids[i]);
        proof {
            let gid = gids@[i as int];
            assert(gids@.take(i + 1) =~= before.push(gid));
            assert forall|g: u32| #[trigger] before.push(gid).contains(g) == (before.contains(g) || g
                == gid) by {
                if before.contains(g) {
                    let k = choose|k: int| 0 <= k < before.len() && before[k] == g;
                    assert(before.push(gid)[k] == g);
                }
                assert(before.push(gid)[before.len() as int] == gid);
            }
            assert(before.push(gid).to_set() =~= before.to_set().insert(gid));
            assert(gid_added(so_far, gid) =~= gids_added(start, before.push(gid)));
        }
    }
    assert(gids@.take(gids@.len() as int) =~= gids@);
}

/// Collects all that edits require, and checks the writable mounts. The
/// lookup is only asked about paths that this needs.
pub fn accumulate_requirements<F>(
    edits: &CdiContainerEdits,
    normalized_writable_file_allowlist: &[String],
    path_kind: &F,
    accumulator: &mut RequirementAccumulator,
) -> (result: Result<(), CdiError>) where F: Fn(&str) -> Option<CdiPathKind>
    requires
        old(accumulator).wf(),
        can_ask_for(
            *path_kind,
            old(accumulator)@,
            edits@,
            texts(normalized_writable_file_allowlist@),
        ),
    ensures
        final(accumulator).wf(),
        exists|findings: Findings| #[trigger]
            accumulated(
                lookup_of(*path_kind),
                old(accumulator)@,
                edits@,
                texts(normalized_writable_file_allowlist@),
                findings,
                final(accumulator)@,
                failure(result),
            ),
{
    let ghost lookup = lookup_of(*path_kind);
    let ghost start = accumulator@;
    let ghost allowlist = texts(normalized_writable_file_allowlist@);
    assert forall|path: Seq<char>| #[trigger]
        node_asked(lookup, start, node_paths(edits.device_nodes@), path) implies can_ask(
        *path_kind,
        path,
    ) by {
        assert(asked(lookup, start, edits@, allowlist, path));
    }
    let nodes_outcome = add_device_nodes(&edits.device_nodes, path_kind, accumulator);
    let ghost after_nodes = accumulator@;
    let ghost kinds = choose|kinds: Seq<Option<CdiPathKind>>| #[trigger]
        node_answers(lookup, start, edits@.device_nodes, kinds) && (
            after_nodes,
            failure(nodes_outcome),
        ) == nodes_added(start, edits@.device_nodes, kinds);
    let ghost none = Findings { nodes: kinds, mounts: Map::empty() };
    match nodes_outcome {
        Ok(_) => {},
        Err(error) => {
            assert(accumulated(lookup, start, edits@, allowlist, none, after_nodes, Some(error@)));
            return Err(error);
        },
    }
    let mounts_outcome = add_mounts(&edits.mounts, accumulator);
    match mounts_outcome {
        Ok(_) => {},
        Err(error) => {
            assert(accumulated(lookup, start, edits@, allowlist, none, accumulator@, Some(error@)));
            return Err(error);
        },
    }
    add_gids(&edits.additional_gids, accumulator);
    assert forall|path: Seq<char>| #[trigger]
        mount_asked(lookup, accumulator@.mounts, allowlist, path) implies can_ask(
        *path_kind,
        path,
    ) by {
        assert(asked(lookup, start, edits@, allowlist, path));
    }
    let outcome = accumulator.validate_writable_mounts(
        normalized_writable_file_allowlist,
        path_kind,
    );
    proof {
        let mount_kinds = choose|mount_kinds: Map<Seq<char>, Option<CdiPathKind>>| #[trigger]
            mount_answers(lookup, accumulator@.mounts, allowlist, mount_kinds)
                && writable_mounts_checked(
                accumulator@.mounts,
                allowlist,
                mount_kinds,
                failure(outcome),
            );
        let findings = Findings { nodes: kinds, mounts: mount_kinds };
        assert(accumulated(
            lookup,
            start,
            edits@,
            allowlist,
            findings,
            accumulator@,
            failure(outcome),
        ));
    }
    outcome
}

/// The paths, each in normal form.
pub open spec fn normalized_all(paths: Seq<Seq<char>>) -> Seq<Seq<char>> {
    paths.map_values(|path: Seq<char>| normalized(path))
}

/// Brings every path of an allowlist into normal form.
fn normalize_allowlist(allowlist: &[String]) -> (normal: Vec<String>)
    ensures
        texts(normal@) == normalized_all(texts(allowlist@)),
{
    let mut normal: Vec<String> = Vec::new();
    for i in 0..allowlist.len()
        invariant
            normal@.len() == i,
            forall|j: int| 0 <= j < i ==> (#[trigger] normal@[j])@ == normalized(allowlist@[j]@),
    {
        normal.push(normalize_path(allowlist[i].as_str()));
    }
    assert(texts(normal@) =~= normalized_all(texts(allowlist@)));
    normal
}

/// What the edits come to under an allowlist: the listing of all that they
/// require, or the error that their collection gives.
pub open spec fn derived(
    lookup: spec_fn(Seq<char>, Option<CdiPathKind>) -> bool,
    edits: PolicyEdits,
    allowlist: Seq<Seq<char>>,
    outcome: Result<RequirementLists, CdiErrorView>,
) -> bool {
    exists|findings: Findings, after: Requirements| #[trigger]
        accumulated(
            lookup,
            Requirements::none(),
            edits,
            normalized_all(allowlist),
            findings,
            after,
            error_of(outcome),
        ) && (outcome matches Ok(lists) ==> lists_requirements(lists, after))
}

/// Turns edits into the filesystem policy that they require.
pub fn derive_requirements<F>(
    edits: &CdiContainerEdits,
    writable_file_allowlist: &[String],
    path_kind: &F,
) -> (result: Result<CdiDerivedRequirements, CdiError>) where
    F: Fn(&str) -> Option<CdiPathKind>,

    requires
        can_ask_for(
            *path_kind,
            Requirements::none(),
            edits@,
            normalized_all(texts(writable_file_allowlist@)),
        ),
    ensures
        derived(lookup_of(*path_kind), edits@, texts(writable_file_allowlist@), outcome(result)),
{
    let normalized_allowlist = normalize_allowlist(writable_file_allowlist);
    let mut accumulator = RequirementAccumulator::default();
    match accumulate_requirements(
        edits,
        normalized_allowlist.as_slice(),
        path_kind,
        &mut accumulator,
    ) {
        Ok(_) => Ok(accumulator.build()),
        Err(error) => Err(error),
    }
}

/// The error, if any, is that of the last step: the check of the writable
/// mounts, which comes after the groups.
pub open spec fn groups_reached(error: Option<CdiErrorView>) -> bool {
    match error {
        None => true,
        Some(CdiErrorView::WritableMountNotAllowed { .. }) => true,
        Some(CdiErrorView::WritableMountNotFile { .. }) => true,
        Some(_) => false,
    }
}

/// How often the list names the root group.
pub open spec fn root_groups(gids: Seq<u32>) -> nat
    decreases gids.len(),
{
    if gids.len() == 0 {
        0
    } else {
        root_groups(gids.drop_last()) + if gids.last() == 0 {
            1nat
        } else {
            0nat
        }
    }
}

/// How many entries for the root group were passed over when the groups were
/// collected: all of them, unless an error came first.
pub fn skipped_root_groups(
    additional_gids: &[u32],
    result: &Result<CdiDerivedRequirements, CdiError>,
) -> (skipped: usize)
    ensures
        skipped == if groups_reached(failure(*result)) {
            root_groups(additional_gids@)
        } else {
            0
        },
{
    match result {
        Ok(_) | Err(CdiError::WritableMountNotAllowed { .. })
        | Err(CdiError::WritableMountNotFile { .. }) => {},
        Err(_) => {
            return 0;
        },
    }
    let mut skipped: usize = 0;
    for i in 0..additional_gids.len()
        invariant
            skipped == root_groups(additional_gids@.take(i as int)),
            skipped <= i,
    {
        assert(additional_gids@.take(i + 1).drop_last() =~= additional_gids@.take(i as int));
        if additional_gids[i] == 0 {
            skipped = skipped + 1;
        }
    }
    assert(additional_gids@.take(additional_gids@.len() as int) =~= additional_gids@);
    skipped
}

/// Errors of adding device nodes come before the groups.
proof fn lemma_node_errors(
    before: Requirements,
    nodes: Seq<Seq<char>>,
    kinds: Seq<Option<CdiPathKind>>,
)
    ensures
        nodes_added(before, nodes, kinds).1 is Some ==> !groups_reached(
            nodes_added(before, nodes, kinds).1,
        ),
    decreases nodes.len(),
{
    if nodes.len() > 0 {
        lemma_node_errors(before, nodes.drop_last(), kinds);
    }
}

/// Errors of adding mounts come before the groups.
proof fn lemma_mount_errors(before: Requirements, mounts: Seq<MountEdit>)
    ensures
        mounts_added(before, mounts).1 is Some ==> !groups_reached(mounts_added(before, mounts).1),
    decreases mounts.len(),
{
    if mounts.len() > 0 {
        lemma_mount_errors(before, mounts.drop_last());
    }
}

/// The error tells whether the groups were collected: they were exactly when
/// no device node and no mount was refused.
pub proof fn law_error_tells_whether_groups_were_reached(
    lookup: spec_fn(Seq<char>, Option<CdiPathKind>) -> bool,
    before: Requirements,
    edits: PolicyEdits,
    allowlist: Seq<Seq<char>>,
    findings: Findings,
    after: Requirements,
    error: Option<CdiErrorView>,
)
    requires
        accumulated(lookup, before, edits, allowlist, findings, after, error),
    ensures
        ({
            let (after_nodes, node_error) = nodes_added(
                before,
                edits.device_nodes,
                findings.nodes,
            );
            groups_reached(error) <==> node_error is None && mounts_added(
                after_nodes,
                edits.mounts,
            ).1 is None
        }),
{
    lemma_node_errors(before, edits.device_nodes, findings.nodes);
    lemma_mount_errors(
        nodes_added(before, edits.device_nodes, findings.nodes).0,
        edits.mounts,
    );
}

/// What edits may come to under a lookup, they may come to under one that
/// can give all the same answers.
pub proof fn law_derived_monotone(
    narrow: spec_fn(Seq<char>, Option<CdiPathKind>) -> bool,
    wide: spec_fn(Seq<char>, Option<CdiPathKind>) -> bool,
    edits: PolicyEdits,
    allowlist: Seq<Seq<char>>,
    outcome: Result<RequirementLists, CdiErrorView>,
)
    requires
        derived(narrow, edits, allowlist, outcome),
        forall|path: Seq<char>, kind: Option<CdiPathKind>| #[trigger]
            narrow(path, kind) ==> wide(path, kind),
    ensures
        derived(wide, edits, allowlist, outcome),
{
    let (findings, after) = choose|findings: Findings, after: Requirements| #[trigger]
        accumulated(
            narrow,
            Requirements::none(),
            edits,
            normalized_all(allowlist),
            findings,
            after,
            error_of(outcome),
        ) && (outcome matches Ok(lists) ==> lists_requirements(lists, after));
    assert(accumulated(
        wide,
        Requirements::none(),
        edits,
        normalized_all(allowlist),
        findings,
        after,
        error_of(outcome),
    ));
}

} // verus!
