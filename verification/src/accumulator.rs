//! Collecting requirements one entry at a time.

use crate::cdi::{describe_kind, CdiAccess, CdiDerivedRequirements, CdiError, CdiPathKind};
#[allow(unused_imports)]
use crate::cdi::{failure, kind_text, CdiErrorView, RequirementLists};
use crate::ordered::PathMap;
#[allow(unused_imports)]
use crate::ordered::lemma_entry;
use crate::text::list_holds;
#[allow(unused_imports)]
use crate::text::{law_order_irreflexive, law_order_transitive, lex_lt, strictly_sorted, texts};
use vstd::prelude::*;

verus! {

/// The requirements collected so far, as sets.
#[verifier::ext_equal]
pub struct Requirements {
    pub nodes: Set<Seq<char>>,
    pub mounts: Map<Seq<char>, CdiAccess>,
    pub gids: Set<u32>,
}

impl Requirements {
    /// Nothing is required.
    pub open spec fn none() -> Requirements {
        Requirements { nodes: Set::empty(), mounts: Map::empty(), gids: Set::empty() }
    }

    /// The path is mounted with the given access.
    pub open spec fn mounted(self, path: Seq<char>, access: CdiAccess) -> bool {
        self.mounts.contains_key(path) && self.mounts[path] == access
    }
}

/// The lookup can be asked about the path.
pub open spec fn can_ask<F: Fn(&str) -> Option<CdiPathKind>>(path_kind: F, path: Seq<char>) -> bool {
    forall|text: &str| text@ == path ==> #[trigger] call_requires(path_kind, (text,))
}

/// Asked about the path, the lookup may give this answer.
pub open spec fn answers<F: Fn(&str) -> Option<CdiPathKind>>(
    path_kind: F,
    path: Seq<char>,
    kind: Option<CdiPathKind>,
) -> bool {
    exists|text: &str| text@ == path && #[trigger] call_ensures(path_kind, (text,), kind)
}

/// The answers that a lookup may give, path by path.
pub open spec fn lookup_of<F: Fn(&str) -> Option<CdiPathKind>>(path_kind: F) -> spec_fn(
    Seq<char>,
    Option<CdiPathKind>,
) -> bool {
    |path: Seq<char>, kind: Option<CdiPathKind>| answers(path_kind, path, kind)
}

/// The kind is that of a device.
pub open spec fn is_device(kind: Option<CdiPathKind>) -> bool {
    kind == Some(CdiPathKind::CharacterDevice) || kind == Some(CdiPathKind::BlockDevice)
}

/// Adding a device node of which `kind` was found: the requirements after
/// it, and the error that it gives, if any.
pub open spec fn node_added(
    before: Requirements,
    path: Seq<char>,
    kind: Option<CdiPathKind>,
) -> (Requirements, Option<CdiErrorView>) {
    if !is_device(kind) {
        (before, Some(CdiErrorView::DeviceNodeNotDevice { path, kind: kind_text(kind) }))
    } else if before.mounted(path, CdiAccess::ReadOnly) {
        (before, Some(CdiErrorView::ConflictingAccess { path }))
    } else {
        (Requirements { nodes: before.nodes.insert(path), ..before }, None)
    }
}

/// Adding a mount: the requirements after it, and the error that it gives,
/// if any.
pub open spec fn mount_added(before: Requirements, path: Seq<char>, access: CdiAccess) -> (
    Requirements,
    Option<CdiErrorView>,
) {
    if access == CdiAccess::ReadOnly && before.nodes.contains(path) {
        (before, Some(CdiErrorView::ConflictingAccess { path }))
    } else if before.mounts.contains_key(path) && before.mounts[path] != access {
        (before, Some(CdiErrorView::ConflictingAccess { path }))
    } else {
        (Requirements { mounts: before.mounts.insert(path, access), ..before }, None)
    }
}

/// Adding a group. The root group is never added.
pub open spec fn gid_added(before: Requirements, gid: u32) -> Requirements {
    if gid == 0 {
        before
    } else {
        Requirements { gids: before.gids.insert(gid), ..before }
    }
}

/// The path is mounted writable against the rules: it is not in the
/// allowlist, or not a single file.
pub open spec fn is_violation(
    mounts: Map<Seq<char>, CdiAccess>,
    allowlist: Seq<Seq<char>>,
    kinds: Map<Seq<char>, Option<CdiPathKind>>,
    path: Seq<char>,
) -> bool {
    &&& mounts.contains_key(path)
    &&& mounts[path] == CdiAccess::ReadWrite
    &&& !allowlist.contains(path) || kinds[path] != Some(CdiPathKind::File)
}

/// No violation sorts before the path.
pub open spec fn no_violation_before(
    mounts: Map<Seq<char>, CdiAccess>,
    allowlist: Seq<Seq<char>>,
    kinds: Map<Seq<char>, Option<CdiPathKind>>,
    path: Seq<char>,
) -> bool {
    forall|other: Seq<char>| #[trigger]
        is_violation(mounts, allowlist, kinds, other) ==> !lex_lt(other, path)
}

/// How a violation is reported.
pub open spec fn violation_error(
    allowlist: Seq<Seq<char>>,
    kinds: Map<Seq<char>, Option<CdiPathKind>>,
    path: Seq<char>,
) -> CdiErrorView {
    if !allowlist.contains(path) {
        CdiErrorView::WritableMountNotAllowed { path }
    } else {
        CdiErrorView::WritableMountNotFile { path, kind: kind_text(kinds[path]) }
    }
}

/// The kinds are what the lookup answered for each writable mount of the
/// allowlist up to the first violation.
pub open spec fn mount_answers(
    lookup: spec_fn(Seq<char>, Option<CdiPathKind>) -> bool,
    mounts: Map<Seq<char>, CdiAccess>,
    allowlist: Seq<Seq<char>>,
    kinds: Map<Seq<char>, Option<CdiPathKind>>,
) -> bool {
    forall|path: Seq<char>| #[trigger]
        mounts.contains_key(path) && mounts[path] == CdiAccess::ReadWrite && allowlist.contains(path)
            && no_violation_before(mounts, allowlist, kinds, path) ==> lookup(path, kinds[path])
}

/// The check of the writable mounts may ask about the path: it is mounted
/// writable and in the allowlist, and every writable mount that sorts before
/// it is in the allowlist too and may have been found to be a file.
pub open spec fn mount_asked(
    lookup: spec_fn(Seq<char>, Option<CdiPathKind>) -> bool,
    mounts: Map<Seq<char>, CdiAccess>,
    allowlist: Seq<Seq<char>>,
    path: Seq<char>,
) -> bool {
    &&& mounts.contains_key(path)
    &&& mounts[path] == CdiAccess::ReadWrite
    &&& allowlist.contains(path)
    &&& forall|other: Seq<char>| #[trigger]
        mounts.contains_key(other) && mounts[other] == CdiAccess::ReadWrite && lex_lt(other, path)
            ==> allowlist.contains(other) && lookup(other, Some(CdiPathKind::File))
}

/// The writable mounts pass if nothing violates the rules; otherwise the
/// violation that sorts first is reported.
pub open spec fn writable_mounts_checked(
    mounts: Map<Seq<char>, CdiAccess>,
    allowlist: Seq<Seq<char>>,
    kinds: Map<Seq<char>, Option<CdiPathKind>>,
    error: Option<CdiErrorView>,
) -> bool {
    match error {
        None => forall|path: Seq<char>| !#[trigger] is_violation(mounts, allowlist, kinds, path),
        Some(error) => exists|path: Seq<char>| #[trigger]
            is_violation(mounts, allowlist, kinds, path) && no_violation_before(
                mounts,
                allowlist,
                kinds,
                path,
            ) && error == violation_error(allowlist, kinds, path),
    }
}

/// The groups stand in strictly increasing order.
pub open spec fn strictly_increasing(gids: Seq<u32>) -> bool {
    forall|i: int, j: int| 0 <= i < j < gids.len() ==> gids[i] < gids[j]
}

/// The lists are the sorted listings of the requirements, with the mounts
/// parted by their access.
pub open spec fn lists_requirements(lists: RequirementLists, requirements: Requirements) -> bool {
    &&& strictly_sorted(lists.device_node_paths)
    &&& strictly_sorted(lists.read_only_mount_paths)
    &&& strictly_sorted(lists.read_write_mount_paths)
    &&& strictly_increasing(lists.additional_gids)
    &&& forall|path: Seq<char>| #[trigger]
        lists.device_node_paths.contains(path) <==> requirements.nodes.contains(path)
    &&& forall|path: Seq<char>| #[trigger]
        lists.read_only_mount_paths.contains(path) <==> requirements.mounted(
            path,
            CdiAccess::ReadOnly,
        )
    &&& forall|path: Seq<char>| #[trigger]
        lists.read_write_mount_paths.contains(path) <==> requirements.mounted(
            path,
            CdiAccess::ReadWrite,
        )
    &&& forall|gid: u32| #[trigger]
        lists.additional_gids.contains(gid) <==> requirements.gids.contains(gid)
}

/// Collects requirements and refuses those that contradict each other.
#[derive(Debug)]
pub struct RequirementAccumulator {
    device_node_paths: PathMap<()>,
    mount_paths: PathMap<CdiAccess>,
    additional_gids: Vec<u32>,
}

impl View for RequirementAccumulator {
    type V = Requirements;

    closed spec fn view(&self) -> Requirements {
        Requirements {
            nodes: self.device_node_paths@.dom(),
            mounts: self.mount_paths@,
            gids: self.additional_gids@.to_set(),
        }
    }
}

impl Default for RequirementAccumulator {
    /// An accumulator that holds nothing.
    fn default() -> (accumulator: Self)
        ensures
            accumulator.wf(),
            accumulator@ == Requirements::none(),
    {
        let accumulator = RequirementAccumulator {
            device_node_paths: PathMap::new(),
            mount_paths: PathMap::new(),
            additional_gids: Vec::new(),
        };
        assert(accumulator@ =~= Requirements::none());
        accumulator
    }
}

impl RequirementAccumulator {
    /// Everything is kept in order, and nothing twice.
    pub closed spec fn wf(self) -> bool {
        &&& self.device_node_paths.wf()
        &&& self.mount_paths.wf()
        &&& strictly_increasing(self.additional_gids@)
    }

    /// Adds a device node. It must be a character or block device, and the
    /// same path must not be mounted read-only.
    pub fn add_device_node<F>(&mut self, path: String, path_kind: &F) -> (result: Result<
        (),
        CdiError,
    >) where F: Fn(&str) -> Option<CdiPathKind>
        requires
            old(self).wf(),
            can_ask(*path_kind, path@),
        ensures
            final(self).wf(),
            exists|kind: Option<CdiPathKind>| #[trigger]
                answers(*path_kind, path@, kind) && (final(self)@, failure(result)) == node_added(
                    old(self)@,
                    path@,
                    kind,
                ),
    {
        let kind = path_kind(path.as_str());
        assert(answers(*path_kind, path@, kind));
        match kind {
            Some(CdiPathKind::CharacterDevice) | Some(CdiPathKind::BlockDevice) => {},
            _ => {
                return Err(CdiError::DeviceNodeNotDevice { path, kind: describe_kind(kind) });
            },
        }
        match self.mount_paths.get(path.as_str()) {
            Some(CdiAccess::ReadOnly) => Err(CdiError::ConflictingAccess { path }),
            Some(CdiAccess::ReadWrite) | None => {
                let ghost before = self@;
                if self.device_node_paths.get(path.as_str()).is_none() {
                    self.device_node_paths.insert_new(path, ());
                }
                assert(self@ =~= Requirements { nodes: before.nodes.insert(path@), ..before });
                Ok(())
            },
        }
    }

    /// Adds a mount. The same path must not be required with another access.
    pub fn add_mount(&mut self, path: String, access: CdiAccess) -> (result: Result<(), CdiError>)
        requires
            old(self).wf(),
        ensures
            final(self).wf(),
            (final(self)@, failure(result)) == mount_added(old(self)@, path@, access),
    {
        if access == CdiAccess::ReadOnly && self.device_node_paths.get(path.as_str()).is_some() {
            return Err(CdiError::ConflictingAccess { path });
        }
        let ghost before = self@;
        match self.mount_paths.get(path.as_str()) {
            Some(existing) => {
                if existing != access {
                    return Err(CdiError::ConflictingAccess { path });
                }
                assert(self@ =~= Requirements {
                    mounts: before.mounts.insert(path@, access),
                    ..before
                });
                Ok(())
            },
            None => {
                self.mount_paths.insert_new(path, access);
                assert(self@ =~= Requirements {
                    mounts: before.mounts.insert(path@, access),
                    ..before
                });
                Ok(())
            },
        }
    }

    /// Adds a group. The root group is passed over.
    pub fn add_gid(&mut self, gid: u32)
        requires
            old(self).wf(),
        ensures
            final(self).wf(),
            final(self)@ == gid_added(old(self)@, gid),
    {
        if gid == 0 {
            return;
        }
        let ghost before = self.additional_gids@;
        let mut i: usize = 0;
        while i < self.additional_gids.len() && self.additional_gids[i] < gid
            invariant
                i <= self.additional_gids.len(),
                forall|j: int| 0 <= j < i ==> self.additional_gids@[j] < gid,
            decreases self.additional_gids.len() - i,
        {
            i = i + 1;
        }
        if i == self.additional_gids.len() || self.additional_gids[i] != gid {
            self.additional_gids.insert(i, gid);
            proof {
                let after = self.additional_gids@;
                assert(after == before.insert(i as int, gid));
                assert(after[i as int] == gid);
                assert forall|g: u32| #[trigger] after.contains(g) == (before.contains(g) || g
                    == gid) by {
                    if before.contains(g) {
                        let k = choose|k: int| 0 <= k < before.len() && before[k] == g;
                        if k < i {
                            assert(after[k] == g);
                        } else {
                            assert(after[k + 1] == g);
                        }
                    }
                    if after.contains(g) && g != gid {
                        let k = choose|k: int| 0 <= k < after.len() && after[k] == g;
                        if k < i {
                            assert(before[k] == g);
                        } else {
                            assert(before[k - 1] == g);
                        }
                    }
                }
                assert(after.to_set() =~= before.to_set().insert(gid));
                assert(strictly_increasing(after));
            }
        } else {
            assert(before.contains(gid));
            assert(before.to_set() =~= before.to_set().insert(gid));
        }
        assert(self@ =~= gid_added(old(self)@, gid));
    }

    /// Checks that every writable mount is in the allowlist and is a file. The
    /// lookup is asked about no other path.
    pub fn validate_writable_mounts<F>(
        &self,
        normalized_writable_file_allowlist: &[String],
        path_kind: &F,
    ) -> (result: Result<(), CdiError>) where F: Fn(&str) -> Option<CdiPathKind>
        requires
            self.wf(),
            forall|path: Seq<char>| #[trigger]
                mount_asked(
                    lookup_of(*path_kind),
                    self@.mounts,
                    texts(normalized_writable_file_allowlist@),
                    path,
                ) ==> can_ask(*path_kind, path),
        ensures
            exists|kinds: Map<Seq<char>, Option<CdiPathKind>>| #[trigger]
                mount_answers(
                    lookup_of(*path_kind),
                    self@.mounts,
                    texts(normalized_writable_file_allowlist@),
                    kinds,
                ) && writable_mounts_checked(
                    self@.mounts,
                    texts(normalized_writable_file_allowlist@),
                    kinds,
                    failure(result),
                ),
    {
        let ghost mounts = self@.mounts;
        let ghost allowlist = texts(normalized_writable_file_allowlist@);
        let ghost mut kinds: Map<Seq<char>, Option<CdiPathKind>> = Map::empty();
        let count: usize = self.mount_paths.len();
        for i in 0..count
            invariant
                count == self.mount_paths.paths().len(),
                self.wf(),
                forall|path: Seq<char>| #[trigger]
                    mount_asked(lookup_of(*path_kind), mounts, allowlist, path) ==> can_ask(
                        *path_kind,
                        path,
                    ),
                mounts == self.mount_paths@,
                mounts == self@.mounts,
                allowlist == texts(normalized_writable_file_allowlist@),
                forall|j: int| #![trigger self.mount_paths.paths()[j]]
                    0 <= j < i ==> {
                        let path = self.mount_paths.paths()[j];
                        &&& !is_violation(mounts, allowlist, kinds, path)
                        &&& self.mount_paths.values()[j] == CdiAccess::ReadWrite ==> answers(
                            *path_kind,
                            path,
                            kinds[path],
                        )
                    },
        {
            let ghost path = self.mount_paths.paths()[i as int];
            proof {
                lemma_entry(self.mount_paths, i as int);
            }
            match self.mount_paths.value_at(i) {
                CdiAccess::ReadOnly => {},
                CdiAccess::ReadWrite => {
                    let text = self.mount_paths.path_at(i);
                    if !list_holds(normalized_writable_file_allowlist, text.as_str()) {
                        proof {
                            lemma_first_violation(
                                *path_kind,
                                self.mount_paths,
                                allowlist,
                                kinds,
                                i as int,
                            );
                        }
                        let error = CdiError::WritableMountNotAllowed { path: text.clone() };
                        assert(error@ == violation_error(allowlist, kinds, path));
                        return Err(error);
                    }
                    proof {
                        lemma_mount_asked(
                            *path_kind,
                            self.mount_paths,
                            allowlist,
                            kinds,
                            i as int,
                        );
                    }
                    let kind = path_kind(text.as_str());
                    assert(answers(*path_kind, path, kind));
                    proof {
                        kinds = kinds.insert(path, kind);
                        assert forall|j: int| #![trigger self.mount_paths.paths()[j]]
                            0 <= j < i implies self.mount_paths.paths()[j] != path by {
                            law_order_irreflexive(path);
                            assert(lex_lt(self.mount_paths.paths()[j], path));
                        }
                    }
                    if kind != Some(CdiPathKind::File) {
                        proof {
                            lemma_first_violation(
                                *path_kind,
                                self.mount_paths,
                                allowlist,
                                kinds,
                                i as int,
                            );
                        }
                        let error = CdiError::WritableMountNotFile {
                            path: text.clone(),
                            kind: describe_kind(kind),
                        };
                        assert(error@ == violation_error(allowlist, kinds, path));
                        return Err(error);
                    }
                },
            }
        }
        proof {
            assert forall|path: Seq<char>| !#[trigger]
                is_violation(mounts, allowlist, kinds, path) by {
                if mounts.contains_key(path) {
                    let j = choose|j: int|
                        0 <= j < self.mount_paths.paths().len() && self.mount_paths.paths()[j]
                            == path;
                    assert(self.mount_paths.paths()[j] == path);
                }
            }
            assert forall|path: Seq<char>| #[trigger]
                mounts.contains_key(path) && mounts[path] == CdiAccess::ReadWrite
                    && allowlist.contains(path) implies answers(*path_kind, path, kinds[path]) by {
                let j = choose|j: int|
                    0 <= j < self.mount_paths.paths().len() && self.mount_paths.paths()[j] == path;
                assert(self.mount_paths.paths()[j] == path);
                lemma_entry(self.mount_paths, j);
            }
            assert(mount_answers(lookup_of(*path_kind), mounts, allowlist, kinds));
        }
        Ok(())
    }

    /// Lists what was collected.
    pub fn build(self) -> (requirements: CdiDerivedRequirements)
        requires
            self.wf(),
        ensures
            lists_requirements(requirements@, self@),
    {
        let device_node_paths = paths_of(&self.device_node_paths);
        let read_only_mount_paths = paths_with(&self.mount_paths, CdiAccess::ReadOnly);
        let read_write_mount_paths = paths_with(&self.mount_paths, CdiAccess::ReadWrite);
        CdiDerivedRequirements {
            device_node_paths,
            read_only_mount_paths,
            read_write_mount_paths,
            additional_gids: self.additional_gids,
        }
    }
}

/// The first entry that breaks a rule, all before it having been answered
/// and found in order, is the violation that sorts first.
proof fn lemma_first_violation<F: Fn(&str) -> Option<CdiPathKind>>(
    path_kind: F,
    map: PathMap<CdiAccess>,
    allowlist: Seq<Seq<char>>,
    kinds: Map<Seq<char>, Option<CdiPathKind>>,
    i: int,
)
    requires
        map.wf(),
        0 <= i < map.paths().len(),
        is_violation(map@, allowlist, kinds, map.paths()[i]),
        allowlist.contains(map.paths()[i]) ==> answers(
            path_kind,
            map.paths()[i],
            kinds[map.paths()[i]],
        ),
        forall|j: int| #![trigger map.paths()[j]]
            0 <= j < i ==> {
                let path = map.paths()[j];
                &&& !is_violation(map@, allowlist, kinds, path)
                &&& map.values()[j] == CdiAccess::ReadWrite ==> answers(path_kind, path, kinds[path])
            },
    ensures
        mount_answers(lookup_of(path_kind), map@, allowlist, kinds),
        writable_mounts_checked(
            map@,
            allowlist,
            kinds,
            Some(violation_error(allowlist, kinds, map.paths()[i])),
        ),
{
    let first = map.paths()[i];
    assert forall|other: Seq<char>| #[trigger]
        is_violation(map@, allowlist, kinds, other) implies !lex_lt(other, first) by {
        let j = choose|j: int| 0 <= j < map.paths().len() && map.paths()[j] == other;
        assert(map.paths()[j] == other);
        law_order_irreflexive(first);
        if i < j && lex_lt(other, first) {
            law_order_transitive(first, other, first);
        }
    }
    assert forall|path: Seq<char>| #[trigger]
        map@.contains_key(path) && map@[path] == CdiAccess::ReadWrite && allowlist.contains(path)
            && no_violation_before(map@, allowlist, kinds, path) implies answers(
        path_kind,
        path,
        kinds[path],
    ) by {
        let j = choose|j: int| 0 <= j < map.paths().len() && map.paths()[j] == path;
        assert(map.paths()[j] == path);
        lemma_entry(map, j);
        if i < j {
            assert(lex_lt(first, path));
        }
    }
}

/// Once all entries before it were answered and found in order, a writable
/// mount of the allowlist is asked about.
proof fn lemma_mount_asked<F: Fn(&str) -> Option<CdiPathKind>>(
    path_kind: F,
    map: PathMap<CdiAccess>,
    allowlist: Seq<Seq<char>>,
    kinds: Map<Seq<char>, Option<CdiPathKind>>,
    i: int,
)
    requires
        map.wf(),
        0 <= i < map.paths().len(),
        map.values()[i] == CdiAccess::ReadWrite,
        allowlist.contains(map.paths()[i]),
        forall|j: int| #![trigger map.paths()[j]]
            0 <= j < i ==> {
                let path = map.paths()[j];
                &&& !is_violation(map@, allowlist, kinds, path)
                &&& map.values()[j] == CdiAccess::ReadWrite ==> answers(path_kind, path, kinds[path])
            },
    ensures
        mount_asked(lookup_of(path_kind), map@, allowlist, map.paths()[i]),
{
    let path = map.paths()[i];
    let lookup = lookup_of(path_kind);
    lemma_entry(map, i);
    assert forall|other: Seq<char>| #[trigger]
        map@.contains_key(other) && map@[other] == CdiAccess::ReadWrite && lex_lt(
            other,
            path,
        ) implies allowlist.contains(other) && lookup(other, Some(CdiPathKind::File)) by {
        let j = choose|j: int| 0 <= j < map.paths().len() && map.paths()[j] == other;
        assert(map.paths()[j] == other);
        lemma_entry(map, j);
        law_order_irreflexive(path);
        if i < j {
            law_order_transitive(path, other, path);
        }
        assert(answers(path_kind, other, kinds[other]));
    }
}

/// All paths of a map, in order.
fn paths_of<V>(map: &PathMap<V>) -> (list: Vec<String>)
    requires
        map.wf(),
    ensures
        texts(list@) == map.paths(),
        forall|path: Seq<char>| #[trigger] texts(list@).contains(path) <==> map@.contains_key(path),
{
    let mut list: Vec<String> = Vec::new();
    let count: usize = map.len();
    for i in 0..count
        invariant
            count == map.paths().len(),
            list@.len() == i,
            forall|j: int| 0 <= j < i ==> (#[trigger] list@[j])@ == map.paths()[j],
    {
        list.push(map.path_at(i).clone());
    }
    assert(texts(list@) =~= map.paths());
    list
}

/// The paths of a map that have the given access, in order.
fn paths_with(map: &PathMap<CdiAccess>, access: CdiAccess) -> (list: Vec<String>)
    requires
        map.wf(),
    ensures
        strictly_sorted(texts(list@)),
        forall|path: Seq<char>| #[trigger]
            texts(list@).contains(path) <==> map@.contains_key(path) && map@[path] == access,
{
    let mut list: Vec<String> = Vec::new();
    let ghost mut places: Seq<int> = Seq::empty();
    let count: usize = map.len();
    for i in 0..count
        invariant
            count == map.paths().len(),
            map.wf(),
            places.len() == list@.len(),
            forall|k: int|
                0 <= k < places.len() ==> {
                    &&& 0 <= #[trigger] places[k] < i
                    &&& list@[k]@ == map.paths()[places[k]]
                    &&& map.values()[places[k]] == access
                },
            forall|k: int, l: int| 0 <= k < l < places.len() ==> places[k] < places[l],
            forall|j: int|
                0 <= j < i && #[trigger] map.values()[j] == access ==> places.contains(j),
    {
        if map.value_at(i) == access {
            let ghost before = places;
            list.push(map.path_at(i).clone());
            proof {
                places = places.push(i as int);
                assert(places[before.len() as int] == i);
                assert forall|j: int| 0 <= j < i + 1 && #[trigger] map.values()[j]
                    == access implies places.contains(j) by {
                    if j < i {
                        let k = choose|k: int| 0 <= k < before.len() && before[k] == j;
                        assert(places[k] == j);
                    }
                }
            }
        }
    }
    proof {
        let shown = texts(list@);
        assert forall|k: int| 0 <= k < shown.len() implies #[trigger] shown[k]
            == map.paths()[places[k]] by {
            assert(list@[k]@ == map.paths()[places[k]]);
        }
        assert(strictly_sorted(shown));
        assert forall|path: Seq<char>| #[trigger]
            shown.contains(path) <==> map@.contains_key(path) && map@[path] == access by {
            if shown.contains(path) {
                let k = choose|k: int| 0 <= k < shown.len() && shown[k] == path;
                lemma_entry(*map, places[k]);
            }
            if map@.contains_key(path) && map@[path] == access {
                let j = choose|j: int| 0 <= j < map.paths().len() && map.paths()[j] == path;
                lemma_entry(*map, j);
                assert(map.values()[j] == access);
                let k = choose|k: int| 0 <= k < places.len() && places[k] == j;
                assert(shown[k] == path);
            }
        }
    }
    list
}

} // verus!
