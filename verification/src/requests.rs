//! What holds of whole requests.

#[allow(unused_imports)]
use crate::cdi::{
    CdiAccess, CdiContainerEdits, CdiContext, CdiError, CdiErrorView, CdiPathKind, CdiSpecDirectory,
    PolicyEdits, RequirementLists, CDI_CONTEXT_VERSION,
};
#[allow(unused_imports)]
use crate::cdi_linux::{
    asks_for_devices, context_error, context_resolved, decode_asked, decodes_faithfully,
    edits_decoded, edits_resolved, law_edits_are_those_of_the_loaded_devices,
    law_first_unsafe_directory_is_refused, law_other_versions_are_refused,
    law_plain_requests_are_accepted, law_request_comes_to_merged_edits, law_selected_members,
    law_selected_spelling, selected,
};
#[allow(unused_imports)]
use crate::collect::{derived, mount_entry, normalized_all};
#[allow(unused_imports)]
use crate::devices::{
    brings, error_text, has_entry, is_ready, law_merge_needs_every_device, law_merged_entries,
    merged, EditEntry,
};
#[allow(unused_imports)]
use crate::grants::law_granted_policy_entry_by_entry;
#[allow(unused_imports)]
use crate::laws::{fixed, law_allowlist_only_adds, law_outcome_is_determined, lemma_granted};
#[allow(unused_imports)]
use crate::paths::has_parent_step;
#[allow(unused_imports)]
use crate::policy::policy_path;
#[allow(unused_imports)]
use crate::text::{is_white_space, law_trimming_leaves_nothing_of_blank_text, texts, trimmed};
#[allow(unused_imports)]
use crate::upstream::{devices_held, edits_encoded, DeviceRecord};
use container_device_interface::cache::Cache;
use vstd::prelude::*;

verus! {

/// Loading the directories always finds the same devices and fails in the
/// same way, if it does.
pub open spec fn loads_alike<R>(dirs: Seq<CdiSpecDirectory>, refresh: R) -> bool where
    R: FnOnce(Cache) -> (Cache, Option<String>),
 {
    forall|one: Cache, other: Cache, a: (Cache, Option<String>), b: (Cache, Option<String>)|
        is_ready(one, dirs) && is_ready(other, dirs) && #[trigger] call_ensures(refresh, (one,), a)
            && #[trigger] call_ensures(refresh, (other,), b) ==> devices_held(a.0) == devices_held(
            b.0,
        ) && error_text(a.1) == error_text(b.1)
}

/// Two decodings say the same.
pub open spec fn same_decoding(
    a: Result<CdiContainerEdits, serde_json::Error>,
    b: Result<CdiContainerEdits, serde_json::Error>,
) -> bool {
    match (a, b) {
        (Ok(a), Ok(b)) => a@ == b@,
        (Err(a), Err(b)) => a == b,
        _ => false,
    }
}

/// Documents that `decode` may be given and that hold the same edits are
/// decoded to the same, or fail in the same way.
pub open spec fn decodes_alike<R, D>(
    dirs: Seq<CdiSpecDirectory>,
    ids: Seq<Seq<char>>,
    refresh: R,
    decode: D,
) -> bool where
    R: FnOnce(Cache) -> (Cache, Option<String>),
    D: FnOnce(serde_json::Value) -> Result<CdiContainerEdits, serde_json::Error>,
 {
    forall|
        one: serde_json::Value,
        other: serde_json::Value,
        a: Result<CdiContainerEdits, serde_json::Error>,
        b: Result<CdiContainerEdits, serde_json::Error>,
    |
        decode_asked(dirs, ids, refresh, one) && decode_asked(dirs, ids, refresh, other)
            && edits_encoded(one) == edits_encoded(other) && #[trigger] call_ensures(
            decode,
            (one,),
            a,
        ) && #[trigger] call_ensures(decode, (other,), b) ==> same_decoding(a, b)
}

/// A faithful decoding treats documents with the same edits alike.
pub proof fn law_faithful_decoding_is_alike<R, D>(
    dirs: Seq<CdiSpecDirectory>,
    ids: Seq<Seq<char>>,
    refresh: R,
    decode: D,
) where
    R: FnOnce(Cache) -> (Cache, Option<String>),
    D: FnOnce(serde_json::Value) -> Result<CdiContainerEdits, serde_json::Error>,

    requires
        decodes_faithfully(dirs, ids, refresh, decode),
    ensures
        decodes_alike(dirs, ids, refresh, decode),
{
}

/// What resolving edits gives twice says the same both times.
proof fn lemma_edits_resolved_alike<R, D>(
    dirs: Seq<CdiSpecDirectory>,
    ids: Seq<Seq<char>>,
    refresh: R,
    decode: D,
    a: Result<CdiContainerEdits, CdiError>,
    b: Result<CdiContainerEdits, CdiError>,
) where
    R: FnOnce(Cache) -> (Cache, Option<String>),
    D: FnOnce(serde_json::Value) -> Result<CdiContainerEdits, serde_json::Error>,

    requires
        loads_alike(dirs, refresh),
        decodes_alike(dirs, ids, refresh, decode),
        edits_resolved(dirs, ids, refresh, decode, a),
        edits_resolved(dirs, ids, refresh, decode, b),
    ensures
        match (a, b) {
            (Ok(a), Ok(b)) => a@ == b@,
            (Err(a), Err(b)) => a@ == b@,
            _ => false,
        },
{
    let (one, loaded_a) = choose|ready: Cache, loaded: (Cache, Option<String>)| #[trigger]
        call_ensures(refresh, (ready,), loaded) && is_ready(ready, dirs) && edits_decoded(
            loaded.0,
            loaded.1,
            ids,
            decode,
            a,
        );
    let (other, loaded_b) = choose|ready: Cache, loaded: (Cache, Option<String>)| #[trigger]
        call_ensures(refresh, (ready,), loaded) && is_ready(ready, dirs) && edits_decoded(
            loaded.0,
            loaded.1,
            ids,
            decode,
            b,
        );
    assert(devices_held(loaded_a.0) == devices_held(loaded_b.0));
    let merging = merged(devices_held(loaded_a.0), ids, error_text(loaded_a.1));
    if merging is Ok {
        let edits = merging->Ok_0.0;
        let (document_a, decoded_a) = choose|
            document: serde_json::Value,
            decoded: Result<CdiContainerEdits, serde_json::Error>,
        | #[trigger]
            call_ensures(decode, (document,), decoded) && edits_encoded(document) == edits && a
                == match decoded {
                Ok(edits) => Ok::<CdiContainerEdits, CdiError>(edits),
                Err(source) => Err::<CdiContainerEdits, CdiError>(CdiError::EditDecode { source }),
            };
        let (document_b, decoded_b) = choose|
            document: serde_json::Value,
            decoded: Result<CdiContainerEdits, serde_json::Error>,
        | #[trigger]
            call_ensures(decode, (document,), decoded) && edits_encoded(document) == edits && b
                == match decoded {
                Ok(edits) => Ok::<CdiContainerEdits, CdiError>(edits),
                Err(source) => Err::<CdiContainerEdits, CdiError>(CdiError::EditDecode { source }),
            };
        assert(decode_asked(dirs, ids, refresh, document_a));
        assert(decode_asked(dirs, ids, refresh, document_b));
        assert(same_decoding(decoded_a, decoded_b));
    }
}

/// The edits behind the outcome of a good request for devices.
proof fn lemma_edits_of_request<R, D>(
    context: CdiContext,
    allowlist: Seq<Seq<char>>,
    refresh: R,
    decode: D,
    lookup: spec_fn(Seq<char>, Option<CdiPathKind>) -> bool,
    outcome: Result<RequirementLists, CdiErrorView>,
) -> (edits: Result<CdiContainerEdits, CdiError>) where
    R: FnOnce(Cache) -> (Cache, Option<String>),
    D: FnOnce(serde_json::Value) -> Result<CdiContainerEdits, serde_json::Error>,

    requires
        context_resolved(context, allowlist, refresh, decode, lookup, outcome),
        context_error(context) is None,
        asks_for_devices(context),
    ensures
        edits_resolved(
            context.spec_dirs@,
            selected(texts(context.selected_devices@)),
            refresh,
            decode,
            edits,
        ),
        match edits {
            Ok(edits) => derived(lookup, edits@, allowlist, outcome),
            Err(error) => outcome == Err::<RequirementLists, CdiErrorView>(error@),
        },
{
    choose|edits: Result<CdiContainerEdits, CdiError>| #[trigger]
        edits_resolved(
            context.spec_dirs@,
            selected(texts(context.selected_devices@)),
            refresh,
            decode,
            edits,
        ) && match edits {
            Ok(edits) => derived(lookup, edits@, allowlist, outcome),
            Err(error) => outcome == Err::<RequirementLists, CdiErrorView>(error@),
        }
}

/// A request comes to one outcome, as long as the directories, their decoding
/// and the files stay as they are.
pub proof fn law_request_is_determined<R, D>(
    context: CdiContext,
    allowlist: Seq<Seq<char>>,
    refresh: R,
    decode: D,
    kind_at: spec_fn(Seq<char>) -> Option<CdiPathKind>,
    a: Result<RequirementLists, CdiErrorView>,
    b: Result<RequirementLists, CdiErrorView>,
) where
    R: FnOnce(Cache) -> (Cache, Option<String>),
    D: FnOnce(serde_json::Value) -> Result<CdiContainerEdits, serde_json::Error>,

    requires
        loads_alike(context.spec_dirs@, refresh),
        decodes_alike(
            context.spec_dirs@,
            selected(texts(context.selected_devices@)),
            refresh,
            decode,
        ),
        context_resolved(context, allowlist, refresh, decode, fixed(kind_at), a),
        context_resolved(context, allowlist, refresh, decode, fixed(kind_at), b),
    ensures
        a == b,
{
    if context_error(context) is None && asks_for_devices(context) {
        let lookup = fixed(kind_at);
        let edits_a = lemma_edits_of_request(context, allowlist, refresh, decode, lookup, a);
        let edits_b = lemma_edits_of_request(context, allowlist, refresh, decode, lookup, b);
        lemma_edits_resolved_alike(
            context.spec_dirs@,
            selected(texts(context.selected_devices@)),
            refresh,
            decode,
            edits_a,
            edits_b,
        );
        if edits_a is Ok {
            law_outcome_is_determined(kind_at, edits_a->Ok_0@, allowlist, a, b);
        }
    }
}

/// A longer allowlist takes nothing away from a request: what was granted
/// stays granted, and is the same. Paths of the lists that have the same
/// normal form count as the same.
pub proof fn law_allowlist_only_adds_to_requests<R, D>(
    context: CdiContext,
    shorter: Seq<Seq<char>>,
    longer: Seq<Seq<char>>,
    refresh: R,
    decode: D,
    kind_at: spec_fn(Seq<char>) -> Option<CdiPathKind>,
    granted: RequirementLists,
    outcome: Result<RequirementLists, CdiErrorView>,
) where
    R: FnOnce(Cache) -> (Cache, Option<String>),
    D: FnOnce(serde_json::Value) -> Result<CdiContainerEdits, serde_json::Error>,

    requires
        loads_alike(context.spec_dirs@, refresh),
        decodes_alike(
            context.spec_dirs@,
            selected(texts(context.selected_devices@)),
            refresh,
            decode,
        ),
        forall|path: Seq<char>|
            normalized_all(shorter).contains(path) ==> #[trigger] normalized_all(longer).contains(
                path,
            ),
        context_resolved(context, shorter, refresh, decode, fixed(kind_at), Ok(granted)),
        context_resolved(context, longer, refresh, decode, fixed(kind_at), outcome),
    ensures
        outcome == Ok::<RequirementLists, CdiErrorView>(granted),
{
    if context_error(context) is None && asks_for_devices(context) {
        let lookup = fixed(kind_at);
        let edits = lemma_edits_of_request(
            context,
            shorter,
            refresh,
            decode,
            lookup,
            Ok(granted),
        );
        let others = lemma_edits_of_request(context, longer, refresh, decode, lookup, outcome);
        lemma_edits_resolved_alike(
            context.spec_dirs@,
            selected(texts(context.selected_devices@)),
            refresh,
            decode,
            edits,
            others,
        );
        law_allowlist_only_adds(kind_at, edits->Ok_0@, shorter, longer, granted, outcome);
    }
}

/// Requests that select the same devices in the same directories come to the
/// same: repeated and empty identifiers do not matter.
pub proof fn law_selection_decides_request<R, D>(
    one: CdiContext,
    other: CdiContext,
    allowlist: Seq<Seq<char>>,
    refresh: R,
    decode: D,
    lookup: spec_fn(Seq<char>, Option<CdiPathKind>) -> bool,
    outcome: Result<RequirementLists, CdiErrorView>,
) where
    R: FnOnce(Cache) -> (Cache, Option<String>),
    D: FnOnce(serde_json::Value) -> Result<CdiContainerEdits, serde_json::Error>,

    requires
        one.version == other.version,
        one.spec_dirs@ == other.spec_dirs@,
        selected(texts(one.selected_devices@)) == selected(texts(other.selected_devices@)),
    ensures
        context_resolved(one, allowlist, refresh, decode, lookup, outcome) <==> context_resolved(
            other,
            allowlist,
            refresh,
            decode,
            lookup,
            outcome,
        ),
{
}

/// White space around the identifiers of a request does not matter.
pub proof fn law_spelling_does_not_matter_to_request<R, D>(
    one: CdiContext,
    other: CdiContext,
    allowlist: Seq<Seq<char>>,
    refresh: R,
    decode: D,
    lookup: spec_fn(Seq<char>, Option<CdiPathKind>) -> bool,
    outcome: Result<RequirementLists, CdiErrorView>,
) where
    R: FnOnce(Cache) -> (Cache, Option<String>),
    D: FnOnce(serde_json::Value) -> Result<CdiContainerEdits, serde_json::Error>,

    requires
        one.version == other.version,
        one.spec_dirs@ == other.spec_dirs@,
        one.selected_devices@.len() == other.selected_devices@.len(),
        forall|i: int|
            0 <= i < one.selected_devices@.len() ==> trimmed(
                (#[trigger] one.selected_devices@[i])@,
            ) == trimmed(other.selected_devices@[i]@),
    ensures
        context_resolved(one, allowlist, refresh, decode, lookup, outcome) <==> context_resolved(
            other,
            allowlist,
            refresh,
            decode,
            lookup,
            outcome,
        ),
{
    let ids = texts(one.selected_devices@);
    let others = texts(other.selected_devices@);
    assert forall|i: int| 0 <= i < ids.len() implies trimmed(#[trigger] ids[i]) == trimmed(
        others[i],
    ) by {
        assert(ids[i] == one.selected_devices@[i]@);
    }
    law_selected_spelling(ids, others);
    law_selection_decides_request(one, other, allowlist, refresh, decode, lookup, outcome);
}

/// A request in another version is refused, also where it selects nothing.
pub proof fn law_requests_in_other_versions_are_refused<R, D>(
    context: CdiContext,
    allowlist: Seq<Seq<char>>,
    refresh: R,
    decode: D,
    lookup: spec_fn(Seq<char>, Option<CdiPathKind>) -> bool,
    outcome: Result<RequirementLists, CdiErrorView>,
) where
    R: FnOnce(Cache) -> (Cache, Option<String>),
    D: FnOnce(serde_json::Value) -> Result<CdiContainerEdits, serde_json::Error>,

    requires
        context_resolved(context, allowlist, refresh, decode, lookup, outcome),
        context.version != CDI_CONTEXT_VERSION,
    ensures
        outcome == Err::<RequirementLists, CdiErrorView>(
            CdiErrorView::UnsupportedContextVersion(context.version),
        ),
{
    law_other_versions_are_refused(context);
}

/// A request with a directory that is not a plain absolute path is refused
/// for the first such directory, also where it selects nothing.
pub proof fn law_requests_with_unsafe_directories_are_refused<R, D>(
    context: CdiContext,
    allowlist: Seq<Seq<char>>,
    refresh: R,
    decode: D,
    lookup: spec_fn(Seq<char>, Option<CdiPathKind>) -> bool,
    outcome: Result<RequirementLists, CdiErrorView>,
    n: int,
) where
    R: FnOnce(Cache) -> (Cache, Option<String>),
    D: FnOnce(serde_json::Value) -> Result<CdiContainerEdits, serde_json::Error>,

    requires
        context_resolved(context, allowlist, refresh, decode, lookup, outcome),
        context.version == CDI_CONTEXT_VERSION,
        0 <= n < context.spec_dirs@.len(),
        forall|i: int|
            0 <= i < n ==> {
                let path = (#[trigger] context.spec_dirs@[i]).path@;
                path.len() > 0 && path[0] == '/' && !has_parent_step(path)
            },
        ({
            let path = context.spec_dirs@[n].path@;
            path.len() == 0 || path[0] != '/' || has_parent_step(path)
        }),
    ensures
        outcome == Err::<RequirementLists, CdiErrorView>(
            CdiErrorView::UnsafeSpecDir {
                path: context.spec_dirs@[n].path@,
                diagnostic_source: context.spec_dirs@[n].source@,
                reason: if context.spec_dirs@[n].path@.len() > 0 && context.spec_dirs@[n].path@[0]
                    == '/' {
                    "path must not contain '..'"@
                } else {
                    "path must be absolute"@
                },
            },
        ),
{
    law_first_unsafe_directory_is_refused(context, n);
}

/// Something is selected exactly when some identifier is not all white space.
pub proof fn law_something_is_selected(context: CdiContext)
    ensures
        selected(texts(context.selected_devices@)).len() > 0 <==> exists|i: int, k: int|
            0 <= i < context.selected_devices@.len() && 0 <= k
                < context.selected_devices@[i]@.len() && !is_white_space(
                #[trigger] context.selected_devices@[i]@[k],
            ),
{
    let ids = texts(context.selected_devices@);
    if selected(ids).len() > 0 {
        let id = selected(ids)[0];
        law_selected_members(ids, id);
        let i = choose|i: int| 0 <= i < ids.len() && trimmed(#[trigger] ids[i]) == id;
        law_trimming_leaves_nothing_of_blank_text(ids[i]);
        let k = choose|k: int| 0 <= k < ids[i].len() && !is_white_space(#[trigger] ids[i][k]);
        assert(!is_white_space(context.selected_devices@[i]@[k]));
    }
    if exists|i: int, k: int|
        0 <= i < context.selected_devices@.len() && 0 <= k < context.selected_devices@[i]@.len()
            && !is_white_space(#[trigger] context.selected_devices@[i]@[k]) {
        let (i, k) = choose|i: int, k: int|
            0 <= i < context.selected_devices@.len() && 0 <= k
                < context.selected_devices@[i]@.len() && !is_white_space(
                #[trigger] context.selected_devices@[i]@[k],
            );
        assert(ids[i] == context.selected_devices@[i]@);
        law_trimming_leaves_nothing_of_blank_text(ids[i]);
        assert(!is_white_space(ids[i][k]));
        law_selected_members(ids, trimmed(ids[i]));
        assert(selected(ids).contains(trimmed(ids[i])));
    }
}

/// A good request whose identifiers are all blank, or that has no directory,
/// is granted the empty policy.
pub proof fn law_requests_for_nothing_are_granted_nothing<R, D>(
    context: CdiContext,
    allowlist: Seq<Seq<char>>,
    refresh: R,
    decode: D,
    lookup: spec_fn(Seq<char>, Option<CdiPathKind>) -> bool,
    outcome: Result<RequirementLists, CdiErrorView>,
) where
    R: FnOnce(Cache) -> (Cache, Option<String>),
    D: FnOnce(serde_json::Value) -> Result<CdiContainerEdits, serde_json::Error>,

    requires
        context_resolved(context, allowlist, refresh, decode, lookup, outcome),
        context.version == CDI_CONTEXT_VERSION,
        forall|i: int|
            0 <= i < context.spec_dirs@.len() ==> {
                let path = (#[trigger] context.spec_dirs@[i]).path@;
                path.len() > 0 && path[0] == '/' && !has_parent_step(path)
            },
        context.spec_dirs@.len() == 0 || forall|i: int, k: int|
            0 <= i < context.selected_devices@.len() && 0 <= k
                < context.selected_devices@[i]@.len() ==> is_white_space(
                #[trigger] context.selected_devices@[i]@[k],
            ),
    ensures
        outcome is Ok,
        outcome->Ok_0.device_node_paths.len() == 0,
        outcome->Ok_0.read_only_mount_paths.len() == 0,
        outcome->Ok_0.read_write_mount_paths.len() == 0,
        outcome->Ok_0.additional_gids.len() == 0,
{
    law_plain_requests_are_accepted(context);
    law_something_is_selected(context);
}

/// A good request with a directory and with an identifier that is not blank
/// is looked up: the directories are loaded, and what comes of it is what the
/// decoded merged edits of the devices come to, or the report of a missing
/// device, or that of the decoding.
#[verifier::spinoff_prover]
#[verifier::rlimit(60)]
pub proof fn law_requests_for_devices_are_looked_up<R, D>(
    context: CdiContext,
    allowlist: Seq<Seq<char>>,
    refresh: R,
    decode: D,
    lookup: spec_fn(Seq<char>, Option<CdiPathKind>) -> bool,
    outcome: Result<RequirementLists, CdiErrorView>,
    i: int,
    k: int,
) where
    R: FnOnce(Cache) -> (Cache, Option<String>),
    D: FnOnce(serde_json::Value) -> Result<CdiContainerEdits, serde_json::Error>,

    requires
        context_resolved(context, allowlist, refresh, decode, lookup, outcome),
        context.version == CDI_CONTEXT_VERSION,
        forall|i: int|
            0 <= i < context.spec_dirs@.len() ==> {
                let path = (#[trigger] context.spec_dirs@[i]).path@;
                path.len() > 0 && path[0] == '/' && !has_parent_step(path)
            },
        context.spec_dirs@.len() > 0,
        0 <= i < context.selected_devices@.len(),
        0 <= k < context.selected_devices@[i]@.len(),
        !is_white_space(context.selected_devices@[i]@[k]),
    ensures
        exists|ready: Cache, loaded: (Cache, Option<String>)|
            {
                &&& #[trigger] call_ensures(refresh, (ready,), loaded)
                &&& is_ready(ready, context.spec_dirs@)
                &&& match merged(
                    devices_held(loaded.0),
                    selected(texts(context.selected_devices@)),
                    error_text(loaded.1),
                ) {
                    Err(error) => outcome == Err::<RequirementLists, CdiErrorView>(error),
                    Ok((edits, _)) => exists|
                        document: serde_json::Value,
                        decoded: Result<CdiContainerEdits, serde_json::Error>,
                    |
                        {
                            &&& #[trigger] call_ensures(decode, (document,), decoded)
                            &&& edits_encoded(document) == edits
                            &&& decoded is Ok ==> derived(
                                lookup,
                                decoded->Ok_0@,
                                allowlist,
                                outcome,
                            )
                            &&& decoded is Err ==> outcome == Err::<RequirementLists, CdiErrorView>(
                                CdiErrorView::EditDecode { source: decoded->Err_0 },
                            )
                        },
                }
            },
{
    law_plain_requests_are_accepted(context);
    law_something_is_selected(context);
    let ids = selected(texts(context.selected_devices@));
    let result = lemma_edits_of_request(context, allowlist, refresh, decode, lookup, outcome);
    law_edits_are_those_of_the_loaded_devices(context.spec_dirs@, ids, refresh, decode, result);
    let (ready, loaded) = choose|ready: Cache, loaded: (Cache, Option<String>)|
        {
            &&& #[trigger] call_ensures(refresh, (ready,), loaded)
            &&& is_ready(ready, context.spec_dirs@)
            &&& match merged(devices_held(loaded.0), ids, error_text(loaded.1)) {
                Err(error) => result is Err && result->Err_0@ == error,
                Ok((edits, _)) => exists|
                    document: serde_json::Value,
                    decoded: Result<CdiContainerEdits, serde_json::Error>,
                |
                    {
                        &&& #[trigger] call_ensures(decode, (document,), decoded)
                        &&& edits_encoded(document) == edits
                        &&& decoded is Ok ==> result == Ok::<CdiContainerEdits, CdiError>(
                            decoded->Ok_0,
                        )
                        &&& decoded is Err ==> result is Err && result->Err_0@ == (
                        CdiErrorView::EditDecode { source: decoded->Err_0 })
                    },
            }
        };
    assert(call_ensures(refresh, (ready,), loaded));
}

/// Every entry of the edits is in the policy: device nodes under their policy
/// paths, mounts under theirs with the access they ask for, and groups but
/// the root group.
pub open spec fn covers(lists: RequirementLists, edits: PolicyEdits) -> bool {
    &&& forall|i: int|
        0 <= i < edits.device_nodes.len() ==> {
            let path = policy_path(#[trigger] edits.device_nodes[i]);
            path is Ok && lists.device_node_paths.contains(path->Ok_0)
        }
    &&& forall|i: int|
        0 <= i < edits.mounts.len() ==> {
            let entry = mount_entry(#[trigger] edits.mounts[i]);
            &&& entry is Ok
            &&& entry->Ok_0.1 == CdiAccess::ReadOnly ==> lists.read_only_mount_paths.contains(
                entry->Ok_0.0,
            )
            &&& entry->Ok_0.1 == CdiAccess::ReadWrite ==> lists.read_write_mount_paths.contains(
                entry->Ok_0.0,
            )
        }
    &&& forall|i: int|
        0 <= i < edits.additional_gids.len() && #[trigger] edits.additional_gids[i] != 0
            ==> lists.additional_gids.contains(edits.additional_gids[i])
}

/// Devices from one file have one spec.
pub open spec fn one_spec_per_file(devices: Map<Seq<char>, DeviceRecord>) -> bool {
    forall|a: Seq<char>, b: Seq<char>| #[trigger]
        devices.contains_key(a) && #[trigger] devices.contains_key(b) && devices[a].spec.file
            == devices[b].spec.file ==> devices[a].spec == devices[b].spec
}

/// With a faithful decoding, a policy that is granted to a good request
/// covers every device that it names: for each identifier that is not blank
/// the device was found, and the policy covers its edits and the common edits
/// of its spec.
#[verifier::spinoff_prover]
#[verifier::rlimit(60)]
pub proof fn law_policy_covers_every_named_device<R, D>(
    context: CdiContext,
    allowlist: Seq<Seq<char>>,
    refresh: R,
    decode: D,
    lookup: spec_fn(Seq<char>, Option<CdiPathKind>) -> bool,
    lists: RequirementLists,
) where
    R: FnOnce(Cache) -> (Cache, Option<String>),
    D: FnOnce(serde_json::Value) -> Result<CdiContainerEdits, serde_json::Error>,

    requires
        context_resolved(context, allowlist, refresh, decode, lookup, Ok(lists)),
        context.version == CDI_CONTEXT_VERSION,
        forall|i: int|
            0 <= i < context.spec_dirs@.len() ==> {
                let path = (#[trigger] context.spec_dirs@[i]).path@;
                path.len() > 0 && path[0] == '/' && !has_parent_step(path)
            },
        context.spec_dirs@.len() > 0,
        exists|i: int, k: int|
            0 <= i < context.selected_devices@.len() && 0 <= k
                < context.selected_devices@[i]@.len() && !is_white_space(
                #[trigger] context.selected_devices@[i]@[k],
            ),
        decodes_faithfully(
            context.spec_dirs@,
            selected(texts(context.selected_devices@)),
            refresh,
            decode,
        ),
    ensures
        exists|ready: Cache, loaded: (Cache, Option<String>)|
            {
                &&& #[trigger] call_ensures(refresh, (ready,), loaded)
                &&& is_ready(ready, context.spec_dirs@)
                &&& forall|i: int|
                    0 <= i < context.selected_devices@.len() && trimmed(
                        (#[trigger] context.selected_devices@[i])@,
                    ).len() > 0 ==> {
                        let devices = devices_held(loaded.0);
                        let id = trimmed(context.selected_devices@[i]@);
                        &&& devices.contains_key(id)
                        &&& covers(lists, devices[id].edits)
                        &&& one_spec_per_file(devices) && devices[id].spec.edits is Some ==> covers(
                            lists,
                            devices[id].spec.edits->0,
                        )
                    }
            },
{
    law_plain_requests_are_accepted(context);
    law_something_is_selected(context);
    let raw = texts(context.selected_devices@);
    let ids = selected(raw);
    law_request_comes_to_merged_edits(context, allowlist, refresh, decode, lookup, Ok(lists));
    let (ready, loaded) = choose|ready: Cache, loaded: (Cache, Option<String>)| #[trigger]
        call_ensures(refresh, (ready,), loaded) && is_ready(ready, context.spec_dirs@)
            && match merged(devices_held(loaded.0), ids, error_text(loaded.1)) {
            Ok((edits, _)) => derived(
                lookup,
                edits,
                allowlist,
                Ok::<RequirementLists, CdiErrorView>(lists),
            ),
            Err(error) => Ok::<RequirementLists, CdiErrorView>(lists) == Err::<
                RequirementLists,
                CdiErrorView,
            >(error),
        };
    let devices = devices_held(loaded.0);
    assert forall|i: int|
        0 <= i < context.selected_devices@.len() && trimmed(
            (#[trigger] context.selected_devices@[i])@,
        ).len() > 0 implies {
        let id = trimmed(context.selected_devices@[i]@);
        &&& devices.contains_key(id)
        &&& covers(lists, devices[id].edits)
        &&& one_spec_per_file(devices) && devices[id].spec.edits is Some ==> covers(
            lists,
            devices[id].spec.edits->0,
        )
    } by {
        assert(raw[i] == context.selected_devices@[i]@);
        law_selected_members(raw, trimmed(raw[i]));
        let at = choose|at: int| 0 <= at < ids.len() && ids[at] == trimmed(raw[i]);
        lemma_merged_policy_covers(
            lookup,
            devices,
            ids,
            error_text(loaded.1),
            allowlist,
            lists,
            at,
        );
    }
}

/// A policy that comes of merged edits covers each of the devices.
proof fn lemma_merged_policy_covers(
    lookup: spec_fn(Seq<char>, Option<CdiPathKind>) -> bool,
    devices: Map<Seq<char>, DeviceRecord>,
    ids: Seq<Seq<char>>,
    refresh_error: Option<Seq<char>>,
    allowlist: Seq<Seq<char>>,
    lists: RequirementLists,
    at: int,
)
    requires
        merged(devices, ids, refresh_error) is Ok,
        derived(lookup, merged(devices, ids, refresh_error)->Ok_0.0, allowlist, Ok(lists)),
        0 <= at < ids.len(),
    ensures
        devices.contains_key(ids[at]),
        covers(lists, devices[ids[at]].edits),
        one_spec_per_file(devices) && devices[ids[at]].spec.edits is Some ==> covers(
            lists,
            devices[ids[at]].spec.edits->0,
        ),
{
    let edits = merged(devices, ids, refresh_error)->Ok_0.0;
    let device = devices[ids[at]];
    law_merge_needs_every_device(devices, ids, refresh_error);
    assert(devices.contains_key(ids[at]));
    assert forall|entry: EditEntry| #[trigger] has_entry(device.edits, entry) implies has_entry(
        edits,
        entry,
    ) by {
        law_merged_entries(devices, ids, refresh_error, entry);
        assert(brings(devices, ids, at, entry));
    }
    lemma_granted_edits_cover(lookup, edits, allowlist, lists, device.edits);
    if one_spec_per_file(devices) && device.spec.edits is Some {
        let common = device.spec.edits->0;
        assert forall|entry: EditEntry| #[trigger] has_entry(common, entry) implies has_entry(
            edits,
            entry,
        ) by {
            law_merged_entries(devices, ids, refresh_error, entry);
            lemma_common_entry_is_brought(devices, ids, at, entry);
        }
        lemma_granted_edits_cover(lookup, edits, allowlist, lists, common);
    }
}

/// A granted policy covers every part of the edits.
proof fn lemma_granted_edits_cover(
    lookup: spec_fn(Seq<char>, Option<CdiPathKind>) -> bool,
    edits: PolicyEdits,
    allowlist: Seq<Seq<char>>,
    lists: RequirementLists,
    part: PolicyEdits,
)
    requires
        derived(lookup, edits, allowlist, Ok(lists)),
        forall|entry: EditEntry| #[trigger] has_entry(part, entry) ==> has_entry(edits, entry),
    ensures
        covers(lists, part),
{
    law_granted_policy_entry_by_entry(lookup, edits, allowlist, lists);
    lemma_granted(lookup, edits, allowlist, lists);
    assert forall|i: int| 0 <= i < part.device_nodes.len() implies {
        let path = policy_path(#[trigger] part.device_nodes[i]);
        path is Ok && lists.device_node_paths.contains(path->Ok_0)
    } by {
        let node = part.device_nodes[i];
        assert(has_entry(part, EditEntry::DeviceNode(node)));
        assert(has_entry(edits, EditEntry::DeviceNode(node)));
        let j = choose|j: int| 0 <= j < edits.device_nodes.len() && edits.device_nodes[j] == node;
        assert(policy_path(edits.device_nodes[j]) is Ok);
    }
    assert forall|i: int| 0 <= i < part.mounts.len() implies {
        let entry = mount_entry(#[trigger] part.mounts[i]);
        &&& entry is Ok
        &&& entry->Ok_0.1 == CdiAccess::ReadOnly ==> lists.read_only_mount_paths.contains(
            entry->Ok_0.0,
        )
        &&& entry->Ok_0.1 == CdiAccess::ReadWrite ==> lists.read_write_mount_paths.contains(
            entry->Ok_0.0,
        )
    } by {
        let mount = part.mounts[i];
        assert(has_entry(part, EditEntry::Mount(mount)));
        assert(has_entry(edits, EditEntry::Mount(mount)));
        let j = choose|j: int| 0 <= j < edits.mounts.len() && edits.mounts[j] == mount;
        assert(mount_entry(edits.mounts[j]) is Ok);
        assert(policy_path(edits.mounts[j].container_path) is Ok);
    }
    assert forall|i: int|
        0 <= i < part.additional_gids.len() && #[trigger] part.additional_gids[i]
            != 0 implies lists.additional_gids.contains(part.additional_gids[i]) by {
        let gid = part.additional_gids[i];
        assert(has_entry(part, EditEntry::Gid(gid)));
        assert(has_entry(edits, EditEntry::Gid(gid)));
        let j = choose|j: int|
            0 <= j < edits.additional_gids.len() && edits.additional_gids[j] == gid;
        assert(edits.additional_gids[j] == gid);
    }
}

/// Common edits are brought by the first device of their file.
proof fn lemma_common_entry_is_brought(
    devices: Map<Seq<char>, DeviceRecord>,
    ids: Seq<Seq<char>>,
    at: int,
    entry: EditEntry,
)
    requires
        0 <= at < ids.len(),
        devices[ids[at]].spec.edits is Some,
        has_entry(devices[ids[at]].spec.edits->0, entry),
        forall|i: int| 0 <= i < ids.len() ==> devices.contains_key(#[trigger] ids[i]),
        one_spec_per_file(devices),
    ensures
        exists|i: int| 0 <= i < ids.len() && #[trigger] brings(devices, ids, i, entry),
    decreases at,
{
    if forall|j: int|
        0 <= j < at ==> devices[#[trigger] ids[j]].spec.file != devices[ids[at]].spec.file {
        assert(brings(devices, ids, at, entry));
    } else {
        let j = choose|j: int|
            0 <= j < at && devices[#[trigger] ids[j]].spec.file == devices[ids[at]].spec.file;
        assert(devices.contains_key(ids[j]) && devices.contains_key(ids[at]));
        lemma_common_entry_is_brought(devices, ids, j, entry);
    }
}

} // verus!
