//! CDI policy resolution on Linux.
//!
//! A request is checked, its devices are looked up, their edits are merged,
//! and the merged edits become a filesystem policy. What only the system can
//! do is passed in: reading the spec directories, decoding the merged edits,
//! and telling what is at a path.

#[allow(unused_imports)]
use crate::accumulator::{can_ask, lookup_of, Requirements};
use crate::cdi::{
    CdiContainerEdits, CdiContext, CdiDerivedRequirements, CdiError, CdiPathKind, CdiSpecDirectory,
    CDI_CONTEXT_VERSION,
};
#[allow(unused_imports)]
use crate::cdi::{failure, no_requirements, outcome, CdiErrorView, RequirementLists};
use crate::collect::derive_requirements;
#[allow(unused_imports)]
use crate::collect::{asked, derived, law_asked_monotone, law_derived_monotone, normalized_all};
use crate::devices::{build_cache, merge_selected_devices};
#[allow(unused_imports)]
use crate::devices::{error_text, is_ready, merged};
use crate::policy::validate_absolute_no_parent;
#[allow(unused_imports)]
use crate::paths::has_parent_step;
#[allow(unused_imports)]
use crate::policy::{law_plain_paths, path_defect};
use crate::text::{list_holds, trim};
#[allow(unused_imports)]
use crate::text::{law_trimmed_idempotent, texts, trimmed};
#[allow(unused_imports)]
use crate::upstream::{devices_held, edits_encoded};
use container_device_interface::cache::Cache;
use vstd::prelude::*;

verus! {

/// What is wrong with a spec directory, if anything.
pub open spec fn dir_error(dir: CdiSpecDirectory) -> Option<CdiErrorView> {
    match path_defect(dir.path@) {
        Some(reason) => Some(
            CdiErrorView::UnsafeSpecDir {
                path: dir.path@,
                diagnostic_source: dir.source@,
                reason,
            },
        ),
        None => None,
    }
}

/// The error of the first spec directory that has one.
pub open spec fn first_dir_error(dirs: Seq<CdiSpecDirectory>) -> Option<CdiErrorView>
    decreases dirs.len(),
{
    if dirs.len() == 0 {
        None
    } else if first_dir_error(dirs.drop_last()) is Some {
        first_dir_error(dirs.drop_last())
    } else {
        dir_error(dirs.last())
    }
}

/// What is wrong with a request, if anything. The version is looked at first.
pub open spec fn context_error(context: CdiContext) -> Option<CdiErrorView> {
    if context.version != CDI_CONTEXT_VERSION {
        Some(CdiErrorView::UnsupportedContextVersion(context.version))
    } else {
        first_dir_error(context.spec_dirs@)
    }
}

/// Checks the version of a request and its spec directories.
pub fn validate_context(context: &CdiContext) -> (result: Result<(), CdiError>)
    ensures
        failure(result) == context_error(*context),
{
    if context.version != CDI_CONTEXT_VERSION {
        return Err(CdiError::UnsupportedContextVersion(context.version));
    }
    let ghost dirs = context.spec_dirs@;
    assert(dirs.take(0) =~= Seq::empty());
    for i in 0..context.spec_dirs.len()
        invariant
            dirs == context.spec_dirs@,
            context.version == CDI_CONTEXT_VERSION,
            first_dir_error(dirs.take(i as int)) is None,
    {
        let spec_dir = &context.spec_dirs[i];
        assert(dirs.take(i + 1).drop_last() =~= dirs.take(i as int));
        match validate_absolute_no_parent(spec_dir.path.as_str()) {
            Ok(_) => {},
            Err(reason) => {
                proof {
                    lemma_dir_error_stays(dirs, i + 1);
                }
                return Err(
                    CdiError::UnsafeSpecDir {
                        path: spec_dir.path.clone(),
                        diagnostic_source: spec_dir.source.clone(),
                        reason,
                    },
                );
            },
        }
    }
    assert(dirs.take(dirs.len() as int) =~= dirs);
    Ok(())
}

/// The first error of some leading directories is the first error of all.
proof fn lemma_dir_error_stays(dirs: Seq<CdiSpecDirectory>, n: int)
    requires
        0 <= n <= dirs.len(),
        first_dir_error(dirs.take(n)) is Some,
    ensures
        first_dir_error(dirs) == first_dir_error(dirs.take(n)),
    decreases dirs.len() - n,
{
    if n == dirs.len() {
        assert(dirs.take(n) =~= dirs);
    } else {
        assert(dirs.take(n + 1).drop_last() =~= dirs.take(n));
        lemma_dir_error_stays(dirs, n + 1);
    }
}

/// The devices that the identifiers select: each once, where it first
/// occurs, without surrounding white space, and no empty one.
pub open spec fn selected(ids: Seq<Seq<char>>) -> Seq<Seq<char>>
    decreases ids.len(),
{
    if ids.len() == 0 {
        Seq::empty()
    } else {
        let before = selected(ids.drop_last());
        let id = trimmed(ids.last());
        if id.len() == 0 || before.contains(id) {
            before
        } else {
            before.push(id)
        }
    }
}

/// Reads the selected devices off the identifiers of a request.
pub fn selected_cdi_devices(device_ids: &[String]) -> (devices: Vec<String>)
    ensures
        texts(devices@) == selected(texts(device_ids@)),
{
    let mut devices: Vec<String> = Vec::new();
    let ghost ids = texts(device_ids@);
    assert(ids.take(0) =~= Seq::empty());
    assert(texts(devices@) =~= Seq::empty());
    for i in 0..device_ids.len()
        invariant
            ids == texts(device_ids@),
            texts(devices@) == selected(ids.take(i as int)),
    {
        assert(ids.take(i + 1).drop_last() =~= ids.take(i as int));
        assert(ids[i as int] == device_ids@[i as int]@);
        let id = trim(device_ids[i].as_str());
        if !id.is_empty() && !list_holds(devices.as_slice(), id) {
            let ghost before = devices@;
            devices.push(id.to_owned());
            assert(texts(devices@) =~= texts(before).push(id@));
        }
    }
    assert(ids.take(ids.len() as int) =~= ids);
    devices
}

/// A device is selected exactly when it is not empty and some identifier
/// names it, white space around it apart.
pub proof fn law_selected_members(ids: Seq<Seq<char>>, id: Seq<char>)
    ensures
        selected(ids).contains(id) <==> id.len() > 0 && exists|i: int|
            0 <= i < ids.len() && trimmed(#[trigger] ids[i]) == id,
    decreases ids.len(),
{
    if ids.len() > 0 {
        let shorter = ids.drop_last();
        law_selected_members(shorter, id);
        let last = trimmed(ids.last());
        assert(ids[ids.len() - 1] == ids.last());
        if exists|i: int| 0 <= i < shorter.len() && trimmed(#[trigger] shorter[i]) == id {
            let i = choose|i: int| 0 <= i < shorter.len() && trimmed(#[trigger] shorter[i]) == id;
            assert(trimmed(ids[i]) == id);
        }
        if exists|i: int| 0 <= i < ids.len() && trimmed(#[trigger] ids[i]) == id {
            let i = choose|i: int| 0 <= i < ids.len() && trimmed(#[trigger] ids[i]) == id;
            if i < shorter.len() {
                assert(trimmed(shorter[i]) == id);
            }
        }
        let before = selected(shorter);
        if last.len() > 0 && !before.contains(last) {
            assert(before.push(last)[before.len() as int] == last);
            if before.contains(id) {
                let k = choose|k: int| 0 <= k < before.len() && before[k] == id;
                assert(before.push(last)[k] == id);
            }
            if before.push(last).contains(id) && id != last {
                let k = choose|k: int| 0 <= k < before.push(last).len() && before.push(last)[k] == id;
                assert(before[k] == id);
            }
        }
    }
}

/// No device is selected twice.
pub proof fn law_selected_once(ids: Seq<Seq<char>>)
    ensures
        selected(ids).no_duplicates(),
    decreases ids.len(),
{
    if ids.len() > 0 {
        law_selected_once(ids.drop_last());
    }
}

/// More identifiers behind the others change nothing about the devices that
/// those select, nor about their order.
pub proof fn law_selected_order_stays(ids: Seq<Seq<char>>, more: Seq<Seq<char>>)
    ensures
        selected(ids).is_prefix_of(selected(ids + more)),
    decreases more.len(),
{
    if more.len() == 0 {
        assert(ids + more =~= ids);
    } else {
        law_selected_order_stays(ids, more.drop_last());
        assert((ids + more).drop_last() =~= ids + more.drop_last());
        let before = selected(ids + more.drop_last());
        let after = selected(ids + more);
        assert(selected(ids) =~= before.subrange(0, selected(ids).len() as int));
        assert(selected(ids) =~= after.subrange(0, selected(ids).len() as int));
    }
}

/// White space around the identifiers does not matter for what they select.
pub proof fn law_selected_spelling(ids: Seq<Seq<char>>, others: Seq<Seq<char>>)
    requires
        ids.len() == others.len(),
        forall|i: int| 0 <= i < ids.len() ==> trimmed(#[trigger] ids[i]) == trimmed(others[i]),
    ensures
        selected(ids) == selected(others),
    decreases ids.len(),
{
    if ids.len() > 0 {
        let last = ids.len() - 1;
        assert(ids[last] == ids.last() && others[last] == others.last());
        assert forall|i: int| 0 <= i < last implies trimmed(#[trigger] ids.drop_last()[i])
            == trimmed(others.drop_last()[i]) by {
            assert(trimmed(ids[i]) == trimmed(others[i]));
        }
        law_selected_spelling(ids.drop_last(), others.drop_last());
    }
}

/// What was selected selects itself.
pub proof fn law_selected_idempotent(ids: Seq<Seq<char>>)
    ensures
        selected(selected(ids)) == selected(ids),
    decreases ids.len(),
{
    if ids.len() > 0 {
        let before = selected(ids.drop_last());
        let id = trimmed(ids.last());
        law_selected_idempotent(ids.drop_last());
        if id.len() > 0 && !before.contains(id) {
            law_trimmed_idempotent(ids.last());
            assert(before.push(id).drop_last() =~= before);
        }
    }
}

/// What a lookup of the devices in a loaded cache gives: the report of a
/// missing device, or what `decode` makes of the encoded merged edits.
pub open spec fn edits_decoded<D>(
    cache: Cache,
    refresh_error: Option<String>,
    ids: Seq<Seq<char>>,
    decode: D,
    result: Result<CdiContainerEdits, CdiError>,
) -> bool where D: FnOnce(serde_json::Value) -> Result<CdiContainerEdits, serde_json::Error> {
    match merged(devices_held(cache), ids, error_text(refresh_error)) {
        Err(error) => failure(result) == Some(error),
        Ok((edits, _)) => exists|
            document: serde_json::Value,
            decoded: Result<CdiContainerEdits, serde_json::Error>,
        | #[trigger]
            call_ensures(decode, (document,), decoded) && edits_encoded(document) == edits && result
                == match decoded {
                Ok(edits) => Ok::<CdiContainerEdits, CdiError>(edits),
                Err(source) => Err::<CdiContainerEdits, CdiError>(CdiError::EditDecode { source }),
            },
    }
}

/// The same, from the directories on: a cache is made ready for them, is
/// loaded by `refresh`, and is then asked.
pub open spec fn edits_resolved<R, D>(
    dirs: Seq<CdiSpecDirectory>,
    ids: Seq<Seq<char>>,
    refresh: R,
    decode: D,
    result: Result<CdiContainerEdits, CdiError>,
) -> bool where
    R: FnOnce(Cache) -> (Cache, Option<String>),
    D: FnOnce(serde_json::Value) -> Result<CdiContainerEdits, serde_json::Error>,
 {
    exists|ready: Cache, loaded: (Cache, Option<String>)| #[trigger]
        call_ensures(refresh, (ready,), loaded) && is_ready(ready, dirs) && edits_decoded(
            loaded.0,
            loaded.1,
            ids,
            decode,
            result,
        )
}

/// The document may be given to `decode`: it holds the merged edits of the
/// devices, all of which are in the cache as it was loaded.
pub open spec fn decode_asked<R>(
    dirs: Seq<CdiSpecDirectory>,
    ids: Seq<Seq<char>>,
    refresh: R,
    document: serde_json::Value,
) -> bool where R: FnOnce(Cache) -> (Cache, Option<String>) {
    exists|ready: Cache, loaded: (Cache, Option<String>)| #[trigger]
        call_ensures(refresh, (ready,), loaded) && is_ready(ready, dirs) && match merged(
            devices_held(loaded.0),
            ids,
            error_text(loaded.1),
        ) {
            Ok((edits, _)) => edits_encoded(document) == edits,
            Err(_) => false,
        }
}

/// Loads the spec directories of a request and resolves the edits of the
/// selected devices. `refresh` reads the directories into the cache it is
/// given; `decode` reads the merged edits off their JSON document.
pub fn resolve_container_edits<R, D>(
    context: &CdiContext,
    selected_devices: &[String],
    refresh: R,
    decode: D,
) -> (result: Result<CdiContainerEdits, CdiError>) where
    R: FnOnce(Cache) -> (Cache, Option<String>),
    D: FnOnce(serde_json::Value) -> Result<CdiContainerEdits, serde_json::Error>,

    requires
        forall|cache: Cache| is_ready(cache, context.spec_dirs@) ==> call_requires(refresh, (cache,)),
        forall|document: serde_json::Value| #[trigger]
            decode_asked(context.spec_dirs@, texts(selected_devices@), refresh, document)
                ==> call_requires(decode, (document,)),
    ensures
        edits_resolved(context.spec_dirs@, texts(selected_devices@), refresh, decode, result),
{
    let (mut cache, refresh_error) = build_cache(context.spec_dirs.as_slice(), refresh);
    let ghost loaded = (cache, refresh_error);
    let ghost ready = choose|ready: Cache| #[trigger]
        is_ready(ready, context.spec_dirs@) && call_ensures(refresh, (ready,), loaded);
    let merging = merge_selected_devices(&mut cache, &refresh_error, selected_devices);
    let result = match merging {
        Err(error) => Err(error),
        Ok(document) => {
            assert(call_ensures(refresh, (ready,), loaded));
            assert(decode_asked(context.spec_dirs@, texts(selected_devices@), refresh, document));
            match decode(document) {
                Ok(edits) => Ok(edits),
                Err(source) => Err(CdiError::EditDecode { source }),
            }
        },
    };
    assert(edits_decoded(loaded.0, loaded.1, texts(selected_devices@), decode, result));
    assert(call_ensures(refresh, (ready,), loaded));
    result
}

/// Something is selected, and there is somewhere to look for it.
pub open spec fn asks_for_devices(context: CdiContext) -> bool {
    selected(texts(context.selected_devices@)).len() > 0 && context.spec_dirs@.len() > 0
}

/// What a request comes to. A bad request is refused; a request for nothing
/// requires nothing; any other requires what the edits of its devices do.
pub open spec fn context_resolved<R, D>(
    context: CdiContext,
    allowlist: Seq<Seq<char>>,
    refresh: R,
    decode: D,
    lookup: spec_fn(Seq<char>, Option<CdiPathKind>) -> bool,
    outcome: Result<RequirementLists, CdiErrorView>,
) -> bool where
    R: FnOnce(Cache) -> (Cache, Option<String>),
    D: FnOnce(serde_json::Value) -> Result<CdiContainerEdits, serde_json::Error>,
 {
    match context_error(context) {
        Some(error) => outcome == Err::<RequirementLists, CdiErrorView>(error),
        None => if !asks_for_devices(context) {
            outcome == Ok::<RequirementLists, CdiErrorView>(no_requirements())
        } else {
            exists|edits: Result<CdiContainerEdits, CdiError>| #[trigger]
                edits_resolved(
                    context.spec_dirs@,
                    selected(texts(context.selected_devices@)),
                    refresh,
                    decode,
                    edits,
                ) && match edits {
                    Ok(edits) => derived(lookup, edits@, allowlist, outcome),
                    Err(error) => outcome == Err::<RequirementLists, CdiErrorView>(error@),
                }
        },
    }
}

/// Resolving the request may ask about the path: it is a good request for
/// devices, and collecting its decoded edits may ask about it.
pub open spec fn path_asked<R, D>(
    context: CdiContext,
    allowlist: Seq<Seq<char>>,
    refresh: R,
    decode: D,
    lookup: spec_fn(Seq<char>, Option<CdiPathKind>) -> bool,
    path: Seq<char>,
) -> bool where
    R: FnOnce(Cache) -> (Cache, Option<String>),
    D: FnOnce(serde_json::Value) -> Result<CdiContainerEdits, serde_json::Error>,
 {
    &&& context_error(context) is None
    &&& asks_for_devices(context)
    &&& exists|edits: CdiContainerEdits|
        edits_resolved(
            context.spec_dirs@,
            selected(texts(context.selected_devices@)),
            refresh,
            decode,
            Ok(edits),
        ) && #[trigger] asked(
            lookup,
            Requirements::none(),
            edits@,
            normalized_all(allowlist),
            path,
        )
}

/// Resolves a request with a given way to tell what is at a path. The
/// directories are only read for a good request that selects a device; merged
/// edits are only decoded where every device was found; and only paths that
/// the decoded edits name are asked about.
pub fn resolve_cdi_context_with_path_kind<R, D, F>(
    context: &CdiContext,
    writable_file_allowlist: &[String],
    refresh: R,
    decode: D,
    path_kind: F,
) -> (result: Result<CdiDerivedRequirements, CdiError>) where
    R: FnOnce(Cache) -> (Cache, Option<String>),
    D: FnOnce(serde_json::Value) -> Result<CdiContainerEdits, serde_json::Error>,
    F: Fn(&str) -> Option<CdiPathKind>,

    requires
        forall|cache: Cache|
            is_ready(cache, context.spec_dirs@) && context_error(*context) is None
                && asks_for_devices(*context) ==> call_requires(refresh, (cache,)),
        forall|document: serde_json::Value|
            context_error(*context) is None && asks_for_devices(*context)
                && #[trigger] decode_asked(
                context.spec_dirs@,
                selected(texts(context.selected_devices@)),
                refresh,
                document,
            ) ==> call_requires(decode, (document,)),
        forall|path: Seq<char>| #[trigger]
            path_asked(
                *context,
                texts(writable_file_allowlist@),
                refresh,
                decode,
                lookup_of(path_kind),
                path,
            ) ==> can_ask(path_kind, path),
    ensures
        context_resolved(
            *context,
            texts(writable_file_allowlist@),
            refresh,
            decode,
            lookup_of(path_kind),
            outcome(result),
        ),
{
    match validate_context(context) {
        Ok(_) => {},
        Err(error) => {
            return Err(error);
        },
    }
    let selected_devices = selected_cdi_devices(context.selected_devices.as_slice());
    if selected_devices.is_empty() || context.spec_dirs.is_empty() {
        return Ok(CdiDerivedRequirements::default());
    }
    let resolution = resolve_container_edits(context, selected_devices.as_slice(), refresh, decode);
    match resolution {
        Ok(edits) => {
            assert forall|path: Seq<char>| #[trigger]
                asked(
                    lookup_of(path_kind),
                    Requirements::none(),
                    edits@,
                    normalized_all(texts(writable_file_allowlist@)),
                    path,
                ) implies can_ask(path_kind, path) by {
                assert(path_asked(
                    *context,
                    texts(writable_file_allowlist@),
                    refresh,
                    decode,
                    lookup_of(path_kind),
                    path,
                ));
            }
            derive_requirements(&edits, writable_file_allowlist, &path_kind)
        },
        Err(error) => Err(error),
    }
}

/// What the file system says about the type of a file, with links followed.
#[derive(Clone, Copy, Debug, PartialEq, Eq, Structural)]
pub struct FileTypeFlags {
    pub is_char_device: bool,
    pub is_block_device: bool,
    pub is_file: bool,
    pub is_dir: bool,
}

/// The kind of a path with the given file type, if there is a file.
pub open spec fn kind_of_file(flags: Option<FileTypeFlags>) -> Option<CdiPathKind> {
    match flags {
        None => None,
        Some(flags) => if flags.is_char_device {
            Some(CdiPathKind::CharacterDevice)
        } else if flags.is_block_device {
            Some(CdiPathKind::BlockDevice)
        } else if flags.is_file {
            Some(CdiPathKind::File)
        } else if flags.is_dir {
            Some(CdiPathKind::Directory)
        } else {
            Some(CdiPathKind::Other)
        },
    }
}

/// The type of the file at the path can be read.
pub open spec fn can_read<S: Fn(&str) -> Option<FileTypeFlags>>(file_type: &S, path: &str) -> bool {
    call_requires(*file_type, (path,))
}

/// Reading the type of the file at the path may lead to this kind.
pub open spec fn read_as<S: Fn(&str) -> Option<FileTypeFlags>>(
    file_type: &S,
    path: &str,
    kind: Option<CdiPathKind>,
) -> bool {
    exists|flags: Option<FileTypeFlags>| #[trigger]
        call_ensures(*file_type, (path,), flags) && kind == kind_of_file(flags)
}

/// The answers of [`filesystem_path_kind`] over a given way to read file types.
pub open spec fn file_lookup<S: Fn(&str) -> Option<FileTypeFlags>>(file_type: S) -> spec_fn(
    Seq<char>,
    Option<CdiPathKind>,
) -> bool {
    |path: Seq<char>, kind: Option<CdiPathKind>|
        exists|text: &str| text@ == path && #[trigger] read_as(&file_type, text, kind)
}

/// Tells what is at a path from the type of the file there.
pub fn filesystem_path_kind<S>(path: &str, file_type: &S) -> (kind: Option<CdiPathKind>) where
    S: Fn(&str) -> Option<FileTypeFlags>,

    requires
        can_read(file_type, path),
    ensures
        read_as(file_type, path, kind),
{
    match file_type(path) {
        None => None,
        Some(flags) => {
            if flags.is_char_device {
                return Some(CdiPathKind::CharacterDevice);
            }
            if flags.is_block_device {
                return Some(CdiPathKind::BlockDevice);
            }
            if flags.is_file {
                Some(CdiPathKind::File)
            } else if flags.is_dir {
                Some(CdiPathKind::Directory)
            } else {
                Some(CdiPathKind::Other)
            }
        },
    }
}

/// Resolves a request. What is at a path is told from the type of the file
/// there, which `file_type` reads where that is needed.
pub fn resolve_cdi_context<R, D, S>(
    context: &CdiContext,
    writable_file_allowlist: &[String],
    refresh: R,
    decode: D,
    file_type: S,
) -> (result: Result<CdiDerivedRequirements, CdiError>) where
    R: FnOnce(Cache) -> (Cache, Option<String>),
    D: FnOnce(serde_json::Value) -> Result<CdiContainerEdits, serde_json::Error>,
    S: Fn(&str) -> Option<FileTypeFlags>,

    requires
        forall|cache: Cache|
            is_ready(cache, context.spec_dirs@) && context_error(*context) is None
                && asks_for_devices(*context) ==> call_requires(refresh, (cache,)),
        forall|document: serde_json::Value|
            context_error(*context) is None && asks_for_devices(*context)
                && #[trigger] decode_asked(
                context.spec_dirs@,
                selected(texts(context.selected_devices@)),
                refresh,
                document,
            ) ==> call_requires(decode, (document,)),
        forall|path: &str|
            path_asked(
                *context,
                texts(writable_file_allowlist@),
                refresh,
                decode,
                file_lookup(file_type),
                path@,
            ) ==> #[trigger] can_read(&file_type, path),
    ensures
        context_resolved(
            *context,
            texts(writable_file_allowlist@),
            refresh,
            decode,
            file_lookup(file_type),
            outcome(result),
        ),
{
    let path_kind = |path: &str| -> (kind: Option<CdiPathKind>)
        requires
            can_read(&file_type, path),
        ensures
            read_as(&file_type, path, kind),
        { filesystem_path_kind(path, &file_type) };
    let ghost asking = path_kind;
    let ghost narrow = lookup_of(asking);
    let ghost wide = file_lookup(file_type);
    proof {
        assert forall|path: Seq<char>, kind: Option<CdiPathKind>| #[trigger]
            narrow(path, kind) implies wide(path, kind) by {
            let text = choose|text: &str| text@ == path && #[trigger] call_ensures(
                asking,
                (text,),
                kind,
            );
            assert(read_as(&file_type, text, kind));
        }
        let allowlist = texts(writable_file_allowlist@);
        assert forall|path: Seq<char>| #[trigger]
            path_asked(*context, allowlist, refresh, decode, narrow, path) implies can_ask(
            asking,
            path,
        ) by {
            lemma_wider_lookup_asks(*context, allowlist, refresh, decode, narrow, wide, path);
            assert forall|text: &str| text@ == path implies #[trigger] call_requires(
                asking,
                (text,),
            ) by {
                assert(can_read(&file_type, text));
            }
        }
    }
    let result = resolve_cdi_context_with_path_kind(
        context,
        writable_file_allowlist,
        refresh,
        decode,
        path_kind,
    );
    proof {
        lemma_wider_lookup(
            *context,
            texts(writable_file_allowlist@),
            refresh,
            decode,
            narrow,
            wide,
            outcome(result),
        );
    }
    result
}

/// What a request may ask about under a lookup, it may ask about under one
/// that can give all the same answers.
proof fn lemma_wider_lookup_asks<R, D>(
    context: CdiContext,
    allowlist: Seq<Seq<char>>,
    refresh: R,
    decode: D,
    narrow: spec_fn(Seq<char>, Option<CdiPathKind>) -> bool,
    wide: spec_fn(Seq<char>, Option<CdiPathKind>) -> bool,
    path: Seq<char>,
) where
    R: FnOnce(Cache) -> (Cache, Option<String>),
    D: FnOnce(serde_json::Value) -> Result<CdiContainerEdits, serde_json::Error>,

    requires
        path_asked(context, allowlist, refresh, decode, narrow, path),
        forall|path: Seq<char>, kind: Option<CdiPathKind>| #[trigger]
            narrow(path, kind) ==> wide(path, kind),
    ensures
        path_asked(context, allowlist, refresh, decode, wide, path),
{
    let none = Requirements::none();
    let allowed = normalized_all(allowlist);
    let edits = choose|edits: CdiContainerEdits|
        edits_resolved(
            context.spec_dirs@,
            selected(texts(context.selected_devices@)),
            refresh,
            decode,
            Ok(edits),
        ) && #[trigger] asked(narrow, none, edits@, allowed, path);
    law_asked_monotone(narrow, wide, none, edits@, allowed, path);
    assert(asked(wide, none, edits@, allowed, path));
}

/// What a request may come to under a lookup, it may come to under one that
/// can give all the same answers.
proof fn lemma_wider_lookup<R, D>(
    context: CdiContext,
    allowlist: Seq<Seq<char>>,
    refresh: R,
    decode: D,
    narrow: spec_fn(Seq<char>, Option<CdiPathKind>) -> bool,
    wide: spec_fn(Seq<char>, Option<CdiPathKind>) -> bool,
    outcome: Result<RequirementLists, CdiErrorView>,
) where
    R: FnOnce(Cache) -> (Cache, Option<String>),
    D: FnOnce(serde_json::Value) -> Result<CdiContainerEdits, serde_json::Error>,

    requires
        context_resolved(context, allowlist, refresh, decode, narrow, outcome),
        forall|path: Seq<char>, kind: Option<CdiPathKind>| #[trigger]
            narrow(path, kind) ==> wide(path, kind),
    ensures
        context_resolved(context, allowlist, refresh, decode, wide, outcome),
{
    if context_error(context) is None && asks_for_devices(context) {
        let ids = selected(texts(context.selected_devices@));
        let edits = choose|edits: Result<CdiContainerEdits, CdiError>| #[trigger]
            edits_resolved(context.spec_dirs@, ids, refresh, decode, edits) && match edits {
                Ok(edits) => derived(narrow, edits@, allowlist, outcome),
                Err(error) => outcome == Err::<RequirementLists, CdiErrorView>(error@),
            };
        if edits is Ok {
            law_derived_monotone(narrow, wide, edits->Ok_0@, allowlist, outcome);
        }
    }
}

/// `decode` gives what stands in the document, without failing, for every
/// document that it may be given.
pub open spec fn decodes_faithfully<R, D>(
    dirs: Seq<CdiSpecDirectory>,
    ids: Seq<Seq<char>>,
    refresh: R,
    decode: D,
) -> bool where
    R: FnOnce(Cache) -> (Cache, Option<String>),
    D: FnOnce(serde_json::Value) -> Result<CdiContainerEdits, serde_json::Error>,
 {
    forall|document: serde_json::Value, decoded: Result<CdiContainerEdits, serde_json::Error>|
        decode_asked(dirs, ids, refresh, document) && #[trigger] call_ensures(
            decode,
            (document,),
            decoded,
        ) ==> decoded is Ok && decoded->Ok_0@ == edits_encoded(document)
}

/// With a faithful decoding, a good request for devices comes to what the
/// merged edits of its devices come to, or to the report of the first device
/// that is missing from the cache as it was loaded.
pub proof fn law_request_comes_to_merged_edits<R, D>(
    context: CdiContext,
    allowlist: Seq<Seq<char>>,
    refresh: R,
    decode: D,
    lookup: spec_fn(Seq<char>, Option<CdiPathKind>) -> bool,
    outcome: Result<RequirementLists, CdiErrorView>,
) where
    R: FnOnce(Cache) -> (Cache, Option<String>),
    D: FnOnce(serde_json::Value) -> Result<CdiContainerEdits, serde_json::Error>,

    requires
        context_resolved(context, allowlist, refresh, decode, lookup, outcome),
        context_error(context) is None,
        asks_for_devices(context),
        decodes_faithfully(
            context.spec_dirs@,
            selected(texts(context.selected_devices@)),
            refresh,
            decode,
        ),
    ensures
        exists|ready: Cache, loaded: (Cache, Option<String>)| #[trigger]
            call_ensures(refresh, (ready,), loaded) && is_ready(ready, context.spec_dirs@)
                && match merged(
                devices_held(loaded.0),
                selected(texts(context.selected_devices@)),
                error_text(loaded.1),
            ) {
                Ok((edits, _)) => derived(lookup, edits, allowlist, outcome),
                Err(error) => outcome == Err::<RequirementLists, CdiErrorView>(error),
            },
{
    let ids = selected(texts(context.selected_devices@));
    let result = choose|edits: Result<CdiContainerEdits, CdiError>| #[trigger]
        edits_resolved(context.spec_dirs@, ids, refresh, decode, edits) && match edits {
            Ok(edits) => derived(lookup, edits@, allowlist, outcome),
            Err(error) => outcome == Err::<RequirementLists, CdiErrorView>(error@),
        };
    let (ready, loaded) = choose|ready: Cache, loaded: (Cache, Option<String>)| #[trigger]
        call_ensures(refresh, (ready,), loaded) && is_ready(ready, context.spec_dirs@)
            && edits_decoded(loaded.0, loaded.1, ids, decode, result);
    assert(call_ensures(refresh, (ready,), loaded));
    if merged(devices_held(loaded.0), ids, error_text(loaded.1)) is Ok {
        let edits = merged(devices_held(loaded.0), ids, error_text(loaded.1))->Ok_0.0;
        let (document, decoded) = choose|
            document: serde_json::Value,
            decoded: Result<CdiContainerEdits, serde_json::Error>,
        | #[trigger]
            call_ensures(decode, (document,), decoded) && edits_encoded(document) == edits && result
                == match decoded {
                Ok(edits) => Ok::<CdiContainerEdits, CdiError>(edits),
                Err(source) => Err::<CdiContainerEdits, CdiError>(CdiError::EditDecode { source }),
            };
        assert(decode_asked(context.spec_dirs@, ids, refresh, document));
    }
}

/// A request in another version is refused, whatever else it holds.
pub proof fn law_other_versions_are_refused(context: CdiContext)
    requires
        context.version != CDI_CONTEXT_VERSION,
    ensures
        context_error(context) == Some(CdiErrorView::UnsupportedContextVersion(context.version)),
{
}

/// The first directory that is not a plain absolute path is refused, with its
/// source and what is wrong with it.
pub proof fn law_first_unsafe_directory_is_refused(context: CdiContext, n: int)
    requires
        context.version == CDI_CONTEXT_VERSION,
        0 <= n < context.spec_dirs@.len(),
        forall|i: int|
            0 <= i < n ==> {
                let path = (#[trigger] context.spec_dirs@[i]).path@;
                path.len() > 0 && path[0] == '/' && !has_parent_step(path)
            },
    ensures
        ({
            let dir = context.spec_dirs@[n];
            let absolute = dir.path@.len() > 0 && dir.path@[0] == '/';
            !absolute || has_parent_step(dir.path@) ==> context_error(context) == Some(
                CdiErrorView::UnsafeSpecDir {
                    path: dir.path@,
                    diagnostic_source: dir.source@,
                    reason: if absolute {
                        "path must not contain '..'"@
                    } else {
                        "path must be absolute"@
                    },
                },
            )
        }),
{
    let dirs = context.spec_dirs@;
    law_plain_paths(dirs[n].path@);
    lemma_plain_dirs(dirs, n);
    assert(dirs.take(n + 1).drop_last() =~= dirs.take(n));
    assert(dirs.take(n + 1).last() == dirs[n]);
    if path_defect(dirs[n].path@) is Some {
        lemma_dir_error_stays(dirs, n + 1);
    }
}

/// Nothing is wrong with a request in the current version whose directories
/// are all plain absolute paths.
pub proof fn law_plain_requests_are_accepted(context: CdiContext)
    requires
        context.version == CDI_CONTEXT_VERSION,
        forall|i: int|
            0 <= i < context.spec_dirs@.len() ==> {
                let path = (#[trigger] context.spec_dirs@[i]).path@;
                path.len() > 0 && path[0] == '/' && !has_parent_step(path)
            },
    ensures
        context_error(context) is None,
{
    let dirs = context.spec_dirs@;
    lemma_plain_dirs(dirs, dirs.len() as int);
    assert(dirs.take(dirs.len() as int) =~= dirs);
}

/// Plain directories have no error.
proof fn lemma_plain_dirs(dirs: Seq<CdiSpecDirectory>, n: int)
    requires
        0 <= n <= dirs.len(),
        forall|i: int|
            0 <= i < n ==> {
                let path = (#[trigger] dirs[i]).path@;
                path.len() > 0 && path[0] == '/' && !has_parent_step(path)
            },
    ensures
        first_dir_error(dirs.take(n)) is None,
    decreases n,
{
    if n > 0 {
        lemma_plain_dirs(dirs, n - 1);
        assert(dirs.take(n).drop_last() =~= dirs.take(n - 1));
        assert(dirs.take(n).last() == dirs[n - 1]);
        law_plain_paths(dirs[n - 1].path@);
    }
}

/// Edits are resolved by loading a cache that is ready for the directories
/// and looking every device up in it. A missing device is reported; otherwise
/// the merged edits are decoded, and the end of that is the end of it.
pub proof fn law_edits_are_those_of_the_loaded_devices<R, D>(
    dirs: Seq<CdiSpecDirectory>,
    ids: Seq<Seq<char>>,
    refresh: R,
    decode: D,
    result: Result<CdiContainerEdits, CdiError>,
) where
    R: FnOnce(Cache) -> (Cache, Option<String>),
    D: FnOnce(serde_json::Value) -> Result<CdiContainerEdits, serde_json::Error>,

    requires
        edits_resolved(dirs, ids, refresh, decode, result),
    ensures
        exists|ready: Cache, loaded: (Cache, Option<String>)|
            {
                &&& #[trigger] call_ensures(refresh, (ready,), loaded)
                &&& is_ready(ready, dirs)
                &&& match merged(devices_held(loaded.0), ids, error_text(loaded.1)) {
                    Err(error) => result is Err && result->Err_0@ == error,
                    Ok((edits, _)) => exists|
                        document: serde_json::Value,
                        decoded: Result<CdiContainerEdits, serde_json::Error>,
                    |
                        {
                            &&& #[trigger] call_ensures(decode, (document,), decoded)
                            &&& edits_encoded(document) == edits
                            &&& decoded is Ok ==> result == Ok::<CdiContainerEdits, CdiError>(
                                decoded->Ok_0,
                            )
                            &&& decoded is Err ==> result is Err && result->Err_0@ == (
                            CdiErrorView::EditDecode { source: decoded->Err_0 })
                        },
                }
            },
{
    let (ready, loaded) = choose|ready: Cache, loaded: (Cache, Option<String>)| #[trigger]
        call_ensures(refresh, (ready,), loaded) && is_ready(ready, dirs) && edits_decoded(
            loaded.0,
            loaded.1,
            ids,
            decode,
            result,
        );
    assert(call_ensures(refresh, (ready,), loaded));
    if merged(devices_held(loaded.0), ids, error_text(loaded.1)) is Ok {
        let edits = merged(devices_held(loaded.0), ids, error_text(loaded.1))->Ok_0.0;
        let (document, decoded) = choose|
            document: serde_json::Value,
            decoded: Result<CdiContainerEdits, serde_json::Error>,
        | #[trigger]
            call_ensures(decode, (document,), decoded) && edits_encoded(document) == edits && result
                == match decoded {
                Ok(edits) => Ok::<CdiContainerEdits, CdiError>(edits),
                Err(source) => Err::<CdiContainerEdits, CdiError>(CdiError::EditDecode { source }),
            };
        assert(call_ensures(decode, (document,), decoded));
    }
}

/// The kind of a path is told from its file type: the two kinds of devices
/// first, then files and directories; what is none of these is something
/// else, and where no file type can be read there is nothing.
pub proof fn law_kind_follows_file_type<S: Fn(&str) -> Option<FileTypeFlags>>(
    file_type: S,
    path: Seq<char>,
    kind: Option<CdiPathKind>,
)
    ensures
        file_lookup(file_type)(path, kind) <==> exists|text: &str, flags: Option<FileTypeFlags>|
            {
                &&& text@ == path
                &&& #[trigger] call_ensures(file_type, (text,), flags)
                &&& flags is None <==> kind is None
                &&& flags is Some && flags->0.is_char_device ==> kind == Some(
                    CdiPathKind::CharacterDevice,
                )
                &&& flags is Some && !flags->0.is_char_device && flags->0.is_block_device ==> kind
                    == Some(CdiPathKind::BlockDevice)
                &&& flags is Some && !flags->0.is_char_device && !flags->0.is_block_device
                    && flags->0.is_file ==> kind == Some(CdiPathKind::File)
                &&& flags is Some && !flags->0.is_char_device && !flags->0.is_block_device
                    && !flags->0.is_file && flags->0.is_dir ==> kind == Some(CdiPathKind::Directory)
                &&& flags is Some && !flags->0.is_char_device && !flags->0.is_block_device
                    && !flags->0.is_file && !flags->0.is_dir ==> kind == Some(CdiPathKind::Other)
            },
{
    if file_lookup(file_type)(path, kind) {
        let text = choose|text: &str| text@ == path && #[trigger] read_as(&file_type, text, kind);
        let flags = choose|flags: Option<FileTypeFlags>| #[trigger]
            call_ensures(file_type, (text,), flags) && kind == kind_of_file(flags);
        assert(call_ensures(file_type, (text,), flags));
    }
    if exists|text: &str, flags: Option<FileTypeFlags>|
        text@ == path && #[trigger] call_ensures(file_type, (text,), flags) && kind == kind_of_file(
            flags,
        ) {
        let (text, flags) = choose|text: &str, flags: Option<FileTypeFlags>|
            text@ == path && #[trigger] call_ensures(file_type, (text,), flags) && kind
                == kind_of_file(flags);
        assert(read_as(&file_type, text, kind));
    }
}

} // verus!
