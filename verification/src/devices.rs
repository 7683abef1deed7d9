//! Looking up devices and merging their edits.

use crate::cdi::{CdiError, CdiSpecDirectory};
#[allow(unused_imports)]
use crate::cdi::{failure, CdiErrorView, MountEdit, PolicyEdits};
#[allow(unused_imports)]
use crate::paths::{cleaned, law_cleaned_is_normal_form, normalized};
#[allow(unused_imports)]
use crate::policy::path_defect;
use crate::text::list_holds;
#[allow(unused_imports)]
use crate::text::texts;
use crate::upstream::{
    append_edits, empty_cache, encode_edits, find_device, set_refresh_on_lookup, set_search_dirs,
};
#[allow(unused_imports)]
use crate::upstream::{
    device_held, devices_held, edits_encoded, edits_held, no_devices, refreshes_on_lookup,
    search_dirs, DeviceRecord,
};
use container_device_interface::cache::Cache;
use container_device_interface::container_edits::ContainerEdits;
use vstd::prelude::*;

verus! {

/// The text that may stand beside a failed load.
pub open spec fn error_text(error: Option<String>) -> Option<Seq<char>> {
    match error {
        Some(text) => Some(text@),
        None => None,
    }
}

/// How a device that no spec defines is reported. A failed load is named,
/// since the spec may be among those that were not read.
pub open spec fn missing_device(device: Seq<char>, refresh_error: Option<Seq<char>>) -> CdiErrorView {
    match refresh_error {
        None => CdiErrorView::MissingDevice(device),
        Some(refresh_error) => CdiErrorView::MissingDeviceAfterRefresh { device, refresh_error },
    }
}

/// Reports a device that no spec defines.
pub fn missing_device_error(device: &str, refresh_error: &Option<String>) -> (error: CdiError)
    ensures
        error@ == missing_device(device@, error_text(*refresh_error)),
{
    match refresh_error {
        None => CdiError::MissingDevice(device.to_owned()),
        Some(refresh_error) => CdiError::MissingDeviceAfterRefresh {
            device: device.to_owned(),
            refresh_error: refresh_error.clone(),
        },
    }
}

/// A cache that is ready to be loaded from the directories: it holds no
/// device, and lookups will not read the directories again.
pub open spec fn is_ready(cache: Cache, dirs: Seq<CdiSpecDirectory>) -> bool {
    &&& devices_held(cache) == no_devices()
    &&& !refreshes_on_lookup(cache)
    &&& search_dirs(cache).len() == dirs.len()
    &&& forall|i: int|
        0 <= i < dirs.len() ==> #[trigger] search_dirs(cache)[i] == cleaned(dirs[i].path@)
}

/// A cache that is ready for plain absolute directories will search them
/// under their normal forms.
pub proof fn law_plain_dirs_are_searched_in_normal_form(
    cache: Cache,
    dirs: Seq<CdiSpecDirectory>,
    i: int,
)
    requires
        is_ready(cache, dirs),
        0 <= i < dirs.len(),
        path_defect(dirs[i].path@) is None,
    ensures
        search_dirs(cache)[i] == normalized(dirs[i].path@),
{
    law_cleaned_is_normal_form(dirs[i].path@);
}

/// Prepares a cache for the spec directories and has it loaded. `refresh`
/// reads the directories and gives the cache back, with the text of what
/// went wrong, if anything did.
pub fn build_cache<R>(spec_dirs: &[CdiSpecDirectory], refresh: R) -> (loaded: (
    Cache,
    Option<String>,
)) where R: FnOnce(Cache) -> (Cache, Option<String>)
    requires
        forall|cache: Cache| is_ready(cache, spec_dirs@) ==> call_requires(refresh, (cache,)),
    ensures
        exists|cache: Cache| #[trigger]
            is_ready(cache, spec_dirs@) && call_ensures(refresh, (cache,), loaded),
{
    let mut paths: Vec<&str> = Vec::new();
    for i in 0..spec_dirs.len()
        invariant
            paths@.len() == i,
            forall|j: int| 0 <= j < i ==> (#[trigger] paths@[j])@ == spec_dirs@[j].path@,
    {
        paths.push(spec_dirs[i].path.as_str());
    }
    let mut cache = empty_cache();
    set_search_dirs(&mut cache, paths.as_slice());
    set_refresh_on_lookup(&mut cache, false);
    assert(is_ready(cache, spec_dirs@)) by {
        assert forall|i: int| 0 <= i < spec_dirs@.len() implies #[trigger] search_dirs(cache)[i]
            == cleaned(spec_dirs@[i].path@) by {
            assert(paths@[i]@ == spec_dirs@[i].path@);
        }
    }
    refresh(cache)
}

/// The edits of the devices, merged in the order of the devices, and the
/// files of the specs that took part; or the report of the first device that
/// is missing. The common edits of a spec come once, before the edits of its
/// first device.
pub open spec fn merged(
    devices: Map<Seq<char>, DeviceRecord>,
    ids: Seq<Seq<char>>,
    refresh_error: Option<Seq<char>>,
) -> Result<(PolicyEdits, Set<Seq<char>>), CdiErrorView>
    decreases ids.len(),
{
    if ids.len() == 0 {
        Ok((PolicyEdits::none(), Set::empty()))
    } else {
        match merged(devices, ids.drop_last(), refresh_error) {
            Err(error) => Err(error),
            Ok((edits, files)) => if !devices.contains_key(ids.last()) {
                Err(missing_device(ids.last(), refresh_error))
            } else {
                let device = devices[ids.last()];
                let with_spec = match device.spec.edits {
                    Some(common) => if files.contains(device.spec.file) {
                        edits
                    } else {
                        edits.then_edits(common)
                    },
                    None => edits,
                };
                Ok((with_spec.then_edits(device.edits), files.insert(device.spec.file)))
            },
        }
    }
}

/// The report on some leading devices is the report on all.
proof fn lemma_missing_stays(
    devices: Map<Seq<char>, DeviceRecord>,
    ids: Seq<Seq<char>>,
    refresh_error: Option<Seq<char>>,
    n: int,
)
    requires
        0 <= n <= ids.len(),
        merged(devices, ids.take(n), refresh_error) is Err,
    ensures
        merged(devices, ids, refresh_error) == merged(devices, ids.take(n), refresh_error),
    decreases ids.len() - n,
{
    if n == ids.len() {
        assert(ids.take(n) =~= ids);
    } else {
        assert(ids.take(n + 1).drop_last() =~= ids.take(n));
        lemma_missing_stays(devices, ids, refresh_error, n + 1);
    }
}

/// Looks the selected devices up in a cache, merges their edits and encodes
/// them. The cache is asked as it is: its directories are not read again.
pub fn merge_selected_devices(
    cache: &mut Cache,
    refresh_error: &Option<String>,
    selected_devices: &[String],
) -> (result: Result<serde_json::Value, CdiError>)
    ensures
        devices_held(*final(cache)) == devices_held(*old(cache)),
        match merged(
            devices_held(*old(cache)),
            texts(selected_devices@),
            error_text(*refresh_error),
        ) {
            Ok((edits, _)) => result matches Ok(document) && edits_encoded(document) == edits,
            Err(error) => failure(result) == Some(error),
        },
{
    let ghost devices = devices_held(*cache);
    let ghost ids = texts(selected_devices@);
    let ghost loading = error_text(*refresh_error);
    set_refresh_on_lookup(cache, false);
    let mut merged_edits = ContainerEdits::new();
    let mut applied_specs: Vec<String> = Vec::new();
    assert(ids.take(0) =~= Seq::empty());
    assert(texts(applied_specs@).to_set() =~= Set::empty());
    for i in 0..selected_devices.len()
        invariant
            devices == devices_held(*old(cache)),
            ids == texts(selected_devices@),
            loading == error_text(*refresh_error),
            devices_held(*cache) == devices,
            !refreshes_on_lookup(*cache),
            merged(devices, ids.take(i as int), loading) == Ok::<_, CdiErrorView>(
                (edits_held(merged_edits), texts(applied_specs@).to_set()),
            ),
    {
        let device_id = &selected_devices[i];
        assert(ids[i as int] == device_id@);
        assert(ids.take(i + 1).drop_last() =~= ids.take(i as int));
        assert(ids.take(i + 1).last() == ids[i as int]);
        match find_device(cache, device_id.as_str()) {
            None => {
                proof {
                    lemma_missing_stays(devices, ids, loading, i + 1);
                }
                return Err(missing_device_error(device_id.as_str(), refresh_error));
            },
            Some(device) => {
                let ghost record = device_held(device);
                let ghost before = edits_held(merged_edits);
                let ghost files = texts(applied_specs@);
                let mut spec = device.get_spec();
                let spec_path = spec.get_path();
                if !list_holds(applied_specs.as_slice(), spec_path.as_str()) {
                    match spec.edits() {
                        Some(spec_edits) => {
                            match append_edits(&mut merged_edits, spec_edits) {
                                Ok(_) => {},
                                Err(error) => {
                                    return Err(
                                        CdiError::EditMerge { device: device_id.clone(), error },
                                    );
                                },
                            }
                        },
                        None => {},
                    }
                    applied_specs.push(spec_path);
                    assert(texts(applied_specs@) =~= files.push(record.spec.file));
                    proof {
                        lemma_push_to_set(files, record.spec.file);
                    }
                } else {
                    assert(files.to_set() =~= files.to_set().insert(record.spec.file));
                }
                assert(texts(applied_specs@).to_set() == files.to_set().insert(record.spec.file));
                match append_edits(&mut merged_edits, device.edits()) {
                    Ok(_) => {},
                    Err(error) => {
                        return Err(CdiError::EditMerge { device: device_id.clone(), error });
                    },
                }
            },
        }
    }
    assert(ids.take(ids.len() as int) =~= ids);
    match encode_edits(&merged_edits) {
        Ok(document) => Ok(document),
        Err(source) => Err(CdiError::EditEncode { source }),
    }
}

/// One more item at the end is one more member.
proof fn lemma_push_to_set(items: Seq<Seq<char>>, item: Seq<char>)
    ensures
        items.push(item).to_set() == items.to_set().insert(item),
{
    let longer = items.push(item);
    assert forall|other: Seq<char>| #[trigger] longer.contains(other) == (items.contains(other)
        || other == item) by {
        if items.contains(other) {
            let k = choose|k: int| 0 <= k < items.len() && items[k] == other;
            assert(longer[k] == other);
        }
        assert(longer[items.len() as int] == item);
    }
    assert(longer.to_set() =~= items.to_set().insert(item));
}

/// Merging succeeds exactly when every device is there.
pub proof fn law_merge_needs_every_device(
    devices: Map<Seq<char>, DeviceRecord>,
    ids: Seq<Seq<char>>,
    refresh_error: Option<Seq<char>>,
)
    ensures
        merged(devices, ids, refresh_error) is Ok <==> forall|i: int|
            0 <= i < ids.len() ==> devices.contains_key(#[trigger] ids[i]),
    decreases ids.len(),
{
    if ids.len() > 0 {
        let shorter = ids.drop_last();
        law_merge_needs_every_device(devices, shorter, refresh_error);
        assert(ids[ids.len() - 1] == ids.last());
        if forall|i: int| 0 <= i < ids.len() ==> devices.contains_key(#[trigger] ids[i]) {
            assert forall|i: int| 0 <= i < shorter.len() implies devices.contains_key(
                #[trigger] shorter[i],
            ) by {
                assert(shorter[i] == ids[i]);
            }
        }
        if merged(devices, ids, refresh_error) is Ok {
            assert forall|i: int| 0 <= i < ids.len() implies devices.contains_key(
                #[trigger] ids[i],
            ) by {
                if i < shorter.len() {
                    assert(shorter[i] == ids[i]);
                }
            }
        }
    }
}

/// The first device that is missing is the one that is reported.
pub proof fn law_first_missing_device_is_reported(
    devices: Map<Seq<char>, DeviceRecord>,
    ids: Seq<Seq<char>>,
    refresh_error: Option<Seq<char>>,
    n: int,
)
    requires
        0 <= n < ids.len(),
        !devices.contains_key(ids[n]),
        forall|i: int| 0 <= i < n ==> devices.contains_key(#[trigger] ids[i]),
    ensures
        merged(devices, ids, refresh_error) == Err::<
            (PolicyEdits, Set<Seq<char>>),
            CdiErrorView,
        >(missing_device(ids[n], refresh_error)),
{
    let before = ids.take(n);
    law_merge_needs_every_device(devices, before, refresh_error);
    assert forall|i: int| 0 <= i < before.len() implies devices.contains_key(
        #[trigger] before[i],
    ) by {
        assert(before[i] == ids[i]);
    }
    assert(ids.take(n + 1).drop_last() =~= before);
    assert(ids.take(n + 1).last() == ids[n]);
    lemma_missing_stays(devices, ids, refresh_error, n + 1);
}

/// A failed load only matters to devices that are missing: where all are
/// there, the merged edits are the same whether loading failed or not.
pub proof fn law_failed_load_matters_to_missing_devices_only(
    devices: Map<Seq<char>, DeviceRecord>,
    ids: Seq<Seq<char>>,
    refresh_error: Option<Seq<char>>,
    other_error: Option<Seq<char>>,
)
    requires
        merged(devices, ids, refresh_error) is Ok,
    ensures
        merged(devices, ids, other_error) == merged(devices, ids, refresh_error),
    decreases ids.len(),
{
    if ids.len() > 0 {
        law_failed_load_matters_to_missing_devices_only(
            devices,
            ids.drop_last(),
            refresh_error,
            other_error,
        );
    }
}

/// The spec files that took part are those of the devices.
pub proof fn law_merged_spec_files(
    devices: Map<Seq<char>, DeviceRecord>,
    ids: Seq<Seq<char>>,
    refresh_error: Option<Seq<char>>,
    file: Seq<char>,
)
    requires
        merged(devices, ids, refresh_error) is Ok,
    ensures
        merged(devices, ids, refresh_error)->Ok_0.1.contains(file) <==> exists|i: int|
            0 <= i < ids.len() && devices[#[trigger] ids[i]].spec.file == file,
    decreases ids.len(),
{
    if ids.len() > 0 {
        let shorter = ids.drop_last();
        law_merged_spec_files(devices, shorter, refresh_error, file);
        assert(ids[ids.len() - 1] == ids.last());
        if exists|i: int| 0 <= i < shorter.len() && devices[#[trigger] shorter[i]].spec.file == file {
            let i = choose|i: int|
                0 <= i < shorter.len() && devices[#[trigger] shorter[i]].spec.file == file;
            assert(devices[ids[i]].spec.file == file);
        }
        if exists|i: int| 0 <= i < ids.len() && devices[#[trigger] ids[i]].spec.file == file {
            let i = choose|i: int|
                0 <= i < ids.len() && devices[#[trigger] ids[i]].spec.file == file;
            if i < shorter.len() {
                assert(devices[shorter[i]].spec.file == file);
            }
        }
    }
}

/// The common edits of a spec come once: one more device of a spec that took
/// part already adds its own edits and nothing else.
pub proof fn law_common_edits_come_once(
    devices: Map<Seq<char>, DeviceRecord>,
    ids: Seq<Seq<char>>,
    refresh_error: Option<Seq<char>>,
    id: Seq<char>,
    other: int,
)
    requires
        merged(devices, ids, refresh_error) is Ok,
        devices.contains_key(id),
        0 <= other < ids.len(),
        devices[ids[other]].spec.file == devices[id].spec.file,
    ensures
        merged(devices, ids.push(id), refresh_error) is Ok,
        merged(devices, ids.push(id), refresh_error)->Ok_0.0 == merged(
            devices,
            ids,
            refresh_error,
        )->Ok_0.0.then_edits(devices[id].edits),
{
    law_merged_spec_files(devices, ids, refresh_error, devices[id].spec.file);
    assert(ids.push(id).drop_last() =~= ids);
}

/// One entry of container edits.
pub enum EditEntry {
    DeviceNode(Seq<char>),
    Mount(MountEdit),
    Gid(u32),
}

/// The edits have the entry.
pub open spec fn has_entry(edits: PolicyEdits, entry: EditEntry) -> bool {
    match entry {
        EditEntry::DeviceNode(path) => edits.device_nodes.contains(path),
        EditEntry::Mount(mount) => edits.mounts.contains(mount),
        EditEntry::Gid(gid) => edits.additional_gids.contains(gid),
    }
}

/// The device at a place of the list brings the entry: it is among its own
/// edits, or the device is the first of its spec and it is among the common
/// edits of that.
pub open spec fn brings(
    devices: Map<Seq<char>, DeviceRecord>,
    ids: Seq<Seq<char>>,
    i: int,
    entry: EditEntry,
) -> bool {
    let device = devices[ids[i]];
    ||| has_entry(device.edits, entry)
    ||| {
        &&& device.spec.edits is Some
        &&& has_entry(device.spec.edits->0, entry)
        &&& forall|j: int| 0 <= j < i ==> devices[#[trigger] ids[j]].spec.file != device.spec.file
    }
}

/// The merged edits have the entries that the devices bring, and no others.
pub proof fn law_merged_entries(
    devices: Map<Seq<char>, DeviceRecord>,
    ids: Seq<Seq<char>>,
    refresh_error: Option<Seq<char>>,
    entry: EditEntry,
)
    requires
        merged(devices, ids, refresh_error) is Ok,
    ensures
        has_entry(merged(devices, ids, refresh_error)->Ok_0.0, entry) <==> exists|i: int|
            0 <= i < ids.len() && #[trigger] brings(devices, ids, i, entry),
    decreases ids.len(),
{
    if ids.len() > 0 {
        let shorter = ids.drop_last();
        let last = ids.len() - 1;
        law_merged_entries(devices, shorter, refresh_error, entry);
        let (before, files) = merged(devices, shorter, refresh_error)->Ok_0;
        let device = devices[ids.last()];
        law_merged_spec_files(devices, shorter, refresh_error, device.spec.file);
        assert(ids[last] == ids.last());
        assert(files.contains(device.spec.file) <==> exists|j: int|
            0 <= j < last && devices[#[trigger] ids[j]].spec.file == device.spec.file) by {
            if files.contains(device.spec.file) {
                let j = choose|j: int|
                    0 <= j < shorter.len() && devices[#[trigger] shorter[j]].spec.file
                        == device.spec.file;
                assert(devices[ids[j]].spec.file == device.spec.file);
            }
            if exists|j: int|
                0 <= j < last && devices[#[trigger] ids[j]].spec.file == device.spec.file {
                let j = choose|j: int|
                    0 <= j < last && devices[#[trigger] ids[j]].spec.file == device.spec.file;
                assert(devices[shorter[j]].spec.file == device.spec.file);
            }
        }
        assert forall|i: int| 0 <= i < last implies #[trigger] brings(devices, shorter, i, entry)
            == brings(devices, ids, i, entry) by {
            assert(shorter[i] == ids[i]);
            assert(forall|j: int| 0 <= j < i ==> shorter[j] == ids[j]);
        }
        match device.spec.edits {
            Some(common) => {
                if files.contains(device.spec.file) {
                    lemma_then_edits(before, device.edits, entry);
                } else {
                    lemma_then_edits(before, common, entry);
                    lemma_then_edits(before.then_edits(common), device.edits, entry);
                }
            },
            None => {
                lemma_then_edits(before, device.edits, entry);
            },
        }
        if has_entry(before, entry) {
            let i = choose|i: int|
                0 <= i < shorter.len() && #[trigger] brings(devices, shorter, i, entry);
            assert(brings(devices, ids, i, entry));
        }
        if exists|i: int| 0 <= i < ids.len() && #[trigger] brings(devices, ids, i, entry) {
            let i = choose|i: int|
                0 <= i < ids.len() && #[trigger] brings(devices, ids, i, entry);
            if i < last {
                assert(brings(devices, shorter, i, entry));
            }
        }
        assert(has_entry(merged(devices, ids, refresh_error)->Ok_0.0, entry) <==> has_entry(
            before,
            entry,
        ) || brings(devices, ids, last, entry));
    } else {
        assert(!has_entry(PolicyEdits::none(), entry));
    }
}

/// Edits followed by others have the entries of both.
proof fn lemma_then_edits(first: PolicyEdits, second: PolicyEdits, entry: EditEntry)
    ensures
        has_entry(first.then_edits(second), entry) <==> has_entry(first, entry) || has_entry(
            second,
            entry,
        ),
{
    match entry {
        EditEntry::DeviceNode(path) => {
            lemma_concat(first.device_nodes, second.device_nodes, path);
        },
        EditEntry::Mount(mount) => {
            lemma_concat(first.mounts, second.mounts, mount);
        },
        EditEntry::Gid(gid) => {
            lemma_concat(first.additional_gids, second.additional_gids, gid);
        },
    }
}

/// A concatenation has the items of both sequences.
proof fn lemma_concat<A>(first: Seq<A>, second: Seq<A>, item: A)
    ensures
        (first + second).contains(item) <==> first.contains(item) || second.contains(item),
{
    let all = first + second;
    if first.contains(item) {
        let i = choose|i: int| 0 <= i < first.len() && first[i] == item;
        assert(all[i] == item);
    }
    if second.contains(item) {
        let i = choose|i: int| 0 <= i < second.len() && second[i] == item;
        assert(all[first.len() + i] == item);
    }
    if all.contains(item) {
        let i = choose|i: int| 0 <= i < all.len() && all[i] == item;
        if i < first.len() {
            assert(first[i] == item);
        } else {
            assert(second[i - first.len()] == item);
        }
    }
}

/// A missing device is reported by its name alone, or, where loading failed,
/// with what loading reported.
pub proof fn law_missing_devices_are_reported_by_name(
    device: Seq<char>,
    refresh_error: Option<String>,
)
    ensures
        missing_device(device, error_text(refresh_error)) == match refresh_error {
            None => CdiErrorView::MissingDevice(device),
            Some(text) => CdiErrorView::MissingDeviceAfterRefresh { device, refresh_error: text@ },
        },
{
}

/// A cache that is ready for directories will search each of them, in order
/// and cleaned; it holds nothing yet, and lookups will not search again.
pub proof fn law_ready_cache_searches_every_directory(cache: Cache, dirs: Seq<CdiSpecDirectory>)
    requires
        is_ready(cache, dirs),
    ensures
        search_dirs(cache) == Seq::new(dirs.len(), |i: int| cleaned(dirs[i].path@)),
        forall|id: Seq<char>| !devices_held(cache).contains_key(id),
        !refreshes_on_lookup(cache),
{
    assert(search_dirs(cache) =~= Seq::new(dirs.len(), |i: int| cleaned(dirs[i].path@)));
}

/// No devices bring no edits.
pub proof fn law_no_devices_bring_nothing(
    devices: Map<Seq<char>, DeviceRecord>,
    refresh_error: Option<Seq<char>>,
)
    ensures
        merged(devices, Seq::empty(), refresh_error) is Ok,
        merged(devices, Seq::empty(), refresh_error)->Ok_0.0.device_nodes.len() == 0,
        merged(devices, Seq::empty(), refresh_error)->Ok_0.0.mounts.len() == 0,
        merged(devices, Seq::empty(), refresh_error)->Ok_0.0.additional_gids.len() == 0,
{
}

/// One more device that is there brings its own edits, behind all others;
/// and, right before them, the common edits of its spec, if it has any and no
/// device before it came from the same file.
pub proof fn law_one_more_device(
    devices: Map<Seq<char>, DeviceRecord>,
    ids: Seq<Seq<char>>,
    refresh_error: Option<Seq<char>>,
    id: Seq<char>,
)
    requires
        merged(devices, ids, refresh_error) is Ok,
        devices.contains_key(id),
    ensures
        merged(devices, ids.push(id), refresh_error) is Ok,
        ({
            let before = merged(devices, ids, refresh_error)->Ok_0.0;
            let after = merged(devices, ids.push(id), refresh_error)->Ok_0.0;
            let own = devices[id].edits;
            let first = forall|i: int|
                0 <= i < ids.len() ==> devices[#[trigger] ids[i]].spec.file
                    != devices[id].spec.file;
            if first && devices[id].spec.edits is Some {
                let common = devices[id].spec.edits->0;
                &&& after.device_nodes == before.device_nodes + common.device_nodes
                    + own.device_nodes
                &&& after.mounts == before.mounts + common.mounts + own.mounts
                &&& after.additional_gids == before.additional_gids + common.additional_gids
                    + own.additional_gids
            } else {
                &&& after.device_nodes == before.device_nodes + own.device_nodes
                &&& after.mounts == before.mounts + own.mounts
                &&& after.additional_gids == before.additional_gids + own.additional_gids
            }
        }),
{
    law_merged_spec_files(devices, ids, refresh_error, devices[id].spec.file);
    assert(ids.push(id).drop_last() =~= ids);
}

} // verus!
