//! The CDI crate's cache, devices and container edits, with what this
//! library relies on of them.
//!
//! None of the declarations here is proved. Each says what the crate
//! `container_device_interface`, or `serde_json`, does.

use crate::cdi::PolicyEdits;
#[allow(unused_imports)]
use crate::paths::cleaned;
use container_device_interface::cache::{with_auto_refresh, Cache};
use container_device_interface::container_edits::ContainerEdits;
use container_device_interface::device::Device;
use container_device_interface::spec::Spec;
use container_device_interface::spec_dirs::with_spec_dirs;
use vstd::prelude::*;

verus! {

/// The crate's cache of the specs and devices that were found.
#[verifier::external_type_specification]
#[verifier::external_body]
pub struct ExCache(container_device_interface::cache::Cache);

/// The crate's device.
#[verifier::external_type_specification]
#[verifier::external_body]
pub struct ExDevice(container_device_interface::device::Device);

/// The crate's spec.
#[verifier::external_type_specification]
#[verifier::external_body]
pub struct ExSpec(container_device_interface::spec::Spec);

/// The crate's container edits.
#[verifier::external_type_specification]
#[verifier::external_body]
pub struct ExContainerEdits(container_device_interface::container_edits::ContainerEdits);

/// A JSON document.
#[verifier::external_type_specification]
#[verifier::external_body]
pub struct ExValue(serde_json::Value);

/// An error of the JSON crate.
#[verifier::external_type_specification]
#[verifier::external_body]
pub struct ExJsonError(serde_json::Error);

/// What matters of a spec.
pub struct SpecRecord {
    /// The file that the spec was read from.
    pub file: Seq<char>,
    /// The edits that go with every device of the spec, if it has any.
    pub edits: Option<PolicyEdits>,
}

/// What matters of a device.
pub struct DeviceRecord {
    /// The spec that defines the device.
    pub spec: SpecRecord,
    /// The edits of the device itself.
    pub edits: PolicyEdits,
}

/// The device nodes, mounts and groups that container edits hold, in order.
pub uninterp spec fn edits_held(edits: ContainerEdits) -> PolicyEdits;

/// The file and the common edits that a spec holds.
pub uninterp spec fn spec_held(spec: Spec) -> SpecRecord;

/// The spec and the edits that a device holds.
pub uninterp spec fn device_held(device: Device) -> DeviceRecord;

/// The devices that a cache holds, by their qualified names.
pub uninterp spec fn devices_held(cache: Cache) -> Map<Seq<char>, DeviceRecord>;

/// The directories that a refresh of the cache would search.
pub uninterp spec fn search_dirs(cache: Cache) -> Seq<Seq<char>>;

/// A lookup in the cache reads the directories again first.
pub uninterp spec fn refreshes_on_lookup(cache: Cache) -> bool;

/// The device nodes, mounts and groups that a JSON document lists under
/// `deviceNodes`, `mounts` and `additionalGids`.
pub uninterp spec fn edits_encoded(document: serde_json::Value) -> PolicyEdits;

/// No device at all.
pub open spec fn no_devices() -> Map<Seq<char>, DeviceRecord> {
    Map::empty()
}

/// `Cache::default`: a cache without devices and directories, which answers
/// lookups from memory.
#[verifier::external_body]
pub(crate) fn empty_cache() -> (cache: Cache)
    ensures
        devices_held(cache) == no_devices(),
        search_dirs(cache) == Seq::<Seq<char>>::empty(),
        !refreshes_on_lookup(cache),
{
    Cache::default()
}

/// `Cache::configure` with the option `with_spec_dirs`: the directories are
/// replaced by the given ones, each cleaned: `.` and doubled slashes are
/// dropped, and a `..` takes away the name before it.
#[verifier::external_body]
pub(crate) fn set_search_dirs(cache: &mut Cache, dirs: &[&str])
    ensures
        search_dirs(*final(cache)) == Seq::new(dirs@.len(), |i: int| cleaned(dirs@[i]@)),
        devices_held(*final(cache)) == devices_held(*old(cache)),
        refreshes_on_lookup(*final(cache)) == refreshes_on_lookup(*old(cache)),
{
    cache.configure(vec![with_spec_dirs(dirs)]);
}

/// `Cache::configure` with the option `with_auto_refresh`: whether a lookup
/// reads the directories again is set, and nothing else.
#[verifier::external_body]
pub(crate) fn set_refresh_on_lookup(cache: &mut Cache, on: bool)
    ensures
        refreshes_on_lookup(*final(cache)) == on,
        devices_held(*final(cache)) == devices_held(*old(cache)),
        search_dirs(*final(cache)) == search_dirs(*old(cache)),
{
    cache.configure(vec![with_auto_refresh(on)]);
}

/// `Cache::get_device`, and a copy of what it finds: the device that the
/// cache holds under the name. A cache that does not refresh on lookup stays
/// as it is.
#[verifier::external_body]
pub(crate) fn find_device(cache: &mut Cache, name: &str) -> (found: Option<Device>)
    requires
        !refreshes_on_lookup(*old(cache)),
    ensures
        devices_held(*final(cache)) == devices_held(*old(cache)),
        search_dirs(*final(cache)) == search_dirs(*old(cache)),
        !refreshes_on_lookup(*final(cache)),
        match found {
            Some(device) => devices_held(*old(cache)).contains_key(name@) && device_held(device)
                == devices_held(*old(cache))[name@],
            None => !devices_held(*old(cache)).contains_key(name@),
        },
{
    cache.get_device(name).cloned()
}

/// `Device::get_spec`: a copy of the spec that defines the device.
pub assume_specification[ Device::get_spec ](device: &Device) -> (spec: Spec)
    ensures
        spec_held(spec) == device_held(*device).spec,
;

/// `Device::edits`: a copy of the edits of the device itself.
pub assume_specification[ Device::edits ](device: &Device) -> (edits: ContainerEdits)
    ensures
        edits_held(edits) == device_held(*device).edits,
;

/// `Spec::get_path`: the file that the spec was read from.
pub assume_specification[ Spec::get_path ](spec: &Spec) -> (file: String)
    ensures
        file@ == spec_held(*spec).file,
;

/// `Spec::edits`: a copy of the edits that go with every device of the spec,
/// if it has any. The spec stays as it is.
pub assume_specification[ Spec::edits ](spec: &mut Spec) -> (edits: Option<ContainerEdits>)
    ensures
        spec_held(*final(spec)) == spec_held(*old(spec)),
        match edits {
            Some(edits) => spec_held(*old(spec)).edits == Some(edits_held(edits)),
            None => spec_held(*old(spec)).edits is None,
        },
;

/// `ContainerEdits::new`: edits of nothing.
pub assume_specification[ ContainerEdits::new ]() -> (edits: ContainerEdits)
    ensures
        edits_held(edits) == PolicyEdits::none(),
;

/// `ContainerEdits::append`, with its error as text: the lists of the other
/// edits are put behind those held already. It never fails.
#[verifier::external_body]
pub(crate) fn append_edits(edits: &mut ContainerEdits, others: ContainerEdits) -> (result: Result<
    (),
    String,
>)
    ensures
        result is Ok,
        edits_held(*final(edits)) == edits_held(*old(edits)).then_edits(edits_held(others)),
{
    edits.append(others).map_err(|error| error.to_string())
}

/// `serde_json::to_value` on the crate's edit model: its device nodes, mounts
/// and groups stand in the document. The model holds text, integers and flags
/// in structures and lists only, which can always be encoded.
#[verifier::external_body]
pub(crate) fn encode_edits(edits: &ContainerEdits) -> (result: Result<
    serde_json::Value,
    serde_json::Error,
>)
    ensures
        result is Ok,
        edits_encoded(result->Ok_0) == edits_held(*edits),
{
    serde_json::to_value(&edits.container_edits)
}

} // verus!
