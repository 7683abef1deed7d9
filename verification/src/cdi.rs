//! The data that CDI policy resolution takes and gives.
//!
//! CDI, the Container Device Interface, describes in spec files which device
//! nodes, mounts and groups a container needs to use a device. The types here
//! carry a request for such devices and the filesystem policy derived from it.

#[allow(unused_imports)]
use crate::text::texts;
use vstd::prelude::*;

verus! {

/// The version of [`CdiContext`] that this library understands.
pub const CDI_CONTEXT_VERSION: u32 = 1;

/// A directory that is searched for CDI spec files.
#[derive(Clone, Debug, PartialEq, Eq)]
pub struct CdiSpecDirectory {
    /// The directory as this process sees it.
    pub path: String,
    /// Where the directory comes from, for diagnostics only.
    pub source: String,
}

impl CdiSpecDirectory {
    /// A directory with its diagnostic source.
    pub fn new(path: String, source: String) -> (dir: Self)
        ensures
            dir.path == path,
            dir.source == source,
    {
        CdiSpecDirectory { path, source }
    }
}

/// A request for CDI devices.
#[derive(Clone, Debug, PartialEq, Eq)]
pub struct CdiContext {
    /// The version of this structure.
    pub version: u32,
    /// The identifiers of the requested devices, as they were written.
    pub selected_devices: Vec<String>,
    /// The directories that are searched for spec files.
    pub spec_dirs: Vec<CdiSpecDirectory>,
}

impl CdiContext {
    /// A request in the current version.
    pub fn new(selected_devices: Vec<String>, spec_dirs: Vec<CdiSpecDirectory>) -> (context: Self)
        ensures
            context.version == CDI_CONTEXT_VERSION,
            context.selected_devices == selected_devices,
            context.spec_dirs == spec_dirs,
    {
        CdiContext { version: CDI_CONTEXT_VERSION, selected_devices, spec_dirs }
    }
}

/// The filesystem policy that the requested devices need. Each list is
/// sorted and free of duplicates.
#[derive(Clone, Debug, PartialEq, Eq)]
pub struct CdiDerivedRequirements {
    /// Device nodes.
    pub device_node_paths: Vec<String>,
    /// Mounts that are only read.
    pub read_only_mount_paths: Vec<String>,
    /// Mounts that are also written.
    pub read_write_mount_paths: Vec<String>,
    /// Groups that the process joins.
    pub additional_gids: Vec<u32>,
}

/// What a [`CdiDerivedRequirements`] lists.
#[verifier::ext_equal]
pub struct RequirementLists {
    pub device_node_paths: Seq<Seq<char>>,
    pub read_only_mount_paths: Seq<Seq<char>>,
    pub read_write_mount_paths: Seq<Seq<char>>,
    pub additional_gids: Seq<u32>,
}

impl View for CdiDerivedRequirements {
    type V = RequirementLists;

    open spec fn view(&self) -> RequirementLists {
        RequirementLists {
            device_node_paths: texts(self.device_node_paths@),
            read_only_mount_paths: texts(self.read_only_mount_paths@),
            read_write_mount_paths: texts(self.read_write_mount_paths@),
            additional_gids: self.additional_gids@,
        }
    }
}

/// The lists of a request that needs nothing.
pub open spec fn no_requirements() -> RequirementLists {
    RequirementLists {
        device_node_paths: Seq::empty(),
        read_only_mount_paths: Seq::empty(),
        read_write_mount_paths: Seq::empty(),
        additional_gids: Seq::empty(),
    }
}

impl Default for CdiDerivedRequirements {
    /// Requirements of nothing.
    fn default() -> (requirements: Self)
        ensures
            requirements@ == no_requirements(),
    {
        let requirements = CdiDerivedRequirements {
            device_node_paths: Vec::new(),
            read_only_mount_paths: Vec::new(),
            read_write_mount_paths: Vec::new(),
            additional_gids: Vec::new(),
        };
        assert(requirements@ =~= no_requirements());
        requirements
    }
}

/// Why a request cannot be resolved.
#[derive(Debug)]
pub enum CdiError {
    /// Resolution is not available on this platform.
    UnsupportedPlatform,
    /// The request has a version that this library does not understand.
    UnsupportedContextVersion(u32),
    /// A spec directory is not a plain absolute path.
    UnsafeSpecDir { path: String, diagnostic_source: String, reason: &'static str },
    /// No spec defines the device.
    MissingDevice(String),
    /// No spec that could be loaded defines the device; loading reported a failure.
    MissingDeviceAfterRefresh { device: String, refresh_error: String },
    /// The edits of a device could not be combined with those before it.
    EditMerge { device: String, error: String },
    /// The combined edits could not be encoded.
    EditEncode { source: serde_json::Error },
    /// The encoded edits could not be decoded.
    EditDecode { source: serde_json::Error },
    /// A device node or mount path is not acceptable in a policy.
    UnsafePolicyPath { path: String, reason: &'static str },
    /// A mount asks for read-only and read-write access at once.
    ConflictingMountOptions { path: String },
    /// A path is asked for with different kinds of access.
    ConflictingAccess { path: String },
    /// A device node is no device.
    DeviceNodeNotDevice { path: String, kind: String },
    /// A writable mount has no entry in the allowlist.
    WritableMountNotAllowed { path: String },
    /// A writable mount is not a single file.
    WritableMountNotFile { path: String, kind: String },
}

/// What a [`CdiError`] reports.
pub enum CdiErrorView {
    UnsupportedPlatform,
    UnsupportedContextVersion(u32),
    UnsafeSpecDir { path: Seq<char>, diagnostic_source: Seq<char>, reason: Seq<char> },
    MissingDevice(Seq<char>),
    MissingDeviceAfterRefresh { device: Seq<char>, refresh_error: Seq<char> },
    EditMerge { device: Seq<char>, error: Seq<char> },
    EditEncode { source: serde_json::Error },
    EditDecode { source: serde_json::Error },
    UnsafePolicyPath { path: Seq<char>, reason: Seq<char> },
    ConflictingMountOptions { path: Seq<char> },
    ConflictingAccess { path: Seq<char> },
    DeviceNodeNotDevice { path: Seq<char>, kind: Seq<char> },
    WritableMountNotAllowed { path: Seq<char> },
    WritableMountNotFile { path: Seq<char>, kind: Seq<char> },
}

impl View for CdiError {
    type V = CdiErrorView;

    open spec fn view(&self) -> CdiErrorView {
        match *self {
            CdiError::UnsupportedPlatform => CdiErrorView::UnsupportedPlatform,
            CdiError::UnsupportedContextVersion(version) => CdiErrorView::UnsupportedContextVersion(
                version,
            ),
            CdiError::UnsafeSpecDir { path, diagnostic_source, reason } => CdiErrorView::UnsafeSpecDir {
                path: path@,
                diagnostic_source: diagnostic_source@,
                reason: reason@,
            },
            CdiError::MissingDevice(device) => CdiErrorView::MissingDevice(device@),
            CdiError::MissingDeviceAfterRefresh { device, refresh_error } =>
                CdiErrorView::MissingDeviceAfterRefresh {
                device: device@,
                refresh_error: refresh_error@,
            },
            CdiError::EditMerge { device, error } => CdiErrorView::EditMerge {
                device: device@,
                error: error@,
            },
            CdiError::EditEncode { source } => CdiErrorView::EditEncode { source },
            CdiError::EditDecode { source } => CdiErrorView::EditDecode { source },
            CdiError::UnsafePolicyPath { path, reason } => CdiErrorView::UnsafePolicyPath {
                path: path@,
                reason: reason@,
            },
            CdiError::ConflictingMountOptions { path } => CdiErrorView::ConflictingMountOptions {
                path: path@,
            },
            CdiError::ConflictingAccess { path } => CdiErrorView::ConflictingAccess { path: path@ },
            CdiError::DeviceNodeNotDevice { path, kind } => CdiErrorView::DeviceNodeNotDevice {
                path: path@,
                kind: kind@,
            },
            CdiError::WritableMountNotAllowed { path } => CdiErrorView::WritableMountNotAllowed {
                path: path@,
            },
            CdiError::WritableMountNotFile { path, kind } => CdiErrorView::WritableMountNotFile {
                path: path@,
                kind: kind@,
            },
        }
    }
}

/// The error of a result, if it failed.
pub open spec fn failure<T>(result: Result<T, CdiError>) -> Option<CdiErrorView> {
    match result {
        Ok(_) => None,
        Err(error) => Some(error@),
    }
}

/// What a resolution comes to: the lists, or the error.
pub open spec fn outcome(result: Result<CdiDerivedRequirements, CdiError>) -> Result<
    RequirementLists,
    CdiErrorView,
> {
    match result {
        Ok(requirements) => Ok(requirements@),
        Err(error) => Err(error@),
    }
}

/// The error that a resolution comes to, if it does.
pub open spec fn error_of(outcome: Result<RequirementLists, CdiErrorView>) -> Option<CdiErrorView> {
    match outcome {
        Ok(_) => None,
        Err(error) => Some(error),
    }
}

/// What is at a path.
#[derive(Clone, Copy, Debug, PartialEq, Eq, Structural)]
pub enum CdiPathKind {
    File,
    Directory,
    CharacterDevice,
    BlockDevice,
    Other,
}

impl CdiPathKind {
    /// The words for a kind in messages.
    pub open spec fn spec_text(self) -> Seq<char> {
        match self {
            CdiPathKind::File => "file"@,
            CdiPathKind::Directory => "directory"@,
            CdiPathKind::CharacterDevice => "character device"@,
            CdiPathKind::BlockDevice => "block device"@,
            CdiPathKind::Other => "other"@,
        }
    }

    /// The kind in words.
    pub fn to_text(self) -> (text: String)
        ensures
            text@ == self.spec_text(),
    {
        match self {
            CdiPathKind::File => "file".to_owned(),
            CdiPathKind::Directory => "directory".to_owned(),
            CdiPathKind::CharacterDevice => "character device".to_owned(),
            CdiPathKind::BlockDevice => "block device".to_owned(),
            CdiPathKind::Other => "other".to_owned(),
        }
    }
}

/// The words for what was found at a path, if anything was.
pub open spec fn kind_text(kind: Option<CdiPathKind>) -> Seq<char> {
    match kind {
        Some(kind) => kind.spec_text(),
        None => "missing"@,
    }
}

/// What was found at a path, in words.
pub fn describe_kind(kind: Option<CdiPathKind>) -> (text: String)
    ensures
        text@ == kind_text(kind),
{
    match kind {
        Some(kind) => kind.to_text(),
        None => "missing".to_owned(),
    }
}

/// The access that a mount gives.
#[derive(Clone, Copy, Debug, PartialEq, Eq, Structural)]
pub enum CdiAccess {
    ReadOnly,
    ReadWrite,
}

/// A device node that an edit adds.
#[derive(Clone, Debug, PartialEq, Eq)]
pub struct CdiDeviceNode {
    pub path: String,
}

/// A mount that an edit adds.
#[derive(Clone, Debug, PartialEq, Eq)]
pub struct CdiMount {
    pub container_path: String,
    pub options: Vec<String>,
}

/// The part of CDI container edits that matters for filesystem policy.
#[derive(Clone, Debug, PartialEq, Eq)]
pub struct CdiContainerEdits {
    pub device_nodes: Vec<CdiDeviceNode>,
    pub mounts: Vec<CdiMount>,
    pub additional_gids: Vec<u32>,
}

/// What a [`CdiMount`] says.
#[verifier::ext_equal]
pub struct MountEdit {
    pub container_path: Seq<char>,
    pub options: Seq<Seq<char>>,
}

/// What container edits say about the filesystem policy.
#[verifier::ext_equal]
pub struct PolicyEdits {
    pub device_nodes: Seq<Seq<char>>,
    pub mounts: Seq<MountEdit>,
    pub additional_gids: Seq<u32>,
}

impl View for CdiMount {
    type V = MountEdit;

    open spec fn view(&self) -> MountEdit {
        MountEdit { container_path: self.container_path@, options: texts(self.options@) }
    }
}

/// The paths of device nodes, in order.
pub open spec fn node_paths(nodes: Seq<CdiDeviceNode>) -> Seq<Seq<char>> {
    nodes.map_values(|node: CdiDeviceNode| node.path@)
}

/// What mounts say, in order.
pub open spec fn mount_edits(mounts: Seq<CdiMount>) -> Seq<MountEdit> {
    mounts.map_values(|mount: CdiMount| mount@)
}

impl View for CdiContainerEdits {
    type V = PolicyEdits;

    open spec fn view(&self) -> PolicyEdits {
        PolicyEdits {
            device_nodes: node_paths(self.device_nodes@),
            mounts: mount_edits(self.mounts@),
            additional_gids: self.additional_gids@,
        }
    }
}

impl PolicyEdits {
    /// Edits of nothing.
    pub open spec fn none() -> PolicyEdits {
        PolicyEdits {
            device_nodes: Seq::empty(),
            mounts: Seq::empty(),
            additional_gids: Seq::empty(),
        }
    }

    /// These edits, and others behind them.
    pub open spec fn then_edits(self, others: PolicyEdits) -> PolicyEdits {
        PolicyEdits {
            device_nodes: self.device_nodes + others.device_nodes,
            mounts: self.mounts + others.mounts,
            additional_gids: self.additional_gids + others.additional_gids,
        }
    }
}

/// The lists of a policy hold the texts of its strings, each at its place.
pub proof fn law_policy_lists_show_its_strings(requirements: CdiDerivedRequirements)
    ensures
        requirements@.device_node_paths.len() == requirements.device_node_paths@.len(),
        requirements@.read_only_mount_paths.len() == requirements.read_only_mount_paths@.len(),
        requirements@.read_write_mount_paths.len() == requirements.read_write_mount_paths@.len(),
        requirements@.additional_gids == requirements.additional_gids@,
        forall|i: int|
            0 <= i < requirements.device_node_paths@.len()
                ==> #[trigger] requirements@.device_node_paths[i]
                == requirements.device_node_paths@[i]@,
        forall|i: int|
            0 <= i < requirements.read_only_mount_paths@.len()
                ==> #[trigger] requirements@.read_only_mount_paths[i]
                == requirements.read_only_mount_paths@[i]@,
        forall|i: int|
            0 <= i < requirements.read_write_mount_paths@.len()
                ==> #[trigger] requirements@.read_write_mount_paths[i]
                == requirements.read_write_mount_paths@[i]@,
{
}

/// The empty policy lists nothing.
pub proof fn law_empty_policy_lists_nothing()
    ensures
        no_requirements().device_node_paths.len() == 0,
        no_requirements().read_only_mount_paths.len() == 0,
        no_requirements().read_write_mount_paths.len() == 0,
        no_requirements().additional_gids.len() == 0,
{
}

/// What is read off container edits are their entries, each at its place and
/// as it was written.
pub proof fn law_edits_show_their_entries(edits: CdiContainerEdits)
    ensures
        edits@.device_nodes.len() == edits.device_nodes@.len(),
        forall|i: int|
            0 <= i < edits.device_nodes@.len() ==> #[trigger] edits@.device_nodes[i]
                == edits.device_nodes@[i].path@,
        edits@.mounts.len() == edits.mounts@.len(),
        forall|i: int|
            0 <= i < edits.mounts@.len() ==> {
                let mount = edits.mounts@[i];
                &&& (#[trigger] edits@.mounts[i]).container_path == mount.container_path@
                &&& edits@.mounts[i].options.len() == mount.options@.len()
                &&& forall|j: int|
                    0 <= j < mount.options@.len() ==> #[trigger] edits@.mounts[i].options[j]
                        == mount.options@[j]@
            },
        edits@.additional_gids == edits.additional_gids@,
{
}

/// Edits followed by others have the entries of the first and then those of
/// the second, in each of their lists.
pub proof fn law_edits_follow_each_other(first: PolicyEdits, second: PolicyEdits)
    ensures
        first.then_edits(second).device_nodes == first.device_nodes + second.device_nodes,
        first.then_edits(second).mounts == first.mounts + second.mounts,
        first.then_edits(second).additional_gids == first.additional_gids + second.additional_gids,
        PolicyEdits::none().then_edits(second) == second,
        second.then_edits(PolicyEdits::none()) == second,
{
    assert(PolicyEdits::none().then_edits(second) =~= second);
    assert(second.then_edits(PolicyEdits::none()) =~= second);
}

/// An error shows what it was made with, and shows nothing else.
pub proof fn law_errors_show_their_contents(error: CdiError)
    ensures
        match (error, error@) {
            (CdiError::UnsupportedPlatform, CdiErrorView::UnsupportedPlatform) => true,
            (
                CdiError::UnsupportedContextVersion(version),
                CdiErrorView::UnsupportedContextVersion(shown),
            ) => shown == version,
            (
                CdiError::UnsafeSpecDir { path, diagnostic_source, reason },
                CdiErrorView::UnsafeSpecDir { path: p, diagnostic_source: d, reason: r },
            ) => p == path@ && d == diagnostic_source@ && r == reason@,
            (CdiError::MissingDevice(device), CdiErrorView::MissingDevice(shown)) => shown
                == device@,
            (
                CdiError::MissingDeviceAfterRefresh { device, refresh_error },
                CdiErrorView::MissingDeviceAfterRefresh { device: d, refresh_error: r },
            ) => d == device@ && r == refresh_error@,
            (
                CdiError::EditMerge { device, error },
                CdiErrorView::EditMerge { device: d, error: e },
            ) => d == device@ && e == error@,
            (CdiError::EditEncode { source }, CdiErrorView::EditEncode { source: s }) => s
                == source,
            (CdiError::EditDecode { source }, CdiErrorView::EditDecode { source: s }) => s
                == source,
            (
                CdiError::UnsafePolicyPath { path, reason },
                CdiErrorView::UnsafePolicyPath { path: p, reason: r },
            ) => p == path@ && r == reason@,
            (
                CdiError::ConflictingMountOptions { path },
                CdiErrorView::ConflictingMountOptions { path: p },
            ) => p == path@,
            (
                CdiError::ConflictingAccess { path },
                CdiErrorView::ConflictingAccess { path: p },
            ) => p == path@,
            (
                CdiError::DeviceNodeNotDevice { path, kind },
                CdiErrorView::DeviceNodeNotDevice { path: p, kind: k },
            ) => p == path@ && k == kind@,
            (
                CdiError::WritableMountNotAllowed { path },
                CdiErrorView::WritableMountNotAllowed { path: p },
            ) => p == path@,
            (
                CdiError::WritableMountNotFile { path, kind },
                CdiErrorView::WritableMountNotFile { path: p, kind: k },
            ) => p == path@ && k == kind@,
            _ => false,
        },
{
}

/// A result fails with its error and with no other, and succeeds otherwise.
pub proof fn law_results_show_their_ends(
    result: Result<CdiDerivedRequirements, CdiError>,
)
    ensures
        match result {
            Ok(requirements) => {
                &&& outcome(result) == Ok::<RequirementLists, CdiErrorView>(requirements@)
                &&& failure(result) is None
                &&& error_of(outcome(result)) is None
            },
            Err(error) => {
                &&& outcome(result) == Err::<RequirementLists, CdiErrorView>(error@)
                &&& failure(result) == Some(error@)
                &&& error_of(outcome(result)) == Some(error@)
            },
        },
{
}

/// Each kind has its own words, and nothing found has others.
pub proof fn law_kinds_have_words(kind: Option<CdiPathKind>)
    ensures
        kind_text(kind) == match kind {
            None => "missing"@,
            Some(CdiPathKind::File) => "file"@,
            Some(CdiPathKind::Directory) => "directory"@,
            Some(CdiPathKind::CharacterDevice) => "character device"@,
            Some(CdiPathKind::BlockDevice) => "block device"@,
            Some(CdiPathKind::Other) => "other"@,
        },
{
}

} // verus!
