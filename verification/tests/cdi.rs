use container_device_interface::cache::Cache;
use openshell_core::cdi::{
    CdiContainerEdits, CdiContext, CdiDerivedRequirements, CdiDeviceNode, CdiError, CdiMount,
    CdiPathKind, CdiSpecDirectory,
};
use openshell_core::cdi_linux::{
    resolve_cdi_context, resolve_cdi_context_with_path_kind, FileTypeFlags,
};
use serde_json::Value;
use std::collections::BTreeMap;
use std::io::Write;
use std::path::Path;

fn write_spec(dir: &Path, name: &str, yaml: &str) -> tempfile::NamedTempFile {
    let (stem, suffix) = name.split_at(name.len() - ".yaml".len());
    let mut file = tempfile::Builder::new()
        .prefix(stem)
        .suffix(suffix)
        .rand_bytes(0)
        .tempfile_in(dir)
        .unwrap();
    file.write_all(yaml.as_bytes()).unwrap();
    file.flush().unwrap();
    file
}

fn context(dir: &Path, selected_devices: &[&str]) -> CdiContext {
    CdiContext::new(
        selected_devices
            .iter()
            .map(|device| (*device).to_string())
            .collect(),
        vec![CdiSpecDirectory::new(
            dir.to_string_lossy().into_owned(),
            "/host/cdi".to_string(),
        )],
    )
}

fn refresh(mut cache: Cache) -> (Cache, Option<String>) {
    let refresh_error = cache.refresh().err().map(|err| err.to_string());
    (cache, refresh_error)
}

fn decode(document: Value) -> Result<CdiContainerEdits, serde_json::Error> {
    let mut fields: BTreeMap<String, Value> = serde_json::from_value(document)?;
    let mut list = |name: &str| fields.remove(name).unwrap_or(Value::Array(Vec::new()));
    let nodes: Vec<BTreeMap<String, Value>> = serde_json::from_value(list("deviceNodes"))?;
    let mounts: Vec<BTreeMap<String, Value>> = serde_json::from_value(list("mounts"))?;
    let additional_gids: Vec<u32> = serde_json::from_value(list("additionalGids"))?;
    let mut edits = CdiContainerEdits {
        device_nodes: Vec::new(),
        mounts: Vec::new(),
        additional_gids,
    };
    for mut node in nodes {
        let path = node.remove("path").unwrap_or(Value::Null);
        edits.device_nodes.push(CdiDeviceNode {
            path: serde_json::from_value(path)?,
        });
    }
    for mut mount in mounts {
        let path = mount.remove("containerPath").unwrap_or(Value::Null);
        let options = mount.remove("options").unwrap_or(Value::Array(Vec::new()));
        edits.mounts.push(CdiMount {
            container_path: serde_json::from_value(path)?,
            options: serde_json::from_value(options)?,
        });
    }
    Ok(edits)
}

fn resolve_with_kind(
    context: &CdiContext,
    writable: &[&str],
    kind: impl Fn(&str) -> Option<CdiPathKind>,
) -> Result<CdiDerivedRequirements, CdiError> {
    let writable_file_allowlist: Vec<String> =
        writable.iter().map(|path| (*path).to_string()).collect();
    resolve_cdi_context_with_path_kind(context, &writable_file_allowlist, refresh, decode, kind)
}

fn always_missing(_: &str) -> Option<CdiPathKind> {
    None
}

fn fake_device_node(path: &str) -> Option<CdiPathKind> {
    path.starts_with("/dev/")
        .then_some(CdiPathKind::CharacterDevice)
}

#[test]
fn resolves_native_single_device_requirements() {
    let dir = tempfile::tempdir().unwrap();
    let _spec = write_spec(
        dir.path(),
        "nvidia.yaml",
        r#"
cdiVersion: 0.6.0
kind: nvidia.com/gpu
devices:
  - name: "0"
    containerEdits:
      deviceNodes:
        - path: /dev/nvidiactl
        - path: /dev/nvidia0
      mounts:
        - hostPath: /host/libcuda.so.1
          containerPath: /usr/local/cuda/lib64/libcuda.so.1
"#,
    );

    let requirements = resolve_with_kind(
        &context(dir.path(), &["nvidia.com/gpu=0"]),
        &[],
        fake_device_node,
    )
    .unwrap();

    assert_eq!(
        requirements.device_node_paths,
        vec!["/dev/nvidia0", "/dev/nvidiactl"]
    );
    assert_eq!(
        requirements.read_only_mount_paths,
        vec!["/usr/local/cuda/lib64/libcuda.so.1"]
    );
}

#[test]
fn resolves_native_all_device_requirements() {
    let dir = tempfile::tempdir().unwrap();
    let _spec = write_spec(
        dir.path(),
        "nvidia.yaml",
        r"
cdiVersion: 1.1.0
kind: nvidia.com/gpu
devices:
  - name: all
    containerEdits:
      deviceNodes:
        - path: /dev/nvidiactl
        - path: /dev/nvidia0
        - path: /dev/nvidia1
",
    );

    let requirements = resolve_with_kind(
        &context(dir.path(), &["nvidia.com/gpu=all"]),
        &[],
        fake_device_node,
    )
    .unwrap();

    assert_eq!(
        requirements.device_node_paths,
        vec!["/dev/nvidia0", "/dev/nvidia1", "/dev/nvidiactl"]
    );
}

#[test]
fn resolves_wsl_shape_requirements() {
    let dir = tempfile::tempdir().unwrap();
    let _spec = write_spec(
        dir.path(),
        "wsl.yaml",
        r"
cdiVersion: 1.1.0
kind: nvidia.com/gpu
devices:
  - name: all
    containerEdits:
      deviceNodes:
        - path: /dev/dxg
      mounts:
        - hostPath: /host/wsl/lib/libcuda.so.1
          containerPath: /usr/lib/wsl/lib/libcuda.so.1
",
    );

    let requirements = resolve_with_kind(
        &context(dir.path(), &["nvidia.com/gpu=all"]),
        &[],
        fake_device_node,
    )
    .unwrap();

    assert_eq!(requirements.device_node_paths, vec!["/dev/dxg"]);
    assert_eq!(
        requirements.read_only_mount_paths,
        vec!["/usr/lib/wsl/lib/libcuda.so.1"]
    );
}

#[test]
fn resolves_tegra_shape_requirements_and_gids() {
    let dir = tempfile::tempdir().unwrap();
    let _spec = write_spec(
        dir.path(),
        "tegra.yaml",
        r#"
cdiVersion: 1.1.0
kind: nvidia.com/gpu
containerEdits:
  additionalGids: [44]
devices:
  - name: "0"
    containerEdits:
      deviceNodes:
        - path: /dev/nvmap
        - path: /dev/nvhost-gpu
"#,
    );

    let requirements = resolve_with_kind(
        &context(dir.path(), &["nvidia.com/gpu=0"]),
        &[],
        fake_device_node,
    )
    .unwrap();

    assert_eq!(requirements.additional_gids, vec![44]);
    assert_eq!(
        requirements.device_node_paths,
        vec!["/dev/nvhost-gpu", "/dev/nvmap"]
    );
}

#[test]
fn accepts_writable_single_file_mount_with_explicit_policy_opt_in() {
    let dir = tempfile::tempdir().unwrap();
    let _spec = write_spec(
        dir.path(),
        "rw-file.yaml",
        r#"
cdiVersion: 1.1.0
kind: nvidia.com/gpu
devices:
  - name: "0"
    containerEdits:
      mounts:
        - hostPath: /host/nvidia/cache.db
          containerPath: /opt/nvidia/cache.db
          options: [rw]
"#,
    );

    let requirements = resolve_with_kind(
        &context(dir.path(), &["nvidia.com/gpu=0"]),
        &["/opt/nvidia/cache.db"],
        |path| (path == "/opt/nvidia/cache.db").then_some(CdiPathKind::File),
    )
    .unwrap();

    assert_eq!(
        requirements.read_write_mount_paths,
        vec!["/opt/nvidia/cache.db"]
    );
}

#[test]
fn rejects_writable_directory_mount() {
    let dir = tempfile::tempdir().unwrap();
    let _spec = write_spec(
        dir.path(),
        "rw-dir.yaml",
        r#"
cdiVersion: 1.1.0
kind: nvidia.com/gpu
devices:
  - name: "0"
    containerEdits:
      mounts:
        - hostPath: /host/nvidia/cache
          containerPath: /opt/nvidia/cache
          options: [rw]
"#,
    );

    let err = resolve_with_kind(
        &context(dir.path(), &["nvidia.com/gpu=0"]),
        &["/opt/nvidia/cache"],
        |path| (path == "/opt/nvidia/cache").then_some(CdiPathKind::Directory),
    )
    .unwrap_err();

    assert!(matches!(err, CdiError::WritableMountNotFile { .. }));
}

#[test]
fn rejects_missing_selected_device() {
    let dir = tempfile::tempdir().unwrap();
    let _spec = write_spec(
        dir.path(),
        "nvidia.yaml",
        r#"
cdiVersion: 1.1.0
kind: nvidia.com/gpu
devices:
  - name: "0"
    containerEdits:
      env:
        - OPEN_SHELL_TEST=1
"#,
    );

    let err = resolve_with_kind(
        &context(dir.path(), &["nvidia.com/gpu=1"]),
        &[],
        always_missing,
    )
    .unwrap_err();

    assert!(matches!(err, CdiError::MissingDevice(device) if device == "nvidia.com/gpu=1"));
}

#[test]
fn reports_refresh_errors_when_requested_device_is_missing() {
    let dir = tempfile::tempdir().unwrap();
    let _spec = write_spec(dir.path(), "broken.yaml", "kind: [");

    let err = resolve_with_kind(
        &context(dir.path(), &["nvidia.com/gpu=0"]),
        &[],
        fake_device_node,
    )
    .unwrap_err();

    assert!(
        matches!(err, CdiError::MissingDeviceAfterRefresh { device, refresh_error }
            if device == "nvidia.com/gpu=0" && !refresh_error.is_empty())
    );
}

#[test]
fn empty_selection_is_noop() {
    let dir = tempfile::tempdir().unwrap();
    let requirements = resolve_with_kind(&context(dir.path(), &[]), &[], always_missing)
        .expect("empty selection should resolve to empty requirements");

    assert_eq!(requirements, CdiDerivedRequirements::default());
}

#[test]
fn empty_spec_dirs_are_noop() {
    let context = CdiContext::new(vec!["nvidia.com/gpu=0".to_string()], Vec::new());

    let requirements = resolve_with_kind(&context, &[], always_missing)
        .expect("empty spec dirs should resolve to empty requirements");

    assert_eq!(requirements, CdiDerivedRequirements::default());
}

#[test]
fn defers_device_id_shape_to_upstream_resolution() {
    let dir = tempfile::tempdir().unwrap();
    let _spec = write_spec(
        dir.path(),
        "nvidia.yaml",
        r#"
cdiVersion: 1.1.0
kind: nvidia.com/gpu
devices:
  - name: "0"
    containerEdits:
      env:
        - OPEN_SHELL_TEST=1
"#,
    );

    let err =
        resolve_with_kind(&context(dir.path(), &["not-a-cdi-id"]), &[], always_missing).unwrap_err();

    assert!(matches!(err, CdiError::MissingDevice(device) if device == "not-a-cdi-id"));
}

#[test]
fn rejects_unsafe_policy_paths() {
    for path in [
        "relative", "/dev", "/proc", "/sys", "/run", "/usr", "/a/../b",
    ] {
        let dir = tempfile::tempdir().unwrap();
        let _spec = write_spec(
            dir.path(),
            "unsafe.yaml",
            &format!(
                r#"
cdiVersion: 1.1.0
kind: nvidia.com/gpu
devices:
  - name: "0"
    containerEdits:
      deviceNodes:
        - path: {path}
"#
            ),
        );

        let err = resolve_with_kind(
            &context(dir.path(), &["nvidia.com/gpu=0"]),
            &[],
            always_missing,
        )
        .unwrap_err();

        assert!(
            matches!(err, CdiError::UnsafePolicyPath { .. }),
            "expected unsafe path error for {path}, got {err:?}"
        );
    }
}

#[test]
fn rejects_duplicate_access_conflicts() {
    let dir = tempfile::tempdir().unwrap();
    let _spec = write_spec(
        dir.path(),
        "conflict.yaml",
        r#"
cdiVersion: 1.1.0
kind: nvidia.com/gpu
devices:
  - name: "0"
    containerEdits:
      deviceNodes:
        - path: /dev/nvidia0
      mounts:
        - hostPath: /host/dev/nvidia0
          containerPath: /dev/nvidia0
          options: [ro]
"#,
    );

    let err = resolve_with_kind(
        &context(dir.path(), &["nvidia.com/gpu=0"]),
        &[],
        fake_device_node,
    )
    .unwrap_err();

    assert!(matches!(err, CdiError::ConflictingAccess { .. }));
}

#[test]
fn skips_root_additional_gid() {
    let dir = tempfile::tempdir().unwrap();
    let _spec = write_spec(
        dir.path(),
        "root-gid.yaml",
        r#"
cdiVersion: 1.1.0
kind: nvidia.com/gpu
devices:
  - name: "0"
    containerEdits:
      additionalGids: [0, 44]
"#,
    );

    let requirements = resolve_with_kind(
        &context(dir.path(), &["nvidia.com/gpu=0"]),
        &[],
        always_missing,
    )
    .unwrap();

    assert_eq!(requirements.additional_gids, vec![44]);
}

#[test]
fn rejects_device_node_that_is_not_device() {
    let dir = tempfile::tempdir().unwrap();
    let _spec = write_spec(
        dir.path(),
        "regular-file-node.yaml",
        r#"
cdiVersion: 1.1.0
kind: nvidia.com/gpu
devices:
  - name: "0"
    containerEdits:
      deviceNodes:
        - path: /opt/nvidia/not-a-device
"#,
    );

    let err = resolve_with_kind(&context(dir.path(), &["nvidia.com/gpu=0"]), &[], |path| {
        (path == "/opt/nvidia/not-a-device").then_some(CdiPathKind::File)
    })
    .unwrap_err();

    assert!(matches!(err, CdiError::DeviceNodeNotDevice { .. }));
}

#[test]
fn bad_requests_are_refused_without_reading_directories() {
    let mut wrong_version = CdiContext::new(
        vec!["nvidia.com/gpu=0".to_string()],
        vec![CdiSpecDirectory::new("/etc/cdi".to_string(), "host".to_string())],
    );
    wrong_version.version = 7;
    let err = resolve_cdi_context_with_path_kind(
        &wrong_version,
        &[],
        |_| panic!("no directory may be read"),
        |_| panic!("nothing may be decoded"),
        |_: &str| panic!("no path may be asked about"),
    )
    .unwrap_err();
    assert!(matches!(err, CdiError::UnsupportedContextVersion(7)));

    for (path, expected) in [
        ("etc/cdi", "path must be absolute"),
        ("/etc/../cdi", "path must not contain '..'"),
    ] {
        let unsafe_dir = CdiContext::new(
            vec!["nvidia.com/gpu=0".to_string()],
            vec![
                CdiSpecDirectory::new("/etc/cdi".to_string(), "first".to_string()),
                CdiSpecDirectory::new(path.to_string(), "second".to_string()),
            ],
        );
        let err = resolve_cdi_context_with_path_kind(
            &unsafe_dir,
            &[],
            |_| panic!("no directory may be read"),
            |_| panic!("nothing may be decoded"),
            |_: &str| panic!("no path may be asked about"),
        )
        .unwrap_err();
        assert!(
            matches!(err, CdiError::UnsafeSpecDir { path: p, diagnostic_source, reason }
                if p == path && diagnostic_source == "second" && reason == expected)
        );
    }
}

#[test]
fn decoding_failures_are_reported() {
    let dir = tempfile::tempdir().unwrap();
    let _spec = write_spec(
        dir.path(),
        "nvidia.yaml",
        r#"
cdiVersion: 1.1.0
kind: nvidia.com/gpu
devices:
  - name: "0"
    containerEdits:
      env:
        - OPEN_SHELL_TEST=1
"#,
    );
    let err = resolve_cdi_context_with_path_kind(
        &context(dir.path(), &["nvidia.com/gpu=0"]),
        &[],
        refresh,
        |_| Err(serde_json::from_str::<u32>("not a number").unwrap_err()),
        always_missing,
    )
    .unwrap_err();
    assert!(matches!(err, CdiError::EditDecode { .. }));
}

#[test]
fn path_kinds_come_from_file_types() {
    let dir = tempfile::tempdir().unwrap();
    let _spec = write_spec(
        dir.path(),
        "mixed.yaml",
        r#"
cdiVersion: 1.1.0
kind: nvidia.com/gpu
devices:
  - name: "0"
    containerEdits:
      deviceNodes:
        - path: /dev/nvidia0
      mounts:
        - hostPath: /host/cache.db
          containerPath: /opt//nvidia/./cache.db/
          options: [RW, nosuid]
        - hostPath: /host/lib.so
          containerPath: /opt/nvidia/lib.so
"#,
    );
    let file_type = |path: &str| {
        let blank = FileTypeFlags {
            is_char_device: false,
            is_block_device: false,
            is_file: false,
            is_dir: false,
        };
        match path {
            "/dev/nvidia0" => Some(FileTypeFlags { is_block_device: true, ..blank }),
            "/opt/nvidia/cache.db" => Some(FileTypeFlags { is_file: true, ..blank }),
            _ => None,
        }
    };
    let requirements = resolve_cdi_context(
        &context(dir.path(), &[" nvidia.com/gpu=0 ", "nvidia.com/gpu=0", "  "]),
        &["/opt/nvidia//cache.db".to_string()],
        refresh,
        decode,
        file_type,
    )
    .unwrap();
    assert_eq!(requirements.device_node_paths, vec!["/dev/nvidia0"]);
    assert_eq!(requirements.read_only_mount_paths, vec!["/opt/nvidia/lib.so"]);
    assert_eq!(requirements.read_write_mount_paths, vec!["/opt/nvidia/cache.db"]);
    assert!(requirements.additional_gids.is_empty());
}

#[test]
fn requests_for_nothing_ask_nothing() {
    let dir = CdiSpecDirectory::new("/etc/cdi".to_string(), "host".to_string());
    let nothing_selected = CdiContext::new(vec![" ".to_string()], vec![dir]);
    let nowhere_to_look = CdiContext::new(vec!["nvidia.com/gpu=0".to_string()], Vec::new());
    for context in [nothing_selected, nowhere_to_look] {
        let requirements = resolve_cdi_context(
            &context,
            &[],
            |_| panic!("no directory may be read"),
            |_| panic!("nothing may be decoded"),
            |_: &str| panic!("no file type may be read"),
        )
        .unwrap();
        assert_eq!(requirements, CdiDerivedRequirements::default());
    }
}

#[test]
fn missing_devices_are_reported_before_anything_is_decoded() {
    let dir = tempfile::tempdir().unwrap();
    let err = resolve_cdi_context(
        &context(dir.path(), &["nvidia.com/gpu=0"]),
        &[],
        refresh,
        |_| panic!("nothing may be decoded"),
        |_: &str| panic!("no file type may be read"),
    )
    .unwrap_err();
    assert!(matches!(err, CdiError::MissingDevice(device) if device == "nvidia.com/gpu=0"));
}

#[test]
fn the_same_request_comes_to_the_same() {
    let dir = tempfile::tempdir().unwrap();
    let _spec = write_spec(
        dir.path(),
        "nvidia.yaml",
        r#"
cdiVersion: 1.1.0
kind: nvidia.com/gpu
devices:
  - name: "0"
    containerEdits:
      deviceNodes:
        - path: /dev/nvidia0
      mounts:
        - hostPath: /host/state
          containerPath: /opt/state
          options: [rw]
"#,
    );
    let kind = |path: &str| {
        Some(if path.starts_with("/dev/") {
            CdiPathKind::CharacterDevice
        } else {
            CdiPathKind::File
        })
    };
    let plain = context(dir.path(), &["nvidia.com/gpu=0"]);
    let spaced = context(dir.path(), &["\tnvidia.com/gpu=0 ", "", "nvidia.com/gpu=0"]);
    let first = resolve_with_kind(&plain, &["/opt/state"], kind).unwrap();
    // Once more, spelled otherwise, and with a longer allowlist.
    assert_eq!(resolve_with_kind(&plain, &["/opt/state"], kind).unwrap(), first);
    assert_eq!(resolve_with_kind(&spaced, &["/opt/state"], kind).unwrap(), first);
    assert_eq!(
        resolve_with_kind(&plain, &["/etc/x", "/opt//state"], kind).unwrap(),
        first
    );
}
