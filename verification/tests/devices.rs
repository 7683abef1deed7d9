use container_device_interface::cache::Cache;
use openshell_core::cdi::{CdiContext, CdiError, CdiPathKind, CdiSpecDirectory};
use openshell_core::cdi_linux::{
    filesystem_path_kind, selected_cdi_devices, validate_context, FileTypeFlags,
};
use openshell_core::cdi_stub;
use openshell_core::devices::{build_cache, merge_selected_devices, missing_device_error};
use serde_json::Value;
use std::io::Write;
use std::path::Path;

fn write_yaml(dir: &Path, stem: &str, yaml: &str) -> tempfile::NamedTempFile {
    let mut file = tempfile::Builder::new()
        .prefix(stem)
        .suffix(".yaml")
        .rand_bytes(0)
        .tempfile_in(dir)
        .unwrap();
    file.write_all(yaml.as_bytes()).unwrap();
    file.flush().unwrap();
    file
}

fn spec_dir(path: &str) -> CdiSpecDirectory {
    CdiSpecDirectory::new(path.to_string(), "host".to_string())
}

fn strings(texts: &[&str]) -> Vec<String> {
    texts.iter().map(|text| (*text).to_string()).collect()
}

fn load(mut cache: Cache) -> (Cache, Option<String>) {
    let error = cache.refresh().err().map(|err| err.to_string());
    (cache, error)
}

/// The `path` fields of the document's device nodes, in order.
fn node_paths(document: &Value) -> Vec<String> {
    document["deviceNodes"]
        .as_array()
        .map(|nodes| {
            nodes
                .iter()
                .map(|node| node["path"].as_str().unwrap().to_string())
                .collect()
        })
        .unwrap_or_default()
}

const GPUS: &str = r#"
cdiVersion: 1.1.0
kind: nvidia.com/gpu
containerEdits:
  deviceNodes:
    - path: /dev/nvidiactl
  additionalGids: [44]
devices:
  - name: "0"
    containerEdits:
      deviceNodes:
        - path: /dev/nvidia0
  - name: "1"
    containerEdits:
      deviceNodes:
        - path: /dev/nvidia1
      mounts:
        - hostPath: /host/one
          containerPath: /opt/one
"#;

const NETWORK: &str = r#"
cdiVersion: 1.1.0
kind: example.com/net
devices:
  - name: eth
    containerEdits:
      deviceNodes:
        - path: /dev/net
"#;

#[test]
fn caches_are_prepared_before_they_are_loaded() {
    let dirs = [spec_dir("/etc//cdi/."), spec_dir("/var/run/cdi/"), spec_dir("/")];
    let (cache, error) = build_cache(&dirs, |cache: Cache| {
        assert_eq!(cache.spec_dirs, vec!["/etc/cdi", "/var/run/cdi", "/"]);
        assert!(!cache.auto_refresh);
        assert!(cache.devices.is_empty());
        (cache, Some("not read".to_string()))
    });
    assert_eq!(cache.spec_dirs.len(), 3);
    assert_eq!(error.as_deref(), Some("not read"));
}

#[test]
fn search_directories_are_cleaned() {
    for (path, searched) in [
        ("/a/../b", "/b"),
        ("/../..", "/"),
        ("/a/b/../../..", "/"),
        ("/a/./b//", "/a/b"),
        ("", "."),
        ("./", "."),
        ("a/..", "."),
        ("a/../..", ".."),
        ("../../a/../b", "../../b"),
        ("./a//b/", "a/b"),
    ] {
        build_cache(&[spec_dir(path)], |cache: Cache| {
            assert_eq!(cache.spec_dirs, vec![searched], "{path:?}");
            (cache, None)
        });
    }
}

#[test]
fn common_edits_of_a_spec_come_once() {
    let dir = tempfile::tempdir().unwrap();
    let _gpus = write_yaml(dir.path(), "gpus", GPUS);
    let _network = write_yaml(dir.path(), "network", NETWORK);
    let (mut cache, error) = build_cache(&[spec_dir(&dir.path().to_string_lossy())], load);
    assert_eq!(error, None);

    let mut merge = |ids: &[&str]| merge_selected_devices(&mut cache, &None, &strings(ids)).unwrap();
    let document = merge(&["nvidia.com/gpu=1", "example.com/net=eth", "nvidia.com/gpu=0"]);
    assert_eq!(
        node_paths(&document),
        vec!["/dev/nvidiactl", "/dev/nvidia1", "/dev/net", "/dev/nvidia0"]
    );
    assert_eq!(document["additionalGids"], Value::from(vec![44]));
    assert_eq!(document["mounts"][0]["containerPath"], Value::from("/opt/one"));

    assert_eq!(node_paths(&merge(&["example.com/net=eth"])), vec!["/dev/net"]);
    assert!(node_paths(&merge(&[])).is_empty());
}

#[test]
fn the_first_missing_device_is_reported() {
    let dir = tempfile::tempdir().unwrap();
    let _gpus = write_yaml(dir.path(), "gpus", GPUS);
    let (mut cache, _) = build_cache(&[spec_dir(&dir.path().to_string_lossy())], load);
    let ids = strings(&["nvidia.com/gpu=0", "nvidia.com/gpu=8", "nvidia.com/gpu=9"]);
    match merge_selected_devices(&mut cache, &None, &ids) {
        Err(CdiError::MissingDevice(device)) => assert_eq!(device, "nvidia.com/gpu=8"),
        other => panic!("unexpected result {other:?}"),
    }
    match merge_selected_devices(&mut cache, &Some("broken".to_string()), &ids) {
        Err(CdiError::MissingDeviceAfterRefresh {
            device,
            refresh_error,
        }) => {
            assert_eq!(device, "nvidia.com/gpu=8");
            assert_eq!(refresh_error, "broken");
        }
        other => panic!("unexpected result {other:?}"),
    }
    // A failed load does not matter to devices that were found.
    let found = merge_selected_devices(
        &mut cache,
        &Some("broken".to_string()),
        &strings(&["nvidia.com/gpu=0"]),
    );
    assert!(found.is_ok());
}

#[test]
fn lookups_do_not_read_directories_again() {
    let dir = tempfile::tempdir().unwrap();
    let (mut cache, _) = build_cache(&[spec_dir(&dir.path().to_string_lossy())], load);
    let _late = write_yaml(dir.path(), "gpus", GPUS);
    let ids = strings(&["nvidia.com/gpu=0"]);
    assert!(merge_selected_devices(&mut cache, &None, &ids).is_err());
    cache.auto_refresh = true;
    assert!(merge_selected_devices(&mut cache, &None, &ids).is_err());
    cache.refresh().unwrap();
    assert!(merge_selected_devices(&mut cache, &None, &ids).is_ok());
}

#[test]
fn missing_devices_name_a_failed_load() {
    assert!(matches!(
        missing_device_error("a/b=c", &None),
        CdiError::MissingDevice(device) if device == "a/b=c"
    ));
    assert!(matches!(
        missing_device_error("a/b=c", &Some("e".to_string())),
        CdiError::MissingDeviceAfterRefresh { device, refresh_error }
            if device == "a/b=c" && refresh_error == "e"
    ));
}

#[test]
fn devices_are_selected_once_in_order() {
    let ids = strings(&[" b ", "", "a", "\t", "b", "c\n", "a "]);
    let selected = selected_cdi_devices(&ids);
    assert_eq!(selected, vec!["b", "a", "c"]);
    assert_eq!(selected_cdi_devices(&selected), selected);
    assert_eq!(selected_cdi_devices(&ids[..3]), vec!["b", "a"]);
    assert!(selected_cdi_devices(&strings(&["", " "])).is_empty());
}

#[test]
fn the_version_is_checked_before_the_directories() {
    let mut context = CdiContext::new(Vec::new(), vec![spec_dir("relative")]);
    assert_eq!(context.version, 1);
    assert!(matches!(
        validate_context(&context),
        Err(CdiError::UnsafeSpecDir { .. })
    ));
    context.version = 0;
    assert!(matches!(
        validate_context(&context),
        Err(CdiError::UnsupportedContextVersion(0))
    ));
    assert!(validate_context(&CdiContext::new(Vec::new(), vec![spec_dir("/a/.")])).is_ok());
}

#[test]
fn path_kinds_follow_the_file_type() {
    let flags = |bits: [bool; 4]| FileTypeFlags {
        is_char_device: bits[0],
        is_block_device: bits[1],
        is_file: bits[2],
        is_dir: bits[3],
    };
    for (bits, kind) in [
        ([true, false, false, false], CdiPathKind::CharacterDevice),
        ([false, true, false, false], CdiPathKind::BlockDevice),
        ([false, false, true, false], CdiPathKind::File),
        ([false, false, false, true], CdiPathKind::Directory),
        ([false, false, false, false], CdiPathKind::Other),
    ] {
        let read = |path: &str| {
            assert_eq!(path, "/x");
            Some(flags(bits))
        };
        assert_eq!(filesystem_path_kind("/x", &read), Some(kind));
    }
    assert_eq!(filesystem_path_kind("/x", &|_: &str| None), None);
}

#[test]
fn other_platforms_resolve_nothing() {
    let context = CdiContext::new(strings(&["nvidia.com/gpu=0"]), Vec::new());
    assert!(matches!(
        cdi_stub::resolve_cdi_context(&context, &[]),
        Err(CdiError::UnsupportedPlatform)
    ));
}
