use openshell_core::accumulator::RequirementAccumulator;
use openshell_core::cdi::{
    describe_kind, CdiAccess, CdiContainerEdits, CdiDerivedRequirements, CdiDeviceNode, CdiError,
    CdiMount, CdiPathKind,
};
use openshell_core::collect::{accumulate_requirements, derive_requirements, skipped_root_groups};
use openshell_core::policy::{mount_access, normalize_policy_path, validate_absolute_no_parent};
use std::cell::RefCell;

fn strings(texts: &[&str]) -> Vec<String> {
    texts.iter().map(|text| (*text).to_string()).collect()
}

fn edits(nodes: &[&str], mounts: &[(&str, &[&str])], gids: &[u32]) -> CdiContainerEdits {
    CdiContainerEdits {
        device_nodes: nodes
            .iter()
            .map(|path| CdiDeviceNode {
                path: (*path).to_string(),
            })
            .collect(),
        mounts: mounts
            .iter()
            .map(|(path, options)| CdiMount {
                container_path: (*path).to_string(),
                options: strings(options),
            })
            .collect(),
        additional_gids: gids.to_vec(),
    }
}

/// Device nodes under /dev, directories where a path ends in `.d`, nothing
/// under /missing, and files elsewhere.
fn kind(path: &str) -> Option<CdiPathKind> {
    if path.starts_with("/dev/") {
        Some(CdiPathKind::CharacterDevice)
    } else if path.starts_with("/missing/") {
        None
    } else if path.ends_with(".d") {
        Some(CdiPathKind::Directory)
    } else {
        Some(CdiPathKind::File)
    }
}

fn derive(
    edits: &CdiContainerEdits,
    allowlist: &[&str],
) -> Result<CdiDerivedRequirements, CdiError> {
    derive_requirements(edits, &strings(allowlist), &kind)
}

#[test]
fn plain_absolute_paths_are_accepted() {
    for path in ["/", "/a", "/a/./b", "//a//", "/a/..b", "/a/..."] {
        assert_eq!(validate_absolute_no_parent(path), Ok(()));
    }
    for path in ["", "a", "./a", "../a", "a/.."] {
        assert_eq!(
            validate_absolute_no_parent(path),
            Err("path must be absolute")
        );
    }
    for path in ["/..", "/a/../b", "/a/.."] {
        assert_eq!(
            validate_absolute_no_parent(path),
            Err("path must not contain '..'")
        );
    }
}

fn refusal(path: &str) -> &'static str {
    match normalize_policy_path(path) {
        Err(CdiError::UnsafePolicyPath {
            path: reported,
            reason,
        }) => {
            assert_eq!(reported, path);
            reason
        }
        other => panic!("unexpected result {other:?}"),
    }
}

#[test]
fn policy_paths_are_normalized() {
    assert_eq!(
        normalize_policy_path("/dev//nvidia0/").unwrap(),
        "/dev/nvidia0"
    );
    assert_eq!(normalize_policy_path("/./usr/lib").unwrap(), "/usr/lib");
    assert_eq!(normalize_policy_path("/devices").unwrap(), "/devices");
    assert_eq!(normalize_policy_path("/etc").unwrap(), "/etc");
}

#[test]
fn unsafe_policy_paths_are_refused_as_written() {
    assert_eq!(refusal("dev/nvidia0"), "path must be absolute");
    assert_eq!(refusal("/dev/../etc"), "path must not contain '..'");
    for root in ["/", "/dev", "/proc", "/sys", "/run", "/usr"] {
        assert_eq!(refusal(root), "broad root path is not allowed");
    }
    assert_eq!(refusal("//dev/./"), "broad root path is not allowed");
}

#[test]
fn mount_options_decide_access() {
    let access = |options: &[&str]| mount_access("/a", &strings(options));
    assert_eq!(access(&[]).unwrap(), CdiAccess::ReadOnly);
    assert_eq!(access(&["bind", "nosuid"]).unwrap(), CdiAccess::ReadOnly);
    assert_eq!(access(&["ro", "RO"]).unwrap(), CdiAccess::ReadOnly);
    assert_eq!(access(&["bind", "Rw"]).unwrap(), CdiAccess::ReadWrite);
    assert_eq!(access(&["rw,bind"]).unwrap(), CdiAccess::ReadOnly);
    for options in [["ro", "rw"], ["RW", "Ro"]] {
        match access(&options) {
            Err(CdiError::ConflictingMountOptions { path }) => assert_eq!(path, "/a"),
            other => panic!("unexpected result {other:?}"),
        }
    }
}

#[test]
fn kinds_have_words() {
    assert_eq!(CdiPathKind::File.to_text(), "file");
    assert_eq!(CdiPathKind::Directory.to_text(), "directory");
    assert_eq!(CdiPathKind::CharacterDevice.to_text(), "character device");
    assert_eq!(CdiPathKind::BlockDevice.to_text(), "block device");
    assert_eq!(CdiPathKind::Other.to_text(), "other");
    assert_eq!(describe_kind(None), "missing");
    assert_eq!(describe_kind(Some(CdiPathKind::Other)), "other");
}

#[test]
fn device_nodes_must_be_devices() {
    let mut accumulator = RequirementAccumulator::default();
    accumulator
        .add_device_node("/dev/b".to_string(), &|_: &str| Some(CdiPathKind::BlockDevice))
        .unwrap();
    accumulator
        .add_device_node("/dev/a".to_string(), &|_: &str| {
            Some(CdiPathKind::CharacterDevice)
        })
        .unwrap();
    for (found, words) in [
        (Some(CdiPathKind::File), "file"),
        (Some(CdiPathKind::Directory), "directory"),
        (Some(CdiPathKind::Other), "other"),
        (None, "missing"),
    ] {
        match accumulator.add_device_node("/dev/c".to_string(), &|_: &str| found) {
            Err(CdiError::DeviceNodeNotDevice { path, kind }) => {
                assert_eq!(path, "/dev/c");
                assert_eq!(kind, words);
            }
            other => panic!("unexpected result {other:?}"),
        }
    }
    assert_eq!(
        accumulator.build().device_node_paths,
        vec!["/dev/a", "/dev/b"]
    );
}

#[test]
fn one_path_has_one_access() {
    let conflict = |result: Result<(), CdiError>, expected: &str| match result {
        Err(CdiError::ConflictingAccess { path }) => assert_eq!(path, expected),
        other => panic!("unexpected result {other:?}"),
    };
    let mut accumulator = RequirementAccumulator::default();
    accumulator
        .add_mount("/lib/a".to_string(), CdiAccess::ReadOnly)
        .unwrap();
    conflict(
        accumulator.add_mount("/lib/a".to_string(), CdiAccess::ReadWrite),
        "/lib/a",
    );
    accumulator
        .add_device_node("/dev/a".to_string(), &kind)
        .unwrap();
    conflict(
        accumulator.add_mount("/dev/a".to_string(), CdiAccess::ReadOnly),
        "/dev/a",
    );
    accumulator
        .add_mount("/dev/b".to_string(), CdiAccess::ReadOnly)
        .unwrap();
    conflict(
        accumulator.add_device_node("/dev/b".to_string(), &kind),
        "/dev/b",
    );
    // Writing goes with a device node, in either order.
    accumulator
        .add_mount("/dev/a".to_string(), CdiAccess::ReadWrite)
        .unwrap();
    accumulator
        .add_device_node("/dev/a".to_string(), &kind)
        .unwrap();
    let requirements = accumulator.build();
    assert_eq!(requirements.device_node_paths, vec!["/dev/a"]);
    assert_eq!(
        requirements.read_only_mount_paths,
        vec!["/dev/b", "/lib/a"]
    );
    assert_eq!(requirements.read_write_mount_paths, vec!["/dev/a"]);
}

#[test]
fn repeated_entries_change_nothing() {
    let mut accumulator = RequirementAccumulator::default();
    for _ in 0..2 {
        accumulator
            .add_device_node("/dev/a".to_string(), &kind)
            .unwrap();
        accumulator
            .add_mount("/lib/a".to_string(), CdiAccess::ReadOnly)
            .unwrap();
        accumulator.add_gid(44);
    }
    let requirements = accumulator.build();
    assert_eq!(requirements.device_node_paths, vec!["/dev/a"]);
    assert_eq!(requirements.read_only_mount_paths, vec!["/lib/a"]);
    assert_eq!(requirements.additional_gids, vec![44]);
}

#[test]
fn groups_are_sorted_and_without_root() {
    let mut accumulator = RequirementAccumulator::default();
    for gid in [109, 44, 0, 109, u32::MAX, 1] {
        accumulator.add_gid(gid);
    }
    assert_eq!(accumulator.build().additional_gids, vec![1, 44, 109, u32::MAX]);
}

#[test]
fn writable_mounts_need_a_file_on_the_allowlist() {
    let mut accumulator = RequirementAccumulator::default();
    for path in ["/etc/b.d", "/etc/a", "/missing/c"] {
        accumulator
            .add_mount(path.to_string(), CdiAccess::ReadWrite)
            .unwrap();
    }
    accumulator
        .add_mount("/etc/0.d".to_string(), CdiAccess::ReadOnly)
        .unwrap();
    let check = |allowlist: &[&str]| accumulator.validate_writable_mounts(&strings(allowlist), &kind);
    match check(&["/etc/b.d"]) {
        Err(CdiError::WritableMountNotAllowed { path }) => assert_eq!(path, "/etc/a"),
        other => panic!("unexpected result {other:?}"),
    }
    match check(&["/missing/c", "/etc/b.d", "/etc/a"]) {
        Err(CdiError::WritableMountNotFile { path, kind }) => {
            assert_eq!(path, "/etc/b.d");
            assert_eq!(kind, "directory");
        }
        other => panic!("unexpected result {other:?}"),
    }
    let allowed = strings(&["/missing/c", "/etc/b.d", "/etc/a"]);
    match accumulator.validate_writable_mounts(&allowed, &|path: &str| {
        if path.starts_with("/etc/") {
            Some(CdiPathKind::File)
        } else {
            None
        }
    }) {
        Err(CdiError::WritableMountNotFile { path, kind }) => {
            assert_eq!(path, "/missing/c");
            assert_eq!(kind, "missing");
        }
        other => panic!("unexpected result {other:?}"),
    }
    accumulator
        .validate_writable_mounts(&allowed, &|_: &str| Some(CdiPathKind::File))
        .unwrap();
}

#[test]
fn edits_are_derived_in_full() {
    let requirements = derive(
        &edits(
            &["/dev/nvidiactl", "/dev//nvidia0"],
            &[
                ("/usr/lib/z.so", &[]),
                ("/etc/state", &["rw"]),
                ("/usr/lib/a.so", &["ro", "nodev"]),
            ],
            &[44, 0, 7],
        ),
        &["/etc//state"],
    )
    .unwrap();
    assert_eq!(
        requirements,
        CdiDerivedRequirements {
            device_node_paths: strings(&["/dev/nvidia0", "/dev/nvidiactl"]),
            read_only_mount_paths: strings(&["/usr/lib/a.so", "/usr/lib/z.so"]),
            read_write_mount_paths: strings(&["/etc/state"]),
            additional_gids: vec![7, 44],
        }
    );
    assert_eq!(
        derive(&edits(&[], &[], &[]), &[]).unwrap(),
        CdiDerivedRequirements::default()
    );
}

#[test]
fn nodes_come_before_mounts_and_mounts_before_the_allowlist() {
    let bad_mount: (&str, &[&str]) = ("/usr", &[]);
    let conflicting: (&str, &[&str]) = ("/usr/lib/a", &["ro", "rw"]);
    let writable: (&str, &[&str]) = ("/etc/state", &["rw"]);
    assert!(matches!(
        derive(&edits(&["/etc/no"], &[bad_mount], &[]), &[]),
        Err(CdiError::DeviceNodeNotDevice { .. })
    ));
    assert!(matches!(
        derive(&edits(&["/dev/a"], &[writable, bad_mount], &[]), &[]),
        Err(CdiError::UnsafePolicyPath { .. })
    ));
    assert!(matches!(
        derive(&edits(&[], &[writable, conflicting], &[]), &[]),
        Err(CdiError::ConflictingMountOptions { .. })
    ));
    assert!(matches!(
        derive(&edits(&["/dev/a"], &[writable], &[]), &[]),
        Err(CdiError::WritableMountNotAllowed { .. })
    ));
}

#[test]
fn entry_order_does_not_matter_to_a_granted_policy() {
    let ro: (&str, &[&str]) = ("/usr/lib/a", &[]);
    let rw: (&str, &[&str]) = ("/etc/state", &["rw"]);
    let one = derive(&edits(&["/dev/b", "/dev/a"], &[ro, rw, ro], &[9, 3]), &["/etc/state"]);
    let other = derive(&edits(&["/dev/a", "/dev/b"], &[rw, ro], &[3, 9, 3]), &["/etc/state"]);
    assert_eq!(one.unwrap(), other.unwrap());
}

#[test]
fn a_longer_allowlist_grants_the_same_policy() {
    let wanted = edits(&["/dev/a"], &[("/etc/state", &["rw"])], &[9]);
    let short = derive(&wanted, &["/etc/state"]).unwrap();
    let long = derive(&wanted, &["/etc/other", "/etc/state", "/"]).unwrap();
    assert_eq!(short, long);
    assert!(derive(&wanted, &[]).is_err());
}

#[test]
fn collecting_goes_on_from_what_is_held() {
    let mut accumulator = RequirementAccumulator::default();
    accumulate_requirements(&edits(&["/dev/a"], &[], &[]), &[], &kind, &mut accumulator).unwrap();
    let result = accumulate_requirements(
        &edits(&[], &[("/dev/a", &["ro"])], &[5]),
        &[],
        &kind,
        &mut accumulator,
    );
    assert!(matches!(result, Err(CdiError::ConflictingAccess { .. })));
    let requirements = accumulator.build();
    assert_eq!(requirements.device_node_paths, vec!["/dev/a"]);
    assert!(requirements.read_only_mount_paths.is_empty());
    assert!(requirements.additional_gids.is_empty());
}

#[test]
fn derived_paths_are_settled() {
    let requirements = derive(
        &edits(&["/dev//a/."], &[("//lib/./x//", &[])], &[]),
        &[],
    )
    .unwrap();
    for path in requirements
        .device_node_paths
        .iter()
        .chain(&requirements.read_only_mount_paths)
    {
        assert_eq!(&normalize_policy_path(path).unwrap(), path);
    }
    assert_eq!(requirements.device_node_paths, vec!["/dev/a"]);
    assert_eq!(requirements.read_only_mount_paths, vec!["/lib/x"]);
}

#[test]
fn writable_mounts_alone_are_asked_about() {
    let mut accumulator = RequirementAccumulator::default();
    for (path, access) in [
        ("/etc/a", CdiAccess::ReadWrite),
        ("/etc/b.d", CdiAccess::ReadOnly),
        ("/etc/c", CdiAccess::ReadWrite),
        ("/etc/d.d", CdiAccess::ReadWrite),
        ("/etc/e", CdiAccess::ReadWrite),
    ] {
        accumulator.add_mount(path.to_string(), access).unwrap();
    }
    let asked = RefCell::new(Vec::new());
    let asking = |path: &str| {
        asked.borrow_mut().push(path.to_string());
        kind(path)
    };
    // The check ends with the directory, so the last mount is not looked at.
    let allowed = strings(&["/etc/a", "/etc/b.d", "/etc/c", "/etc/d.d", "/etc/e"]);
    assert!(accumulator.validate_writable_mounts(&allowed, &asking).is_err());
    assert_eq!(asked.take(), vec!["/etc/a", "/etc/c", "/etc/d.d"]);
    // A mount that is not allowed is refused without a look.
    assert!(accumulator
        .validate_writable_mounts(&strings(&["/etc/a"]), &asking)
        .is_err());
    assert_eq!(asked.take(), vec!["/etc/a"]);

    let mut read_only = RequirementAccumulator::default();
    read_only
        .add_mount("/etc/a".to_string(), CdiAccess::ReadOnly)
        .unwrap();
    read_only
        .validate_writable_mounts(&allowed, &|_: &str| panic!("nothing is writable"))
        .unwrap();
}

#[test]
fn collecting_asks_about_nothing_behind_an_error() {
    let asked = RefCell::new(Vec::new());
    let asking = |path: &str| {
        asked.borrow_mut().push(path.to_string());
        kind(path)
    };
    let writable: (&str, &[&str]) = ("/etc/state", &["rw"]);
    let allowed = strings(&["/etc/state"]);
    let run = |wanted: &CdiContainerEdits| {
        let result = derive_requirements(wanted, &allowed, &asking);
        (result.is_ok(), asked.take())
    };
    assert_eq!(
        run(&edits(&["/dev//a", "/etc/no", "/dev/b"], &[writable], &[])),
        (false, strings(&["/dev/a", "/etc/no"]))
    );
    assert_eq!(
        run(&edits(&["/dev/a", "dev/b", "/dev/c"], &[writable], &[])),
        (false, strings(&["/dev/a"]))
    );
    assert_eq!(
        run(&edits(&["/dev/a"], &[writable, ("/usr", &[])], &[])),
        (false, strings(&["/dev/a"]))
    );
    assert_eq!(
        run(&edits(&["/dev/a"], &[("/usr/lib/a", &[]), writable], &[])),
        (true, strings(&["/dev/a", "/etc/state"]))
    );
}

#[test]
fn entry_order_does_not_matter_onto_what_is_held() {
    let collected = |wanted: &CdiContainerEdits| {
        let mut accumulator = RequirementAccumulator::default();
        accumulator
            .add_mount("/dev/held".to_string(), CdiAccess::ReadOnly)
            .unwrap();
        accumulator.add_gid(9);
        let result = accumulate_requirements(wanted, &[], &kind, &mut accumulator);
        result.map(|()| accumulator.build())
    };
    let lib: (&str, &[&str]) = ("/lib/a", &[]);
    assert_eq!(
        collected(&edits(&["/dev/b", "/dev/a"], &[lib], &[3, 9])).unwrap(),
        collected(&edits(&["/dev/a", "/dev/b", "/dev/a"], &[lib, lib], &[9, 3])).unwrap()
    );
    assert!(collected(&edits(&["/dev/held", "/dev/a"], &[], &[])).is_err());
    assert!(collected(&edits(&["/dev/a", "/dev/held"], &[], &[])).is_err());
}

#[test]
fn allowlists_count_by_normal_form() {
    let wanted = edits(&[], &[("/etc/state", &["rw"])], &[]);
    let one = derive(&wanted, &["/etc/state"]).unwrap();
    let other = derive(&wanted, &["/etc//./state/"]).unwrap();
    assert_eq!(one, other);
}

#[test]
fn passed_over_root_groups_are_counted() {
    let gids = [0, 44, 0, 7];
    let writable: (&str, &[&str]) = ("/etc/state", &["rw"]);
    let granted = derive(&edits(&["/dev/a"], &[writable], &gids), &["/etc/state"]);
    assert!(granted.is_ok());
    assert_eq!(skipped_root_groups(&gids, &granted), 2);
    let not_allowed = derive(&edits(&[], &[writable], &gids), &[]);
    assert_eq!(skipped_root_groups(&gids, &not_allowed), 2);
    let not_file = derive(&edits(&[], &[("/etc/x.d", &["rw"])], &gids), &["/etc/x.d"]);
    assert_eq!(skipped_root_groups(&gids, &not_file), 2);
    let refused_node = derive(&edits(&["/etc/no"], &[], &gids), &[]);
    assert_eq!(skipped_root_groups(&gids, &refused_node), 0);
    let refused_mount = derive(&edits(&[], &[("/usr", &[])], &gids), &[]);
    assert_eq!(skipped_root_groups(&gids, &refused_mount), 0);
    assert_eq!(skipped_root_groups(&[44], &granted), 0);
}
