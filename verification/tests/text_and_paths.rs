use openshell_core::paths::{components, normalize_path, PathComponent};
use openshell_core::text::{compare, eq_ignore_ascii_case, list_holds, same_text, trim, white_space, Order};
use std::path::{Component, Path};

const SAMPLES: [&str; 14] = [
    "",
    "a",
    "b",
    "ab",
    "a/b",
    "a-b",
    "a b",
    "A",
    "Z",
    "z",
    "\u{e9}",
    "\u{ffff}",
    "\u{10000}",
    "nvidia.com/gpu=0",
];

#[test]
fn strings_sort_as_their_bytes_do() {
    for a in SAMPLES {
        for b in SAMPLES {
            let expected = match a.as_bytes().cmp(b.as_bytes()) {
                std::cmp::Ordering::Less => Order::Before,
                std::cmp::Ordering::Equal => Order::Same,
                std::cmp::Ordering::Greater => Order::After,
            };
            assert_eq!(compare(a, b), expected, "{a:?} against {b:?}");
            assert_eq!(same_text(a, b), a == b);
        }
    }
}

#[test]
fn lists_hold_exact_texts() {
    let list = vec!["/a".to_string(), "/b".to_string()];
    assert!(list_holds(&list, "/b"));
    assert!(!list_holds(&list, "/B"));
    assert!(!list_holds(&list, "/b/"));
    assert!(!list_holds(&[], ""));
}

#[test]
fn white_space_is_that_of_unicode() {
    for c in '\0'..=char::MAX {
        assert_eq!(white_space(c), c.is_whitespace(), "{c:?}");
    }
}

#[test]
fn trimming_cuts_both_ends_only() {
    for text in [
        "",
        " ",
        "\t \n",
        "a",
        "  a b\t",
        "\u{3000}a\u{a0}",
        "a\u{200b}",
        " nvidia.com/gpu=0 ",
    ] {
        assert_eq!(trim(text), text.trim());
        assert_eq!(trim(trim(text)), trim(text));
    }
    assert_eq!(trim("  a b\t"), "a b");
}

#[test]
fn case_is_ignored_for_ascii_letters_only() {
    assert!(eq_ignore_ascii_case("rw", "RW"));
    assert!(eq_ignore_ascii_case("Rw", "rW"));
    assert!(!eq_ignore_ascii_case("rw", "rwx"));
    assert!(!eq_ignore_ascii_case("\u{e9}", "\u{c9}"));
    for a in SAMPLES {
        for b in SAMPLES {
            assert_eq!(eq_ignore_ascii_case(a, b), a.eq_ignore_ascii_case(b));
        }
    }
    // Neighbours of the letters in ASCII have no case.
    assert!(!eq_ignore_ascii_case("@", "`"));
    assert!(!eq_ignore_ascii_case("[", "{"));
}

const PATHS: [&str; 22] = [
    "",
    "/",
    "//",
    "///a",
    ".",
    "./",
    "./a",
    "..",
    "../a",
    "a",
    "a/",
    "a//b",
    "a/./b",
    "a/.",
    "/.",
    "/./a",
    "/a/../b",
    "/a/b/",
    "/a/.b/..c",
    "/a/...",
    "/dev/nvidia0",
    "/usr/lib/\u{e9}/x y",
];

#[test]
fn components_are_those_of_std() {
    for path in PATHS {
        let expected: Vec<PathComponent> = Path::new(path)
            .components()
            .map(|component| match component {
                Component::RootDir => PathComponent::RootDir,
                Component::CurDir => PathComponent::CurDir,
                Component::ParentDir => PathComponent::ParentDir,
                Component::Normal(name) => PathComponent::Normal(name.to_string_lossy().into_owned()),
                Component::Prefix(_) => unreachable!(),
            })
            .collect();
        assert_eq!(components(path), expected, "{path:?}");
    }
}

#[test]
fn normal_forms_are_exact() {
    for (path, normal) in [
        ("", ""),
        ("/", "/"),
        ("///", "/"),
        ("/dev/", "/dev"),
        ("/dev//nvidia0", "/dev/nvidia0"),
        ("/./dev/./nvidia0/.", "/dev/nvidia0"),
        ("./a", "a"),
        ("/a/../b", "/a/../b"),
        ("../a/", "../a"),
    ] {
        assert_eq!(normalize_path(path), normal);
    }
}

#[test]
fn normal_forms_stay_and_walk_the_same_way() {
    for path in PATHS {
        let normal = normalize_path(path);
        assert_eq!(normalize_path(&normal), normal);
        let walked: Vec<PathComponent> = components(path)
            .into_iter()
            .filter(|component| *component != PathComponent::CurDir)
            .collect();
        assert_eq!(components(&normal), walked, "{path:?}");
    }
}

#[test]
fn normal_forms_agree_exactly_when_root_and_names_do() {
    for a in PATHS {
        for b in PATHS {
            let walked = |path: &str| {
                components(path)
                    .into_iter()
                    .filter(|component| *component != PathComponent::CurDir)
                    .collect::<Vec<_>>()
            };
            assert_eq!(normalize_path(a) == normalize_path(b), walked(a) == walked(b));
        }
    }
}
