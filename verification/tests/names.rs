use nfc_walk::normalize::{correction, is_normalized, normalize};
use nfc_walk::path::{ancestry_of, child, duplicate, prefix, sibling_of};

fn path(names: &[&str]) -> Vec<String> {
    names.iter().map(|name| name.to_string()).collect()
}

#[test]
fn ascii_name_is_normalized() {
    assert!(is_normalized("x.txt"));
    assert!(is_normalized(""));
}

#[test]
fn composed_name_is_normalized() {
    assert!(is_normalized("caf\u{e9}"));
}

#[test]
fn decomposed_name_is_not_normalized() {
    assert!(!is_normalized("cafe\u{301}"));
    assert!(!is_normalized("file\u{301}.txt"));
}

#[test]
fn mark_without_composition_is_normalized() {
    assert!(is_normalized("b\u{301}"));
    assert_eq!(normalize("b\u{301}"), "b\u{301}");
}

#[test]
fn misordered_marks_are_not_normalized() {
    // A mark of class 230 before one of class 220.
    assert!(!is_normalized("a\u{301}\u{323}"));
    assert_eq!(normalize("a\u{301}\u{323}"), "\u{1ea1}\u{301}");
}

#[test]
fn normalize_composes() {
    assert_eq!(normalize("cafe\u{301}"), "caf\u{e9}");
    assert_eq!(normalize("file\u{301}.txt"), "fil\u{e9}.txt");
    assert_eq!(normalize("a\u{301}"), "\u{e1}");
}

#[test]
fn normalize_replaces_singletons() {
    // The Kelvin sign and the Angstrom sign have no normalized form of their own.
    assert!(!is_normalized("\u{212a}"));
    assert_eq!(normalize("\u{212a}"), "K");
    assert_eq!(normalize("\u{212b}"), "\u{c5}");
}

#[test]
fn normalize_composes_hangul() {
    assert_eq!(normalize("\u{1112}\u{1161}\u{11ab}"), "\u{d55c}");
}

#[test]
fn normalize_keeps_normalized_names() {
    assert_eq!(normalize("caf\u{e9}"), "caf\u{e9}");
    assert_eq!(normalize("x.txt"), "x.txt");
    assert_eq!(normalize(""), "");
}

#[test]
fn normalized_result_is_normalized() {
    let samples = [
        "",
        "x.txt",
        "caf\u{e9}",
        "cafe\u{301}",
        "file\u{301}.txt",
        "a\u{301}\u{323}",
        "b\u{301}",
        "\u{212a}\u{212b}",
        "\u{1112}\u{1161}\u{11ab}",
        "\u{e9}\u{301}\u{327}",
        "\u{3b9}\u{308}\u{301}",
    ];
    for name in samples {
        let once = normalize(name);
        assert!(is_normalized(&once), "{:?}", name);
        assert_eq!(normalize(&once), once, "{:?}", name);
    }
}

#[test]
fn is_normalized_agrees_with_normalize() {
    let samples = ["", "x", "caf\u{e9}", "cafe\u{301}", "b\u{301}", "\u{212a}", "a\u{323}\u{301}"];
    for name in samples {
        assert_eq!(is_normalized(name), normalize(name) == name, "{:?}", name);
    }
}

#[test]
fn correction_is_due_for_unnormalized_names_only() {
    assert_eq!(correction("x.txt"), None);
    assert_eq!(correction("caf\u{e9}"), None);
    assert_eq!(correction("b\u{301}"), None);
    assert_eq!(correction("cafe\u{301}"), Some("caf\u{e9}".to_string()));
    assert_eq!(correction("\u{212a}"), Some("K".to_string()));
}

#[test]
fn duplicate_copies_a_path() {
    assert_eq!(duplicate(&path(&[])), path(&[]));
    assert_eq!(duplicate(&path(&["a", "b"])), path(&["a", "b"]));
}

#[test]
fn prefix_takes_leading_names() {
    let p = path(&["a", "b", "c"]);
    assert_eq!(prefix(&p, 0), path(&[]));
    assert_eq!(prefix(&p, 2), path(&["a", "b"]));
    assert_eq!(prefix(&p, 3), p);
}

#[test]
fn child_appends_a_name() {
    assert_eq!(child(&path(&[]), &"a".to_string()), path(&["a"]));
    assert_eq!(child(&path(&["a", "b"]), &"c".to_string()), path(&["a", "b", "c"]));
}

#[test]
fn sibling_replaces_last_name() {
    assert_eq!(sibling_of(&path(&["a"]), &"z".to_string()), path(&["z"]));
    assert_eq!(sibling_of(&path(&["a", "b", "c"]), &"z".to_string()), path(&["a", "b", "z"]));
}

#[test]
fn ancestry_runs_from_the_path_up_to_the_root() {
    assert_eq!(ancestry_of(&path(&[])), vec![path(&[])]);
    assert_eq!(ancestry_of(&path(&["a"])), vec![path(&["a"]), path(&[])]);
    assert_eq!(
        ancestry_of(&path(&["a", "b", "c"])),
        vec![path(&["a", "b", "c"]), path(&["a", "b"]), path(&["a"]), path(&[])]
    );
}
