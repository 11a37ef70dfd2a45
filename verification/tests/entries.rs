use nfc_walk::action::Action;
use nfc_walk::entry::{probe, probe_move, settle_dir, settle_file, settle_move};

fn path(names: &[&str]) -> Vec<String> {
    names.iter().map(|name| name.to_string()).collect()
}

fn name(text: &str) -> String {
    text.to_string()
}

#[test]
fn entry_without_correction_is_left_alone() {
    assert_eq!(probe(&path(&["d", "x.txt"]), &None), None);
    assert_eq!(probe(&path(&["caf\u{e9}"]), &None), None);
}

#[test]
fn entry_with_correction_is_probed_for() {
    assert_eq!(
        probe(&path(&["d", "cafe\u{301}"]), &Some(name("caf\u{e9}"))),
        Some(Action::Exists(path(&["d", "caf\u{e9}"])))
    );
    assert_eq!(probe(&path(&["x"]), &Some(name("y"))), Some(Action::Exists(path(&["y"]))));
}

#[test]
fn file_is_renamed_where_the_name_is_free() {
    assert_eq!(
        settle_file(&path(&["d", "cafe\u{301}"]), &name("caf\u{e9}"), false),
        Action::Rename(path(&["d", "cafe\u{301}"]), path(&["d", "caf\u{e9}"]))
    );
    assert_eq!(
        settle_file(&path(&["x"]), &name("y"), false),
        Action::Rename(path(&["x"]), path(&["y"]))
    );
}

#[test]
fn file_is_not_renamed_where_the_name_is_taken() {
    assert_eq!(
        settle_file(&path(&["d", "cafe\u{301}"]), &name("caf\u{e9}"), true),
        Action::Collision(
            path(&["d", "caf\u{e9}"]),
            vec![path(&["d", "cafe\u{301}"]), path(&["d"]), path(&[])]
        )
    );
}

#[test]
fn directory_is_renamed_where_the_name_is_free() {
    assert_eq!(
        settle_dir(&path(&["d", "cafe\u{301}"]), &name("caf\u{e9}"), false),
        Action::Rename(path(&["d", "cafe\u{301}"]), path(&["d", "caf\u{e9}"]))
    );
}

#[test]
fn directory_is_opened_where_the_name_is_taken() {
    assert_eq!(
        settle_dir(&path(&["d", "cafe\u{301}"]), &name("caf\u{e9}"), true),
        Action::OpenDir(path(&["d", "cafe\u{301}"]))
    );
}

#[test]
fn merged_entry_is_probed_for_in_the_destination() {
    assert_eq!(
        probe_move(&path(&["d", "cafe\u{301}"]), &name("caf\u{e9}"), &name("b.txt")),
        Action::Exists(path(&["d", "caf\u{e9}", "b.txt"]))
    );
    assert_eq!(
        probe_move(&path(&["x"]), &name("y"), &name("f")),
        Action::Exists(path(&["y", "f"]))
    );
}

#[test]
fn merged_entry_moves_across_under_its_name() {
    assert_eq!(
        settle_move(&path(&["d", "cafe\u{301}"]), &name("caf\u{e9}"), &name("b.txt"), false),
        Action::Rename(path(&["d", "cafe\u{301}", "b.txt"]), path(&["d", "caf\u{e9}", "b.txt"]))
    );
    assert_eq!(
        settle_move(&path(&["x"]), &name("y"), &name("f"), false),
        Action::Rename(path(&["x", "f"]), path(&["y", "f"]))
    );
}

#[test]
fn merged_entry_stays_where_its_place_is_taken() {
    assert_eq!(
        settle_move(&path(&["d", "cafe\u{301}"]), &name("caf\u{e9}"), &name("x.txt"), true),
        Action::Collision(
            path(&["d", "caf\u{e9}", "x.txt"]),
            vec![path(&["d", "cafe\u{301}"]), path(&["d"]), path(&[])]
        )
    );
}
