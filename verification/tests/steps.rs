use nfc_walk::action::{Action, Event};
use nfc_walk::walk::{Phase, Walker};

fn path(names: &[&str]) -> Vec<String> {
    names.iter().map(|name| name.to_string()).collect()
}

fn entry(name: &str) -> Event {
    Event::Entry(name.to_string())
}

/// A walker that has opened the root and then gone through `events`.
fn after(events: Vec<Event>) -> (Walker, Action) {
    let (mut walker, mut action) = Walker::start();
    for event in events {
        assert!(walker.expects(&event), "{:?} in {:?}", event, walker.phase());
        action = walker.step(event);
    }
    (walker, action)
}

#[test]
fn walk_starts_by_opening_the_root() {
    let (walker, action) = Walker::start();
    assert_eq!(action, Action::OpenDir(path(&[])));
    assert_eq!(walker.phase(), Phase::Opening);
    assert!(!walker.is_finished());
}

#[test]
fn empty_root_finishes() {
    let (walker, action) = after(vec![Event::Done]);
    assert_eq!(action, Action::NextEntry);
    assert_eq!(walker.phase(), Phase::Listing);
    let (walker, action) = after(vec![Event::Done, Event::End]);
    assert_eq!(action, Action::Finish);
    assert!(walker.is_finished());
}

#[test]
fn entry_is_asked_for_its_kind() {
    let (walker, action) = after(vec![Event::Done, entry("x.txt")]);
    assert_eq!(action, Action::IsDir(path(&["x.txt"])));
    assert_eq!(walker.phase(), Phase::Kind);
}

#[test]
fn normalized_file_is_passed_over() {
    let (walker, action) = after(vec![Event::Done, entry("caf\u{e9}"), Event::Answer(false)]);
    assert_eq!(action, Action::NextEntry);
    assert_eq!(walker.phase(), Phase::Listing);
}

#[test]
fn unnormalized_file_is_probed_for_then_renamed() {
    let mut events = vec![Event::Done, entry("cafe\u{301}"), Event::Answer(false)];
    let (walker, action) = after(events.clone());
    assert_eq!(action, Action::Exists(path(&["caf\u{e9}"])));
    assert_eq!(walker.phase(), Phase::FileProbing);
    events.push(Event::Answer(false));
    let (walker, action) = after(events.clone());
    assert_eq!(action, Action::Rename(path(&["cafe\u{301}"]), path(&["caf\u{e9}"])));
    assert_eq!(walker.phase(), Phase::Renaming);
    events.push(Event::Done);
    let (walker, action) = after(events);
    assert_eq!(action, Action::NextEntry);
    assert_eq!(walker.phase(), Phase::Listing);
}

#[test]
fn taken_name_ends_the_walk_at_a_file() {
    let (walker, action) = after(vec![
        Event::Done,
        entry("a"),
        Event::Answer(true),
        Event::Done,
        entry("cafe\u{301}"),
        Event::Answer(false),
        Event::Answer(true),
    ]);
    assert_eq!(
        action,
        Action::Collision(
            path(&["a", "caf\u{e9}"]),
            vec![path(&["a", "cafe\u{301}"]), path(&["a"]), path(&[])]
        )
    );
    assert!(walker.is_finished());
}

#[test]
fn directory_is_walked_before_its_name_is_processed() {
    let (walker, action) = after(vec![Event::Done, entry("cafe\u{301}"), Event::Answer(true)]);
    assert_eq!(action, Action::OpenDir(path(&["cafe\u{301}"])));
    assert_eq!(walker.phase(), Phase::Opening);
    let (_, action) =
        after(vec![Event::Done, entry("cafe\u{301}"), Event::Answer(true), Event::Done]);
    assert_eq!(action, Action::NextEntry);
    let (walker, action) = after(vec![
        Event::Done,
        entry("cafe\u{301}"),
        Event::Answer(true),
        Event::Done,
        Event::End,
    ]);
    assert_eq!(action, Action::Exists(path(&["caf\u{e9}"])));
    assert_eq!(walker.phase(), Phase::DirProbing);
}

#[test]
fn normalized_directory_is_passed_over() {
    let (walker, action) = after(vec![
        Event::Done,
        entry("caf\u{e9}"),
        Event::Answer(true),
        Event::Done,
        Event::End,
    ]);
    assert_eq!(action, Action::NextEntry);
    assert_eq!(walker.phase(), Phase::Listing);
    let (walker, action) = after(vec![
        Event::Done,
        entry("caf\u{e9}"),
        Event::Answer(true),
        Event::Done,
        Event::End,
        Event::End,
    ]);
    assert_eq!(action, Action::Finish);
    assert!(walker.is_finished());
}

fn probing() -> Vec<Event> {
    vec![
        Event::Done,
        entry("d"),
        Event::Answer(true),
        Event::Done,
        entry("cafe\u{301}"),
        Event::Answer(true),
        Event::Done,
        Event::End,
    ]
}

#[test]
fn directory_with_free_normal_name_is_renamed() {
    let (_, action) = after(probing());
    assert_eq!(action, Action::Exists(path(&["d", "caf\u{e9}"])));
    let mut events = probing();
    events.push(Event::Answer(false));
    let (walker, action) = after(events.clone());
    assert_eq!(
        action,
        Action::Rename(path(&["d", "cafe\u{301}"]), path(&["d", "caf\u{e9}"]))
    );
    assert_eq!(walker.phase(), Phase::Renaming);
    events.push(Event::Done);
    let (walker, action) = after(events);
    assert_eq!(action, Action::NextEntry);
    assert_eq!(walker.phase(), Phase::Listing);
}

#[test]
fn directory_with_taken_normal_name_is_merged() {
    let mut events = probing();
    events.push(Event::Answer(true));
    let (walker, action) = after(events.clone());
    assert_eq!(action, Action::OpenDir(path(&["d", "cafe\u{301}"])));
    assert_eq!(walker.phase(), Phase::MergeOpening);

    events.push(Event::Done);
    let (walker, action) = after(events.clone());
    assert_eq!(action, Action::NextEntry);
    assert_eq!(walker.phase(), Phase::MergeListing);

    events.push(entry("b.txt"));
    let (walker, action) = after(events.clone());
    assert_eq!(action, Action::Exists(path(&["d", "caf\u{e9}", "b.txt"])));
    assert_eq!(walker.phase(), Phase::MergeProbing);

    events.push(Event::Answer(false));
    let (walker, action) = after(events.clone());
    assert_eq!(
        action,
        Action::Rename(path(&["d", "cafe\u{301}", "b.txt"]), path(&["d", "caf\u{e9}", "b.txt"]))
    );
    assert_eq!(walker.phase(), Phase::MergeMoving);

    events.push(Event::Done);
    let (walker, action) = after(events.clone());
    assert_eq!(action, Action::NextEntry);
    assert_eq!(walker.phase(), Phase::MergeListing);

    events.push(Event::End);
    let (walker, action) = after(events.clone());
    assert_eq!(action, Action::RemoveDir(path(&["d", "cafe\u{301}"])));
    assert_eq!(walker.phase(), Phase::MergeRemoving);

    events.push(Event::Done);
    let (walker, action) = after(events.clone());
    assert_eq!(action, Action::NextEntry);
    assert_eq!(walker.phase(), Phase::Listing);

    events.push(Event::End);
    let (walker, action) = after(events.clone());
    assert_eq!(action, Action::NextEntry);
    assert_eq!(walker.phase(), Phase::Listing);

    events.push(Event::End);
    let (walker, action) = after(events);
    assert_eq!(action, Action::Finish);
    assert!(walker.is_finished());
}

#[test]
fn merge_moves_entries_under_their_own_names() {
    // The entry that moves is not looked at: its name goes across as it is.
    let mut events = probing();
    events.extend(vec![Event::Answer(true), Event::Done, entry("e\u{301}")]);
    let (_, action) = after(events.clone());
    assert_eq!(action, Action::Exists(path(&["d", "caf\u{e9}", "e\u{301}"])));
    events.push(Event::Answer(false));
    let (_, action) = after(events);
    assert_eq!(
        action,
        Action::Rename(
            path(&["d", "cafe\u{301}", "e\u{301}"]),
            path(&["d", "caf\u{e9}", "e\u{301}"])
        )
    );
}

#[test]
fn merge_ends_where_an_entry_meets_a_taken_name() {
    let mut events = probing();
    events.extend(vec![
        Event::Answer(true),
        Event::Done,
        entry("a.txt"),
        Event::Answer(false),
        Event::Done,
        entry("x.txt"),
        Event::Answer(true),
    ]);
    let (mut walker, action) = after(events);
    assert_eq!(
        action,
        Action::Collision(
            path(&["d", "caf\u{e9}", "x.txt"]),
            vec![path(&["d", "cafe\u{301}"]), path(&["d"]), path(&[])]
        )
    );
    assert!(walker.is_finished());
    // Nothing more is asked for: neither the move nor the removal.
    assert_eq!(walker.try_step(Event::Done), None);
    assert_eq!(walker.try_step(Event::End), None);
}

#[test]
fn failure_to_open_the_root_names_the_root_once() {
    let (walker, action) = after(vec![Event::Failed]);
    assert_eq!(action, Action::Abort(vec![path(&[])]));
    assert!(walker.is_finished());
}

#[test]
fn failure_to_open_a_directory_names_it_twice() {
    let (walker, action) = after(vec![
        Event::Done,
        entry("a"),
        Event::Answer(true),
        Event::Done,
        entry("b"),
        Event::Answer(true),
        Event::Failed,
    ]);
    assert_eq!(
        action,
        Action::Abort(vec![path(&["a", "b"]), path(&["a", "b"]), path(&["a"]), path(&[])])
    );
    assert!(walker.is_finished());
}

#[test]
fn failure_to_list_the_root_names_the_root() {
    let (walker, action) = after(vec![Event::Done, Event::Failed]);
    assert_eq!(action, Action::Abort(vec![path(&[])]));
    assert!(walker.is_finished());
}

#[test]
fn failure_to_list_a_directory_names_the_way_down() {
    let (_, action) = after(vec![
        Event::Done,
        entry("a"),
        Event::Answer(true),
        Event::Done,
        entry("b"),
        Event::Answer(true),
        Event::Done,
        entry("x"),
        Event::Answer(false),
        Event::Failed,
    ]);
    assert_eq!(action, Action::Abort(vec![path(&["a", "b"]), path(&["a"]), path(&[])]));
}

#[test]
fn failure_to_rename_a_file_names_the_file() {
    let (walker, action) = after(vec![
        Event::Done,
        entry("a"),
        Event::Answer(true),
        Event::Done,
        entry("e\u{301}"),
        Event::Answer(false),
        Event::Answer(false),
        Event::Failed,
    ]);
    assert_eq!(action, Action::Abort(vec![path(&["a", "e\u{301}"]), path(&["a"]), path(&[])]));
    assert!(walker.is_finished());
}

#[test]
fn failure_to_rename_a_directory_names_the_directory() {
    let mut events = probing();
    events.extend(vec![Event::Answer(false), Event::Failed]);
    let (_, action) = after(events);
    assert_eq!(action, Action::Abort(vec![path(&["d", "cafe\u{301}"]), path(&["d"]), path(&[])]));
}

#[test]
fn failures_in_a_merge_name_the_directory_that_is_emptied() {
    let expected = Action::Abort(vec![path(&["d", "cafe\u{301}"]), path(&["d"]), path(&[])]);

    let mut opening = probing();
    opening.extend(vec![Event::Answer(true), Event::Failed]);
    assert_eq!(after(opening).1, expected);

    let mut listing = probing();
    listing.extend(vec![Event::Answer(true), Event::Done, Event::Failed]);
    assert_eq!(after(listing).1, expected);

    let mut moving = probing();
    moving.extend(vec![
        Event::Answer(true),
        Event::Done,
        entry("x.txt"),
        Event::Answer(false),
        Event::Failed,
    ]);
    assert_eq!(after(moving).1, expected);

    let mut removing = probing();
    removing.extend(vec![Event::Answer(true), Event::Done, Event::End, Event::Failed]);
    let (walker, action) = after(removing);
    assert_eq!(action, expected);
    assert!(walker.is_finished());
}

#[test]
fn expects_follows_the_phase() {
    let all = vec![Event::Done, Event::Failed, entry("x"), Event::End, Event::Answer(true)];
    let expected = |walker: &Walker| -> Vec<bool> {
        all.iter().map(|event| walker.expects(event)).collect()
    };
    let (opening, _) = Walker::start();
    assert_eq!(expected(&opening), vec![true, true, false, false, false]);
    let (listing, _) = after(vec![Event::Done]);
    assert_eq!(expected(&listing), vec![false, true, true, true, false]);
    let (kind, _) = after(vec![Event::Done, entry("e\u{301}")]);
    assert_eq!(expected(&kind), vec![false, false, false, false, true]);
    let (probing_file, _) = after(vec![Event::Done, entry("e\u{301}"), Event::Answer(false)]);
    assert_eq!(expected(&probing_file), vec![false, false, false, false, true]);
    let (renaming, _) = after(vec![
        Event::Done,
        entry("e\u{301}"),
        Event::Answer(false),
        Event::Answer(false),
    ]);
    assert_eq!(expected(&renaming), vec![true, true, false, false, false]);
    let (walker, _) = after(probing());
    assert_eq!(expected(&walker), vec![false, false, false, false, true]);
    let mut events = probing();
    events.extend(vec![Event::Answer(true), Event::Done]);
    let (merging, _) = after(events.clone());
    assert_eq!(expected(&merging), vec![false, true, true, true, false]);
    events.push(entry("x"));
    let (probing_move, _) = after(events.clone());
    assert_eq!(expected(&probing_move), vec![false, false, false, false, true]);
    events.push(Event::Answer(false));
    let (moving, _) = after(events);
    assert_eq!(expected(&moving), vec![true, true, false, false, false]);
    let (finished, _) = after(vec![Event::Done, Event::End]);
    assert_eq!(expected(&finished), vec![false, false, false, false, false]);
}

#[test]
fn event_out_of_turn_is_refused() {
    let (mut walker, _) = Walker::start();
    assert_eq!(walker.try_step(Event::End), None);
    assert_eq!(walker.phase(), Phase::Opening);
    assert_eq!(walker.try_step(Event::Answer(true)), None);
    assert_eq!(walker.try_step(Event::Done), Some(Action::NextEntry));
    assert_eq!(walker.phase(), Phase::Listing);
    assert_eq!(walker.try_step(Event::Done), None);
    assert_eq!(walker.try_step(Event::End), Some(Action::Finish));
    assert_eq!(walker.try_step(Event::Done), None);
    assert_eq!(walker.try_step(Event::End), None);
    assert!(walker.is_finished());
}

#[test]
fn normalized_names_bring_no_change() {
    let events = vec![
        Event::Done,
        entry("caf\u{e9}"),
        Event::Answer(true),
        Event::Done,
        entry("x.txt"),
        Event::Answer(false),
        entry("b\u{301}"),
        Event::Answer(true),
        Event::Done,
        Event::End,
        Event::End,
        entry("y"),
        Event::Answer(false),
        Event::End,
    ];
    let (mut walker, mut action) = Walker::start();
    for event in events {
        assert!(!matches!(action, Action::Rename(_, _) | Action::RemoveDir(_)));
        action = walker.step(event);
    }
    assert_eq!(action, Action::Finish);
}
