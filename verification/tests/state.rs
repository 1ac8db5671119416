use nixui_core::buffer::EditBuffer;
use nixui_core::state::{mirror_rows, ConfigState};
use nixui_core::table::sort_rows;

fn pair(k: &str, v: &str) -> (String, String) {
    (String::from(k), String::from(v))
}

fn sample() -> ConfigState {
    ConfigState::from_parsed(
        String::from("{ a = true; b = \"x\"; }"),
        vec![pair("b", "x"), pair("a", "true")],
    )
}

#[test]
fn rows_are_sorted_by_key() {
    let rows = sort_rows(vec![pair("b", "2"), pair("c", "3"), pair("a", "1")]);
    assert_eq!(rows, vec![pair("a", "1"), pair("b", "2"), pair("c", "3")]);
}

#[test]
fn the_later_row_of_a_key_counts() {
    let rows = sort_rows(vec![pair("a", "1"), pair("b", "2"), pair("a", "3")]);
    assert_eq!(rows, vec![pair("a", "3"), pair("b", "2")]);
}

#[test]
fn no_rows_give_no_rows() {
    let rows = sort_rows(Vec::<(String, String)>::new());
    assert!(rows.is_empty());
}

#[test]
fn mirror_gives_fresh_buffers() {
    let entries = mirror_rows(&vec![pair("a", "1"), pair("b", "2")]);
    assert_eq!(entries.len(), 2);
    assert_eq!(entries[0].0, "a");
    assert_eq!(entries[0].1.get_content(), "1");
    assert_eq!(entries[0].1.get_cursor(), (0, 0));
    assert_eq!(entries[1].0, "b");
    assert_eq!(entries[1].1.get_content(), "2");
}

#[test]
fn fresh_state_mirrors_what_was_parsed() {
    let s = sample();
    assert_eq!(s.document(), "{ a = true; b = \"x\"; }");
    assert_eq!(s.len(), 2);
    assert_eq!(s.keys(), vec![String::from("a"), String::from("b")]);
    assert_eq!(s.key_at(0), Some("a"));
    assert_eq!(s.key_at(1), Some("b"));
    assert_eq!(s.key_at(2), None);
    assert_eq!(s.content_of("a"), Some(String::from("true")));
    assert_eq!(s.content_of("b"), Some(String::from("x")));
    assert_eq!(s.content_of("c"), None);
    assert_eq!(s.committed_value("a"), Some(String::from("true")));
    assert_eq!(s.committed_value("b"), Some(String::from("x")));
    assert_eq!(s.committed_value("c"), None);
    assert_eq!(s.cursor_of("a"), Some((0, 0)));
    assert_eq!(s.cursor_of("c"), None);
    assert_eq!(s.position_of("a"), Some(0));
    assert_eq!(s.position_of("b"), Some(1));
    assert_eq!(s.position_of("c"), None);
    assert!(s.buffer_at(2).is_none());
    assert_eq!(s.buffer_at(1).map(|b| b.get_content()), Some(String::from("x")));
    assert!(s.dirty_writes().is_empty());
}

#[test]
fn default_state_is_empty() {
    let s = ConfigState::default();
    assert_eq!(s.document(), "");
    assert_eq!(s.len(), 0);
    assert!(s.keys().is_empty());
    assert!(s.dirty_writes().is_empty());
    assert!(s == ConfigState::from_parsed(String::new(), Vec::new()));
}

#[test]
fn new_state_takes_rows_in_any_order() {
    let s = ConfigState::new(
        String::from("doc"),
        vec![
            (String::from("z"), EditBuffer::fresh(String::from("1"))),
            (String::from("a"), EditBuffer::new(String::from("2"), (1, 1))),
            (String::from("z"), EditBuffer::fresh(String::from("3"))),
        ],
        vec![pair("z", "3"), pair("a", "0")],
    );
    assert_eq!(s.keys(), vec![String::from("a"), String::from("z")]);
    assert_eq!(s.content_of("z"), Some(String::from("3")));
    assert_eq!(s.content_of("a"), Some(String::from("2")));
    assert_eq!(s.cursor_of("a"), Some((1, 1)));
    assert_eq!(s.dirty_writes(), vec![pair("a", "2")]);
}

#[test]
fn an_edit_makes_its_key_dirty() {
    let s = sample().edit("b", "y");
    assert_eq!(s.content_of("b"), Some(String::from("y")));
    assert_eq!(s.committed_value("b"), Some(String::from("x")));
    assert!(s.is_dirty("b"));
    assert!(!s.is_dirty("a"));
    assert!(s.is_dirty_at(1));
    assert!(!s.is_dirty_at(0));
    assert!(!s.is_dirty_at(2));
    assert_eq!(s.dirty_writes(), vec![pair("b", "y")]);
    assert_eq!(s.document(), "{ a = true; b = \"x\"; }");
}

#[test]
fn an_edit_back_to_the_committed_value_is_not_dirty() {
    let s = sample().edit("b", "y").edit("b", "x");
    assert!(!s.is_dirty("b"));
    assert!(s.dirty_writes().is_empty());
}

#[test]
fn dirty_means_different_to_the_letter() {
    let s = sample().edit("a", "TRUE");
    assert!(s.is_dirty("a"));
    assert_eq!(s.dirty_writes(), vec![pair("a", "TRUE")]);
}

#[test]
fn an_edit_of_an_unknown_key_changes_nothing() {
    let s = sample().edit("c", "y");
    assert!(s == sample());
    assert_eq!(s.len(), 2);
    assert!(!s.is_dirty("c"));
}

#[test]
fn an_edit_keeps_the_cursor() {
    let s = sample().move_cursor("b", (1, 1)).edit("b", "yy");
    assert_eq!(s.cursor_of("b"), Some((1, 1)));
    assert_eq!(s.content_of("b"), Some(String::from("yy")));
}

#[test]
fn moving_a_cursor_keeps_the_content() {
    let s = sample().move_cursor("a", (2, 3));
    assert_eq!(s.cursor_of("a"), Some((2, 3)));
    assert_eq!(s.content_of("a"), Some(String::from("true")));
    assert!(s.dirty_writes().is_empty());
    let t = sample().move_cursor("nope", (2, 3));
    assert_eq!(t.cursor_of("a"), Some((0, 0)));
}

#[test]
fn a_key_without_committed_value_is_dirty() {
    let s = ConfigState::new(
        String::from("doc"),
        vec![
            (String::from("a"), EditBuffer::fresh(String::from("1"))),
            (String::from("n"), EditBuffer::fresh(String::from(""))),
        ],
        vec![pair("a", "1")],
    );
    assert!(!s.is_dirty("a"));
    assert!(s.is_dirty("n"));
    assert_eq!(s.dirty_writes(), vec![pair("n", "")]);
}

#[test]
fn dirty_rows_come_in_key_order() {
    let s = ConfigState::from_parsed(
        String::from("doc"),
        vec![pair("m", "1"), pair("c", "2"), pair("x", "3"), pair("a", "4")],
    )
    .edit("x", "9")
    .edit("a", "8")
    .edit("m", "7");
    assert_eq!(s.dirty_writes(), vec![pair("a", "8"), pair("m", "7"), pair("x", "9")]);
}

#[test]
fn states_are_equal_by_value() {
    let a = sample();
    let b = ConfigState::from_parsed(
        String::from("{ a = true; b = \"x\"; }"),
        vec![pair("a", "true"), pair("b", "x")],
    );
    assert!(a == b);
    assert!(a.same_value(&b));
    assert!(a != sample().edit("a", "false"));
    assert!(a != ConfigState::from_parsed(String::from("other"), vec![pair("a", "true"), pair("b", "x")]));
    assert!(a != ConfigState::from_parsed(String::from("{ a = true; b = \"x\"; }"), vec![pair("a", "true")]));
    assert!(
        a != ConfigState::new(
            String::from("{ a = true; b = \"x\"; }"),
            vec![
                (String::from("a"), EditBuffer::fresh(String::from("true"))),
                (String::from("b"), EditBuffer::fresh(String::from("x"))),
            ],
            vec![pair("a", "true"), pair("b", "y")],
        )
    );
}

#[test]
fn cursors_do_not_count_for_equality() {
    let a = sample();
    let b = sample().move_cursor("a", (3, 3));
    assert!(a == b);
}

#[test]
fn a_clone_is_equal_and_keeps_cursors() {
    let a = sample().edit("b", "y").move_cursor("b", (1, 1));
    let b = a.clone();
    assert!(a == b);
    assert_eq!(b.cursor_of("b"), Some((1, 1)));
    assert_eq!(b.content_of("b"), Some(String::from("y")));
    assert_eq!(b.committed_value("b"), Some(String::from("x")));
    assert_eq!(b.document(), a.document());
}

#[test]
fn a_buffer_can_be_replaced_by_position() {
    let s = sample().with_buffer_at(1, EditBuffer::new(String::from("q"), (1, 0)));
    assert_eq!(s.content_of("b"), Some(String::from("q")));
    assert_eq!(s.cursor_of("b"), Some((1, 0)));
    assert_eq!(s.key_at(1), Some("b"));
    let t = sample().with_buffer_at(2, EditBuffer::fresh(String::from("q")));
    assert!(t == sample());
}

#[test]
fn mirrored_entries_hold_the_committed_values() {
    let s = sample().edit("a", "maybe").move_cursor("b", (1, 1)).with_mirrored_entries();
    assert_eq!(s.content_of("a"), Some(String::from("true")));
    assert_eq!(s.cursor_of("b"), Some((0, 0)));
    assert!(s == sample());
}
