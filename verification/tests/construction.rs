use dlx::error::InputError;
use dlx::utils::{Node, Record};
use dlx::DancingLinks;

fn four_items() -> DancingLinks {
    let mut dlx = DancingLinks::new(&["1", "2", "3", "4"], &[]).unwrap();
    for option in ["1 2", "1 3", "2 4", "3 4", "1 2 3 4"] {
        dlx.add_option(option).unwrap();
    }
    dlx
}

fn nodes(dlx: &DancingLinks) -> Vec<(isize, usize, usize)> {
    (0..dlx.get_list_len()).map(|i| (dlx.get_top(i), dlx.get_up(i), dlx.get_down(i))).collect()
}

fn items(dlx: &DancingLinks) -> Vec<(usize, usize, usize)> {
    (0..dlx.get_item_count() + 2)
        .map(|i| (dlx.get_length(i), dlx.get_left(i), dlx.get_right(i)))
        .collect()
}

#[test]
fn new_links_items_in_two_rings() {
    let dlx = DancingLinks::new(&["a", "b"], &["c"]).unwrap();
    assert_eq!(dlx.get_primary(), 2);
    assert_eq!(dlx.get_secondary(), 1);
    assert_eq!(dlx.get_item_count(), 3);
    assert_eq!(dlx.get_list_len(), 5);
    assert_eq!(dlx.get_option_count(), 0);
    assert_eq!(items(&dlx), vec![(0, 2, 1), (0, 0, 2), (0, 1, 0), (0, 4, 4), (0, 3, 3)]);
    assert_eq!(nodes(&dlx), vec![(0, 0, 0), (0, 1, 1), (0, 2, 2), (0, 3, 3), (0, 0, 0)]);
}

#[test]
fn new_without_secondary_items_leaves_the_sentinel_alone() {
    let dlx = DancingLinks::new(&["a", "b"], &[]).unwrap();
    assert_eq!(items(&dlx), vec![(0, 2, 1), (0, 0, 2), (0, 1, 0), (0, 3, 3)]);
}

#[test]
fn new_without_primary_items_leaves_the_root_alone() {
    let dlx = DancingLinks::new(&[], &["x", "y"]).unwrap();
    assert_eq!(dlx.get_primary(), 0);
    assert_eq!(dlx.get_secondary(), 2);
    assert_eq!(items(&dlx), vec![(0, 0, 0), (0, 3, 2), (0, 1, 3), (0, 2, 1)]);
}

#[test]
fn new_keeps_the_names() {
    let dlx = DancingLinks::new(&["alpha", "beta"], &["gamma"]).unwrap();
    assert_eq!(dlx.get_record(0).name, None);
    assert_eq!(dlx.get_record(1).name.as_deref(), Some("alpha"));
    assert_eq!(dlx.get_record(2).name.as_deref(), Some("beta"));
    assert_eq!(dlx.get_record(3).name.as_deref(), Some("gamma"));
    assert_eq!(dlx.get_record(4).name, None);
}

#[test]
fn new_rejects_a_repeated_name() {
    assert!(matches!(DancingLinks::new(&["a", "b"], &["a"]), Err(InputError::DuplicateItem)));
    assert!(matches!(DancingLinks::new(&["a", "a"], &[]), Err(InputError::DuplicateItem)));
    assert!(matches!(DancingLinks::new(&[], &["x", "y", "x"]), Err(InputError::DuplicateItem)));
}

#[test]
fn add_option_threads_cells_into_columns() {
    let mut dlx = DancingLinks::new(&["a", "b"], &["c"]).unwrap();
    dlx.add_option("a c").unwrap();
    dlx.add_option("b").unwrap();
    assert_eq!(dlx.get_option_count(), 2);
    assert_eq!(items(&dlx), vec![(0, 2, 1), (1, 0, 2), (1, 1, 0), (1, 4, 4), (0, 3, 3)]);
    assert_eq!(
        nodes(&dlx),
        vec![
            (0, 0, 0),
            (0, 5, 5),
            (0, 8, 8),
            (0, 6, 6),
            (0, 0, 6),
            (1, 1, 1),
            (3, 3, 3),
            (-1, 5, 8),
            (2, 2, 2),
            (-2, 8, 0),
        ]
    );
}

#[test]
fn add_option_builds_the_arena_of_five_options() {
    let dlx = four_items();
    assert_eq!(dlx.get_option_count(), 5);
    assert_eq!(
        items(&dlx),
        vec![(0, 4, 1), (3, 0, 2), (3, 1, 3), (3, 2, 4), (3, 3, 0), (0, 5, 5)]
    );
    assert_eq!(
        nodes(&dlx),
        vec![
            (0, 0, 0),
            (0, 18, 6),
            (0, 19, 7),
            (0, 20, 10),
            (0, 21, 13),
            (0, 0, 7),
            (1, 1, 9),
            (2, 2, 12),
            (-1, 6, 10),
            (1, 6, 18),
            (3, 3, 15),
            (-2, 9, 13),
            (2, 7, 19),
            (4, 4, 16),
            (-3, 12, 16),
            (3, 10, 20),
            (4, 13, 21),
            (-4, 15, 21),
            (1, 9, 1),
            (2, 12, 2),
            (3, 15, 3),
            (4, 16, 4),
            (-5, 18, 0),
        ]
    );
}

#[test]
fn add_option_splits_at_any_white_space() {
    let mut one = DancingLinks::new(&["a", "b", "c"], &[]).unwrap();
    one.add_option("  a\tb \n c\r\n").unwrap();
    let mut other = DancingLinks::new(&["a", "b", "c"], &[]).unwrap();
    other.add_option("a b c").unwrap();
    assert_eq!(nodes(&one), nodes(&other));
    assert_eq!(items(&one), items(&other));
}

#[test]
fn add_option_takes_an_empty_option() {
    let mut dlx = DancingLinks::new(&["a"], &[]).unwrap();
    dlx.add_option("").unwrap();
    assert_eq!(dlx.get_option_count(), 1);
    assert_eq!(nodes(&dlx), vec![(0, 0, 0), (0, 1, 1), (0, 0, 2), (-1, 3, 0)]);
    dlx.add_option("a").unwrap();
    assert_eq!(dlx.get_option_count(), 2);
    assert_eq!(
        nodes(&dlx),
        vec![(0, 0, 0), (0, 4, 4), (0, 0, 2), (-1, 3, 4), (1, 1, 1), (-2, 4, 0)]
    );
}

#[test]
fn add_option_rejects_an_unknown_item() {
    let mut dlx = DancingLinks::new(&["a", "b"], &[]).unwrap();
    let before = (items(&dlx), nodes(&dlx));
    assert_eq!(dlx.add_option("a x"), Err(InputError::UnknownItem));
    assert_eq!((items(&dlx), nodes(&dlx)), before);
    assert_eq!(dlx.get_option_count(), 0);
}

#[test]
fn add_option_rejects_a_repeated_item() {
    let mut dlx = DancingLinks::new(&["a", "b"], &[]).unwrap();
    let before = (items(&dlx), nodes(&dlx));
    assert_eq!(dlx.add_option("a b a"), Err(InputError::DuplicateItemInOption));
    assert_eq!((items(&dlx), nodes(&dlx)), before);
}

#[test]
fn add_option_reports_the_first_fault() {
    let mut dlx = DancingLinks::new(&["a", "b"], &[]).unwrap();
    assert_eq!(dlx.add_option("a a x"), Err(InputError::DuplicateItemInOption));
    assert_eq!(dlx.add_option("a x a"), Err(InputError::UnknownItem));
    assert_eq!(dlx.add_option("x a a"), Err(InputError::UnknownItem));
}

#[test]
fn add_option_goes_on_after_a_refusal() {
    let mut dlx = DancingLinks::new(&["a", "b"], &["c"]).unwrap();
    assert!(dlx.add_option("a zebra").is_err());
    dlx.add_option("a c").unwrap();
    dlx.add_option("b").unwrap();
    assert_eq!(dlx.get_option_count(), 2);
    assert_eq!(items(&dlx), vec![(0, 2, 1), (1, 0, 2), (1, 1, 0), (1, 4, 4), (0, 3, 3)]);
}

#[test]
fn input_errors_have_their_messages() {
    assert_eq!(InputError::DuplicateItem.message(), "Item names must be unique.");
    assert_eq!(InputError::UnknownItem.message(), "Options must contain known items.");
    assert_eq!(
        InputError::DuplicateItemInOption.message(),
        "Options must contain unique items."
    );
    assert_eq!(InputError::NotAscii.message(), "Item names should belong to ASCII range.");
    assert_eq!(
        InputError::SeparatorRepeated.message(),
        "Item type separator '|' can only appear once."
    );
    assert_eq!(InputError::NoPrimaryItems.message(), "Primary items are required.");
}

#[test]
fn record_new_links_to_its_neighbours() {
    let r = Record::new("x", 3);
    assert_eq!(r.name.as_deref(), Some("x"));
    assert_eq!((r.length, r.left, r.right), (0, 2, 4));
}

#[test]
fn record_new_unnamed_has_no_name() {
    let r = Record::new_unnamed(7, 1);
    assert_eq!(r.name, None);
    assert_eq!((r.length, r.left, r.right), (0, 7, 1));
}

#[test]
fn record_counts_its_nodes() {
    let mut r = Record::new("x", 1);
    r.add_node();
    r.add_node();
    assert_eq!(r.length, 2);
    r.remove_node();
    assert_eq!(r.length, 1);
    assert_eq!((r.left, r.right), (0, 2));
}

#[test]
fn node_constructors_fill_the_fields() {
    let n = Node::new(-3, 4, 5);
    assert_eq!((n.top, n.up, n.down), (-3, 4, 5));
    let s = Node::new_spacer();
    assert_eq!((s.top, s.up, s.down), (0, 0, 0));
    let h = Node::new_header(9);
    assert_eq!((h.top, h.up, h.down), (0, 9, 9));
}
