use dlx::DancingLinks;

fn four_items() -> DancingLinks {
    let mut dlx = DancingLinks::new(&["1", "2", "3", "4"], &[]).unwrap();
    for option in ["1 2", "1 3", "2 4", "3 4", "1 2 3 4"] {
        dlx.add_option(option).unwrap();
    }
    dlx
}

fn with_secondary() -> DancingLinks {
    let mut dlx = DancingLinks::new(&["a", "b", "c"], &["x", "y"]).unwrap();
    for option in ["a x", "b x y", "c y", "a b", "c", "b"] {
        dlx.add_option(option).unwrap();
    }
    dlx
}

fn links(dlx: &DancingLinks) -> (Vec<(usize, usize, usize)>, Vec<(isize, usize, usize)>) {
    (
        (0..dlx.get_item_count() + 2)
            .map(|i| (dlx.get_length(i), dlx.get_left(i), dlx.get_right(i)))
            .collect(),
        (0..dlx.get_list_len()).map(|i| (dlx.get_top(i), dlx.get_up(i), dlx.get_down(i))).collect(),
    )
}

#[test]
fn cover_hides_the_options_of_the_item() {
    let mut dlx = four_items();
    assert_eq!(dlx.cover(1), 6);
    let (items, nodes) = links(&dlx);
    assert_eq!(items, vec![(0, 4, 2), (3, 0, 2), (1, 0, 3), (1, 2, 4), (2, 3, 0), (0, 5, 5)]);
    assert_eq!(
        nodes,
        vec![
            (0, 0, 0),
            (0, 18, 6),
            (0, 12, 12),
            (0, 15, 15),
            (0, 16, 13),
            (0, 0, 7),
            (1, 1, 9),
            (2, 2, 12),
            (-1, 6, 10),
            (1, 6, 18),
            (3, 3, 15),
            (-2, 9, 13),
            (2, 2, 2),
            (4, 4, 16),
            (-3, 12, 16),
            (3, 3, 3),
            (4, 13, 4),
            (-4, 15, 21),
            (1, 9, 1),
            (2, 12, 2),
            (3, 15, 3),
            (4, 16, 4),
            (-5, 18, 0),
        ]
    );
}

#[test]
fn cover_of_an_item_without_options_changes_one_link() {
    let mut dlx = DancingLinks::new(&["a", "b"], &[]).unwrap();
    dlx.add_option("a").unwrap();
    assert_eq!(dlx.cover(2), 1);
    assert_eq!(dlx.get_right(1), 0);
    assert_eq!(dlx.get_left(0), 1);
}

#[test]
fn uncover_restores_every_link_after_cover() {
    for i in 1..=4 {
        let mut dlx = four_items();
        let before = links(&dlx);
        dlx.cover(i);
        assert_ne!(links(&dlx), before);
        dlx.uncover(i);
        assert_eq!(links(&dlx), before);
    }
}

#[test]
fn uncover_restores_every_link_with_secondary_items() {
    for i in 1..=5 {
        let mut dlx = with_secondary();
        let before = links(&dlx);
        dlx.cover(i);
        dlx.uncover(i);
        assert_eq!(links(&dlx), before);
    }
}

#[test]
fn nested_covers_are_undone_in_reverse() {
    let mut dlx = with_secondary();
    let start = links(&dlx);
    dlx.cover(1);
    let after_one = links(&dlx);
    dlx.cover(4);
    let after_two = links(&dlx);
    dlx.cover(3);
    dlx.uncover(3);
    assert_eq!(links(&dlx), after_two);
    dlx.uncover(4);
    assert_eq!(links(&dlx), after_one);
    dlx.uncover(1);
    assert_eq!(links(&dlx), start);
}

#[test]
fn choose_item_takes_the_first_of_the_shortest_columns() {
    let mut dlx = DancingLinks::new(&["a", "b", "c", "d"], &["s"]).unwrap();
    for option in ["a b", "a c", "a d", "b d", "c d s", "b s"] {
        dlx.add_option(option).unwrap();
    }
    // lengths: a 3, b 3, c 2, d 3
    assert_eq!(dlx.choose_item(), (3, 2));
    dlx.cover(3);
    // options with c are hidden: a 2, b 3, d 2
    assert_eq!(dlx.choose_item(), (1, 2));
    let (item, length) = dlx.choose_item();
    let mut p = dlx.get_right(0);
    while p != 0 {
        assert!(length <= dlx.get_length(p));
        if p < item {
            assert!(length < dlx.get_length(p));
        }
        p = dlx.get_right(p);
    }
}

#[test]
fn choose_item_stops_at_an_empty_column() {
    let mut dlx = DancingLinks::new(&["a", "b", "c"], &[]).unwrap();
    dlx.add_option("a").unwrap();
    dlx.add_option("a c").unwrap();
    assert_eq!(dlx.choose_item(), (2, 0));
}

#[test]
fn get_option_position_counts_from_the_header() {
    let dlx = four_items();
    assert_eq!(dlx.get_option_position(6), (Some(1), 3));
    assert_eq!(dlx.get_option_position(9), (Some(2), 3));
    assert_eq!(dlx.get_option_position(18), (Some(3), 3));
    assert_eq!(dlx.get_option_position(16), (Some(2), 3));
}

#[test]
fn get_option_position_of_a_hidden_cell_is_unknown() {
    let mut dlx = four_items();
    dlx.cover(1);
    // cell 7 (item 2 of the first option) was taken out of its column
    assert_eq!(dlx.get_option_position(7), (None, 1));
    assert_eq!(dlx.get_option_position(12), (Some(1), 1));
    assert_eq!(dlx.get_option_position(9), (Some(2), 3));
}

#[test]
fn get_option_str_names_the_items_from_the_cell_on() {
    let dlx = four_items();
    assert_eq!(dlx.get_option_str(6), "1 2 (1 of 3)");
    assert_eq!(dlx.get_option_str(7), "2 1 (1 of 3)");
    assert_eq!(dlx.get_option_str(18), "1 2 3 4 (3 of 3)");
    assert_eq!(dlx.get_option_str(20), "3 4 1 2 (3 of 3)");
    assert_eq!(dlx.get_option_str(21), "4 1 2 3 (3 of 3)");
}

#[test]
fn get_option_str_marks_a_hidden_cell() {
    let mut dlx = four_items();
    dlx.cover(1);
    assert_eq!(dlx.get_option_str(7), "2 1 (? of 1)");
}

#[test]
fn get_option_str_writes_large_counts() {
    let mut dlx = DancingLinks::new(&["a"], &[]).unwrap();
    for _ in 0..123 {
        dlx.add_option("a").unwrap();
    }
    assert_eq!(dlx.get_option_str(3 + 2 * 99), "a (100 of 123)");
    assert_eq!(dlx.get_option_str(3), "a (1 of 123)");
}
