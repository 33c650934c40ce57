use dlx::config::Config;
use dlx::search::{Outcome, Report, Search, Tick};
use dlx::DancingLinks;

fn config(args: &[&str]) -> Config {
    let args: Vec<String> = args.iter().map(|a| a.to_string()).collect();
    Config::build(&args).unwrap()
}

fn build(primary: &[&str], secondary: &[&str], options: &[&str]) -> DancingLinks {
    let mut dlx = DancingLinks::new(primary, secondary).unwrap();
    for option in options {
        dlx.add_option(option).unwrap();
    }
    dlx
}

fn links(dlx: &DancingLinks) -> (Vec<(usize, usize, usize)>, Vec<(isize, usize, usize)>) {
    (
        (0..dlx.get_item_count() + 2)
            .map(|i| (dlx.get_length(i), dlx.get_left(i), dlx.get_right(i)))
            .collect(),
        (0..dlx.get_list_len()).map(|i| (dlx.get_top(i), dlx.get_up(i), dlx.get_down(i))).collect(),
    )
}

fn counters(r: &Report) -> (usize, usize, usize, usize, usize) {
    (r.solution_count, r.visited_nodes, r.update_count, r.max_degree, r.max_level)
}

fn queens(n: usize) -> DancingLinks {
    let mut primary = Vec::new();
    let mut secondary = Vec::new();
    for i in 0..n {
        primary.push(format!("r{i}"));
    }
    for i in 0..n {
        primary.push(format!("c{i}"));
    }
    for i in 0..2 * n - 1 {
        secondary.push(format!("a{i}"));
    }
    for i in 0..2 * n - 1 {
        secondary.push(format!("b{i}"));
    }
    let primary: Vec<&str> = primary.iter().map(|s| s.as_str()).collect();
    let secondary: Vec<&str> = secondary.iter().map(|s| s.as_str()).collect();
    let mut dlx = DancingLinks::new(&primary, &secondary).unwrap();
    for i in 0..n {
        for j in 0..n {
            dlx.add_option(&format!("r{i} c{j} a{} b{}", i + j, n - 1 - i + j)).unwrap();
        }
    }
    dlx
}

#[test]
fn four_items_have_three_exact_covers() {
    let mut dlx = build(
        &["1", "2", "3", "4"],
        &[],
        &["1 2", "1 3", "2 4", "3 4", "1 2 3 4"],
    );
    let before = links(&dlx);
    let report = dlx.dance(&config(&["-i", "1"]));
    assert_eq!(report.outcome, Outcome::Finished);
    assert_eq!(counters(&report), (3, 6, 21, 3, 3));
    assert_eq!(report.solutions.len(), 3);
    assert_eq!(report.solutions[0].ordinal, 1);
    assert_eq!(report.solutions[0].rows, vec![6, 15]);
    assert_eq!(report.solutions[0].lines, vec!["1 2 (1 of 3)", "3 4 (1 of 1)"]);
    assert_eq!(report.solutions[1].ordinal, 2);
    assert_eq!(report.solutions[1].rows, vec![9, 12]);
    assert_eq!(report.solutions[1].lines, vec!["1 3 (2 of 3)", "2 4 (1 of 1)"]);
    assert_eq!(report.solutions[2].ordinal, 3);
    assert_eq!(report.solutions[2].rows, vec![18]);
    assert_eq!(report.solutions[2].lines, vec!["1 2 3 4 (3 of 3)"]);
    assert_eq!(links(&dlx), before);
}

#[test]
fn a_secondary_item_is_covered_at_most_once() {
    let mut dlx = build(&["a", "b"], &["c"], &["a c", "b"]);
    let report = dlx.dance(&config(&["--show-first"]));
    assert_eq!(report.outcome, Outcome::Finished);
    assert_eq!(counters(&report), (1, 3, 4, 1, 3));
    assert_eq!(report.solutions.len(), 1);
    assert_eq!(report.solutions[0].rows, vec![5, 8]);
    assert_eq!(report.solutions[0].lines, vec!["a c (1 of 1)", "b (1 of 1)"]);
}

#[test]
fn two_options_that_share_a_secondary_item_exclude_each_other() {
    let mut dlx = build(&["a", "b"], &["c"], &["a c", "b c", "b"]);
    let report = dlx.dance(&config(&["-i", "1"]));
    assert_eq!(report.solution_count, 1);
    assert_eq!(report.solutions[0].lines, vec!["a c (1 of 1)", "b (1 of 1)"]);
}

#[test]
fn an_item_without_options_ends_the_search_at_once() {
    let mut dlx = build(&["a", "b"], &[], &["a"]);
    let before = links(&dlx);
    let report = dlx.dance(&config(&["-f"]));
    assert_eq!(report.outcome, Outcome::Finished);
    assert_eq!(counters(&report), (0, 1, 1, 0, 0));
    assert!(report.solutions.is_empty());
    assert_eq!(links(&dlx), before);
}

#[test]
fn no_option_at_all_gives_no_solution() {
    let mut dlx = build(&["a"], &[], &[]);
    let report = dlx.dance(&config(&[]));
    assert_eq!(report.outcome, Outcome::Finished);
    assert_eq!(counters(&report), (0, 1, 1, 0, 0));
}

#[test]
fn no_primary_item_is_covered_by_the_empty_selection() {
    let mut dlx = build(&[], &["x"], &["x"]);
    let report = dlx.dance(&config(&["-f"]));
    assert_eq!(report.outcome, Outcome::Finished);
    assert_eq!(counters(&report), (1, 1, 0, 0, 1));
    assert_eq!(report.solutions.len(), 1);
    assert!(report.solutions[0].rows.is_empty());
    assert!(report.solutions[0].lines.is_empty());
}

#[test]
fn the_seven_item_example_has_one_cover() {
    let mut dlx = build(
        &["a", "b", "c", "d", "e", "f", "g"],
        &[],
        &["c e", "a d g", "b c f", "a d f", "b g", "d e g"],
    );
    let report = dlx.dance(&config(&["-i", "1"]));
    assert_eq!(counters(&report), (1, 6, 29, 2, 4));
    assert_eq!(report.solutions.len(), 1);
    assert_eq!(report.solutions[0].rows, vec![20, 24, 9]);
    assert_eq!(
        report.solutions[0].lines,
        vec!["a d f (2 of 2)", "b g (1 of 1)", "c e (1 of 1)"]
    );
}

#[test]
fn queens_are_counted() {
    assert_eq!(counters(&queens(4).dance(&config(&[]))), (2, 17, 237, 4, 5));
    assert_eq!(counters(&queens(5).dance(&config(&[]))), (10, 52, 720, 5, 6));
    assert_eq!(counters(&queens(6).dance(&config(&[]))), (4, 111, 1973, 6, 7));
}

#[test]
fn the_search_can_be_run_again() {
    let mut dlx = queens(5);
    let first = dlx.dance(&config(&[]));
    let second = dlx.dance(&config(&[]));
    assert_eq!(counters(&first), counters(&second));
}

#[test]
fn nothing_is_shown_unless_asked_for() {
    let mut dlx = queens(5);
    let report = dlx.dance(&config(&[]));
    assert_eq!(report.solution_count, 10);
    assert!(report.solutions.is_empty());
}

#[test]
fn the_first_solution_and_every_third_are_shown() {
    let mut dlx = queens(5);
    let report = dlx.dance(&config(&["-f", "-i", "3"]));
    let shown: Vec<usize> = report.solutions.iter().map(|s| s.ordinal).collect();
    assert_eq!(shown, vec![1, 3, 6, 9]);
}

#[test]
fn the_first_solution_is_shown_once_with_interval_one() {
    let mut dlx = queens(4);
    let report = dlx.dance(&config(&["-f", "-i", "1"]));
    let shown: Vec<usize> = report.solutions.iter().map(|s| s.ordinal).collect();
    assert_eq!(shown, vec![1, 2]);
}

#[test]
fn every_solution_shown_is_an_exact_cover() {
    let n = 5;
    let mut dlx = queens(n);
    let report = dlx.dance(&config(&["-i", "1"]));
    assert_eq!(report.solutions.len(), 10);
    let mut seen = Vec::new();
    for solution in &report.solutions {
        assert_eq!(solution.rows.len(), n);
        assert_eq!(solution.lines.len(), n);
        let mut times = vec![0; dlx.get_item_count() + 1];
        for &x in &solution.rows {
            let mut p = x;
            loop {
                times[dlx.get_top(p) as usize] += 1;
                p += 1;
                if dlx.get_top(p) <= 0 {
                    p = dlx.get_up(p);
                }
                if p == x {
                    break;
                }
            }
        }
        for item in 1..=dlx.get_item_count() {
            if item <= dlx.get_primary() {
                assert_eq!(times[item], 1);
            } else {
                assert!(times[item] <= 1);
            }
        }
        let mut rows = solution.rows.clone();
        rows.sort();
        assert!(!seen.contains(&rows));
        seen.push(rows);
    }
}

#[test]
fn a_deadline_of_zero_stops_before_the_first_step() {
    let mut dlx = queens(6);
    let before = links(&dlx);
    let report = dlx.dance(&config(&["-t", "0", "-i", "1"]));
    assert_eq!(report.outcome, Outcome::TimedOut);
    assert_eq!(counters(&report), (0, 0, 0, 0, 0));
    assert!(report.solutions.is_empty());
    assert!(report.progress.is_empty());
    assert!(report.elapsed.nanos < 1_000_000_000);
    assert_eq!(links(&dlx), before);
}

#[test]
fn a_far_deadline_lets_the_search_finish() {
    let mut dlx = queens(5);
    let report = dlx.dance(&config(&["-t", "1000000"]));
    assert_eq!(report.outcome, Outcome::Finished);
    assert_eq!(report.solution_count, 10);
}

#[test]
fn tick_stops_when_the_deadline_has_passed() {
    let mut dlx = queens(5);
    let mut search = Search::new(&dlx, &config(&["--timeout", "7"]));
    assert_eq!(dlx.tick(&mut search, 0), Tick::Running);
    assert_eq!(dlx.tick(&mut search, 6), Tick::Running);
    let before = links(&dlx);
    assert_eq!(dlx.tick(&mut search, 7), Tick::TimedOut);
    assert_eq!(dlx.tick(&mut search, 8), Tick::TimedOut);
    assert_eq!(links(&dlx), before);
    let report = search.report(
        Outcome::TimedOut,
        dlx::clock::Elapsed { secs: 8, nanos: 0 },
    );
    assert_eq!(report.outcome, Outcome::TimedOut);
    assert_eq!(report.visited_nodes, 2);
    assert_eq!(report.elapsed.secs, 8);
}

#[test]
fn tick_without_a_deadline_runs_to_the_end() {
    let mut dlx = queens(4);
    let mut search = Search::new(&dlx, &config(&["-r", "1000"]));
    let mut steps = 0;
    while dlx.tick(&mut search, 999) == Tick::Running {
        steps += 1;
    }
    let report = search.report(Outcome::Finished, dlx::clock::Elapsed { secs: 999, nanos: 5 });
    assert_eq!(counters(&report), (2, 17, 237, 4, 5));
    assert!(report.progress.is_empty());
    assert!(steps > 17);
}

#[test]
fn advance_reports_the_end_again_when_asked_again() {
    let mut dlx = build(&["a"], &[], &["a"]);
    let mut search = Search::new(&dlx, &config(&[]));
    let mut steps = 1;
    while !dlx.advance(&mut search) {
        steps += 1;
    }
    assert_eq!(steps, 3);
    assert!(dlx.advance(&mut search));
    let report = search.report(Outcome::Finished, dlx::clock::Elapsed { secs: 0, nanos: 0 });
    assert_eq!(counters(&report), (1, 2, 1, 1, 2));
}

#[test]
fn a_progress_report_is_made_when_due() {
    let mut dlx = build(
        &["1", "2", "3", "4"],
        &[],
        &["1 2", "1 3", "2 4", "3 4", "1 2 3 4"],
    );
    let mut search = Search::new(&dlx, &config(&["--report", "10"]));
    assert_eq!(dlx.tick(&mut search, 9), Tick::Running);
    assert_eq!(dlx.tick(&mut search, 9), Tick::Running);
    // two levels are open now; a report is due at 10 and then at 20
    assert_eq!(dlx.tick(&mut search, 10), Tick::Running);
    assert_eq!(dlx.tick(&mut search, 11), Tick::Running);
    assert_eq!(dlx.tick(&mut search, 25), Tick::Running);
    assert_eq!(dlx.tick(&mut search, 25), Tick::Running);
    while dlx.tick(&mut search, 29) == Tick::Running {}
    let report = search.report(Outcome::Finished, dlx::clock::Elapsed { secs: 29, nanos: 0 });
    assert_eq!(report.progress.len(), 2);
    let first = &report.progress[0];
    assert_eq!(first.elapsed_secs, 10);
    assert_eq!(first.solution_count, 0);
    let places: Vec<(Option<usize>, usize)> =
        first.branches.iter().map(|b| (b.position, b.length)).collect();
    assert_eq!(places, vec![(Some(1), 3), (Some(1), 1)]);
    let second = &report.progress[1];
    assert_eq!(second.elapsed_secs, 25);
    assert_eq!(second.solution_count, 1);
    assert_eq!(counters(&report), (3, 6, 21, 3, 3));
}

#[test]
fn a_report_interval_of_zero_reports_at_every_step() {
    let mut dlx = build(&["a"], &[], &["a"]);
    let mut search = Search::new(&dlx, &config(&["-r", "0"]));
    let mut steps = 1;
    while dlx.tick(&mut search, 0) == Tick::Running {
        steps += 1;
    }
    let report = search.report(Outcome::Finished, dlx::clock::Elapsed { secs: 0, nanos: 0 });
    assert_eq!(report.progress.len(), steps);
}

#[test]
fn every_option_hidden_is_unhidden_again() {
    let mut dlx = queens(6);
    let lengths: Vec<usize> = (0..dlx.get_item_count() + 2).map(|i| dlx.get_length(i)).collect();
    let cells: usize = lengths.iter().sum();
    let report = dlx.dance(&config(&[]));
    assert_eq!(report.outcome, Outcome::Finished);
    assert!(report.update_count > 0);
    let after: Vec<usize> = (0..dlx.get_item_count() + 2).map(|i| dlx.get_length(i)).collect();
    assert_eq!(after, lengths);
    assert_eq!(after.iter().sum::<usize>(), cells);
    for item in 1..=dlx.get_item_count() {
        let mut count = 0;
        let mut p = dlx.get_down(item);
        while p != item {
            assert_eq!(dlx.get_up(dlx.get_down(p)), p);
            assert_eq!(dlx.get_down(dlx.get_up(p)), p);
            count += 1;
            p = dlx.get_down(p);
        }
        assert_eq!(count, dlx.get_length(item));
    }
}

#[test]
fn the_item_chosen_has_the_fewest_options_at_every_step() {
    let mut dlx = queens(5);
    let mut search = Search::new(&dlx, &config(&[]));
    loop {
        if dlx.get_right(0) != 0 {
            let (item, length) = dlx.choose_item();
            assert_eq!(length, dlx.get_length(item));
            let mut p = dlx.get_right(0);
            let mut first = 0;
            while p != 0 {
                assert!(length <= dlx.get_length(p));
                if first == 0 && dlx.get_length(p) == length {
                    first = p;
                }
                p = dlx.get_right(p);
            }
            assert_eq!(item, first);
        }
        if dlx.advance(&mut search) {
            break;
        }
    }
}

#[test]
fn options_without_a_primary_item_are_never_chosen() {
    let mut dlx = build(&["a"], &["c"], &["a", "c", ""]);
    let report = dlx.dance(&config(&["-i", "1"]));
    assert_eq!(report.solution_count, 1);
    assert_eq!(report.solutions[0].lines, vec!["a (1 of 1)"]);
}

#[test]
fn equal_options_give_different_covers() {
    let mut dlx = build(&["a", "b"], &[], &["a b", "a b", "a", "b"]);
    let report = dlx.dance(&config(&["-i", "1"]));
    assert_eq!(report.solution_count, 3);
    let rows: Vec<Vec<usize>> = report.solutions.iter().map(|s| s.rows.clone()).collect();
    assert_eq!(rows, vec![vec![4], vec![7], vec![10, 12]]);
}

#[test]
fn eight_queens_have_ninety_two_placements() {
    let mut dlx = queens(8);
    let report = dlx.dance(&config(&["--show-first"]));
    assert_eq!(counters(&report), (92, 1199, 21375, 8, 9));
    assert_eq!(report.solutions.len(), 1);
    assert_eq!(report.solutions[0].rows, vec![48, 108, 163, 193, 293, 218, 278, 343]);
    assert_eq!(
        report.solutions[0].lines,
        vec![
            "r0 c0 a0 b7 (1 of 8)",
            "r1 c4 a5 b10 (3 of 6)",
            "r2 c7 a9 b12 (3 of 3)",
            "r3 c5 a8 b9 (2 of 2)",
            "r6 c1 a7 b2 (1 of 1)",
            "r4 c2 a6 b5 (1 of 1)",
            "r5 c6 a11 b8 (1 of 1)",
            "r7 c3 a10 b3 (1 of 1)",
        ]
    );
}
