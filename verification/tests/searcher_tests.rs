use fsearch::accumulator::MatchAccumulator;
use fsearch::format::decorate;
use fsearch::get_top_matches;
use fsearch::matcher::Matcher;
use fsearch::record::MatchRecord;
use fsearch::searcher::{RenderAction, Searcher};

fn record(score: i64, display: &str) -> MatchRecord {
    MatchRecord { score, display: display.to_string() }
}

#[test]
fn accumulator_keeps_every_append() {
    let mut acc = MatchAccumulator::new();
    assert_eq!(acc.len(), 0);
    acc.append(record(3, "a"));
    acc.append(record(1, "b"));
    acc.append(record(2, "c"));
    assert_eq!(acc.len(), 3);
    let snap = acc.snapshot();
    assert_eq!(snap.len(), 3);
    assert_eq!(snap[0].score, 3);
    assert_eq!(snap[0].display, "a");
    assert_eq!(snap[1].score, 1);
    assert_eq!(snap[1].display, "b");
    assert_eq!(snap[2].score, 2);
    assert_eq!(snap[2].display, "c");
}

#[test]
fn fmatch_scores_contiguous_early_match() {
    let m = Matcher::new("ap".to_string());
    let r = m.fmatch("apple.txt");
    let (score, positions) = r.expect("apple.txt should match");
    assert_eq!(positions, vec![0, 1]);
    // one adjacent pair, first match at position 0
    assert_eq!(score, 10);
}

#[test]
fn fmatch_rejects_out_of_order_characters() {
    let m = Matcher::new("ap".to_string());
    assert!(m.fmatch("banana.txt").is_none());
    assert!(m.fmatch("a.txt").is_none());
}

#[test]
fn fmatch_penalises_late_start() {
    let m = Matcher::new("at".to_string());
    let (score, positions) = m.fmatch("cat.txt").expect("cat.txt should match");
    assert_eq!(positions, vec![1, 2]);
    // one adjacent pair minus a start at position 1
    assert_eq!(score, 9);
}

#[test]
fn fmatch_empty_query_matches_everything() {
    let m = Matcher::new(String::new());
    let (score, positions) = m.fmatch("anything").expect("empty query matches");
    assert_eq!(score, 0);
    assert!(positions.is_empty());
}

#[test]
fn unicode_names_are_matched_by_character() {
    let m = Matcher::new("üb".to_string());
    let (score, positions) = m.fmatch("über.txt").expect("über.txt should match");
    assert_eq!(positions, vec![0, 1]);
    assert_eq!(score, 10);
    let d = decorate("über", &vec![0, 1]);
    assert_eq!(d, "\u{1b}[1mü\u{1b}[0m\u{1b}[1mb\u{1b}[0mer");
}

#[test]
fn decorate_wraps_matched_characters() {
    let d = decorate("apple", &vec![0, 1]);
    assert_eq!(d, "\u{1b}[1ma\u{1b}[0m\u{1b}[1mp\u{1b}[0mple");
}

#[test]
fn scenario_single_match_in_base_directory() {
    let mut s = Searcher::new(".".to_string(), "ap".to_string(), false);
    s.check_match("apple.txt", "");
    s.check_match("banana.txt", "");
    s.check_match("a.txt", "");
    s.complete_search();
    let (view, overflow) = s.final_render();
    assert_eq!(view.len(), 1);
    assert_eq!(view[0], ".\\\\\u{1b}[1ma\u{1b}[0m\u{1b}[1mp\u{1b}[0mple.txt");
    assert_eq!(overflow, 0);
}

#[test]
fn scenario_skipped_directories_leave_other_matches_intact() {
    // Entries of an unreadable subdirectory are never handed to the session;
    // the scan still completes and counts only the readable ones.
    let mut s = Searcher::new(".".to_string(), "log".to_string(), false);
    s.check_match("log.txt", "readable");
    s.check_match("readme.md", "readable");
    s.complete_search();
    let all = s.show_all();
    assert_eq!(all.len(), 1);
}

#[test]
fn scenario_fifty_matches_ten_shown() {
    let mut matches: Vec<MatchRecord> = Vec::new();
    for i in 0..50i64 {
        matches.push(record(i, &format!("entry{:02}", i)));
    }
    let (view, overflow) = get_top_matches(&matches, 10);
    assert_eq!(view.len(), 10);
    assert_eq!(overflow, 40);
    // descending by score
    assert_eq!(view[0], "entry49");
    assert_eq!(view[9], "entry40");
}

#[test]
fn scenario_filter_over_all_accumulated_matches() {
    let mut s = Searcher::new(".".to_string(), String::new(), false);
    for i in 0..10i64 {
        let name = if i < 3 {
            format!("keep{}.rs", i)
        } else {
            format!("other{}.txt", i)
        };
        s.matches.append(record(i, &name));
    }
    s.complete_search();
    let kept = s.filter("keep");
    assert_eq!(kept.len(), 3);
    assert_eq!(kept[0], "keep0.rs");
    assert_eq!(kept[1], "keep1.rs");
    assert_eq!(kept[2], "keep2.rs");
    let none = s.filter("absent");
    assert_eq!(none.len(), 0);
}

#[test]
fn filter_preserves_scores_of_survivors() {
    let mut s = Searcher::new(".".to_string(), String::new(), false);
    s.matches.append(record(5, "alpha"));
    s.matches.append(record(-2, "beta"));
    s.matches.append(record(7, "alphabet"));
    let kept = s.filter_matches("alpha");
    assert_eq!(kept.len(), 2);
    assert_eq!(kept[0].score, 5);
    assert_eq!(kept[0].display, "alpha");
    assert_eq!(kept[1].score, 7);
    assert_eq!(kept[1].display, "alphabet");
}

#[test]
fn repeat_scans_in_other_orders_present_the_same_view() {
    let one = vec![record(2, "b"), record(5, "a"), record(5, "c"), record(1, "d")];
    let two = vec![record(5, "c"), record(1, "d"), record(5, "a"), record(2, "b")];
    let (v1, o1) = get_top_matches(&one, 3);
    let (v2, o2) = get_top_matches(&two, 3);
    assert_eq!(v1, v2);
    assert_eq!(o1, o2);
    assert_eq!(v1, vec!["a".to_string(), "c".to_string(), "b".to_string()]);
    assert_eq!(o1, 1);
}

#[test]
fn ties_are_broken_by_display_string() {
    let matches = vec![record(4, "zeta"), record(4, "alpha"), record(4, "midway")];
    let (view, overflow) = get_top_matches(&matches, 10);
    assert_eq!(view, vec!["alpha".to_string(), "midway".to_string(), "zeta".to_string()]);
    assert_eq!(overflow, 0);
}

#[test]
fn renderer_redraws_once_then_reports_progress() {
    let mut s = Searcher::new(".".to_string(), String::new(), false);
    s.matches.append(record(3, "one"));
    s.matches.append(record(1, "two"));
    match s.render_step() {
        RenderAction::Redraw(view) => {
            assert_eq!(view, vec!["one".to_string(), "two".to_string()]);
        },
        _ => panic!("first sample of a fresh view must redraw"),
    }
    match s.render_step() {
        RenderAction::Progress(overflow) => assert_eq!(overflow, 0),
        _ => panic!("an unchanged view must not be redrawn"),
    }
    s.matches.append(record(2, "three"));
    match s.render_step() {
        RenderAction::Redraw(view) => {
            assert_eq!(
                view,
                vec!["one".to_string(), "three".to_string(), "two".to_string()]
            );
        },
        _ => panic!("a changed view must be redrawn"),
    }
    s.complete_search();
    match s.render_step() {
        RenderAction::Stop => {},
        _ => panic!("the renderer must stop once the search has completed"),
    }
}

#[test]
fn renderer_reports_overflow_while_stable() {
    let mut s = Searcher::new(".".to_string(), String::new(), false);
    s.set_top_k(2);
    for i in 0..5i64 {
        s.matches.append(record(i, &format!("m{}", i)));
    }
    match s.render_step() {
        RenderAction::Redraw(view) => assert_eq!(view.len(), 2),
        _ => panic!("first sample must redraw"),
    }
    match s.render_step() {
        RenderAction::Progress(overflow) => assert_eq!(overflow, 3),
        _ => panic!("stable view must only report progress"),
    }
}

#[test]
fn final_render_reflects_the_settled_result_set() {
    let mut s = Searcher::new(".".to_string(), String::new(), false);
    s.matches.append(record(1, "early"));
    // the renderer saw only the first record
    let _ = s.render_step();
    s.matches.append(record(9, "late"));
    s.complete_search();
    let (view, overflow) = s.final_render();
    let (expected_view, expected_overflow) = get_top_matches(&s.matches.snapshot(), 10);
    assert_eq!(view, expected_view);
    assert_eq!(overflow, expected_overflow);
    assert_eq!(view, vec!["late".to_string(), "early".to_string()]);
    assert_eq!(overflow, 0);
}

#[test]
fn show_all_lists_every_match_in_accumulation_order() {
    let mut s = Searcher::new(".".to_string(), String::new(), false);
    s.matches.append(record(1, "first"));
    s.matches.append(record(9, "second"));
    s.matches.append(record(5, "third"));
    let all = s.show_all();
    assert_eq!(
        all,
        vec!["first".to_string(), "second".to_string(), "third".to_string()]
    );
}

#[test]
fn check_match_appends_formatted_record() {
    let mut s = Searcher::new("base".to_string(), "ma".to_string(), true);
    s.check_match("main.rs", "src");
    s.check_match("lib.rs", "src");
    let snap = s.matches.snapshot();
    assert_eq!(snap.len(), 1);
    assert_eq!(
        snap[0].display,
        ".\\src\\\u{1b}[1mm\u{1b}[0m\u{1b}[1ma\u{1b}[0min.rs"
    );
    // two adjacent characters matched at the very start
    assert_eq!(snap[0].score, 10);
}
