use roster::order::{draw_order, fill_bag, first_occurrences, score_bounds, tier};
use roster::search::{rank_matches, search};
use roster::text::{byte_offset, utf8_width};
use roster::{load, Action, App, DisplayMode, InputMode, LoadError, Row, Student};

fn student(name: &str, email: &str, score: usize) -> Student {
    Student {
        name: name.to_string(),
        email: email.to_string(),
        participation_score: score,
        deferrals: 0,
        absent: 0,
        answered_today: 0,
        color: 0,
    }
}

fn row(name: &str, email: &str, score: &str, deferrals: &str, absent: &str) -> Row {
    Row {
        name: name.to_string(),
        email: email.to_string(),
        participation_score: score.to_string(),
        deferrals: deferrals.to_string(),
        absent: absent.to_string(),
    }
}

fn is_permutation(order: &[usize], n: usize) -> bool {
    let mut seen = vec![false; n];
    for &i in order {
        if i >= n || seen[i] {
            return false;
        }
        seen[i] = true;
    }
    order.len() == n
}

fn selection_ok(app: &App) -> bool {
    match app.selection {
        None => app.view.is_empty(),
        Some(i) => i < app.view.len(),
    }
}

fn count(bag: &[usize], v: usize) -> usize {
    bag.iter().filter(|&&x| x == v).count()
}

fn abc() -> Vec<Student> {
    vec![student("Ann", "a@x", 2), student("Bob", "b@x", 5), student("Cyd", "c@x", 5)]
}

#[test]
fn scenario_tickets_and_order_of_three() {
    let students = abc();
    let (lo, hi) = score_bounds(&students);
    assert_eq!((lo, hi), (2, 5));
    let bag = fill_bag(&students, lo, hi);
    assert_eq!(count(&bag, 0), 4);
    assert_eq!(count(&bag, 1), 1);
    assert_eq!(count(&bag, 2), 1);
    assert_eq!(bag, vec![0, 0, 0, 0, 1, 2]);
    let app = App::new(abc());
    let mut keys = app.order_keys();
    keys.sort();
    assert_eq!(keys, vec!["a@x".to_string(), "b@x".to_string(), "c@x".to_string()]);
}

#[test]
fn order_is_a_permutation_after_every_regeneration() {
    let mut students = Vec::new();
    for i in 0..12 {
        students.push(student(&format!("S{i}"), &format!("s{i}@x"), i % 4));
    }
    let mut app = App::new(students);
    for _ in 0..20 {
        assert!(is_permutation(&app.order, 12));
        app.randomize();
    }
    assert!(is_permutation(&app.order, 12));
    assert!(is_permutation(&draw_order(&app.students), 12));
}

#[test]
fn empty_registry_has_empty_order() {
    let app = App::new(Vec::new());
    assert!(app.order.is_empty());
    assert!(app.view.is_empty());
    assert_eq!(app.selection, None);
}

#[test]
fn equal_scores_give_one_ticket_each() {
    let students = vec![student("A", "a", 7), student("B", "b", 7), student("C", "c", 7)];
    let (lo, hi) = score_bounds(&students);
    let bag = fill_bag(&students, lo, hi);
    assert_eq!(bag, vec![0, 1, 2]);
    let app = App::new(students);
    assert!(app.students.iter().all(|s| s.color == 0));
}

#[test]
fn lowest_score_gets_range_plus_one_tickets() {
    let students = vec![student("A", "a", 10), student("B", "b", 3), student("C", "c", 6)];
    let bag = fill_bag(&students, 3, 10);
    assert_eq!(count(&bag, 1), 8);
    assert_eq!(count(&bag, 0), 1);
    assert_eq!(count(&bag, 2), 5);
}

#[test]
fn tiers_round_the_score_ratio() {
    assert_eq!(tier(2, 2, 5), 0);
    assert_eq!(tier(3, 2, 5), 1);
    assert_eq!(tier(4, 2, 5), 3);
    assert_eq!(tier(5, 2, 5), 4);
    assert_eq!(tier(1, 0, 8), 1);
    assert_eq!(tier(3, 0, 8), 2);
    assert_eq!(tier(4, 4, 4), 0);
    let app = App::new(abc());
    assert_eq!(app.students[0].color, 0);
    assert_eq!(app.students[1].color, 4);
}

#[test]
fn first_occurrences_keep_encounter_order() {
    assert_eq!(first_occurrences(&vec![2, 0, 2, 1, 0], 3), vec![2, 0, 1]);
    assert_eq!(first_occurrences(&vec![], 0), Vec::<usize>::new());
}

#[test]
fn ranking_sorts_by_score_then_index() {
    let scores = vec![Some(5), None, Some(7), Some(5), None];
    assert_eq!(rank_matches(&scores), vec![2, 0, 3]);
    assert_eq!(rank_matches(&vec![None, None]), Vec::<usize>::new());
}

#[test]
fn empty_query_shows_the_order() {
    let mut app = App::new(abc());
    assert_eq!(app.view, app.order);
    assert_eq!(app.view_keys(), app.order_keys());
    app.begin_search();
    app.enter_char('b');
    app.delete_char();
    assert_eq!(app.view, app.order);
    assert_eq!(app.selection, Some(0));
}

#[test]
fn query_without_match_empties_the_view() {
    let mut app = App::new(abc());
    app.begin_search();
    app.enter_char('z');
    app.enter_char('z');
    assert!(app.view.is_empty());
    assert_eq!(app.selection, None);
    app.move_selection_down();
    app.move_selection_up();
    assert_eq!(app.selection, None);
    app.display_selected_student();
    assert!(app.student_display.is_none());
}

#[test]
fn search_ignores_case_and_ranks_better_matches_first() {
    let students = vec![
        student("Xavier Lane", "x@x", 0),
        student("ALICE", "al@x", 0),
        student("Bob", "b@x", 0),
    ];
    let view = search(&students, "al");
    assert!(view.contains(&1));
    assert!(!view.contains(&2));
    assert_eq!(view[0], 1);
}

#[test]
fn search_twice_gives_the_same_view() {
    let students = vec![
        student("Dana", "d1@x", 0),
        student("Dana", "d2@x", 3),
        student("Daniel", "d3@x", 1),
        student("Ed", "e@x", 1),
    ];
    let first = search(&students, "dan");
    let second = search(&students, "dan");
    assert_eq!(first, second);
    let p0 = first.iter().position(|&i| i == 0).unwrap();
    let p1 = first.iter().position(|&i| i == 1).unwrap();
    assert!(p0 < p1);
    assert!(!first.contains(&3));
    let mut app = App::new(students);
    app.begin_search();
    for c in "dan".chars() {
        app.enter_char(c);
    }
    let view = app.view.clone();
    app.move_cursor_left();
    app.enter_char('x');
    app.delete_char();
    assert_eq!(app.query(), "dan");
    assert_eq!(app.view, view);
}

#[test]
fn selection_stays_clamped() {
    let mut app = App::new(abc());
    assert_eq!(app.selection, Some(0));
    app.move_selection_up();
    assert_eq!(app.selection, Some(0));
    app.move_selection_down();
    app.move_selection_down();
    app.move_selection_down();
    assert_eq!(app.selection, Some(2));
    app.begin_search();
    app.enter_char('q');
    assert!(selection_ok(&app));
    app.end_search();
    assert_eq!(app.selection, Some(0));
    assert!(selection_ok(&app));
}

#[test]
fn answer_scores_the_inspected_student() {
    let students = vec![student("Ann", "a@x", 3), student("Bob", "b@x", 1), student("Cyd", "c@x", 7)];
    let mut app = App::new(students);
    let pos = app.view.iter().position(|&i| app.students[i].email == "a@x").unwrap();
    for _ in 0..pos {
        app.move_selection_down();
    }
    assert!(!app.apply(Action::Confirm));
    assert_eq!(app.input_mode(), InputMode::Student);
    assert_eq!(app.student_display.as_ref().unwrap().email, "a@x");
    assert!(!app.apply(Action::Answer));
    assert_eq!(app.input_mode(), InputMode::Command);
    assert_eq!(app.students[0].participation_score, 4);
    assert_eq!(app.students[0].answered_today, 1);
    assert_eq!(app.students[1].participation_score, 1);
    assert_eq!(app.students[2].participation_score, 7);
    assert_eq!(app.students[1].answered_today, 0);
    assert!(is_permutation(&app.order, 3));
    assert_eq!(app.view, app.order);
}

#[test]
fn answer_returns_to_search_mode() {
    let mut app = App::new(abc());
    app.apply(Action::BeginSearch);
    app.apply(Action::Insert('b'));
    app.apply(Action::Insert('o'));
    assert_eq!(app.view, vec![1]);
    app.apply(Action::Confirm);
    assert_eq!(app.input_mode(), InputMode::Student);
    let snapshot = app.student_display.clone().unwrap();
    app.apply(Action::Answer);
    assert_eq!(app.input_mode(), InputMode::Searching);
    assert_eq!(app.display_mode, DisplayMode::Searching);
    assert_eq!(app.students[1].participation_score, 6);
    assert_eq!(snapshot.participation_score, 5);
    assert_eq!(app.students[0].participation_score, 2);
    assert_eq!(app.students[2].participation_score, 5);
}

#[test]
fn absent_defer_and_escape_change_no_counter() {
    let mut app = App::new(abc());
    for action in [Action::Absent, Action::Defer, Action::Escape] {
        app.apply(Action::Confirm);
        assert_eq!(app.input_mode(), InputMode::Student);
        app.apply(action);
        assert_eq!(app.input_mode(), InputMode::Command);
    }
    let scores: Vec<usize> = app.students.iter().map(|s| s.participation_score).collect();
    assert_eq!(scores, vec![2, 5, 5]);
    assert!(app.students.iter().all(|s| s.answered_today == 0 && s.deferrals == 0 && s.absent == 0));
}

#[test]
fn commands_follow_the_mode() {
    let mut app = App::new(abc());
    let order = app.order.clone();
    assert!(!app.apply(Action::Insert('x')));
    assert!(!app.apply(Action::Answer));
    assert_eq!(app.order, order);
    assert!(app.query().is_empty());
    assert!(!app.apply(Action::BeginSearch));
    assert_eq!(app.input_mode(), InputMode::Searching);
    assert!(!app.apply(Action::Quit));
    assert!(!app.apply(Action::Insert('q')));
    assert_eq!(app.query(), "q");
    app.apply(Action::Escape);
    assert_eq!(app.input_mode(), InputMode::Command);
    assert!(app.query().is_empty());
    assert!(app.apply(Action::Quit));
}

#[test]
fn cursor_never_splits_a_character() {
    let mut app = App::new(abc());
    app.begin_search();
    for c in "héllo".chars() {
        app.enter_char(c);
    }
    let text = app.query();
    assert_eq!(text, "héllo");
    assert_eq!(app.character_index, 5);
    assert_eq!(app.byte_index(), 6);
    for step in 0..7 {
        let b = app.byte_index();
        assert!(text.is_char_boundary(b));
        let expected = text.char_indices().map(|(i, _)| i).nth(app.character_index).unwrap_or(text.len());
        assert_eq!(b, expected);
        if step < 6 {
            app.move_cursor_left();
        }
    }
    assert_eq!(app.character_index, 0);
    app.move_cursor_right();
    app.move_cursor_right();
    assert_eq!(app.byte_index(), 3);
    app.enter_char('€');
    assert_eq!(app.query(), "hé€llo");
    assert_eq!(app.byte_index(), 6);
    app.delete_char();
    app.delete_char();
    assert_eq!(app.query(), "hllo");
    assert_eq!(app.character_index, 1);
}

#[test]
fn utf8_widths() {
    assert_eq!(utf8_width('a'), 1);
    assert_eq!(utf8_width('é'), 2);
    assert_eq!(utf8_width('€'), 3);
    assert_eq!(utf8_width('😀'), 4);
    let chars: Vec<char> = "a😀é".chars().collect();
    assert_eq!(byte_offset(&chars, 0), 0);
    assert_eq!(byte_offset(&chars, 2), 5);
    assert_eq!(byte_offset(&chars, 9), 7);
}

#[test]
fn load_trims_and_keeps_the_last_duplicate() {
    let rows = vec![
        row("  Ann  ", " a@x ", "2", "1", "0"),
        row("Bob", "b@x", "+5", "0", "3"),
        row("Anne", "a@x", "4", "0", "0"),
    ];
    let students = load(&rows).unwrap();
    assert_eq!(students.len(), 2);
    let a = students.iter().find(|s| s.email == "a@x").unwrap();
    assert_eq!(a.name, "Anne");
    assert_eq!(a.participation_score, 4);
    let b = students.iter().find(|s| s.email == "b@x").unwrap();
    assert_eq!(b.participation_score, 5);
    assert_eq!(b.absent, 3);
    assert_eq!(b.answered_today, 0);
    assert!(load(&vec![]).unwrap().is_empty());
}

#[test]
fn load_rejects_a_malformed_count() {
    let rows = vec![
        row("Ann", "a@x", "2", "0", "0"),
        row("Bob", "b@x", "five", "0", "0"),
        row("Cyd", "c@x", "1", "-1", "0"),
    ];
    assert_eq!(load(&rows).err(), Some(LoadError::MalformedRow(1)));
    let rows = vec![row("Cyd", "c@x", "1", "0", " 2")];
    assert_eq!(load(&rows).err(), Some(LoadError::MalformedRow(0)));
    let rows = vec![row("Cyd", "c@x", "", "0", "0")];
    assert_eq!(load(&rows).err(), Some(LoadError::MalformedRow(0)));
    let rows = vec![row("Cyd", "c@x", "99999999999999999999999", "0", "0")];
    assert_eq!(load(&rows).err(), Some(LoadError::MalformedRow(0)));
}

#[test]
fn search_lowers_the_query_too() {
    let students = vec![student("alice", "a@x", 0), student("bob", "b@x", 0)];
    assert_eq!(search(&students, "AL"), vec![0]);
    assert_eq!(search(&students, "zz"), Vec::<usize>::new());
}

#[test]
fn reshuffle_keeps_everyone() {
    let mut app = App::new(abc());
    for _ in 0..10 {
        assert!(!app.apply(Action::Reshuffle));
        assert!(is_permutation(&app.order, 3));
        assert_eq!(app.view, app.order);
        assert_eq!(app.selection, Some(0));
        assert_eq!(app.input_mode(), InputMode::Command);
    }
}

#[test]
fn load_reads_hexadecimal_counts() {
    let rows = vec![row("Ann", "a@x", "0x1F", "0x+a", "0x0")];
    let students = load(&rows).unwrap();
    assert_eq!(students[0].participation_score, 31);
    assert_eq!(students[0].deferrals, 10);
    assert_eq!(students[0].absent, 0);
    assert_eq!(roster::registry::read_count("0x"), None);
    assert_eq!(roster::registry::read_count("0xg"), None);
    assert_eq!(roster::registry::read_count("0X1"), None);
    assert_eq!(roster::registry::read_count("12"), Some(12));
    let rows = vec![row("Ann", "a@x", "1", "0xz", "0")];
    assert_eq!(load(&rows).err(), Some(LoadError::MalformedRow(0)));
}

#[test]
fn refreshing_twice_keeps_view_and_selection() {
    let mut app = App::new(abc());
    app.begin_search();
    app.enter_char('y');
    app.move_selection_down();
    app.update_student_view();
    let (view, selection) = (app.view.clone(), app.selection);
    app.update_student_view();
    assert_eq!(app.view, view);
    assert_eq!(app.selection, selection);
    assert_eq!(app.selection, if app.view.is_empty() { None } else { Some(0) });
}

#[test]
fn answer_recomputes_tiers() {
    let mut app = App::new(vec![student("Ann", "a@x", 0), student("Bob", "b@x", 4)]);
    assert_eq!(app.students[0].color, 0);
    assert_eq!(app.students[1].color, 4);
    let pos = app.view.iter().position(|&i| i == 0).unwrap();
    for _ in 0..pos {
        app.move_selection_down();
    }
    app.apply(Action::Confirm);
    app.apply(Action::Answer);
    assert_eq!(app.students[0].participation_score, 1);
    assert_eq!(app.students[0].color, 0);
    assert_eq!(app.students[1].color, 4);
    app.apply(Action::Confirm);
    let snapshot_key = app.student_display.as_ref().unwrap().email.clone();
    app.apply(Action::Answer);
    let (lo, hi) = score_bounds(&app.students);
    for s in &app.students {
        assert_eq!(s.color, tier(s.participation_score, lo, hi));
    }
    assert!(app.students.iter().any(|s| s.email == snapshot_key && s.answered_today >= 1));
}
