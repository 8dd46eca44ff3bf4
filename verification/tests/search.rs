use gorg::db::DB;
use gorg::session::find_init;
use gorg::session::find_step;
use gorg::session::SearchStep;
use gorg::tui::Key;
use gorg::tui::PromptUI;

fn sample_db() -> DB {
    DB::from_content(String::from(
        "proj/ab-one\nproj/ab-two\nproj/ac-three\nproj/ad-four\nproj/ae-five\nother/zzz\n",
    ))
}

#[test]
fn fast_path_single_match_skips_prompt() {
    let db = sample_db();
    let view = db.view();
    let mut results: Vec<(String, u64)> = Vec::new();
    let hit = find_init(&view, "zzz", &mut results);
    assert_eq!(hit, Some(String::from("other/zzz")));
    assert_eq!(results.len(), 1);
}

#[test]
fn seed_with_several_matches_enters_prompt() {
    let db = sample_db();
    let view = db.view();
    let mut results: Vec<(String, u64)> = Vec::new();
    let hit = find_init(&view, "ab", &mut results);
    assert_eq!(hit, None);
    assert_eq!(results.len(), 2);
}

#[test]
fn stale_selection_reports_none() {
    let db = sample_db();
    let view = db.view();
    let mut results: Vec<(String, u64)> = Vec::new();
    // the seed query narrows the index to five rows
    let hit = find_init(&view, "proj", &mut results);
    assert_eq!(hit, None);
    assert_eq!(results.len(), 5);
    let mut ui = PromptUI::new("proj");
    let items: Vec<String> = results.iter().map(|(s, _)| s.clone()).collect();
    let rows = ui.render_frame(&items, 80, 20);
    assert_eq!(rows.len(), 5);
    // move the selection down to row 3
    for _ in 0..3 {
        assert_eq!(
            find_step(&view, &mut ui, &mut results, Key::Down),
            SearchStep::Pending { render: true }
        );
    }
    assert_eq!(ui.selected_item(), 3);
    // a keystroke narrows the results to two rows
    assert_eq!(
        find_step(&view, &mut ui, &mut results, Key::Char('/')),
        SearchStep::Pending { render: true }
    );
    assert_eq!(results.len(), 5);
    assert_eq!(
        find_step(&view, &mut ui, &mut results, Key::Char('a')),
        SearchStep::Pending { render: true }
    );
    assert_eq!(
        find_step(&view, &mut ui, &mut results, Key::Char('b')),
        SearchStep::Pending { render: true }
    );
    assert_eq!(results.len(), 2);
    // without a redraw, the selection can wander past the shrunken
    // results again
    for _ in 0..3 {
        assert_eq!(
            find_step(&view, &mut ui, &mut results, Key::Down),
            SearchStep::Pending { render: true }
        );
    }
    assert_eq!(ui.selected_item(), 3);
    // confirming must report no selection, not a stale row
    assert_eq!(
        find_step(&view, &mut ui, &mut results, Key::Char('\n')),
        SearchStep::Done { selection: None }
    );
}

#[test]
fn confirm_reports_selected_row() {
    let db = sample_db();
    let view = db.view();
    let mut results: Vec<(String, u64)> = Vec::new();
    find_init(&view, "proj", &mut results);
    let mut ui = PromptUI::new("proj");
    let items: Vec<String> = results.iter().map(|(s, _)| s.clone()).collect();
    ui.render_frame(&items, 80, 20);
    find_step(&view, &mut ui, &mut results, Key::Down);
    let r = find_step(&view, &mut ui, &mut results, Key::Char('\n'));
    assert_eq!(r, SearchStep::Done { selection: Some(1) });
}

#[test]
fn cancel_reports_none() {
    let db = sample_db();
    let view = db.view();
    let mut results: Vec<(String, u64)> = Vec::new();
    find_init(&view, "proj", &mut results);
    let mut ui = PromptUI::new("proj");
    let r = find_step(&view, &mut ui, &mut results, Key::Ctrl('c'));
    assert_eq!(r, SearchStep::Done { selection: None });
}

#[test]
fn cursor_moves_only_redraw() {
    let db = sample_db();
    let view = db.view();
    let mut results: Vec<(String, u64)> = Vec::new();
    find_init(&view, "proj", &mut results);
    let before = results.len();
    let mut ui = PromptUI::new("proj");
    assert_eq!(
        find_step(&view, &mut ui, &mut results, Key::Left),
        SearchStep::Pending { render: true }
    );
    assert_eq!(results.len(), before);
    assert_eq!(
        find_step(&view, &mut ui, &mut results, Key::Other),
        SearchStep::Pending { render: false }
    );
}
