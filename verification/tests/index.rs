use gorg::db::str_sorted_insert;
use gorg::db::DB;
use gorg::db::DbError;

#[test]
fn str_sorted_insert_start() {
    let mut target = String::from(vec!["aabb", "bbcc", "ccdd"].join("\n"));
    str_sorted_insert(&mut target, "aaab");
    assert_eq!(
        target,
        String::from(vec!["aaab", "aabb", "bbcc", "ccdd",].join("\n"))
    );
}

#[test]
fn str_sorted_insert_middle() {
    let mut target = String::from(vec!["aabb", "bbcc", "ccdd"].join("\n"));
    str_sorted_insert(&mut target, "bbcd");
    assert_eq!(
        target,
        String::from(vec!["aabb", "bbcc", "bbcd", "ccdd",].join("\n"))
    );
}

#[test]
fn str_sorted_insert_end() {
    let mut target = String::from(vec!["aabb", "bbcc", "ccdd"].join("\n"));
    str_sorted_insert(&mut target, "cddd");
    assert_eq!(
        target,
        String::from(vec!["aabb", "bbcc", "ccdd", "cddd",].join("\n"))
    );
}

#[test]
fn str_sorted_insert_dupe() {
    let mut target = String::from(vec!["aabb", "bbcc", "ccdd"].join("\n"));
    str_sorted_insert(&mut target, "bbcc");
    assert_eq!(target, String::from(vec!["aabb", "bbcc", "ccdd",].join("\n")));
}

#[test]
fn add_is_idempotent() {
    let mut db = DB::from_content(String::from("aabb\nbbcc\nccdd"));
    let before = db.contents().clone();
    db.add("bbcc").unwrap();
    assert_eq!(db.contents(), &before);
    // the same with a trailing newline, as the index file carries one
    let mut db = DB::from_content(String::from("aabb\nbbcc\nccdd\n"));
    let before = db.contents().clone();
    db.add("aabb").unwrap();
    assert_eq!(db.contents(), &before);
}

#[test]
fn add_trims_and_sorts() {
    let mut db = DB::empty();
    db.add("  beta  ").unwrap();
    db.add("alpha").unwrap();
    db.add("gamma").unwrap();
    let all = db.find_matches("");
    assert!(all.contains(&String::from("alpha")));
    assert!(all.contains(&String::from("beta")));
    assert!(all.contains(&String::from("gamma")));
    let pos_a = all.iter().position(|s| s == "alpha").unwrap();
    let pos_b = all.iter().position(|s| s == "beta").unwrap();
    let pos_g = all.iter().position(|s| s == "gamma").unwrap();
    assert!(pos_a < pos_b && pos_b < pos_g);
}

#[test]
fn add_rejects_embedded_newline() {
    let mut db = DB::from_content(String::from("aabb"));
    let r = db.add("bb\ncc");
    assert_eq!(r.unwrap_err(), DbError::EntryContainsNewline);
    assert_eq!(db.contents(), "aabb");
}

#[test]
fn from_entries_sorts_and_dedups() {
    let db = DB::from_entries(vec![
        String::from("bb"),
        String::from("aa"),
        String::from("bb"),
        String::from("cc"),
    ]);
    assert_eq!(db.contents(), "aa\nbb\ncc\n");
}

#[test]
fn from_entries_empty() {
    let db = DB::from_entries(Vec::new());
    assert_eq!(db.contents(), "");
}

#[test]
fn find_matches_empty_query_returns_all_records() {
    // an empty query yields every non-empty line, trimmed: no phantom
    // record for the trailing newline, no surrounding white space
    let db = DB::from_content(String::from("aa\nbb\n"));
    let all = db.find_matches("");
    assert_eq!(all, vec!["aa", "bb"]);
    let messy = DB::from_content(String::from(" aa \n\n bb"));
    let all = messy.find_matches("");
    assert_eq!(all, vec!["aa", "bb"]);
}

#[test]
fn find_matches_filters_by_score() {
    let db = DB::from_content(String::from("github.com/one/alpha\ngithub.com/two/beta\n"));
    let hits = db.find_matches("alpha");
    assert_eq!(hits, vec!["github.com/one/alpha"]);
    let none = db.find_matches("zzz");
    assert!(none.is_empty());
}

#[test]
fn find_by_prefix_filters() {
    let db = DB::from_content(String::from("aa/x\nab/y\nba/z"));
    let hits = db.find_by_prefix("a");
    assert_eq!(hits, vec!["aa/x", "ab/y"]);
    let all = db.find_by_prefix("  ");
    assert_eq!(all, vec!["aa/x", "ab/y", "ba/z"]);
}

#[test]
fn view_ranking_scores_nonzero_and_descending() {
    let db = DB::from_content(String::from(
        "github.com/golang/go\ngithub.com/jpallari/gorg\ngithub.com/jpallari/hugo\nunrelated\n",
    ));
    let view = db.view();
    let mut results: Vec<(String, u64)> = Vec::new();
    view.find_matches("go", &mut results);
    assert_eq!(results.len(), 3);
    for (_, score) in results.iter() {
        assert!(*score > 0);
    }
    for w in results.windows(2) {
        assert!(w[0].1 >= w[1].1);
    }
    assert_eq!(results[0].0, "github.com/golang/go");
}

#[test]
fn view_ranking_ties_keep_line_order() {
    let db = DB::from_content(String::from("xx/aaa\nyy/aaa\n"));
    let view = db.view();
    let mut results: Vec<(String, u64)> = Vec::new();
    view.find_matches("aaa", &mut results);
    assert_eq!(results.len(), 2);
    assert_eq!(results[0].1, results[1].1);
    assert_eq!(results[0].0, "xx/aaa");
    assert_eq!(results[1].0, "yy/aaa");
}
