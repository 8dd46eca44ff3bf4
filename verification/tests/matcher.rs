use gorg::fuzzy::calc_score;

#[test]
fn score_no_match() {
    let score = calc_score("foo", "github.com/jpallari/gorg");
    assert_eq!(score, 0);
}

#[test]
fn score_partial_match() {
    let score = calc_score("jp foo", "github.com/jpallari/gorg");
    assert_eq!(score, 0);
}

#[test]
fn score_full_match_1() {
    let score = calc_score("g jp go", "github.com/jpallari/gorg");
    assert!(score > 0, "{score} > 0");
}

#[test]
fn score_full_match_2() {
    let score = calc_score("gi jp", "github.com/jpallari/gorg");
    assert!(score > 0, "{score} > 0");
}

#[test]
fn score_comparative() {
    let matcher = "go";
    let score1 = calc_score(matcher, "github.com/golang/go");
    let score2 = calc_score(matcher, "github.com/jpallari/go");
    let score3 = calc_score(matcher, "github.com/jpallari/gorg");
    let score4 = calc_score(matcher, "github.com/jpallari/hugo");
    assert!(score1 > score3, "{score1} > {score3}");
    assert!(score2 > score3, "{score2} > {score3}");
    assert!(score3 > score4, "{score3} > {score4}");
}

#[test]
fn score_exact_value_single_token() {
    // "go" in "gorg": one query token against one candidate token,
    // aligned (distance weight 1.0), first occurrence at offset 0:
    // filled = 2/4, index = 1, so 2 * 0.5 + 2 * 1 * 1.0 = 3.0.
    let score = calc_score("go", "gorg");
    assert_eq!(score, 3000000);
}

#[test]
fn score_zero_without_any_query_token() {
    // A query with no token at all never scores.
    assert_eq!(calc_score("", "anything"), 0);
    assert_eq!(calc_score(" /. ", "anything"), 0);
}

#[test]
fn score_zero_against_empty_candidate() {
    assert_eq!(calc_score("go", ""), 0);
}

#[test]
fn score_case_sensitive() {
    assert_eq!(calc_score("GO", "github.com/golang/go"), 0);
}
