use fzmenu::picker::{rank, Picker};

fn picker(options: &[&str]) -> Picker {
    Picker::new(options.iter().map(|s| s.to_string()).collect())
}

fn type_query(p: &mut Picker, text: &str) {
    for c in text.chars() {
        p.search.insert(c);
    }
}

#[test]
fn empty_query_keeps_original_order() {
    let mut p = picker(&["b", "a", "c"]);
    p.update();
    assert_eq!(p.get_matches(10), vec!["b", "a", "c"]);
    assert_eq!(p.matches, vec![(0, 0), (0, 1), (0, 2)]);
}

#[test]
fn subsequence_query_filters_candidates() {
    let mut p = picker(&["abc", "bca", "xyz"]);
    type_query(&mut p, "bc");
    p.update();
    let found = p.get_matches(10);
    assert_eq!(found.len(), 2);
    assert!(found.contains(&"abc"));
    assert!(found.contains(&"bca"));
    assert!(!found.contains(&"xyz"));
}

#[test]
fn get_matches_takes_at_most_count() {
    let mut p = picker(&["one", "two", "three"]);
    p.update();
    assert_eq!(p.get_matches(2), vec!["one", "two"]);
    assert_eq!(p.get_matches(0), Vec::<&str>::new());
}

#[test]
fn selection_wraps_both_ways() {
    let mut p = picker(&["a", "b", "c"]);
    p.update();
    assert_eq!(p.selection_index(), 0);
    p.prev();
    assert_eq!(p.selection_index(), 2);
    assert_eq!(p.selection(), Some("c"));
    p.next();
    assert_eq!(p.selection_index(), 0);
    assert_eq!(p.selection(), Some("a"));
}

#[test]
fn next_and_prev_without_matches_do_nothing() {
    let mut p = picker(&[]);
    p.update();
    p.next();
    p.prev();
    assert_eq!(p.selection_index(), 0);
    assert_eq!(p.selection(), None);
}

#[test]
fn update_twice_gives_same_matches() {
    let mut p = picker(&["alpha", "beta", "gamma", "delta", "alphabet"]);
    type_query(&mut p, "al");
    p.update();
    let first = p.matches.clone();
    p.update();
    assert_eq!(p.matches, first);
}

#[test]
fn update_clamps_selection_to_new_matches() {
    let mut p = picker(&["abc", "abd", "xyz"]);
    p.update();
    p.prev();
    assert_eq!(p.selection_index(), 2);
    type_query(&mut p, "ab");
    p.update();
    assert_eq!(p.matches.len(), 2);
    assert_eq!(p.selection_index(), 1);
    type_query(&mut p, "q");
    p.update();
    assert_eq!(p.selection_index(), 0);
    assert_eq!(p.selection(), None);
}

#[test]
fn query_and_cursor_follow_edits() {
    let mut p = picker(&["x"]);
    type_query(&mut p, "hi");
    assert_eq!(p.query(), "hi");
    assert_eq!(p.cursor(), 2);
}

#[test]
fn rank_orders_by_score_then_index() {
    let r = rank(&vec![Some(5), None, Some(7), Some(5), Some(-1)]);
    assert_eq!(r, vec![(7, 2), (5, 0), (5, 3), (-1, 4)]);
    assert_eq!(rank(&vec![None, None]), vec![]);
}

#[test]
fn better_match_ranks_first() {
    let mut p = picker(&["xaxxxbxxx", "ab"]);
    type_query(&mut p, "ab");
    p.update();
    assert_eq!(p.get_matches(2), vec!["ab", "xaxxxbxxx"]);
}
