use fzmenu::editor::Search;

fn typed(text: &str) -> Search {
    let mut s = Search::new();
    for c in text.chars() {
        s.insert(c);
    }
    s
}

#[test]
fn delete_word_removes_word_and_spaces_before_it() {
    let mut s = typed("foo  bar");
    s.delete_word();
    assert_eq!(s.as_str(), "foo");
    assert_eq!(s.cursor(), 3);
}

#[test]
fn delete_word_after_a_space_removes_the_spaces() {
    let mut s = typed("foo ");
    s.delete_word();
    assert_eq!(s.as_str(), "foo");
    assert_eq!(s.cursor(), 3);
    let mut s = typed(" abc");
    s.delete_word();
    assert_eq!(s.as_str(), "");
    assert_eq!(s.cursor(), 0);
}

#[test]
fn delete_word_in_the_middle_keeps_the_rest() {
    let mut s = typed("ab cd ef");
    s.cursor_left();
    s.cursor_left();
    s.cursor_left();
    s.delete_word();
    assert_eq!(s.as_str(), "ab ef");
    assert_eq!(s.cursor(), 2);
}

#[test]
fn delete_word_at_start_does_nothing() {
    let mut s = typed("abc");
    s.cursor_to_start();
    s.delete_word();
    assert_eq!(s.as_str(), "abc");
    assert_eq!(s.cursor(), 0);
}

#[test]
fn insert_at_cursor() {
    let mut s = typed("ac");
    s.cursor_left();
    s.insert('b');
    assert_eq!(s.as_str(), "abc");
    assert_eq!(s.cursor(), 2);
}

#[test]
fn non_printable_characters_are_ignored() {
    let mut s = typed("a");
    s.insert('\n');
    s.insert('é');
    s.insert('\u{7f}');
    assert_eq!(s.as_str(), "a");
    assert_eq!(s.cursor(), 1);
}

#[test]
fn delete_removes_before_cursor() {
    let mut s = typed("abc");
    s.cursor_left();
    s.delete();
    assert_eq!(s.as_str(), "ac");
    assert_eq!(s.cursor(), 1);
    s.cursor_to_start();
    s.delete();
    assert_eq!(s.as_str(), "ac");
    assert_eq!(s.cursor(), 0);
}

#[test]
fn delete_till_start_and_end() {
    let mut s = typed("hello world");
    for _ in 0..5 {
        s.cursor_left();
    }
    s.delete_till_end();
    assert_eq!(s.as_str(), "hello ");
    assert_eq!(s.cursor(), 6);
    s.cursor_left();
    s.delete_till_start();
    assert_eq!(s.as_str(), " ");
    assert_eq!(s.cursor(), 0);
}

#[test]
fn clear_empties_query() {
    let mut s = typed("abc");
    s.clear();
    assert_eq!(s.as_str(), "");
    assert_eq!(s.cursor(), 0);
}

#[test]
fn cursor_moves_clamp() {
    let mut s = typed("ab");
    s.cursor_right();
    assert_eq!(s.cursor(), 2);
    s.cursor_to_start();
    s.cursor_left();
    assert_eq!(s.cursor(), 0);
    s.cursor_right();
    assert_eq!(s.cursor(), 1);
    s.cursor_to_end();
    assert_eq!(s.cursor(), 2);
}

#[test]
fn random_operation_sequences_keep_cursor_in_bounds() {
    let mut seed: u64 = 0x2545_f491_4f6c_dd1d;
    for _ in 0..50 {
        let mut s = Search::new();
        for _ in 0..200 {
            seed = seed.wrapping_mul(6364136223846793005).wrapping_add(1442695040888963407);
            let op = (seed >> 33) % 10;
            match op {
                0 | 1 | 2 => s.insert(if (seed >> 20) % 3 == 0 { ' ' } else { 'x' }),
                3 => s.delete(),
                4 => s.delete_word(),
                5 => s.delete_till_start(),
                6 => s.delete_till_end(),
                7 => s.cursor_left(),
                8 => s.cursor_right(),
                _ => s.cursor_to_start(),
            }
            assert!(s.cursor() <= s.as_str().chars().count());
        }
    }
}
