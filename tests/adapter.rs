use motif_bench::adapter::{find_line_starting_with, number_at_char};

fn lines(ls: &[&str]) -> Vec<String> {
    ls.iter().map(|l| l.to_string()).collect()
}

#[test]
fn finds_first_line_with_prefix() {
    let out = lines(&["banner", "The search took 12 ms", "The search took 99 ms"]);
    assert_eq!(find_line_starting_with(&out, "The search took "), Some(1));
}

#[test]
fn no_line_with_prefix() {
    let out = lines(&["banner", "The search", ""]);
    assert_eq!(find_line_starting_with(&out, "The search took "), None);
}

#[test]
fn number_up_to_next_space() {
    assert_eq!(number_at_char("The search took 12 ms", 16), Some(12));
}

#[test]
fn number_up_to_end_of_line() {
    assert_eq!(number_at_char("Search time in ms: 4711", 19), Some(4711));
}

#[test]
fn no_number_at_position() {
    assert_eq!(number_at_char("The search took x ms", 16), None);
    assert_eq!(number_at_char("short", 16), None);
    assert_eq!(number_at_char("The search took  12", 16), None);
}

#[test]
fn number_with_leading_plus() {
    assert_eq!(number_at_char("The search took +5 ms", 16), Some(5));
    assert_eq!(number_at_char("Search time in ms: +7", 19), Some(7));
    assert_eq!(number_at_char("The search took + ms", 16), None);
}
