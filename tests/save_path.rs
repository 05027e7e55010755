use feed_align::save_path::{get_save_filepath, leading_number, parse_number};

fn names(v: &[&str]) -> Vec<String> {
    v.iter().map(|s| s.to_string()).collect()
}

#[test]
fn first_file_is_numbered_one() {
    assert_eq!(get_save_filepath(&names(&[]), "f1.png"), "output/1-f1.png");
}

#[test]
fn next_number_follows_largest() {
    let existing = names(&["3-f1.png", "10-out.mp4", "x.png", "abc-d", "9-screenshot.png"]);
    assert_eq!(get_save_filepath(&existing, "out.mp4"), "output/11-out.mp4");
}

#[test]
fn odd_prefixes_count_as_str_parse_reads_them() {
    let existing = names(&["+12-z", "-5-x", "99999999999-a", "7", "-", "0012-q"]);
    assert_eq!(get_save_filepath(&existing, "a"), "output/13-a");
    assert_eq!(get_save_filepath(&names(&["-3-neg"]), "b"), "output/1-b");
    assert_eq!(get_save_filepath(&names(&["2147483647-max"]), "c"), "output/2147483648-c");
}

#[test]
fn parse_number_matches_std() {
    for s in ["0", "42", "+7", "-13", "", "+", "-", "2147483647", "2147483648", "-2147483648",
        "-2147483649", "12a", " 1", "007", "99999999999999999999"] {
        let want = s.parse::<i32>().ok().map(|v| v as i64);
        assert_eq!(parse_number(s), want, "{:?}", s);
    }
}

#[test]
fn leading_number_reads_up_to_first_dash() {
    assert_eq!(leading_number("12-3-x"), Some(12));
    assert_eq!(leading_number("12"), None);
    assert_eq!(leading_number("-1-x"), None);
}
