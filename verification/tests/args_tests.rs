use rsted::args::parse_args;

#[test]
fn plain_path_defaults_to_line_one() {
    let (path, line) = parse_args("file.rs".to_string(), None);
    assert_eq!(path, "file.rs");
    assert_eq!(line, 1);
}

#[test]
fn colon_suffix_gives_path_and_line() {
    let (path, line) = parse_args("file.rs:10".to_string(), None);
    assert_eq!(path, "file.rs");
    assert_eq!(line, 10);
}

#[test]
fn only_the_last_colon_splits() {
    let (path, line) = parse_args("a:b:12".to_string(), None);
    assert_eq!(path, "a:b");
    assert_eq!(line, 12);
}

#[test]
fn non_numeric_suffix_stays_part_of_the_path() {
    let (path, line) = parse_args("file.rs:abc".to_string(), None);
    assert_eq!(path, "file.rs:abc");
    assert_eq!(line, 1);
}

#[test]
fn plus_argument_gives_the_starting_line() {
    let (path, line) = parse_args("file.rs".to_string(), Some("+7".to_string()));
    assert_eq!(path, "file.rs");
    assert_eq!(line, 7);
}

#[test]
fn colon_suffix_wins_over_plus_argument() {
    let (path, line) = parse_args("file.rs:10".to_string(), Some("+7".to_string()));
    assert_eq!(path, "file.rs");
    assert_eq!(line, 10);
}

#[test]
fn failed_suffix_falls_back_to_plus_argument() {
    let (path, line) = parse_args("file.rs:abc".to_string(), Some("+3".to_string()));
    assert_eq!(path, "file.rs:abc");
    assert_eq!(line, 3);
}

#[test]
fn malformed_plus_argument_defaults_to_line_one() {
    let (path, line) = parse_args("f".to_string(), Some("nope".to_string()));
    assert_eq!(path, "f");
    assert_eq!(line, 1);
    let (path, line) = parse_args("f".to_string(), Some("+".to_string()));
    assert_eq!(path, "f");
    assert_eq!(line, 1);
}

#[test]
fn a_number_reads_like_the_standard_library() {
    // A single leading '+' is accepted after the colon, as usize parsing does.
    let (path, line) = parse_args("file.rs:+5".to_string(), None);
    assert_eq!(path, "file.rs");
    assert_eq!(line, 5);
    // Line zero is a number; the editor clamps it later.
    let (path, line) = parse_args("file.rs:0".to_string(), None);
    assert_eq!(path, "file.rs");
    assert_eq!(line, 0);
}

#[test]
fn an_overflowing_number_is_no_number() {
    let arg = "x:99999999999999999999999999";
    let (path, line) = parse_args(arg.to_string(), None);
    assert_eq!(path, arg);
    assert_eq!(line, 1);
}

#[test]
fn empty_path_before_colon_is_kept() {
    let (path, line) = parse_args(":3".to_string(), None);
    assert_eq!(path, "");
    assert_eq!(line, 3);
}

#[test]
fn multibyte_paths_split_correctly() {
    let (path, line) = parse_args("fïle.rs:12".to_string(), None);
    assert_eq!(path, "fïle.rs");
    assert_eq!(line, 12);
}
