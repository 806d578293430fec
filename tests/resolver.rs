use wcnt::search_in_files::{find_limits_for, parse_positive};

#[test]
fn find_limits_finds_files() {
    let limits_1 = String::from("foo/bar/Limits.toml");
    let limits_2 = String::from("foo/bar/baz/Limits.toml");
    let limits: Vec<String> = vec![limits_1.clone(), limits_2.clone()];

    assert_eq!(find_limits_for(&limits, "data/file.c"), None);
    assert_eq!(find_limits_for(&limits, "foo/bar/file.c"), Some(&limits_1));
    assert_eq!(find_limits_for(&limits, "foo/bar/baz/badoo/main.c"), Some(&limits_2));
    assert_eq!(find_limits_for(&limits, "bar/baz/main.c"), Some(&limits_2));
}

#[test]
fn find_limits_with_absolute_paths() {
    let limits = vec![String::from("/src/Limits.toml"), String::from("/src/lib/Limits.toml")];
    assert_eq!(find_limits_for(&limits, "/src/lib/deep/x.c"), Some(&limits[1]));
    assert_eq!(find_limits_for(&limits, "/src/main.c"), Some(&limits[0]));
    assert_eq!(find_limits_for(&limits, "/other/main.c"), None);
    // relative culprits match absolute limit files through their suffix
    assert_eq!(find_limits_for(&limits, "lib/x.c"), Some(&limits[1]));
}

#[test]
fn find_limits_skips_files_without_a_directory() {
    let limits = vec![String::from("Limits.toml"), String::from("/")];
    assert_eq!(find_limits_for(&limits, "a/b.c"), None);
}

#[test]
fn parse_positive_reads_line_numbers() {
    assert_eq!(parse_positive("17"), Some(17));
    assert_eq!(parse_positive("+3"), Some(3));
    assert_eq!(parse_positive("007"), Some(7));
    assert_eq!(parse_positive("0"), None);
    assert_eq!(parse_positive(""), None);
    assert_eq!(parse_positive("+"), None);
    assert_eq!(parse_positive("12a"), None);
    assert_eq!(parse_positive("-1"), None);
    assert_eq!(parse_positive("18446744073709551615"), Some(usize::MAX));
    assert_eq!(parse_positive("18446744073709551616"), None);
}
