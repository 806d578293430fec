use wcnt::limits::Category;
use wcnt::search_in_files::{collect_matches, search_contents_with_regex, RawMatch, ScanError, WarningRegex};
use wcnt::arena::SearchableArena;
use wcnt::settings::{Kind, Settings, SettingsError};

const GCC: &str = r"^(?P<file>[^:]+):(?P<line>\d+):(?P<column>\d+): warning: (?P<description>.+) \[(?P<category>.+)\]";

fn raw(file: Option<&str>, line: Option<&str>, column: Option<&str>) -> RawMatch {
    RawMatch {
        file: file.map(String::from),
        line: line.map(String::from),
        column: column.map(String::from),
        category: None,
        description: None,
    }
}

fn gcc_kind() -> Kind {
    let mut arena = SearchableArena::new();
    Kind::new(arena.insert("gcc".to_owned()))
}

#[test]
fn scanning_finds_each_warning_with_its_captures() {
    let regex = WarningRegex::new(GCC).unwrap();
    let kind = gcc_kind();
    let limits = vec![String::from("src/Limits.toml")];
    let log = "src\\a.c:10:5: warning: unused [-Wunused]\nnoise\nother/b.c:2:1: warning: shadow [-Wshadow]\n";
    let result = search_contents_with_regex(&limits, &kind, log, &regex).unwrap();
    let w = &result.warnings;
    assert_eq!(w.len(), 2);
    // backslashes were read as separators, so the first culprit falls under the limit file
    let first = w.entry(0);
    assert_eq!(first.limits_file.as_deref(), Some("src/Limits.toml"));
    let unused = result.string_arena.get_id("-Wunused").unwrap();
    assert_eq!(first.category, Category::new(unused));
    let found = &w.warnings_at(0)[0];
    assert_eq!(found.culprit(), "src/a.c");
    assert_eq!(found.line(), Some(10));
    assert_eq!(found.column(), Some(5));
    assert_eq!(found.description().to_str(&result.string_arena), Some("unused"));
    // no limit file for the second culprit: its entry has the wildcard category
    let second = w.entry(1);
    assert_eq!(second.limits_file, None);
    assert_eq!(second.category, Category::none());
    assert_eq!(w.warnings_at(1)[0].category(), Category::new(result.string_arena.get_id("-Wshadow").unwrap()));
}

#[test]
fn scanning_without_matches_finds_nothing() {
    let regex = WarningRegex::new(GCC).unwrap();
    let result = search_contents_with_regex(&Vec::new(), &gcc_kind(), "all clean\n", &regex).unwrap();
    assert_eq!(result.warnings.len(), 0);
}

#[test]
fn a_match_without_file_is_refused() {
    let matches = vec![raw(None, None, None)];
    assert!(matches!(collect_matches(&Vec::new(), gcc_kind(), &matches), Err(ScanError::MissingFile)));
}

#[test]
fn a_zero_line_is_refused() {
    let matches = vec![raw(Some("a.c"), Some("1"), None), raw(Some("a.c"), Some("0"), Some("x"))];
    assert!(matches!(collect_matches(&Vec::new(), gcc_kind(), &matches), Err(ScanError::BadLine(t)) if t == "0"));
}

#[test]
fn a_column_that_is_no_number_is_refused() {
    let matches = vec![raw(Some("a.c"), Some("3"), Some("x"))];
    assert!(matches!(collect_matches(&Vec::new(), gcc_kind(), &matches), Err(ScanError::BadColumn(t)) if t == "x"));
}

#[test]
fn settings_can_deserialize_empty() {
    let settings = Settings::from_raw(&Vec::new()).unwrap();
    assert_eq!(settings.iter().len(), 0);
}

#[test]
fn must_specify_file_capture_in_regex() {
    let raw = vec![(String::from("gcc"), String::from("warning: (?P<description>.+)"), vec![String::from("**/*.txt")])];
    assert!(matches!(Settings::from_raw(&raw), Err(SettingsError::MissingFileCapture(k)) if k == "gcc"));
}

#[test]
fn an_invalid_regex_is_refused() {
    let raw = vec![(String::from("gcc"), String::from("(?P<file>"), vec![])];
    assert!(matches!(Settings::from_raw(&raw), Err(SettingsError::InvalidRegex(k, _)) if k == "gcc"));
}

#[test]
fn can_deserialize_many() {
    let raw = vec![
        (
            String::from("gcc"),
            String::from(GCC),
            vec![String::from("**/gcc.txt")],
        ),
        (
            String::from("rust"),
            String::from("^warning: (?P<description>.+)\n\\s+-->\\s(?P<file>[^:]+):(?P<line>\\d+):(?P<column>\\d+)$"),
            vec![String::from("**/rust.txt")],
        ),
    ];
    let settings = Settings::from_raw(&raw).unwrap();
    assert_eq!(settings.iter().len(), 2);
    let gcc = Kind::new(settings.string_arena.get_id("gcc").unwrap());
    assert_eq!(settings.categorizables(), vec![gcc]);
    assert_eq!(settings.kinds()[1].to_str(&settings.string_arena), "rust");
}

#[test]
fn regex_reports_its_groups() {
    let regex = WarningRegex::new(GCC).unwrap();
    assert!(regex.has_group("file"));
    assert!(regex.has_group("category"));
    assert!(!regex.has_group("kind"));
}

#[test]
fn the_first_failing_kind_is_reported() {
    let raw = vec![
        (String::from("a"), String::from("(?P<file>.+)"), vec![]),
        (String::from("b"), String::from("no file group"), vec![]),
        (String::from("c"), String::from("(?P<file>"), vec![]),
        (String::from("d"), String::from("("), vec![]),
    ];
    // every pattern is compiled before any is checked for a `file` group
    assert!(matches!(Settings::from_raw(&raw), Err(SettingsError::InvalidRegex(k, _)) if k == "c"));
    let raw = vec![
        (String::from("a"), String::from("(?P<file>.+)"), vec![]),
        (String::from("b"), String::from("no file group"), vec![]),
        (String::from("c"), String::from("nor here"), vec![]),
    ];
    assert!(matches!(Settings::from_raw(&raw), Err(SettingsError::MissingFileCapture(k)) if k == "b"));
}

#[test]
fn settings_keep_each_kinds_globs() {
    let raw = vec![(String::from("gcc"), String::from(GCC), vec![String::from("**/gcc.txt"), String::from("*.log")])];
    let settings = Settings::from_raw(&raw).unwrap();
    assert_eq!(settings.iter()[0].1.files, vec![String::from("**/gcc.txt"), String::from("*.log")]);
    assert!(settings.iter()[0].1.categorizable);
}
