use wcnt::search_for_files::{construct_types_info, process_file, FileClass, FileGlobs};
use wcnt::arena::SearchableArena;
use wcnt::settings::{Kind, Settings};

#[test]
fn types_info_conversion_works() {
    let raw = vec![(
        String::from("dummy"),
        String::from("^error: (?P<file>.+)"),
        vec![String::from("**/foo.txt"), String::from("**/bar.txt")],
    )];

    let settings = Settings::from_raw(&raw).unwrap();

    let types_info = construct_types_info(&settings).unwrap();
    let dummy_kind = Kind::new(settings.string_arena.get_id("dummy").unwrap());
    let globset = &types_info.iter().find(|(k, _)| *k == dummy_kind).unwrap().1;
    // It should match everything that ends with [foo|bar].txt
    assert!(globset.is_match("/this/is/a/path/to/foo/foo.txt"));
    assert!(globset.is_match("/this/is/a/path/to/bar/bar.txt"));
    // It should not match anything else
    assert!(!globset.is_match("/this/is/a/path/to/foo/"));
    assert!(!globset.is_match("/etc/passwd"));
}

#[test]
fn file_searcher_turns_paths_into_file_data_according_to_globsets() {
    let mut arena = SearchableArena::new();
    let gcc_kind = Kind::new(arena.insert("gcc".to_owned()));
    let c_globber = FileGlobs::new(&vec![String::from("*.c")]).expect("GlobSet");
    let interesting_types = vec![(gcc_kind, c_globber)];

    assert_eq!(process_file("/src/Limits.toml", &interesting_types), Some(FileClass::Limits));
    assert_eq!(process_file("/src/script.py", &interesting_types), None);
    assert_eq!(process_file("/src/main.c", &interesting_types), Some(FileClass::Log(vec![gcc_kind])));
}

#[test]
fn a_file_matching_several_kinds_lists_them_in_order() {
    let mut arena = SearchableArena::new();
    let a = Kind::new(arena.insert("a".to_owned()));
    let b = Kind::new(arena.insert("b".to_owned()));
    let c = Kind::new(arena.insert("c".to_owned()));
    let types = vec![
        (a, FileGlobs::new(&vec![String::from("**/*.log")]).unwrap()),
        (b, FileGlobs::new(&vec![String::from("**/*.txt")]).unwrap()),
        (c, FileGlobs::new(&vec![String::from("**/build.*")]).unwrap()),
    ];
    assert_eq!(process_file("out/build.log", &types), Some(FileClass::Log(vec![a, c])));
    // only a file named exactly `Limits.toml` is a limit file
    assert_eq!(process_file("out/MyLimits.toml", &types), None);
}

#[test]
fn an_invalid_glob_is_refused() {
    assert!(FileGlobs::new(&vec![String::from("a[")]).is_err());
}

#[test]
fn construct_types_info_fails_on_an_invalid_glob() {
    let raw = vec![
        (String::from("good"), String::from("(?P<file>.+)"), vec![String::from("*.c")]),
        (String::from("bad"), String::from("(?P<file>.+)"), vec![String::from("a[")]),
    ];
    let settings = Settings::from_raw(&raw).unwrap();
    assert!(construct_types_info(&settings).is_err());
}
