use std::collections::{HashMap, HashSet};

use wcnt::aggregate::{
    check_warnings_against_thresholds, flatten_limits, gather_results_from_logs, lookup_default,
    process_search_results, remap_to_actual_limit_entries,
};
use wcnt::arena::SearchableArena;
use wcnt::order::{compare_paths, compare_warnings};
use wcnt::ratchet::{update_limits, UpdateError};
use wcnt::grouped::GroupedWarnings;
use wcnt::limits::{limits_file_from_raw, Category, Limit, LimitsEntry, LimitsFile, RawLimitEntry, RawLimitValue};
use wcnt::search_in_files::{search_contents_with_regex, LogSearchResults};
use wcnt::settings::{Kind, Settings};
use wcnt::warnings::{CountsTowardsLimit, Description, EntryCount};

fn as_map(g: &GroupedWarnings) -> HashMap<LimitsEntry, HashSet<CountsTowardsLimit>> {
    let mut result = HashMap::new();
    for i in 0..g.len() {
        let set: &mut HashSet<CountsTowardsLimit> = result.entry(g.entry(i).clone()).or_insert_with(HashSet::new);
        set.extend(g.warnings_at(i).iter().cloned());
    }
    result
}

fn group(pairs: Vec<(LimitsEntry, CountsTowardsLimit)>) -> GroupedWarnings {
    let mut g = GroupedWarnings::new();
    for (e, w) in pairs {
        g.insert(&e, w);
    }
    g
}

#[test]
fn process_search_results_should_remap_the_interned_strings() {
    let mut arena_1 = SearchableArena::new();
    arena_1.insert("foo".to_owned());
    let mut arena_2 = SearchableArena::new();
    arena_2.insert("bar".to_owned());

    assert!(arena_1.get_id("bar").is_none());

    let kind = Kind::new(arena_2.insert("kind".to_owned()));
    let category = Category::new(arena_2.insert("category".to_owned()));

    let our_limit_entry = LimitsEntry::new(Some("/tmp/Limits.toml"), kind, category);
    let our_warning = CountsTowardsLimit::new(
        String::from("/tmp/Limits.toml"),
        Some(1),
        Some(1),
        kind,
        category,
        Description::none(),
    );

    let search_result = LogSearchResults {
        string_arena: arena_2,
        warnings: group(vec![(our_limit_entry, our_warning)]),
    };

    let result = process_search_results(&mut arena_1, &search_result);
    assert!(arena_1.get_id("kind").is_some());
    assert!(arena_1.get_id("category").is_some());
    // the category was moved over to the global arena
    let moved = Category::new(arena_1.get_id("category").unwrap());
    assert_eq!(result.entry(0).category, moved);
    assert_eq!(result.warnings_at(0)[0].category(), moved);
}

#[test]
fn gather_results_from_logs_deduplicate_warnings_but_doesnt_remap_categories() {
    let mut main_arena = SearchableArena::new();
    let kind = Kind::new(main_arena.insert("kind".to_owned()));

    let mut first_arena = SearchableArena::new();
    let mut second_arena = SearchableArena::new();

    // First search finds both warnings
    let category_code1 = Category::new(first_arena.insert("-Wbad-code".to_owned()));
    let category_header1 = Category::new(first_arena.insert("-Wbad-interface".to_owned()));

    let desc_code1 = Description::new(first_arena.insert("Bad code".to_owned()));
    let desc_header1 = Description::new(first_arena.insert("Bad interface".to_owned()));

    // Second search finds only one
    let category_header2 = Category::new(second_arena.insert("-Wbad-interface".to_owned()));
    let desc_header2 = Description::new(second_arena.insert("Bad interface".to_owned()));

    let code_limit_entry = LimitsEntry::new(Some("/tmp/Limits.toml"), kind, category_code1);
    let header_limit_entry1 = LimitsEntry::new(Some("/tmp/Limits.toml"), kind, category_header1);
    let header_limit_entry2 = LimitsEntry::new(Some("/tmp/Limits.toml"), kind, category_header2);

    // Code warning appears only in first search result
    let our_code_warning = CountsTowardsLimit::new(
        String::from("/tmp/src/code.c"),
        Some(1),
        Some(1),
        kind,
        category_code1,
        desc_code1,
    );

    //  Interface warning appears in both searches
    let our_header_warning1 = CountsTowardsLimit::new(
        String::from("/tmp/src/interface.h"),
        Some(1),
        Some(1),
        kind,
        category_header1,
        desc_header1,
    );

    let our_header_warning2 = CountsTowardsLimit::new(
        String::from("/tmp/src/interface.h"),
        Some(1),
        Some(1),
        kind,
        category_header2,
        desc_header2,
    );

    let search_result1 = LogSearchResults {
        string_arena: first_arena,
        warnings: group(vec![(code_limit_entry, our_code_warning), (header_limit_entry1, our_header_warning1)]),
    };

    let search_result2 = LogSearchResults {
        string_arena: second_arena,
        warnings: group(vec![(header_limit_entry2, our_header_warning2)]),
    };

    // Act
    let results = gather_results_from_logs(&mut main_arena, &vec![search_result1, search_result2]);

    // Assert
    let main_category_code = Category::new(main_arena.get_id("-Wbad-code").unwrap());
    let main_category_header = Category::new(main_arena.get_id("-Wbad-interface").unwrap());
    let main_desc_code = Description::new(main_arena.get_id("Bad code").unwrap());
    let main_desc_interface = Description::new(main_arena.get_id("Bad interface").unwrap());

    let expected_code_warning = CountsTowardsLimit::new(
        String::from("/tmp/src/code.c"),
        Some(1),
        Some(1),
        kind,
        main_category_code,
        main_desc_code,
    );
    let expected_interface_warning = CountsTowardsLimit::new(
        String::from("/tmp/src/interface.h"),
        Some(1),
        Some(1),
        kind,
        main_category_header,
        main_desc_interface,
    );

    let main_code_entry = LimitsEntry::new(Some("/tmp/Limits.toml"), kind, main_category_code);
    let main_interface_entry = LimitsEntry::new(Some("/tmp/Limits.toml"), kind, main_category_header);

    let mut expected_result = HashMap::new();
    expected_result
        .entry(main_code_entry)
        .or_insert_with(HashSet::new)
        .extend(vec![expected_code_warning.clone()]);
    expected_result
        .entry(main_interface_entry)
        .or_insert_with(HashSet::new)
        .extend(vec![expected_interface_warning.clone()]);
    assert_eq!(expected_result, as_map(&results));

    let defined_limit_entry = LimitsEntry::new(Some("/tmp/Limits.toml"), kind, Category::none());
    let defined_limits = vec![(defined_limit_entry.clone(), Some(1))];
    let processed_results = remap_to_actual_limit_entries(&defined_limits, &results);
    assert_ne!(expected_result, as_map(&processed_results));

    let mut expected_processed_results = HashMap::new();
    expected_processed_results
        .entry(defined_limit_entry)
        .or_insert_with(HashSet::new)
        .extend(vec![expected_interface_warning, expected_code_warning]);
    assert_eq!(expected_processed_results, as_map(&processed_results));
}

#[test]
fn same_warning_from_two_scans_counts_once() {
    let mut main_arena = SearchableArena::new();
    let kind = Kind::new(main_arena.insert("gcc".to_owned()));
    let mut scans = Vec::new();
    for _ in 0..2 {
        let mut local = SearchableArena::new();
        local.insert("padding".to_owned());
        let cat = Category::new(local.insert("-Wshadow".to_owned()));
        let desc = Description::new(local.insert("shadowed".to_owned()));
        let entry = LimitsEntry::new(Some("/p/Limits.toml"), kind, cat);
        let w = CountsTowardsLimit::new(String::from("/p/a.c"), Some(3), Some(7), kind, cat, desc);
        scans.push(LogSearchResults { string_arena: local, warnings: group(vec![(entry, w)]) });
    }
    let merged = gather_results_from_logs(&mut main_arena, &scans);
    assert_eq!(merged.len(), 1);
    assert_eq!(merged.warnings_at(0).len(), 1);
}

#[test]
fn different_descriptions_are_different_warnings() {
    let mut arena = SearchableArena::new();
    let kind = Kind::new(arena.insert("gcc".to_owned()));
    let d1 = Description::new(arena.insert("one".to_owned()));
    let d2 = Description::new(arena.insert("two".to_owned()));
    let entry = LimitsEntry::new(None, kind, Category::none());
    let w1 = CountsTowardsLimit::new(String::from("a.c"), Some(1), None, kind, Category::none(), d1);
    let w2 = CountsTowardsLimit::new(String::from("a.c"), Some(1), None, kind, Category::none(), d2);
    let g = group(vec![(entry.clone(), w1.clone()), (entry, w2), (LimitsEntry::new(None, kind, Category::none()), w1)]);
    assert_eq!(g.len(), 1);
    assert_eq!(g.warnings_at(0).len(), 2);
}

#[test]
fn threshold_falls_back_to_wildcard_then_default() {
    let mut arena = SearchableArena::new();
    let gcc = Kind::new(arena.insert("gcc".to_owned()));
    let rust = Kind::new(arena.insert("rust".to_owned()));
    let declared = Category::new(arena.insert("-Wdeclared".to_owned()));
    let other = Category::new(arena.insert("-Wother".to_owned()));
    let flat = vec![
        (LimitsEntry::new(Some("/x/Limits.toml"), gcc, declared), Some(5)),
        (LimitsEntry::new(Some("/x/Limits.toml"), gcc, Category::none()), Some(2)),
    ];
    let defaults = vec![(rust, None)];
    let mk = |cat: Category, k: Kind, n: usize| {
        let entry = LimitsEntry::new(Some("/x/Limits.toml"), k, cat);
        (0..n)
            .map(|i| (entry.clone(), CountsTowardsLimit::new(String::from("/x/a.c"), Some(i + 1), None, k, cat, Description::none())))
            .collect::<Vec<_>>()
    };
    let mut pairs = mk(declared, gcc, 3);
    pairs.extend(mk(other, gcc, 3));
    pairs.extend(mk(other, rust, 4));
    let unconfigured = arena.insert("clippy".to_owned());
    pairs.extend(mk(other, Kind::new(unconfigured), 1));
    let results = group(pairs);
    let tally = check_warnings_against_thresholds(&flat, &results, &defaults);
    let found: Vec<(Option<u64>, u64)> = tally
        .violations()
        .iter()
        .chain(tally.non_violations().iter())
        .map(|c| (c.limit(), c.actual()))
        .collect();
    // own declaration (5), wildcard of the same file and kind (2), the kind's infinite
    // default, and zero for a kind with no default
    assert!(found.contains(&(Some(5), 3)));
    assert!(found.contains(&(Some(2), 3)));
    assert!(found.contains(&(None, 4)));
    assert!(found.contains(&(Some(0), 1)));
    assert_eq!(tally.violations().len(), 2);
    assert_eq!(lookup_default(&defaults, gcc), Some(0));
    assert_eq!(lookup_default(&defaults, rust), None);
}

#[test]
fn flatten_limits_lists_every_threshold() {
    let mut arena = SearchableArena::new();
    let gcc = Kind::new(arena.insert("gcc".to_owned()));
    let rust = Kind::new(arena.insert("rust".to_owned()));
    let cat = Category::new(arena.insert("-Wx".to_owned()));
    let file = LimitsFile::new(vec![
        (gcc, Limit::PerCategory(vec![(cat, Some(1)), (Category::none(), None)])),
        (rust, Limit::Number(Some(4))),
    ]);
    let flat = flatten_limits(&vec![(String::from("/a/Limits.toml"), file)]);
    assert_eq!(
        flat,
        vec![
            (LimitsEntry::new(Some("/a/Limits.toml"), gcc, cat), Some(1)),
            (LimitsEntry::new(Some("/a/Limits.toml"), gcc, Category::none()), None),
            (LimitsEntry::new(Some("/a/Limits.toml"), rust, Category::none()), Some(4)),
        ]
    );
}

fn end_to_end(log: &str) -> (Vec<EntryCount>, Vec<EntryCount>) {
    let raw_settings = vec![(
        String::from("gcc"),
        String::from(r"^(?P<file>[^:]+):(?P<line>\d+):(?P<column>\d+): warning: (?P<description>.+) \[(?P<category>.+)\]"),
        vec![String::from("**/gcc.txt")],
    )];
    let mut settings = Settings::from_raw(&raw_settings).unwrap();
    let kinds = settings.kinds();
    let gcc = kinds[0];
    let raw_limits = vec![(
        String::from("gcc"),
        RawLimitEntry::PerCategory(vec![(String::from("-Wbad-code"), RawLimitValue::Integer(1))]),
    )];
    let categorizables = settings.categorizables();
    let limits = limits_file_from_raw(&mut settings.string_arena, &raw_limits, &categorizables).unwrap();
    let limit_paths = vec![String::from("/src/Limits.toml")];
    let regex = &settings.iter()[0].1.regex;
    let scan = search_contents_with_regex(&limit_paths, &gcc, log, regex).unwrap();
    let gathered = gather_results_from_logs(&mut settings.string_arena, &vec![scan]);
    let flat = flatten_limits(&vec![(limit_paths[0].clone(), limits)]);
    let remapped = remap_to_actual_limit_entries(&flat, &gathered);
    let tally = check_warnings_against_thresholds(&flat, &remapped, &Vec::new());
    (tally.violations().to_vec(), tally.non_violations().to_vec())
}

#[test]
fn two_warnings_over_a_threshold_of_one_violate() {
    let log = "/src/a.c:1:2: warning: bad [-Wbad-code]\n/src/b.c:3:4: warning: worse [-Wbad-code]\n";
    let (violations, others) = end_to_end(log);
    assert_eq!(violations.len(), 1);
    assert!(others.is_empty());
    assert_eq!(violations[0].actual(), 2);
    assert_eq!(violations[0].limit(), Some(1));
    assert!(violations[0].is_violation());
}

#[test]
fn one_warning_within_a_threshold_of_one_does_not_violate() {
    let log = "/src/a.c:1:2: warning: bad [-Wbad-code]\nmore noise\n";
    let (violations, others) = end_to_end(log);
    assert!(violations.is_empty());
    assert_eq!(others.len(), 1);
    assert_eq!(others[0].actual(), 1);
    assert_eq!(others[0].limit(), Some(1));
}

#[test]
fn the_same_line_logged_twice_counts_once() {
    let log = "/src/a.c:1:2: warning: bad [-Wbad-code]\n/src/a.c:1:2: warning: bad [-Wbad-code]\n";
    let (violations, others) = end_to_end(log);
    assert!(violations.is_empty());
    assert_eq!(others[0].actual(), 1);
}

#[test]
fn update_limits_writes_the_lower_count() {
    let mut arena = SearchableArena::new();
    let gcc = Kind::new(arena.insert("gcc".to_owned()));
    let cat = Category::new(arena.insert("-Wx".to_owned()));
    let mut file = LimitsFile::new(vec![(gcc, Limit::PerCategory(vec![(cat, Some(9)), (Category::none(), None)]))]);
    let entry = LimitsEntry::new(Some("/a/Limits.toml"), gcc, cat);
    file.update_limits(&EntryCount::new(&entry, Some(9), 4));
    let wildcard = LimitsEntry::new(Some("/a/Limits.toml"), gcc, Category::none());
    file.update_limits(&EntryCount::new(&wildcard, None, 7));
    assert_eq!(
        file.get_limit(&gcc),
        Some(&Limit::PerCategory(vec![(cat, Some(4)), (Category::none(), None)]))
    );
}

#[test]
fn tally_lists_are_sorted_by_entry_then_threshold_then_count() {
    let mut arena = SearchableArena::new();
    let gcc = Kind::new(arena.insert("gcc".to_owned()));
    let b = LimitsEntry::new(Some("/b/Limits.toml"), gcc, Category::none());
    let a = LimitsEntry::new(Some("/a/Limits.toml"), gcc, Category::none());
    let none = LimitsEntry::new(None, gcc, Category::none());
    let mut tally = wcnt::warnings::FinalTally::new(4);
    tally.add(EntryCount::new(&b, Some(1), 5));
    tally.add(EntryCount::new(&a, Some(3), 4));
    tally.add(EntryCount::new(&a, Some(2), 4));
    tally.add(EntryCount::new(&none, Some(0), 1));
    tally.add(EntryCount::new(&a, None, 9));
    let order: Vec<(Option<String>, Option<u64>)> = tally
        .violations()
        .iter()
        .map(|c| (c.entry().limits_file.clone(), c.limit()))
        .collect();
    assert_eq!(
        order,
        vec![
            (None, Some(0)),
            (Some("/a/Limits.toml".to_owned()), Some(2)),
            (Some("/a/Limits.toml".to_owned()), Some(3)),
            (Some("/b/Limits.toml".to_owned()), Some(1)),
        ]
    );
    assert_eq!(tally.non_violations().len(), 1);
    assert_eq!(tally.non_violations()[0].limit(), None);
}

#[test]
fn ratchet_lowers_thresholds_and_reports_changed_files() {
    let mut arena = SearchableArena::new();
    let gcc = Kind::new(arena.insert("gcc".to_owned()));
    let cat = Category::new(arena.insert("-Wx".to_owned()));
    let a = LimitsFile::new(vec![(gcc, Limit::PerCategory(vec![(cat, Some(9)), (Category::none(), None)]))]);
    let b = LimitsFile::new(vec![(gcc, Limit::Number(Some(3)))]);
    let files = vec![(String::from("/a/Limits.toml"), a), (String::from("/b/Limits.toml"), b)];
    let counts = vec![
        EntryCount::new(&LimitsEntry::new(Some("/a/Limits.toml"), gcc, cat), Some(9), 2),
        EntryCount::new(&LimitsEntry::new(Some("/b/Limits.toml"), gcc, Category::none()), Some(3), 3),
        EntryCount::new(&LimitsEntry::new(None, gcc, Category::none()), Some(0), 0),
    ];
    let (updated, changed) = update_limits(&files, &counts).unwrap();
    assert_eq!(changed, vec![true, false]);
    assert_eq!(
        updated[0].1.get_limit(&gcc),
        Some(&Limit::PerCategory(vec![(cat, Some(2)), (Category::none(), None)]))
    );
    assert_eq!(updated[1].1.get_limit(&gcc), Some(&Limit::Number(Some(3))));
}

#[test]
fn ratchet_skips_thresholds_that_are_not_declared() {
    let mut arena = SearchableArena::new();
    let gcc = Kind::new(arena.insert("gcc".to_owned()));
    let rust = Kind::new(arena.insert("rust".to_owned()));
    let cat = Category::new(arena.insert("-Wx".to_owned()));
    let files = vec![(String::from("/a/Limits.toml"), LimitsFile::new(vec![(gcc, Limit::PerCategory(vec![]))]))];
    let on = |path: &str, k: Kind, c: Category| vec![EntryCount::new(&LimitsEntry::new(Some(path), k, c), Some(1), 0)];
    assert_eq!(
        update_limits(&files, &on("/z/Limits.toml", gcc, cat)).err(),
        Some(UpdateError::UnknownLimitsFile("/z/Limits.toml".to_owned()))
    );
    // a kind held against its default, and a category the file does not declare
    let (same, changed) = update_limits(&files, &on("/a/Limits.toml", rust, cat)).unwrap();
    assert_eq!(changed, vec![false]);
    assert_eq!(same[0].1, files[0].1);
    let (same, changed) = update_limits(&files, &on("/a/Limits.toml", gcc, cat)).unwrap();
    assert_eq!(changed, vec![false]);
    assert_eq!(same[0].1, files[0].1);
}

#[test]
fn paths_are_ordered_by_components() {
    // `src` is a prefix of `src-gen` as a component, though `-` comes before `/` as text
    assert_eq!(compare_paths("/src/Limits.toml", "/src-gen/Limits.toml"), -1);
    assert_eq!(compare_paths("/src-gen/Limits.toml", "/src/Limits.toml"), 1);
    assert_eq!(compare_paths("a//b", "a/b"), 0);
    assert_eq!(compare_paths("/z", "a"), -1);
    assert_eq!(compare_paths("../a", "-a"), -1);
}

#[test]
fn warnings_are_ordered_by_culprit_then_line_then_column() {
    let mut arena = SearchableArena::new();
    let gcc = Kind::new(arena.insert("gcc".to_owned()));
    let w = |f: &str, l: Option<usize>, c: Option<usize>| {
        CountsTowardsLimit::new(String::from(f), l, c, gcc, Category::none(), Description::none())
    };
    assert_eq!(compare_warnings(&w("a.c", Some(2), Some(1)), &w("a.c", Some(10), None)), -1);
    assert_eq!(compare_warnings(&w("a.c", Some(2), Some(5)), &w("a.c", Some(2), Some(4))), 1);
    assert_eq!(compare_warnings(&w("a.c", None, None), &w("a.c", Some(1), None)), -1);
    assert_eq!(compare_warnings(&w("b.c", Some(1), None), &w("a.c", Some(9), None)), 1);
    assert_eq!(compare_warnings(&w("x/a.c", Some(1), Some(1)), &w("x/a.c", Some(1), Some(1))), 0);
}
