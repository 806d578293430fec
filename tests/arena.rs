use wcnt::arena::SearchableArena;

#[test]
fn can_insert_and_get() {
    let mut arena = SearchableArena::new();
    let a_string = "a string";
    let inserted_as = arena.insert(a_string.to_owned());
    let found_as = arena.get_id(a_string).unwrap();
    assert_eq!(inserted_as, found_as);

    let inside_arena = arena.lookup(found_as).unwrap();
    assert_eq!(a_string, inside_arena);
}

#[test]
fn lookup_of_get_or_insert_gives_the_string_back() {
    let mut arena = SearchableArena::new();
    for s in ["gcc", "", "-Wall", "gcc", "ünïcödé"] {
        let id = arena.get_or_insert(s);
        assert_eq!(arena.lookup(id).map(|x| x.as_str()), Some(s));
    }
}

#[test]
fn get_or_insert_is_idempotent() {
    let mut arena = SearchableArena::new();
    let first = arena.get_or_insert("-Wpedantic");
    let second = arena.get_or_insert("-Wpedantic");
    assert_eq!(first, second);
    assert_eq!(first.index, 0);
}

#[test]
fn insert_does_not_deduplicate_but_get_id_finds_the_latest() {
    let mut arena = SearchableArena::new();
    let first = arena.insert("x".to_owned());
    let second = arena.insert("x".to_owned());
    assert_ne!(first, second);
    assert_eq!(second.index, 1);
    assert_eq!(arena.get_id("x"), Some(second));
    assert_eq!(arena.lookup(first).unwrap(), "x");
}

#[test]
fn handles_of_another_arena_do_not_resolve() {
    let mut a = SearchableArena::new();
    let mut b = SearchableArena::new();
    let in_a = a.insert("only in a".to_owned());
    b.insert("only in b".to_owned());
    assert!(b.lookup(in_a).is_none());
    assert!(a.get_id("only in b").is_none());
}

#[test]
fn merged_strings_round_trip() {
    let mut a = SearchableArena::new();
    a.insert("foo".to_owned());
    let mut b = SearchableArena::new();
    b.insert("bar".to_owned());
    b.insert("foo".to_owned());
    b.insert("baz".to_owned());
    a.add_all(&b);
    for s in ["bar", "foo", "baz"] {
        let id = a.get_or_insert(s);
        assert_eq!(a.lookup(id).unwrap(), s);
    }
    // "foo" was already present: merging added two strings only
    assert_eq!(a.get_id("baz").unwrap().index, 2);
}
