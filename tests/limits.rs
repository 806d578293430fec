use wcnt::arena::SearchableArena;
use wcnt::limits::{
    limits_file_from_raw, Category, Limit, LimitsError, LimitsFile, RawLimitEntry, RawLimitValue,
};
use wcnt::settings::Kind;

fn raw_value(v: &toml::Value) -> RawLimitValue {
    match v {
        toml::Value::Integer(i) if *i >= 0 => RawLimitValue::Integer(*i as u64),
        toml::Value::Float(f) if f.is_infinite() && f.is_sign_positive() => RawLimitValue::Infinity,
        _ => RawLimitValue::Invalid,
    }
}

/// The entries of a limit file written in TOML.
fn raw_limits(text: &str) -> Vec<(String, RawLimitEntry)> {
    let value: toml::Value = toml::from_str(text).unwrap();
    let table = value.as_table().unwrap();
    table
        .iter()
        .map(|(key, v)| {
            let entry = match v {
                toml::Value::Table(t) => RawLimitEntry::PerCategory(
                    t.iter().map(|(c, x)| (c.clone(), raw_value(x))).collect(),
                ),
                other => RawLimitEntry::Number(raw_value(other)),
            };
            (key.clone(), entry)
        })
        .collect()
}

fn written_value(v: &RawLimitValue) -> toml::Value {
    match v {
        RawLimitValue::Integer(i) => toml::Value::Integer(*i as i64),
        _ => toml::Value::Float(f64::INFINITY),
    }
}

/// The TOML text of a limit file.
fn to_toml(limits: &LimitsFile, arena: &SearchableArena) -> String {
    let mut table = toml::value::Table::new();
    for (kind, entry) in limits.as_serializable(arena) {
        let value = match entry {
            RawLimitEntry::Number(v) => written_value(&v),
            RawLimitEntry::PerCategory(cats) => {
                let mut t = toml::value::Table::new();
                for (c, v) in cats {
                    t.insert(c, written_value(&v));
                }
                toml::Value::Table(t)
            }
        };
        table.insert(kind, value);
    }
    toml::to_string(&toml::Value::Table(table)).expect("Deserialize")
}

#[test]
fn limits_can_deserialize_empty() {
    let limits_str = r#"
        "#;

    let categorizable = Vec::new();
    let mut arena = SearchableArena::new();
    limits_file_from_raw(&mut arena, &raw_limits(limits_str), &categorizable).unwrap();
}

#[test]
fn cannot_deserialize_with_unknown_kind() {
    let limits_str = r#"
        gcc = 1
        "#;

    let categorizable = Vec::new();
    let mut arena = SearchableArena::new();
    let result = limits_file_from_raw(&mut arena, &raw_limits(limits_str), &categorizable);
    assert_eq!(result, Err(LimitsError::UnknownKind("gcc".to_owned())));
}

#[test]
fn can_deserialize_with_known_kind() {
    let limits_str = r#"
        gcc = 1
        "#;

    let mut arena = SearchableArena::new();
    let gcc_kind = Kind::new(arena.insert("gcc".to_owned()));
    let categorizable = Vec::new();
    let limits = limits_file_from_raw(&mut arena, &raw_limits(limits_str), &categorizable).unwrap();

    assert_eq!(limits.get_limit(&gcc_kind), Some(&Limit::Number(Some(1))));
}

#[test]
fn can_deserialize_with_categories() {
    let limits_str = r#"
        [gcc]
        -Wbad-code = 1
        -Wpedantic = 2
        "#;

    let mut arena = SearchableArena::new();
    let gcc_kind = Kind::new(arena.insert("gcc".to_owned()));
    let categorizable = vec![gcc_kind];
    let limits =
        limits_file_from_raw(&mut arena, &raw_limits(limits_str), &categorizable).expect("parse");

    let cat_bad_code = Category::new(arena.get_id("-Wbad-code").expect("bad code"));
    let cat_pedantic = Category::new(arena.get_id("-Wpedantic").expect("pedantic"));
    let expected_mapping = vec![(cat_bad_code, Some(1)), (cat_pedantic, Some(2))];
    assert_eq!(limits.get_limit(&gcc_kind), Some(&Limit::PerCategory(expected_mapping)));
}

#[test]
fn cannot_deserialize_without_being_categorizable() {
    let limits_str = r#"
        [gcc]
        -Wbad-code = 1
        -Wpedantic = 2
        "#;

    let mut arena = SearchableArena::new();
    arena.insert("gcc".to_owned());
    let categorizable = Vec::new();
    let result = limits_file_from_raw(&mut arena, &raw_limits(limits_str), &categorizable);
    assert_eq!(result, Err(LimitsError::NotCategorizable("gcc".to_owned())));
}

#[test]
fn can_deserialize_with_wildcard() {
    let limits_str = r#"
        [gcc]
        -Wbad-code = 2
        _ = 1
        "#;

    let mut arena = SearchableArena::new();
    let gcc_kind = Kind::new(arena.insert("gcc".to_owned()));
    let categorizable = vec![gcc_kind];
    let limits =
        limits_file_from_raw(&mut arena, &raw_limits(limits_str), &categorizable).expect("parse");

    let cat_bad_code = Category::new(arena.get_id("-Wbad-code").expect("bad code"));
    let expected_mapping = vec![(cat_bad_code, Some(2)), (Category::none(), Some(1))];
    assert_eq!(limits.get_limit(&gcc_kind), Some(&Limit::PerCategory(expected_mapping)));
}

#[test]
fn can_deserialize_inf() {
    let limits_str = r#"
        [gcc]
        -Wbad-code = inf
        _ = 1
        "#;

    let mut arena = SearchableArena::new();
    let gcc_kind = Kind::new(arena.insert("gcc".to_owned()));
    let categorizable = vec![gcc_kind];
    let limits =
        limits_file_from_raw(&mut arena, &raw_limits(limits_str), &categorizable).expect("parse");

    let cat_bad_code = Category::new(arena.get_id("-Wbad-code").expect("bad code"));
    let expected_mapping = vec![(cat_bad_code, None), (Category::none(), Some(1))];
    assert_eq!(limits.get_limit(&gcc_kind), Some(&Limit::PerCategory(expected_mapping)));
}

#[test]
fn wont_deserialize_floats() {
    let limits_str = r#"
        [gcc]
        -Wbad-code = 2.0
        _ = 1
        "#;

    let mut arena = SearchableArena::new();
    let gcc_kind = Kind::new(arena.insert("gcc".to_owned()));
    let categorizable = vec![gcc_kind];
    let result = limits_file_from_raw(&mut arena, &raw_limits(limits_str), &categorizable);
    assert_eq!(result, Err(LimitsError::InvalidValue));
}

#[test]
fn prune_only_one_into_simple_limit() {
    let limits_str = r#"
        [gcc]
        stuff = 0
        _ = 1
        "#;

    let mut arena = SearchableArena::new();
    let gcc_kind = Kind::new(arena.insert("gcc".to_owned()));
    let categorizable = vec![gcc_kind];
    let mut limits =
        limits_file_from_raw(&mut arena, &raw_limits(limits_str), &categorizable).expect("parse");

    limits.prune_categories();

    assert_eq!("gcc = 1\n", to_toml(&limits, &arena));
}

#[test]
fn prune_remove_zero_categories() {
    let limits_str = r#"
        [gcc]
        stuff = 1
        more-stuff = 0
        _ = 1
        "#;

    let mut arena = SearchableArena::new();
    let gcc_kind = Kind::new(arena.insert("gcc".to_owned()));
    let categorizable = vec![gcc_kind];
    let mut limits =
        limits_file_from_raw(&mut arena, &raw_limits(limits_str), &categorizable).expect("parse");

    limits.prune_categories();

    assert_eq!(
        r#"[gcc]
stuff = 1
_ = 1
"#,
        to_toml(&limits, &arena)
    );
}

#[test]
fn prune_turn_all_zero_into_simple() {
    let limits_str = r#"
        [gcc]
        stuff = 0
        more-stuff = 0
        "#;

    let mut arena = SearchableArena::new();
    let gcc_kind = Kind::new(arena.insert("gcc".to_owned()));
    let categorizable = vec![gcc_kind];
    let mut limits =
        limits_file_from_raw(&mut arena, &raw_limits(limits_str), &categorizable).expect("parse");

    limits.prune_categories();

    assert_eq!(
        r#"gcc = 0
"#,
        to_toml(&limits, &arena)
    );
}

#[test]
fn prune_keeps_infinite_single_category() {
    let mut arena = SearchableArena::new();
    let gcc_kind = Kind::new(arena.insert("gcc".to_owned()));
    let stuff = Category::new(arena.insert("stuff".to_owned()));
    let mut limits = LimitsFile::new(vec![(gcc_kind, Limit::PerCategory(vec![(stuff, None), (Category::none(), Some(0))]))]);
    limits.prune_categories();
    assert_eq!(limits.get_limit(&gcc_kind), Some(&Limit::Number(None)));
}

#[test]
fn zero_lowers_finite_thresholds_of_chosen_kinds() {
    let mut arena = SearchableArena::new();
    let gcc = Kind::new(arena.insert("gcc".to_owned()));
    let rust = Kind::new(arena.insert("rust".to_owned()));
    let cat = Category::new(arena.insert("x".to_owned()));
    let mut limits = LimitsFile::new(vec![
        (gcc, Limit::PerCategory(vec![(cat, Some(4)), (Category::none(), None)])),
        (rust, Limit::Number(Some(3))),
    ]);
    limits.zero(&vec![gcc]);
    assert_eq!(
        limits.get_limit(&gcc),
        Some(&Limit::PerCategory(vec![(cat, Some(0)), (Category::none(), None)]))
    );
    assert_eq!(limits.get_limit(&rust), Some(&Limit::Number(Some(3))));
}

#[test]
fn inf_is_written_back_as_inf() {
    let limits_str = r#"
        gcc = inf
        "#;
    let mut arena = SearchableArena::new();
    arena.insert("gcc".to_owned());
    let limits = limits_file_from_raw(&mut arena, &raw_limits(limits_str), &Vec::new()).unwrap();
    assert_eq!("gcc = inf\n", to_toml(&limits, &arena));
}
