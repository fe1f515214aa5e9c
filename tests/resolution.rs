use hocon::config::HoconLoaderConfig;
use hocon::entries::HoconInternal;
use hocon::finalize::Hocon;
use hocon::tree::Node;
use hocon::value::HoconValue;

fn s(x: &str) -> HoconValue {
    HoconValue::String(String::from(x))
}

fn u(x: &str) -> HoconValue {
    HoconValue::UnquotedString(String::from(x))
}

fn i(x: i64) -> HoconValue {
    HoconValue::Integer(x)
}

fn subst(x: &str) -> HoconValue {
    HoconValue::PathSubstitution(Box::new(u(x)))
}

fn text(x: &str) -> Hocon {
    Hocon::String(String::from(x))
}

fn hash(pairs: Vec<(&str, Hocon)>) -> Hocon {
    Hocon::Hash(pairs.into_iter().map(|(k, v)| (String::from(k), v)).collect())
}

fn config(system: bool) -> HoconLoaderConfig {
    HoconLoaderConfig { include_depth: 0, file_meta: None, system }
}

fn resolve_with(entries: Vec<(Vec<HoconValue>, HoconValue)>, system: bool, env: Vec<(String, String)>) -> Hocon {
    HoconInternal { internal: entries }.merge().unwrap().finalize(&config(system), &env)
}

fn resolve(entries: Vec<(Vec<HoconValue>, HoconValue)>) -> Hocon {
    resolve_with(entries, false, vec![])
}

fn include_config(depth: usize) -> HoconLoaderConfig {
    HoconLoaderConfig { include_depth: depth, file_meta: Some(String::from("file.conf")), system: false }
}

#[test]
fn max_depth_of_include() {
    let val = HoconInternal::from_include("file.conf", &include_config(15), None);
    assert_eq!(val, HoconInternal { internal: vec![(vec![s("file.conf")], HoconValue::BadValue)] });
}

#[test]
fn missing_file_included() {
    let val = HoconInternal::from_include("file.conf", &include_config(5), None);
    assert_eq!(val, HoconInternal { internal: vec![(vec![s("file.conf")], HoconValue::BadValue)] });
}

#[test]
fn include_nested_eleven_deep_is_refused_even_when_readable() {
    let loaded = HoconInternal { internal: vec![(vec![s("a")], i(1))] };
    let val = HoconInternal::from_include("file.conf", &include_config(11), Some(loaded));
    assert_eq!(val, HoconInternal { internal: vec![(vec![s("file.conf")], HoconValue::BadValue)] });
}

#[test]
fn include_without_file_context_is_refused() {
    let cfg = HoconLoaderConfig { include_depth: 0, file_meta: None, system: false };
    assert!(!cfg.may_include());
    let loaded = HoconInternal { internal: vec![(vec![s("a")], i(1))] };
    let val = HoconInternal::from_include("x.conf", &cfg, Some(loaded));
    assert_eq!(val, HoconInternal { internal: vec![(vec![s("x.conf")], HoconValue::BadValue)] });
}

#[test]
fn include_at_depth_ten_marks_entries_with_their_paths() {
    assert!(include_config(10).may_include());
    let loaded = HoconInternal { internal: vec![(vec![s("a"), s("b")], i(1))] };
    let val = HoconInternal::from_include("file.conf", &include_config(10), Some(loaded));
    assert_eq!(val.internal.len(), 1);
    assert_eq!(val.internal[0].0, vec![s("a"), s("b")]);
    match &val.internal[0].1 {
        HoconValue::Included { value, original_path } => {
            assert!(matches!(**value, HoconValue::Integer(1)));
            assert_eq!(*original_path, vec![s("a"), s("b")]);
        }
        other => panic!("not an include mark: {:?}", other),
    }
}

#[test]
fn add_include_puts_included_entries_first() {
    let mut own = HoconInternal { internal: vec![(vec![s("k")], i(2))] };
    let loaded = HoconInternal { internal: vec![(vec![s("k")], i(1))] };
    let all = own.add_include("file.conf", &include_config(1), Some(loaded));
    assert!(own.internal.is_empty());
    assert_eq!(all.internal.len(), 2);
    assert!(matches!(all.internal[0].1, HoconValue::Included { .. }));
    let doc = resolve(all.internal);
    assert_eq!(doc, hash(vec![("k", Hocon::Integer(2))]));
}

#[test]
fn last_writer_wins_at_one_path() {
    let doc = resolve(vec![(vec![s("a")], i(1)), (vec![s("a")], i(2))]);
    assert_eq!(doc, hash(vec![("a", Hocon::Integer(2))]));
}

#[test]
fn siblings_accumulate_in_one_map() {
    let doc = resolve(vec![(vec![s("a"), s("x")], i(1)), (vec![s("a"), s("y")], i(2))]);
    assert_eq!(doc, hash(vec![("a", hash(vec![("x", Hocon::Integer(1)), ("y", Hocon::Integer(2))]))]));
}

#[test]
fn new_index_zero_starts_a_new_array() {
    let doc = resolve(vec![(vec![s("a"), i(1)], i(2)), (vec![s("a"), i(0)], i(9))]);
    assert_eq!(doc, hash(vec![("a", Hocon::Array(vec![Hocon::Integer(9)]))]));
}

#[test]
fn index_zero_met_again_starts_a_new_array() {
    let doc = resolve(vec![(vec![s("a"), i(0)], i(1)), (vec![s("a"), i(1)], i(2)), (vec![s("a"), i(0)], i(9))]);
    assert_eq!(doc, hash(vec![("a", Hocon::Array(vec![Hocon::Integer(9)]))]));
}

#[test]
fn objects_inside_array_elements_still_merge() {
    let doc = resolve(vec![(vec![s("a"), i(0), s("x")], i(1)), (vec![s("a"), i(0), s("y")], i(2))]);
    assert_eq!(doc, hash(vec![("a", Hocon::Array(vec![hash(vec![("x", Hocon::Integer(1)), ("y", Hocon::Integer(2))])]))]));
}

#[test]
fn integer_key_discards_string_keyed_siblings() {
    let doc = resolve(vec![(vec![s("a"), s("b")], i(1)), (vec![s("a"), i(0)], i(2))]);
    assert_eq!(doc, hash(vec![("a", Hocon::Array(vec![Hocon::Integer(2)]))]));
}

#[test]
fn string_key_discards_integer_keyed_siblings() {
    let doc = resolve(vec![(vec![s("a"), i(0)], i(1)), (vec![s("a"), s("b")], i(2))]);
    assert_eq!(doc, hash(vec![("a", hash(vec![("b", Hocon::Integer(2))]))]));
}

#[test]
fn forward_substitution_resolves_at_finalize() {
    let doc = resolve(vec![(vec![s("b")], subst("a")), (vec![s("a")], i(5))]);
    assert_eq!(doc, hash(vec![("b", Hocon::Integer(5)), ("a", Hocon::Integer(5))]));
}

#[test]
fn backward_substitution_resolves_during_merge() {
    let merged = HoconInternal { internal: vec![(vec![s("a")], i(5)), (vec![s("b")], subst("a"))] }
        .merge()
        .unwrap();
    let b = merged.tree.find_key(&vec![s("b")]);
    assert!(matches!(b, Node::Leaf(HoconValue::Integer(5))));
    assert_eq!(merged.finalize(&config(false), &vec![]), hash(vec![("a", Hocon::Integer(5)), ("b", Hocon::Integer(5))]));
}

#[test]
fn substituted_copies_are_independent() {
    let doc = resolve(vec![
        (vec![s("a"), s("x")], i(1)),
        (vec![s("b")], subst("a")),
        (vec![s("c")], subst("a")),
        (vec![s("b"), s("x")], i(2)),
    ]);
    assert_eq!(
        doc,
        hash(vec![
            ("a", hash(vec![("x", Hocon::Integer(1))])),
            ("b", hash(vec![("x", Hocon::Integer(2))])),
            ("c", hash(vec![("x", Hocon::Integer(1))])),
        ])
    );
}

#[test]
fn concatenation_trims_only_outer_edges() {
    let doc = resolve(vec![(vec![s("a")], HoconValue::Concat(vec![u(" foo "), u("bar"), u(" baz ")]))]);
    assert_eq!(doc, hash(vec![("a", text("foo bar baz"))]));
}

#[test]
fn concatenation_writes_integers_and_booleans() {
    let doc = resolve(vec![(
        vec![s("a")],
        HoconValue::Concat(vec![i(-42), u(" "), HoconValue::Boolean(true), s("x"), HoconValue::Null]),
    )]);
    assert_eq!(doc, hash(vec![("a", text("-42 truex"))]));
}

#[test]
fn concatenation_member_that_is_an_object_becomes_bad() {
    let merged = HoconInternal {
        internal: vec![(vec![s("o"), s("k")], i(1)), (vec![s("c")], HoconValue::Concat(vec![subst("o"), s("t")]))],
    }
    .merge()
    .unwrap();
    match merged.tree.find_key(&vec![s("c")]) {
        Node::Leaf(HoconValue::Concat(members)) => {
            assert!(matches!(members[0], HoconValue::BadValue));
            assert!(matches!(members[1], HoconValue::String(_)));
        }
        other => panic!("unexpected node: {:?}", other),
    }
}

#[test]
fn environment_fallback_when_enabled() {
    let env = vec![(String::from("FOO.BAR"), String::from("from-env"))];
    let doc = resolve_with(vec![(vec![s("a")], subst("FOO.BAR"))], true, env.clone());
    assert_eq!(doc, hash(vec![("a", text("from-env"))]));
    let missing = resolve_with(vec![(vec![s("a")], subst("FOO.BAZ"))], true, env.clone());
    assert_eq!(missing, hash(vec![("a", Hocon::BadValue)]));
    let disabled = resolve_with(vec![(vec![s("a")], subst("FOO.BAR"))], false, env);
    assert_eq!(disabled, hash(vec![("a", Hocon::BadValue)]));
}

#[test]
fn tree_value_wins_over_environment() {
    let env = vec![(String::from("x"), String::from("from-env"))];
    let doc = resolve_with(vec![(vec![s("a")], subst("x")), (vec![s("x")], i(3))], true, env);
    assert_eq!(doc, hash(vec![("a", Hocon::Integer(3)), ("x", Hocon::Integer(3))]));
}

#[test]
fn empty_collections_finalize_to_empty_values() {
    assert_eq!(resolve(vec![(vec![], HoconValue::EmptyArray)]), Hocon::Array(vec![]));
    assert_eq!(resolve(vec![(vec![], HoconValue::EmptyObject)]), Hocon::Hash(vec![]));
    let doc = resolve(vec![(vec![s("a")], HoconValue::EmptyArray), (vec![s("b")], HoconValue::EmptyObject)]);
    assert_eq!(doc, hash(vec![("a", Hocon::Array(vec![])), ("b", Hocon::Hash(vec![]))]));
}

#[test]
fn cyclic_substitution_is_bad() {
    let doc = resolve(vec![(vec![s("a")], subst("b")), (vec![s("b")], subst("a"))]);
    assert_eq!(doc, hash(vec![("a", Hocon::BadValue), ("b", Hocon::BadValue)]));
}

#[test]
fn unquoted_values_are_trimmed_and_null_is_recognized() {
    let doc = resolve(vec![(vec![s("a")], u("  hi  ")), (vec![s("b")], u("null"))]);
    assert_eq!(doc, hash(vec![("a", text("hi")), ("b", Hocon::Null)]));
}

#[test]
fn unquoted_dotted_key_is_split() {
    let doc = resolve(vec![(vec![u(" a.b ")], i(1))]);
    assert_eq!(doc, hash(vec![("a", hash(vec![("b", Hocon::Integer(1))]))]));
}

#[test]
fn included_substitution_is_reanchored() {
    let loaded = HoconInternal { internal: vec![(vec![s("x")], i(1)), (vec![s("y")], subst("x"))] };
    let inc = HoconInternal::from_include("inc.conf", &include_config(0), Some(loaded));
    let nested = inc.add_to_path(vec![s("inc")]);
    let doc = resolve(nested.internal);
    assert_eq!(doc, hash(vec![("inc", hash(vec![("x", Hocon::Integer(1)), ("y", Hocon::Integer(1))]))]));
}

#[test]
fn included_forward_substitution_is_reanchored_at_finalize() {
    let loaded = HoconInternal { internal: vec![(vec![s("y")], subst("x")), (vec![s("x")], i(7))] };
    let inc = HoconInternal::from_include("inc.conf", &include_config(0), Some(loaded));
    let nested = inc.add_to_path(vec![s("inc")]);
    let doc = resolve(nested.internal);
    assert_eq!(doc, hash(vec![("inc", hash(vec![("y", Hocon::Integer(7)), ("x", Hocon::Integer(7))]))]));
}

#[test]
fn array_gaps_are_kept_in_order() {
    let doc = resolve(vec![(vec![s("a"), i(3)], i(1)), (vec![s("a"), i(1)], i(2))]);
    assert_eq!(doc, hash(vec![("a", Hocon::Array(vec![Hocon::Integer(1), Hocon::Integer(2)]))]));
}

#[test]
fn real_numbers_pass_through_by_bits() {
    let bits = 1.5f64.to_bits();
    let doc = resolve(vec![(vec![s("r")], HoconValue::Real(bits))]);
    assert_eq!(doc, hash(vec![("r", Hocon::Real(bits))]));
}

#[test]
fn maybe_concat_drops_blank_edges() {
    match HoconValue::maybe_concat(vec![u("  "), s("a"), u(" ")]) {
        HoconValue::String(x) => assert_eq!(x, "a"),
        other => panic!("unexpected: {:?}", other),
    }
    match HoconValue::maybe_concat(vec![u(" "), s("a"), u(" x "), u("\t")]) {
        HoconValue::Concat(vs) => assert_eq!(vs.len(), 2),
        other => panic!("unexpected: {:?}", other),
    }
    match HoconValue::maybe_concat(vec![u(" ")]) {
        HoconValue::Concat(vs) => assert!(vs.is_empty()),
        other => panic!("unexpected: {:?}", other),
    }
}

#[test]
fn to_path_splits_unquoted_text() {
    assert_eq!(u(" a.b.c ").to_path(), vec![s("a"), s("b"), s("c")]);
    assert_eq!(u(".").to_path(), vec![]);
    assert_eq!(s("a.b").to_path(), vec![s("a.b")]);
    assert_eq!(HoconValue::Concat(vec![u("a."), s("b")]).to_path(), vec![s("a"), s(""), s("b")]);
    assert_eq!(i(4).to_path(), vec![i(4)]);
}

#[test]
fn key_equality_is_by_kind_and_content() {
    assert!(i(1) == i(1));
    assert!(s("a") == s("a"));
    assert!(HoconValue::BadValue == HoconValue::BadValue);
    assert!(!(u("a") == u("a")));
    assert!(!(s("1") == i(1)));
    assert!(!(HoconValue::Null == HoconValue::Null));
}

#[test]
fn properties_are_split_at_dots() {
    let val = HoconInternal::from_properties(vec![(String::from("a.b"), String::from("v"))]);
    assert_eq!(val, HoconInternal { internal: vec![(vec![s("a"), s("b")], s("v"))] });
    assert_eq!(resolve(val.internal), hash(vec![("a", hash(vec![("b", text("v"))]))]));
}

#[test]
fn array_elements_are_put_under_their_index() {
    let a = HoconInternal::from_array(vec![HoconInternal::from_value(i(1)), HoconInternal::from_value(i(2))]);
    assert_eq!(a, HoconInternal { internal: vec![(vec![i(0)], i(1)), (vec![i(1)], i(2))] });
    let empty = HoconInternal::from_array(vec![]);
    assert!(matches!(empty.internal[0].1, HoconValue::EmptyArray));
    assert!(empty.internal[0].0.is_empty());
}

#[test]
fn objects_and_lists_compose() {
    let empty = HoconInternal::from_object(vec![]);
    assert!(matches!(empty.internal[0].1, HoconValue::EmptyObject));
    let one = HoconInternal::from_object(vec![(vec![s("k")], i(1))]);
    let two = one.add(HoconInternal::from_value(i(2)).add_to_path(vec![s("m")]));
    assert_eq!(two, HoconInternal { internal: vec![(vec![s("k")], i(1)), (vec![s("m")], i(2))] });
    assert_eq!(HoconInternal::empty().internal.len(), 0);
}

#[test]
fn resolve_merges_and_finalizes() {
    let entries = HoconInternal { internal: vec![(vec![s("a")], i(1)), (vec![s("b")], subst("a"))] };
    let doc = hocon::finalize::resolve(entries, &config(false), &vec![]);
    assert_eq!(doc, hash(vec![("a", Hocon::Integer(1)), ("b", Hocon::Integer(1))]));
}

#[test]
fn later_key_with_the_same_text_wins() {
    let doc = resolve(vec![(vec![HoconValue::Null], i(1)), (vec![s("null")], i(2))]);
    assert_eq!(doc, hash(vec![("null", Hocon::Integer(2))]));
}

#[test]
fn long_forward_chain_resolves() {
    let mut entries = Vec::new();
    for k in 0..300 {
        entries.push((vec![s(&format!("v{}", k))], subst(&format!("v{}", k + 1))));
    }
    entries.push((vec![s("v300")], i(7)));
    match resolve(entries) {
        Hocon::Hash(pairs) => assert!(pairs.iter().all(|(_, v)| *v == Hocon::Integer(7))),
        other => panic!("unexpected: {:?}", other),
    }
}

#[test]
fn included_from_goes_one_level_deeper() {
    let inner = include_config(10).included_from(String::from("b.conf"));
    assert_eq!(inner.include_depth, 11);
    assert_eq!(inner.file_meta, Some(String::from("b.conf")));
    assert!(!inner.may_include());
    let top = HoconLoaderConfig { include_depth: usize::MAX, file_meta: None, system: true };
    let same = top.included_from(String::from("c.conf"));
    assert_eq!(same.include_depth, usize::MAX);
    assert!(same.system);
}

#[test]
fn concatenation_keeps_inner_whitespace_of_every_member() {
    let doc = resolve(vec![(vec![s("a")], HoconValue::Concat(vec![u("\t x  "), u("  y  "), u(" z\n")]))]);
    assert_eq!(doc, hash(vec![("a", text("x    y   z"))]));
}
