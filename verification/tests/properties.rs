//! Concrete-value tests for the engine's stated properties: reflexivity,
//! missing-group sizes, prefix absences, diff-style stability, composite
//! flattening, version gating, and the primitive keyed bags.

use pg_validate_extupgrade::assoc::AssocList;
use pg_validate_extupgrade::compare::{Composite, CompositeField, KeyedMap, Value};
use pg_validate_extupgrade::pgtype::{ClassOptions, ExecutedQueries, Guc, List};
use pg_validate_extupgrade::schema::{materialize, FieldDef, FieldType, PG_10, PG_12, PG_14, PG_MAX};

fn keyed(typname: &str, keys: &[&str]) -> Value {
    let mut entries: AssocList<Value> = AssocList::new();
    for k in keys {
        entries.insert(String::from(*k), Value::Text(String::from(*k)));
    }
    Value::Keyed(KeyedMap {
        typname: String::from(typname),
        entries,
    })
}

fn int_seq(ns: &[i64]) -> Value {
    Value::Sequence(ns.iter().map(|n| Value::Int(*n)).collect())
}

#[test]
fn reflexive_compare_is_clean() {
    let vals = vec![
        Value::Bool(true),
        Value::Int(-42),
        Value::Text(String::from("one\ntwo\n")),
        Value::PgChar('r' as i8),
        Value::Opt(None),
        Value::Opt(Some(Box::new(Value::Int(7)))),
        int_seq(&[1, 2, 3]),
        keyed("Relation", &["a", "b"]),
    ];
    for v in &vals {
        assert!(v.compare(v).is_none(), "no spurious self-diff");
    }
}

#[test]
fn disjoint_keyed_missing_groups() {
    let a = keyed("Relation", &["a", "b"]);
    let b = keyed("Relation", &["c", "d", "e"]);
    let msg = a.compare(&b).expect("disjoint key sets must differ").to_string();

    assert!(
        msg.contains("upgraded has 1 more Relation (3) than installed (2)"),
        "size line:\n{}",
        msg
    );
    assert!(
        msg.contains("3 Relation missing in installed:"),
        "installed misses all three keys:\n{}",
        msg
    );
    assert!(
        msg.contains("2 Relation missing in upgraded:"),
        "upgraded misses both keys:\n{}",
        msg
    );
    assert!(msg.contains("- c") && msg.contains("- d") && msg.contains("- e"));
    assert!(msg.contains("- a") && msg.contains("- b"));
}

#[test]
fn sequence_prefix_absences() {
    let long = int_seq(&[10, 20, 30]);
    let short = int_seq(&[10]);
    let msg = long.compare(&short).expect("lengths differ").to_string();

    assert!(
        msg.contains("- installed has 2 more elements (3) than upgraded (1)"),
        "length line:\n{}",
        msg
    );
    assert!(
        msg.contains("- mismatch for elem #2:") && msg.contains("- mismatch for elem #3:"),
        "exactly the two extra indices are reported:\n{}",
        msg
    );
    assert!(!msg.contains("- mismatch for elem #1:"), "shared index is equal:\n{}", msg);
    assert!(
        msg.contains("upgraded has no value, while installed has") && msg.contains("+ 20")
            && msg.contains("+ 30"),
        "each extra element is an absence with its value:\n{}",
        msg
    );
}

#[test]
fn empty_against_filled_sequence() {
    let none = int_seq(&[]);
    let filled = int_seq(&[5, 6]);
    let msg = none.compare(&filled).expect("lengths differ").to_string();

    assert!(
        msg.contains("- upgraded has 2 more elements (2) than installed (0)"),
        "pure length mismatch line:\n{}",
        msg
    );
    assert!(
        msg.contains("- mismatch for elem #1:") && msg.contains("- mismatch for elem #2:"),
        "every extra element is emitted:\n{}",
        msg
    );
    assert!(msg.contains("installed has no value, while upgraded has"));
}

#[test]
fn single_char_change_is_value_diff() {
    let a = Value::Text(String::from("abc"));
    let b = Value::Text(String::from("abcd"));
    let msg = a.compare(&b).expect("texts differ").to_string();

    assert!(
        msg.contains("- abc\n") && msg.contains("+ abcd\n"),
        "plain value diff:\n{}",
        msg
    );
    assert!(!msg.contains("---"), "no unified diff for single-line text:\n{}", msg);
}

#[test]
fn multiline_identical_is_clean() {
    let mut built = String::new();
    built.push_str("line one\n");
    built.push_str("line ");
    built.push_str("two\n");
    let a = Value::Text(String::from("line one\nline two\n"));
    let b = Value::Text(built);
    assert!(a.compare(&b).is_none(), "identical multi-line text must compare clean");
}

#[test]
fn multiline_word_change_is_unified_diff() {
    let a = Value::Text(String::from("create or replace\nselect one\nfrom t\n"));
    let b = Value::Text(String::from("create or replace\nselect two\nfrom t\n"));
    let msg = a.compare(&b).expect("bodies differ").to_string();

    assert!(
        msg.contains("--- installed\n+++ upgraded\n"),
        "domain side labels replace the patch file names:\n{}",
        msg
    );
    assert!(
        msg.contains("-select one\n") && msg.contains("+select two\n"),
        "the hunk carries both the removed and the added line:\n{}",
        msg
    );
    assert!(
        msg.contains(" create or replace\n"),
        "unchanged context is kept, not a whole-body replacement:\n{}",
        msg
    );
}

#[test]
fn embedded_record_is_flattened() {
    let inner = |v: &str| Composite {
        typname: String::from("Inner"),
        ident: String::from("i1"),
        fields: vec![CompositeField {
            name: String::from("leaf_field"),
            embedded: false,
            value: Value::Text(String::from(v)),
        }],
    };
    let outer = |v: &str| Value::Composite(Composite {
        typname: String::from("Outer"),
        ident: String::from("o1"),
        fields: vec![CompositeField {
            name: String::from("embedded_record"),
            embedded: true,
            value: Value::Composite(inner(v)),
        }],
    });

    let msg = outer("x").compare(&outer("y")).expect("leaf differs").to_string();

    assert!(
        msg.contains("- mismatch found for Outer o1:") && msg.contains("- in leaf_field:"),
        "the leaf field is attributed directly:\n{}",
        msg
    );
    assert!(
        !msg.contains("embedded_record") && !msg.contains("Inner"),
        "no wrapper entry for the embedded record:\n{}",
        msg
    );
}

#[test]
fn version_gated_field_absent() {
    let def = FieldDef {
        name: String::from("new_feature"),
        ftype: FieldType::Text,
        expr: None,
        pgmin: PG_12,
        pgmax: PG_MAX,
    };
    let at = |pgver: u32| Value::Composite(Composite {
        typname: String::from("Relation"),
        ident: String::from("t1"),
        fields: vec![CompositeField {
            name: String::from("new_feature"),
            embedded: false,
            value: materialize(&def, pgver, Value::Text(String::from("deparsed"))),
        }],
    });

    assert!(at(PG_10).compare(&at(PG_10)).is_none(), "placeholders compare clean");
    assert!(at(PG_14).compare(&at(PG_14)).is_none(), "materialized fields compare clean");

    let msg = at(PG_10).compare(&at(PG_14)).expect("gate differs").to_string();
    assert!(
        msg.contains("installed has no value, while upgraded has") && msg.contains("+ deparsed"),
        "absent placeholder against real value:\n{}",
        msg
    );
}

#[test]
fn option_bag_named_diff() {
    let bag = |v: &str| {
        let mut entries: AssocList<String> = AssocList::new();
        entries.insert(String::from("fillfactor"), String::from(v));
        entries.insert(String::from("autovacuum_enabled"), String::from("true"));
        ClassOptions::from_options(entries)
    };
    assert!(bag("90").compare(&bag("90")).is_none());

    let msg = bag("90").compare(&bag("70")).expect("values differ").to_string();
    assert!(
        msg.contains("installed and upgraded both have 2 Option but some mismatch in them:"),
        "equal sizes with inner mismatch:\n{}",
        msg
    );
    assert!(
        msg.contains("- mismatch found for fillfactor:") && msg.contains("- 90")
            && msg.contains("+ 70"),
        "the changed option is named with both values:\n{}",
        msg
    );
}

#[test]
fn name_list_presence_only() {
    let list = |names: &[&str]| {
        let mut entries: AssocList<String> = AssocList::new();
        for n in names {
            entries.insert(String::from(*n), String::new());
        }
        List::from_values(entries)
    };
    assert!(list(&["a", "b"]).compare(&list(&["a", "b"])).is_none());

    let msg = list(&["a"]).compare(&list(&["a", "b"])).expect("presence differs").to_string();
    assert!(
        msg.contains("upgraded has 1 more Value (2) than installed (1)")
            && msg.contains("1 Value missing in installed:") && msg.contains("- b"),
        "presence-only report:\n{}",
        msg
    );
}

#[test]
fn extra_queries_result_diff() {
    let queries = |rows: usize, out: &str| {
        let mut entries: AssocList<(usize, String)> = AssocList::new();
        entries.insert(String::from("SELECT * FROM t"), (rows, String::from(out)));
        ExecutedQueries::new_from(entries)
    };
    assert!(queries(1, "a: 1\n\n").compare(&queries(1, "a: 1\n\n")).is_none());

    let msg = queries(1, "a: 1\n\n")
        .compare(&queries(2, "a: 1\n\na: 2\n\n"))
        .expect("outputs differ")
        .to_string();
    assert!(
        msg.contains("SELECT * FROM t\n-- 1 rows\n++ 2 rows\n"),
        "the query header carries both row counts:\n{}",
        msg
    );
    assert!(
        msg.contains("--- installed\n+++ upgraded\n") && msg.contains("+a: 2\n"),
        "the result sets are diffed as text:\n{}",
        msg
    );
}

#[test]
fn guc_leak_report() {
    let guc = |val: &str| {
        let mut entries: AssocList<String> = AssocList::new();
        entries.insert(String::from("search_path"), String::from(val));
        entries.insert(String::from("work_mem"), String::from("4MB"));
        Guc::new_from(String::from("1.1"), entries)
    };
    assert!(guc("public").compare(&guc("public")).is_none());

    let msg = guc("public").compare(&guc("private")).expect("setting changed").to_string();
    assert!(
        msg.contains("Some GUC changes leaked the script for version 1.1:")
            && msg.contains(" - search_path changed to: private\n"),
        "the changed setting and its new value are reported:\n{}",
        msg
    );

    // An added setting is no leak: only settings present on both sides count.
    let mut more: AssocList<String> = AssocList::new();
    more.insert(String::from("search_path"), String::from("public"));
    more.insert(String::from("work_mem"), String::from("4MB"));
    more.insert(String::from("extension.level"), String::from("2"));
    let extended = Guc::new_from(String::from("1.1"), more);
    assert!(guc("public").compare(&extended).is_none());
}

#[test]
fn missing_keys_listed_in_sorted_order() {
    // Insertion order must not show: reports are byte-identical across runs.
    let shuffled = keyed("Relation", &["zeta", "alpha", "mid"]);
    let empty = keyed("Relation", &[]);
    let msg = shuffled.compare(&empty).expect("all keys missing").to_string();

    let a = msg.find("- alpha").expect("alpha listed");
    let m = msg.find("- mid").expect("mid listed");
    let z = msg.find("- zeta").expect("zeta listed");
    assert!(a < m && m < z, "missing keys come in key order:\n{}", msg);
}

#[test]
fn insert_replaces_existing_key() {
    let mut entries: AssocList<Value> = AssocList::new();
    entries.insert(String::from("k"), Value::Int(1));
    entries.insert(String::from("k"), Value::Int(2));
    let a = Value::Keyed(KeyedMap {
        typname: String::from("Relation"),
        entries,
    });
    let b = keyed_int("Relation", &[("k", 2)]);
    assert!(a.compare(&b).is_none(), "the second insert replaced the first binding");
}

fn keyed_int(typname: &str, pairs: &[(&str, i64)]) -> Value {
    let mut entries: AssocList<Value> = AssocList::new();
    for (k, n) in pairs {
        entries.insert(String::from(*k), Value::Int(*n));
    }
    Value::Keyed(KeyedMap {
        typname: String::from(typname),
        entries,
    })
}

#[test]
fn multi_digit_counts_render_exactly() {
    let keys: Vec<String> = (0..12).map(|i| format!("k{:02}", i)).collect();
    let many = keyed("Relation", &keys.iter().map(|s| s.as_str()).collect::<Vec<_>>());
    let one = keyed("Relation", &["k00"]);
    let msg = many.compare(&one).expect("sizes differ").to_string();
    assert!(
        msg.contains("installed has 11 more Relation (12) than upgraded (1)"),
        "multi-digit counts:\n{}",
        msg
    );
}
