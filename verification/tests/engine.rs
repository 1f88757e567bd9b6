//! End-to-end tests of the comparison engine and renderer over small catalog
//! snapshots.

use pg_validate_extupgrade::assoc::AssocList;
use pg_validate_extupgrade::compare::{Composite, CompositeField, KeyedMap, Value};
use pg_validate_extupgrade::extension::Extension;
use pg_validate_extupgrade::pgtype::ExecutedQueries;
use pg_validate_extupgrade::schema::{
    tlist, FieldDef, FieldType, PG_10, PG_12, PG_14, PG_9_3, PG_9_4, PG_MAX, PG_MIN,
};

/// The test relation, with the same shape the tool's snapshots use: a class
/// record embedded in a relation that also carries its attribute list.
struct TestRel {
    relname: String,
    relkind: i8,
    relpersistence: i8,
    new_feature: Option<String>,
    deprecated_feature: Option<bool>,
    transient_feature: Option<i8>,
    attname: String,
}

fn get_t1(pgver: u32) -> TestRel {
    let new_feature = match pgver {
        PG_12..=PG_MAX => Some(String::from("some value")),
        _ => None,
    };
    let deprecated_feature = match pgver {
        PG_10..=PG_MAX => None,
        _ => Some(true),
    };
    let transient_feature = match pgver {
        PG_9_4..=90699 => Some('a' as i8),
        _ => None,
    };

    TestRel {
        relname: String::from("t1"),
        relkind: 'r' as i8,
        relpersistence: 'p' as i8,
        new_feature,
        deprecated_feature,
        transient_feature,
        attname: String::from("id"),
    }
}

fn attribute_value(name: &str) -> Value {
    Value::Composite(Composite {
        typname: String::from("Attribute"),
        ident: String::from(name),
        fields: vec![CompositeField {
            name: String::from("attname"),
            embedded: false,
            value: Value::Text(String::from(name)),
        }],
    })
}

fn opt_text(v: &Option<String>) -> Value {
    match v {
        Some(s) => Value::Opt(Some(Box::new(Value::Text(s.clone())))),
        None => Value::Opt(None),
    }
}

fn opt_bool(v: &Option<bool>) -> Value {
    match v {
        Some(b) => Value::Opt(Some(Box::new(Value::Bool(*b)))),
        None => Value::Opt(None),
    }
}

fn opt_char(v: &Option<i8>) -> Value {
    match v {
        Some(c) => Value::Opt(Some(Box::new(Value::PgChar(*c)))),
        None => Value::Opt(None),
    }
}

fn class_value(r: &TestRel) -> Value {
    Value::Composite(Composite {
        typname: String::from("Relation"),
        ident: r.relname.clone(),
        fields: vec![
            CompositeField {
                name: String::from("relname"),
                embedded: false,
                value: Value::Text(r.relname.clone()),
            },
            CompositeField {
                name: String::from("relkind"),
                embedded: false,
                value: Value::PgChar(r.relkind),
            },
            CompositeField {
                name: String::from("relpersistence"),
                embedded: false,
                value: Value::PgChar(r.relpersistence),
            },
            CompositeField {
                name: String::from("new_feature"),
                embedded: false,
                value: opt_text(&r.new_feature),
            },
            CompositeField {
                name: String::from("deprecated_feature"),
                embedded: false,
                value: opt_bool(&r.deprecated_feature),
            },
            CompositeField {
                name: String::from("transient_feature"),
                embedded: false,
                value: opt_char(&r.transient_feature),
            },
        ],
    })
}

fn rel_value(r: &TestRel) -> Value {
    Value::Composite(Composite {
        typname: String::from("Relation"),
        ident: r.relname.clone(),
        fields: vec![
            CompositeField {
                name: String::from("attributes"),
                embedded: false,
                value: Value::Sequence(vec![attribute_value(&r.attname)]),
            },
            CompositeField {
                name: String::from("class"),
                embedded: true,
                value: class_value(r),
            },
        ],
    })
}

fn empty_config(ident: &str) -> Composite {
    Composite {
        typname: String::from("ExtConfig"),
        ident: String::from(ident),
        fields: vec![],
    }
}

fn get_extension(ident: &str, relations: Option<Vec<TestRel>>) -> Extension {
    let relations = match relations {
        None => None,
        Some(v) => {
            let mut entries: AssocList<Value> = AssocList::new();
            for r in v {
                entries.insert(r.relname.clone(), rel_value(&r));
            }
            Some(KeyedMap {
                typname: String::from("Relation"),
                entries,
            })
        },
    };

    Extension {
        ident: String::from(ident),
        relations,
        extension_config: empty_config(ident),
        routines: None,
        event_triggers: None,
        operators: None,
        types: None,
        casts: None,
        foreign_data_wrappers: None,
        namespaces: None,
        opclasses: None,
        opfamilies: None,
        extra_queries: ExecutedQueries::new(),
    }
}

fn pgclass_defs() -> Vec<FieldDef> {
    vec![
        FieldDef {
            name: String::from("relname"),
            ftype: FieldType::Name,
            expr: None,
            pgmin: PG_MIN,
            pgmax: PG_MAX,
        },
        FieldDef {
            name: String::from("relkind"),
            ftype: FieldType::Char,
            expr: None,
            pgmin: PG_MIN,
            pgmax: PG_MAX,
        },
        FieldDef {
            name: String::from("relpersistence"),
            ftype: FieldType::Char,
            expr: None,
            pgmin: PG_MIN,
            pgmax: PG_MAX,
        },
        FieldDef {
            name: String::from("new_feature"),
            ftype: FieldType::Text,
            expr: Some(String::from("deparse(new_feature)")),
            pgmin: PG_12,
            pgmax: PG_MAX,
        },
        FieldDef {
            name: String::from("deprecated_feature"),
            ftype: FieldType::Bool,
            expr: None,
            pgmin: PG_MIN,
            pgmax: PG_10,
        },
        FieldDef {
            name: String::from("transient_feature"),
            ftype: FieldType::Char,
            expr: None,
            pgmin: PG_9_4,
            pgmax: PG_10,
        },
    ]
}

#[test]
fn test_tlist() {
    let defs = pgclass_defs();
    let t1_tlist = tlist(&defs, PG_10);

    let mut exp_tlist = vec![
        String::from("relname"),
        String::from("relkind"),
        String::from("relpersistence"),
        String::from("NULL::text AS new_feature"),
        String::from("NULL::bool AS deprecated_feature"),
        String::from("NULL::\"char\" AS transient_feature"),
    ];

    assert_eq!(
        exp_tlist, t1_tlist,
        "Target list for pg10 should not include any of the optional feature"
    );

    let t1_tlist = tlist(&defs, PG_14);

    exp_tlist[3] = String::from("deparse(new_feature) AS new_feature");
    exp_tlist[4] = String::from("NULL::bool AS deprecated_feature");
    exp_tlist[5] = String::from("NULL::\"char\" AS transient_feature");

    assert_eq!(
        exp_tlist, t1_tlist,
        "Target list for pg14 should include only \"new_feature\""
    );

    let t1_tlist = tlist(&defs, PG_9_4);
    exp_tlist[3] = String::from("NULL::text AS new_feature");
    exp_tlist[4] = String::from("deprecated_feature");
    exp_tlist[5] = String::from("transient_feature");

    assert_eq!(
        exp_tlist, t1_tlist,
        "Target list for pg9.4 should include \"deprecated_feature\" and \"transient_feature\"\n"
    );

    let t1_tlist = tlist(&defs, PG_9_3);
    exp_tlist[3] = String::from("NULL::text AS new_feature");
    exp_tlist[4] = String::from("deprecated_feature");
    exp_tlist[5] = String::from("NULL::\"char\" AS transient_feature");

    assert_eq!(
        exp_tlist, t1_tlist,
        "Target list for pg9.3 should include only \"deprecated_feature\""
    );
}

#[test]
fn compare_same_relation() {
    let t1 = get_t1(PG_14);

    let msg = rel_value(&t1).compare(&rel_value(&t1));

    assert!(
        msg.is_none(),
        "Identical relation (v14) should not raise anything\n{}",
        msg.unwrap().to_string()
    );

    let t1 = get_t1(430000);

    let msg = rel_value(&t1).compare(&rel_value(&t1));

    assert!(
        msg.is_none(),
        "Identical relation (v43) should not raise anything\n{}",
        msg.unwrap().to_string()
    );
}

#[test]
fn compare_relation_ins_diff() {
    let mut t1_ins = get_t1(PG_14);
    let t1_upg = get_t1(PG_14);

    t1_ins.relkind = 'v' as i8;
    t1_ins.attname = String::from("ins_id");

    let msg = rel_value(&t1_ins)
        .compare(&rel_value(&t1_upg))
        .expect("Should find differences")
        .to_string();

    assert!(
        msg.contains("for Relation t1")
            && msg.contains("in relkind")
            && msg.contains("- v")
            && msg.contains("+ r")
            && !msg.contains("PgClass"),
        "relkind change should be detected\n{}",
        msg
    );

    assert!(
        msg.contains("Attribute ins_id")
            && msg.contains("in attname")
            && msg.contains("- ins_id")
            && msg.contains("+ id")
            && !msg.contains("PgClass"),
        "attribute attname change should be detected\n{}",
        msg
    );
}

#[test]
fn compare_relation_upg_diff() {
    let t1_ins = get_t1(430000);
    let mut t1_upg = get_t1(430000);

    t1_upg.relkind = 'v' as i8;
    t1_upg.attname = String::from("upg_id");

    let msg = rel_value(&t1_ins)
        .compare(&rel_value(&t1_upg))
        .expect("Should find differences")
        .to_string();

    assert!(
        msg.contains("for Relation t1")
            && msg.contains("in relkind")
            && msg.contains("- r")
            && msg.contains("+ v")
            && !msg.contains("PgClass"),
        "relkind change should be detected\n{}",
        msg
    );

    assert!(
        msg.contains("for Attribute id")
            && msg.contains("in attname")
            && msg.contains("- id")
            && msg.contains("+ upg_id")
            && !msg.contains("PgClass"),
        "attribute attname change should be detected\n{}",
        msg
    );
}

#[test]
fn compare_relation_pgver_diff() {
    let t1_ins = get_t1(PG_10);
    let t1_upg = get_t1(PG_14);

    let msg = rel_value(&t1_ins)
        .compare(&rel_value(&t1_upg))
        .expect("Should find differences")
        .to_string();

    assert_eq!(
        true,
        msg.contains("for Relation t1")
            && msg.contains("in new_feature")
            && msg.contains("installed has no value")
            && msg.contains("upgraded has"),
        "Mismatch in optional field (missing in ins) should be detected\n{}",
        msg
    );

    let t1_ins = get_t1(PG_14);
    let t1_upg = get_t1(PG_10);

    let msg = rel_value(&t1_ins)
        .compare(&rel_value(&t1_upg))
        .expect("Should find differences")
        .to_string();

    assert_eq!(
        true,
        msg.contains("for Relation t1")
            && msg.contains("in new_feature")
            && msg.contains("upgraded has no value")
            && msg.contains("installed has"),
        "Mismatch in optional field (missing in upg) should be detected\n{}",
        msg
    );
}

#[test]
fn compare_relation_opt_diff() {
    let mut t1_ins = get_t1(430000);
    let t1_upg = get_t1(430000);

    t1_ins.new_feature = Some(String::from("ins some value"));
    let msg = rel_value(&t1_ins)
        .compare(&rel_value(&t1_upg))
        .expect("Should find differences")
        .to_string();

    assert!(
        msg.contains("for Relation t1")
            && msg.contains("- in new_feature")
            && msg.contains("- ins some value")
            && msg.contains("+ some value"),
        "Mismatch in optional field (changed in ins) should be detected\n{}",
        msg
    );

    let t1_ins = get_t1(430000);
    let mut t1_upg = get_t1(430000);

    t1_upg.new_feature = Some(String::from("upg some value"));
    let msg = rel_value(&t1_ins)
        .compare(&rel_value(&t1_upg))
        .expect("Should find differences")
        .to_string();

    assert!(
        msg.contains("for Relation t1")
            && msg.contains("in new_feature")
            && msg.contains("- some value")
            && msg.contains("+ upg some value"),
        "Mismatch in optional field (changed in upg) should be detected\n{}",
        msg
    );
}

#[test]
fn compare_same_ext() {
    let ext_ins = get_extension("empty_ext", None);

    let msg = ext_ins.compare(&ext_ins);

    match msg {
        Some(m) => {
            assert!(
                false,
                "Two empty extensions should be identical\n{}",
                m.to_string()
            );
        },
        None => {},
    }

    let ext_ins = get_extension("empty_ext", Some(vec![]));

    let msg = ext_ins.compare(&ext_ins);

    match msg {
        Some(m) => {
            assert!(
                false,
                "Two extensions with empty rel list should be identical\n{}",
                m.to_string()
            );
        },
        None => {},
    }

    let t1 = get_t1(PG_14);
    let ext_ins = get_extension("ext_1_rel", Some(vec![t1]));

    let msg = ext_ins.compare(&ext_ins);

    match msg {
        Some(m) => {
            assert!(
                false,
                "Two extensions with same 1 rel should be identical\n{}",
                m.to_string()
            );
        },
        None => {},
    }
}

#[test]
fn compare_ext_diff_nb_rels() {
    let t1_a = get_t1(PG_14);
    let t1_b = get_t1(PG_14);
    let mut t2 = get_t1(PG_14);

    t2.relname = String::from("t2");

    let ext_ins = get_extension("ext_1_rel", Some(vec![t1_a]));
    let ext_upg = get_extension("ext_2_rel", Some(vec![t1_b, t2]));

    let msg = ext_ins
        .compare(&ext_upg)
        .expect("Should find differences")
        .to_string();

    assert!(
        msg.contains("upgraded has 1 more Relation (2) than installed (1)") && msg.contains("- t2"),
        "Should detect that upgraded extension has 1 more rel\n{}",
        msg
    );

    let msg = ext_upg
        .compare(&ext_ins)
        .expect("Should find differences")
        .to_string();

    assert!(
        msg.contains("installed has 1 more Relation (2) than upgraded (1)") && msg.contains("- t2"),
        "Should detect that installed extension has 1 more rel\n{}",
        msg
    );
}

#[test]
fn compare_unified_diff() {
    let mut t1_a = get_t1(PG_14);
    let mut t1_b = get_t1(PG_14);

    t1_a.new_feature = Some(String::from("some data\n-- something\nother"));
    t1_b.new_feature = Some(String::from("some data\n-- some thing\nother"));

    let msg = rel_value(&t1_a)
        .compare(&rel_value(&t1_b))
        .expect("Should find differences")
        .to_string();

    assert!(
        msg.contains("- mismatch found for Relation t1:")
            && msg.contains("in new_feature:")
            && msg.contains("--- installed\n+++ upgraded\n")
            && msg.contains("some data\n--- something\n+-- some thing\n other"),
        "Should find a unified diff:\n {:#?}",
        msg
    );
}
