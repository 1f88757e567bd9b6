//! The top-level snapshot of one extension: the keyed collections of its
//! dependent catalog objects, its configuration-table record, and the result
//! sets of any ad hoc queries, compared field by field.

use vstd::prelude::*;

use crate::compare::{
    compare_composites, compare_map, compatible, diff_shape_ok, entry_labels, join_keys,
    spec_describe, values_equal, wf, Composite, KeyedMap, Value,
};
use crate::pgdiff::{DiffSource, SchemaDiff};
use crate::pgtype::{queries_equal, ExecutedQueries};

verus! {

/// Well-formedness of an optional keyed collection.
pub open spec fn okm_wf(x: Option<KeyedMap>) -> bool {
    match x {
        None => true,
        Some(m) => wf(Value::Keyed(m)),
    }
}

/// Shape-compatibility of two optional keyed collections.
pub open spec fn okm_compat(x: Option<KeyedMap>, y: Option<KeyedMap>) -> bool {
    match (x, y) {
        (Some(mx), Some(my)) => compatible(Value::Keyed(mx), Value::Keyed(my)),
        _ => true,
    }
}

/// Equality of two optional keyed collections: both absent, or both present
/// and equal.
pub open spec fn okm_equal(x: Option<KeyedMap>, y: Option<KeyedMap>) -> bool {
    match (x, y) {
        (None, None) => true,
        (Some(mx), Some(my)) => values_equal(Value::Keyed(mx), Value::Keyed(my)),
        _ => false,
    }
}

/// What the diff node of an optional keyed collection says.
pub open spec fn okm_shape(x: Option<KeyedMap>, y: Option<KeyedMap>, d: SchemaDiff) -> bool {
    match (x, y) {
        (Some(mx), None) => d matches SchemaDiff::NoneDiff(src, s) && src == DiffSource::Upgraded
            && s@ == spec_describe(Value::Keyed(mx)),
        (None, Some(my)) => d matches SchemaDiff::NoneDiff(src, s) && src == DiffSource::Installed
            && s@ == spec_describe(Value::Keyed(my)),
        (Some(mx), Some(my)) => diff_shape_ok(Value::Keyed(mx), Value::Keyed(my), d),
        (None, None) => true,
    }
}

/// Compares two optional keyed collections with the usual optional rule: both
/// absent is no difference, one absent reports the present side's contents,
/// both present compare recursively.
fn compare_opt_keyed(x: &Option<KeyedMap>, y: &Option<KeyedMap>) -> (r: Option<SchemaDiff>)
    requires
        okm_wf(*x),
        okm_wf(*y),
        okm_compat(*x, *y),
    ensures
        (r is None) <==> okm_equal(*x, *y),
        r matches Some(d) ==> okm_shape(*x, *y, d),
{
    match (x, y) {
        (None, None) => None,
        (Some(mx), None) => Some(
            SchemaDiff::NoneDiff(DiffSource::Upgraded, join_keys(&mx.entries)),
        ),
        (None, Some(my)) => Some(
            SchemaDiff::NoneDiff(DiffSource::Installed, join_keys(&my.entries)),
        ),
        (Some(mx), Some(my)) => compare_map(mx, my),
    }
}

/// One extension's materialized snapshot.  Each collection is present only
/// when the extension has dependent objects of that kind; the identity is the
/// extension's name.
pub struct Extension {
    pub ident: String,
    pub relations: Option<KeyedMap>,
    pub extension_config: Composite,
    pub routines: Option<KeyedMap>,
    pub event_triggers: Option<KeyedMap>,
    pub operators: Option<KeyedMap>,
    pub types: Option<KeyedMap>,
    pub casts: Option<KeyedMap>,
    pub foreign_data_wrappers: Option<KeyedMap>,
    pub namespaces: Option<KeyedMap>,
    pub opclasses: Option<KeyedMap>,
    pub opfamilies: Option<KeyedMap>,
    pub extra_queries: ExecutedQueries,
}

/// Well-formedness of a snapshot: every part well-formed.
pub open spec fn ext_wf(e: Extension) -> bool {
    &&& okm_wf(e.relations)
    &&& wf(Value::Composite(e.extension_config))
    &&& okm_wf(e.routines)
    &&& okm_wf(e.event_triggers)
    &&& okm_wf(e.operators)
    &&& okm_wf(e.types)
    &&& okm_wf(e.casts)
    &&& okm_wf(e.foreign_data_wrappers)
    &&& okm_wf(e.namespaces)
    &&& okm_wf(e.opclasses)
    &&& okm_wf(e.opfamilies)
    &&& e.extra_queries.wf()
}

/// Shape-compatibility of two snapshots, part by part.
pub open spec fn ext_compat(a: Extension, b: Extension) -> bool {
    &&& okm_compat(a.relations, b.relations)
    &&& compatible(Value::Composite(a.extension_config), Value::Composite(b.extension_config))
    &&& okm_compat(a.routines, b.routines)
    &&& okm_compat(a.event_triggers, b.event_triggers)
    &&& okm_compat(a.operators, b.operators)
    &&& okm_compat(a.types, b.types)
    &&& okm_compat(a.casts, b.casts)
    &&& okm_compat(a.foreign_data_wrappers, b.foreign_data_wrappers)
    &&& okm_compat(a.namespaces, b.namespaces)
    &&& okm_compat(a.opclasses, b.opclasses)
    &&& okm_compat(a.opfamilies, b.opfamilies)
}

/// Equality of two snapshots: every compared part equal.  The identity takes
/// no part: it only attributes the report.
pub open spec fn ext_equal(a: Extension, b: Extension) -> bool {
    &&& okm_equal(a.relations, b.relations)
    &&& values_equal(Value::Composite(a.extension_config), Value::Composite(b.extension_config))
    &&& okm_equal(a.routines, b.routines)
    &&& okm_equal(a.event_triggers, b.event_triggers)
    &&& okm_equal(a.operators, b.operators)
    &&& okm_equal(a.types, b.types)
    &&& okm_equal(a.casts, b.casts)
    &&& okm_equal(a.foreign_data_wrappers, b.foreign_data_wrappers)
    &&& okm_equal(a.namespaces, b.namespaces)
    &&& okm_equal(a.opclasses, b.opclasses)
    &&& okm_equal(a.opfamilies, b.opfamilies)
    &&& queries_equal(a.extra_queries.queries.entries@, b.extra_queries.queries.entries@)
}

/// One field label, present when the field differs.
pub open spec fn lbl(differs: bool, name: Seq<char>) -> Seq<Seq<char>> {
    if differs {
        seq![name]
    } else {
        Seq::empty()
    }
}

/// The labels of the differing snapshot fields, in declaration order.
pub open spec fn ext_labels(a: Extension, b: Extension) -> Seq<Seq<char>> {
    lbl(!okm_equal(a.relations, b.relations), "relations"@) + lbl(
        !values_equal(Value::Composite(a.extension_config), Value::Composite(b.extension_config)),
        "extension_config"@,
    ) + lbl(!okm_equal(a.routines, b.routines), "routines"@) + lbl(
        !okm_equal(a.event_triggers, b.event_triggers),
        "event_triggers"@,
    ) + lbl(!okm_equal(a.operators, b.operators), "operators"@) + lbl(
        !okm_equal(a.types, b.types),
        "types"@,
    ) + lbl(!okm_equal(a.casts, b.casts), "casts"@) + lbl(
        !okm_equal(a.foreign_data_wrappers, b.foreign_data_wrappers),
        "foreign_data_wrappers"@,
    ) + lbl(!okm_equal(a.namespaces, b.namespaces), "namespaces"@) + lbl(
        !okm_equal(a.opclasses, b.opclasses),
        "opclasses"@,
    ) + lbl(!okm_equal(a.opfamilies, b.opfamilies), "opfamilies"@) + lbl(
        !queries_equal(a.extra_queries.queries.entries@, b.extra_queries.queries.entries@),
        "extra_queries"@,
    )
}

/// Appends a labelled entry for a field's difference, if there is one.
fn push_labeled(es: &mut Vec<(Option<String>, SchemaDiff)>, name: &str, sub: Option<SchemaDiff>)
    ensures
        sub is None ==> final(es)@ == old(es)@,
        sub matches Some(d) ==> final(es)@.len() == old(es)@.len() + 1 && final(es)@.drop_last()
            =~= old(es)@ && (final(es)@.last().0 matches Some(s) && s@ == name@)
            && final(es)@.last().1 == d,
        entry_labels(final(es)@) =~= entry_labels(old(es)@) + lbl(sub is Some, name@),
        (forall|j: int| 0 <= j < old(es)@.len() ==> (#[trigger] old(es)@[j]).0 is Some) ==> (
        forall|j: int| 0 <= j < final(es)@.len() ==> (#[trigger] final(es)@[j]).0 is Some),
{
    match sub {
        None => {
            proof {
                assert(entry_labels(es@) =~= entry_labels(es@) + lbl(false, name@));
            }
        },
        Some(d) => {
            es.push((Some(String::from_str(name)), d));
        },
    }
}

impl Extension {
    /// Replaces the snapshot's ad hoc query results; everything else is kept.
    pub fn set_extra_queries(&mut self, extra_queries: ExecutedQueries)
        ensures
            final(self).extra_queries == extra_queries,
            final(self).ident == old(self).ident,
            final(self).relations == old(self).relations,
            final(self).extension_config == old(self).extension_config,
            final(self).routines == old(self).routines,
            final(self).event_triggers == old(self).event_triggers,
            final(self).operators == old(self).operators,
            final(self).types == old(self).types,
            final(self).casts == old(self).casts,
            final(self).foreign_data_wrappers == old(self).foreign_data_wrappers,
            final(self).namespaces == old(self).namespaces,
            final(self).opclasses == old(self).opclasses,
            final(self).opfamilies == old(self).opfamilies,
    {
        self.extra_queries = extra_queries;
    }

    /// Compares two snapshots of the same extension, field by field in
    /// declaration order.  Returns nothing exactly when the two snapshots
    /// describe the same catalog state; otherwise one composite diff node
    /// labelled with the extension's identity, holding one labelled entry per
    /// differing field.
    #[verifier::rlimit(100)]
    pub fn compare(&self, other: &Extension) -> (r: Option<SchemaDiff>)
        requires
            ext_wf(*self),
            ext_wf(*other),
            ext_compat(*self, *other),
        ensures
            (r is None) <==> ext_equal(*self, *other),
            r matches Some(d) ==> (d matches SchemaDiff::StructDiff(t, n, es) && t@
                == "Extension"@ && n@ == self.ident@ && entry_labels(es@) == ext_labels(
                *self,
                *other,
            ) && (forall|j: int| 0 <= j < es@.len() ==> (#[trigger] es@[j]).0 is Some)),
    {
        let mut es: Vec<(Option<String>, SchemaDiff)> = Vec::new();
        let ghost mut acc: Seq<Seq<char>> = Seq::empty();
        proof {
            assert(entry_labels(es@) =~= acc);
        }
        let s1 = compare_opt_keyed(&self.relations, &other.relations);
        push_labeled(&mut es, "relations", s1);
        proof {
            acc = acc + lbl(!okm_equal(self.relations, other.relations), "relations"@);
            assert(entry_labels(es@) =~= acc);
        }
        let s2 = compare_composites(&self.extension_config, &other.extension_config);
        push_labeled(&mut es, "extension_config", s2);
        proof {
            acc = acc + lbl(
                !values_equal(
                    Value::Composite(self.extension_config),
                    Value::Composite(other.extension_config),
                ),
                "extension_config"@,
            );
            assert(entry_labels(es@) =~= acc);
        }
        let s3 = compare_opt_keyed(&self.routines, &other.routines);
        push_labeled(&mut es, "routines", s3);
        proof {
            acc = acc + lbl(!okm_equal(self.routines, other.routines), "routines"@);
            assert(entry_labels(es@) =~= acc);
        }
        let s4 = compare_opt_keyed(&self.event_triggers, &other.event_triggers);
        push_labeled(&mut es, "event_triggers", s4);
        proof {
            acc = acc + lbl(!okm_equal(self.event_triggers, other.event_triggers), "event_triggers"@);
            assert(entry_labels(es@) =~= acc);
        }
        let s5 = compare_opt_keyed(&self.operators, &other.operators);
        push_labeled(&mut es, "operators", s5);
        proof {
            acc = acc + lbl(!okm_equal(self.operators, other.operators), "operators"@);
            assert(entry_labels(es@) =~= acc);
        }
        let s6 = compare_opt_keyed(&self.types, &other.types);
        push_labeled(&mut es, "types", s6);
        proof {
            acc = acc + lbl(!okm_equal(self.types, other.types), "types"@);
            assert(entry_labels(es@) =~= acc);
        }
        let s7 = compare_opt_keyed(&self.casts, &other.casts);
        push_labeled(&mut es, "casts", s7);
        proof {
            acc = acc + lbl(!okm_equal(self.casts, other.casts), "casts"@);
            assert(entry_labels(es@) =~= acc);
        }
        let s8 = compare_opt_keyed(&self.foreign_data_wrappers, &other.foreign_data_wrappers);
        push_labeled(&mut es, "foreign_data_wrappers", s8);
        proof {
            acc = acc + lbl(
                !okm_equal(self.foreign_data_wrappers, other.foreign_data_wrappers),
                "foreign_data_wrappers"@,
            );
            assert(entry_labels(es@) =~= acc);
        }
        let s9 = compare_opt_keyed(&self.namespaces, &other.namespaces);
        push_labeled(&mut es, "namespaces", s9);
        proof {
            acc = acc + lbl(!okm_equal(self.namespaces, other.namespaces), "namespaces"@);
            assert(entry_labels(es@) =~= acc);
        }
        let s10 = compare_opt_keyed(&self.opclasses, &other.opclasses);
        push_labeled(&mut es, "opclasses", s10);
        proof {
            acc = acc + lbl(!okm_equal(self.opclasses, other.opclasses), "opclasses"@);
            assert(entry_labels(es@) =~= acc);
        }
        let s11 = compare_opt_keyed(&self.opfamilies, &other.opfamilies);
        push_labeled(&mut es, "opfamilies", s11);
        proof {
            acc = acc + lbl(!okm_equal(self.opfamilies, other.opfamilies), "opfamilies"@);
            assert(entry_labels(es@) =~= acc);
        }
        let s12 = self.extra_queries.compare(&other.extra_queries);
        push_labeled(&mut es, "extra_queries", s12);
        proof {
            acc = acc + lbl(
                !queries_equal(
                    self.extra_queries.queries.entries@,
                    other.extra_queries.queries.entries@,
                ),
                "extra_queries"@,
            );
            assert(entry_labels(es@) =~= acc);
            assert(acc =~= ext_labels(*self, *other));
        }
        if es.len() == 0 {
            None
        } else {
            proof {
                if ext_equal(*self, *other) {
                    assert(ext_labels(*self, *other).len() == 0);
                }
            }
            Some(SchemaDiff::StructDiff(String::from_str("Extension"), self.ident.clone(), es))
        }
    }
}

} // verus!
