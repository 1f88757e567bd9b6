//! The keyed bags of primitive values that appear in catalog snapshots:
//! option bags (`key=value`), unordered name lists, executed-query result
//! sets, and runtime-setting snapshots.

use vstd::prelude::*;

use crate::assoc::{
    assoc_has_key, assoc_sorted, assoc_unique, assoc_view, changed_keys, lemma_assoc_view_at,
    lemma_changed_keys_empty, lemma_missing_from_empty, lemma_same_keys_pointwise,
    lemma_sorted_unique, missing_from, missing_keys, strs_view, AssocList,
};
use crate::pgdiff::{build_missing_groups, missing_groups_ok, DiffSource, SchemaDiff};
use crate::text::{dec_str, usize_to_string};
use crate::unified::{installed_upgraded_patch, patch_body};

verus! {

/// Equality of two string values, by content.
pub open spec fn str_eqf() -> spec_fn(String, String) -> bool {
    |x: String, y: String| x@ == y@
}

/// Two string-valued association lists hold the same entries in the same
/// order.
pub open spec fn str_pairs_equal(a: Seq<(String, String)>, b: Seq<(String, String)>) -> bool {
    a.len() == b.len() && (forall|i: int|
        0 <= i < a.len() ==> (#[trigger] a[i]).0@ == b[i].0@ && a[i].1@ == b[i].1@)
}

/// Every key of each list stands in the other.
pub open spec fn same_key_sets<A, B>(a: Seq<(String, A)>, b: Seq<(String, B)>) -> bool {
    forall|k: Seq<char>| #[trigger] assoc_has_key(a, k) <==> assoc_has_key(b, k)
}

/// The named sub-diffs of an option-bag comparison: one `NamedDiff` per key
/// of `ck`, in order, carrying the key and both collections' values at it.
pub open spec fn named_diffs_ok(
    ds: Seq<SchemaDiff>,
    ck: Seq<Seq<char>>,
    a: Seq<(String, String)>,
    b: Seq<(String, String)>,
) -> bool {
    ds.len() == ck.len() && (forall|i: int|
        0 <= i < ds.len() ==> ((#[trigger] ds[i]) matches SchemaDiff::NamedDiff(w, x, y) && w@
            == ck[i] && x@ == assoc_view(a)[ck[i]]@ && y@ == assoc_view(b)[ck[i]]@))
}

/// The shape of a keyed-collection diff node over primitive values.
pub open spec fn keyed_prim_diff_ok(
    d: SchemaDiff,
    a: Seq<(String, String)>,
    b: Seq<(String, String)>,
    typname: Seq<char>,
    with_values: bool,
) -> bool {
    d matches SchemaDiff::HashMapDiff(s1, s2, t, ms, ds) && s1 == a.len() && s2 == b.len() && t@
        == typname && missing_groups_ok(ms@, missing_from(a, b), missing_from(b, a)) && (
    if with_values {
        named_diffs_ok(ds@, changed_keys(a, b, str_eqf()), a, b)
    } else {
        ds@.len() == 0
    })
}

/// A `key=value` option bag, such as a relation's storage options, compared
/// key by key.
pub struct ClassOptions {
    pub options: AssocList<String>,
}

impl ClassOptions {
    /// Whether the backing entries are in sorted key order.
    pub open spec fn wf(self) -> bool {
        assoc_sorted(self.options.entries@)
    }

    /// Wraps an option mapping.
    pub fn from_options(options: AssocList<String>) -> (r: ClassOptions)
        ensures
            r.options == options,
    {
        ClassOptions { options }
    }

    /// Compares two option bags: reports the keys each side lacks and, for
    /// every shared key, a named difference when the two values disagree.
    /// Returns nothing exactly when both bags hold the same options.
    pub fn compare(&self, other: &ClassOptions) -> (r: Option<SchemaDiff>)
        requires
            self.wf(),
            other.wf(),
        ensures
            (r is None) <==> str_pairs_equal(self.options.entries@, other.options.entries@),
            r matches Some(d) ==> keyed_prim_diff_ok(
                d,
                self.options.entries@,
                other.options.entries@,
                "Option"@,
                true,
            ),
    {
        let ds = compare_str_pairs(&self.options, &other.options);
        finish_keyed_prim(&self.options, &other.options, "Option", true, ds)
    }
}

/// An unordered list of names, compared only by which names are present.
pub struct List {
    pub values: AssocList<String>,
}

impl List {
    /// Whether the backing entries are in sorted key order.
    pub open spec fn wf(self) -> bool {
        assoc_sorted(self.values.entries@)
    }

    /// Wraps a name list.
    pub fn from_values(values: AssocList<String>) -> (r: List)
        ensures
            r.values == values,
    {
        List { values }
    }

    /// Compares two name lists by presence alone: reports the names each side
    /// lacks, and nothing exactly when both hold the same names.
    pub fn compare(&self, other: &List) -> (r: Option<SchemaDiff>)
        requires
            self.wf(),
            other.wf(),
        ensures
            (r is None) <==> (self.values.entries@.len() == other.values.entries@.len() && (
            forall|i: int|
                0 <= i < self.values.entries@.len() ==> (#[trigger] self.values.entries@[i]).0@
                    == other.values.entries@[i].0@)),
            r matches Some(d) ==> keyed_prim_diff_ok(
                d,
                self.values.entries@,
                other.values.entries@,
                "Value"@,
                false,
            ),
    {
        let ds: Vec<SchemaDiff> = Vec::new();
        let r = finish_keyed_prim(&self.values, &other.values, "Value", false, ds);
        proof {
            let a = self.values.entries@;
            let b = other.values.entries@;
            if r is None {
                lemma_same_keys_pointwise(a, b);
            } else {
                if a.len() == b.len() && (forall|i: int|
                    0 <= i < a.len() ==> (#[trigger] a[i]).0@ == b[i].0@) {
                    assert forall|k: Seq<char>| #[trigger]
                        assoc_has_key(a, k) <==> assoc_has_key(b, k) by {
                        if assoc_has_key(a, k) {
                            let i = choose|i: int| 0 <= i < a.len() && (#[trigger] a[i]).0@ == k;
                            assert(b[i].0@ == k);
                        }
                        if assoc_has_key(b, k) {
                            let i = choose|i: int| 0 <= i < b.len() && (#[trigger] b[i]).0@ == k;
                            assert(a[i].0@ == k);
                        }
                    }
                    assert(same_key_sets(a, b));
                }
            }
        }
        r
    }
}

/// Equality of two executed-query results: the rendered output decides; the
/// row count only decorates the report.
pub open spec fn query_eqf() -> spec_fn((usize, String), (usize, String)) -> bool {
    |x: (usize, String), y: (usize, String)| x.1@ == y.1@
}

/// The context header of one query's result diff: the query text, and the two
/// row counts when they disagree.
pub open spec fn query_source_spec(q: Seq<char>, x: (usize, String), y: (usize, String)) -> Seq<
    char,
> {
    q + (if x.0 == y.0 {
        Seq::<char>::empty()
    } else {
        "\n-- "@ + dec_str(x.0 as int) + " rows\n++ "@ + dec_str(y.0 as int) + " rows\n"@
    })
}

/// The sub-diffs of a result-set comparison: one unified text diff per key of
/// `ck`, carrying the query header and the line patch of the two outputs.
pub open spec fn query_diffs_ok(
    ds: Seq<SchemaDiff>,
    ck: Seq<Seq<char>>,
    a: Seq<(String, (usize, String))>,
    b: Seq<(String, (usize, String))>,
) -> bool {
    ds.len() == ck.len() && (forall|i: int|
        0 <= i < ds.len() ==> ((#[trigger] ds[i]) matches SchemaDiff::UnifiedDiff(Some(s), p) && s@
            == query_source_spec(ck[i], assoc_view(a)[ck[i]], assoc_view(b)[ck[i]]) && p@ == "--- "@
            + "installed"@ + "\n"@ + "+++ "@ + "upgraded"@ + "\n"@ + patch_body(
            assoc_view(a)[ck[i]].1@,
            assoc_view(b)[ck[i]].1@,
        )))
}

/// The shape of a whole result-set diff node.
pub open spec fn queries_diff_node_ok(
    d: SchemaDiff,
    a: Seq<(String, (usize, String))>,
    b: Seq<(String, (usize, String))>,
) -> bool {
    d matches SchemaDiff::HashMapDiff(s1, s2, t, ms, ds) && s1 == a.len() && s2 == b.len() && t@
        == "Resultset"@ && missing_groups_ok(ms@, missing_from(a, b), missing_from(b, a))
        && query_diffs_ok(ds@, changed_keys(a, b, query_eqf()), a, b)
}

/// Two result sets hold the same queries with the same outputs, in order.
pub open spec fn queries_equal(
    a: Seq<(String, (usize, String))>,
    b: Seq<(String, (usize, String))>,
) -> bool {
    a.len() == b.len() && (forall|i: int|
        0 <= i < a.len() ==> (#[trigger] a[i]).0@ == b[i].0@ && a[i].1.1@ == b[i].1.1@)
}

/// The rendered result sets of the ad hoc queries run against one snapshot,
/// keyed by query text; each entry holds the row count and the rendered rows.
pub struct ExecutedQueries {
    pub queries: AssocList<(usize, String)>,
}

impl ExecutedQueries {
    /// Whether the backing entries are in sorted key order.
    pub open spec fn wf(self) -> bool {
        assoc_sorted(self.queries.entries@)
    }

    /// No queries were run.
    pub fn new() -> (r: ExecutedQueries)
        ensures
            r.queries.entries@ =~= Seq::<(String, (usize, String))>::empty(),
            r.wf(),
    {
        ExecutedQueries { queries: AssocList::new() }
    }

    /// Wraps the collected results.
    pub fn new_from(queries: AssocList<(usize, String)>) -> (r: ExecutedQueries)
        ensures
            r.queries == queries,
    {
        ExecutedQueries { queries }
    }

    /// Compares two result sets: reports the queries each side lacks and, per
    /// shared query with different output, a unified diff of the two outputs
    /// under the query's header.  Returns nothing exactly when both sides ran
    /// the same queries with the same rendered outputs.
    pub fn compare(&self, other: &ExecutedQueries) -> (r: Option<SchemaDiff>)
        requires
            self.wf(),
            other.wf(),
        ensures
            (r is None) <==> queries_equal(self.queries.entries@, other.queries.entries@),
            r matches Some(d) ==> queries_diff_node_ok(
                d,
                self.queries.entries@,
                other.queries.entries@,
            ),
    {
        let ghost av = self.queries.entries@;
        let ghost bv = other.queries.entries@;
        proof {
            lemma_sorted_unique(av);
            lemma_sorted_unique(bv);
        }
        let ds = compare_query_pairs(&self.queries, &other.queries);
        let mi = missing_keys(&self.queries, &other.queries);
        let mu = missing_keys(&other.queries, &self.queries);
        proof {
            lemma_missing_from_empty(av, bv);
            lemma_missing_from_empty(bv, av);
            lemma_changed_keys_empty(av, bv, query_eqf());
            if mi@.len() == 0 && mu@.len() == 0 {
                assert forall|k: Seq<char>| #[trigger] assoc_has_key(av, k) <==> assoc_has_key(
                    bv,
                    k,
                ) by {
                    if assoc_has_key(av, k) {
                        let i = choose|i: int| 0 <= i < av.len() && (#[trigger] av[i]).0@ == k;
                        assert(assoc_has_key(bv, av[i].0@));
                    }
                    if assoc_has_key(bv, k) {
                        let j = choose|j: int| 0 <= j < bv.len() && (#[trigger] bv[j]).0@ == k;
                        assert(assoc_has_key(av, bv[j].0@));
                    }
                }
                lemma_same_keys_pointwise(av, bv);
            }
            if queries_equal(av, bv) {
                assert forall|j: int| 0 <= j < bv.len() implies assoc_has_key(
                    av,
                    (#[trigger] bv[j]).0@,
                ) by {
                    assert(av[j].0@ == bv[j].0@);
                }
                assert forall|j: int| 0 <= j < av.len() implies assoc_has_key(
                    bv,
                    (#[trigger] av[j]).0@,
                ) by {
                    assert(bv[j].0@ == av[j].0@);
                }
                assert(missing_from(av, bv).len() == 0);
                assert(missing_from(bv, av).len() == 0);
                assert forall|i: int|
                    0 <= i < av.len() && assoc_has_key(bv, (#[trigger] av[i]).0@) implies query_eqf()(
                    av[i].1,
                    assoc_view(bv)[av[i].0@],
                ) by {
                    lemma_assoc_view_at(bv, i);
                }
                assert(changed_keys(av, bv, query_eqf()).len() == 0);
            }
        }
        let groups = build_missing_groups(mi, mu);
        if groups.len() == 0 && ds.len() == 0 {
            proof {
                assert forall|i: int| 0 <= i < av.len() implies (#[trigger] av[i]).0@ == bv[i].0@
                    && av[i].1.1@ == bv[i].1.1@ by {
                    assert(assoc_has_key(bv, av[i].0@));
                    assert(query_eqf()(av[i].1, assoc_view(bv)[av[i].0@]));
                    lemma_assoc_view_at(bv, i);
                }
            }
            None
        } else {
            Some(
                SchemaDiff::HashMapDiff(
                    self.queries.len(),
                    other.queries.len(),
                    String::from_str("Resultset"),
                    groups,
                    ds,
                ),
            )
        }
    }
}

/// Collects one unified diff for every shared query whose outputs differ.
fn compare_query_pairs(a: &AssocList<(usize, String)>, b: &AssocList<(usize, String)>) -> (ds: Vec<
    SchemaDiff,
>)
    requires
        assoc_sorted(a.entries@),
        assoc_sorted(b.entries@),
    ensures
        query_diffs_ok(ds@, changed_keys(a.entries@, b.entries@, query_eqf()), a.entries@, b.entries@),
{
    proof {
        lemma_sorted_unique(a.entries@);
        lemma_sorted_unique(b.entries@);
    }
    let mut ds: Vec<SchemaDiff> = Vec::new();
    let mut i: usize = 0;
    proof {
        assert(a.entries@.take(0) =~= Seq::<(String, (usize, String))>::empty());
    }
    while i < a.entries.len()
        invariant
            0 <= i <= a.entries@.len(),
            assoc_sorted(a.entries@),
            assoc_sorted(b.entries@),
            assoc_unique(a.entries@),
            assoc_unique(b.entries@),
            query_diffs_ok(
                ds@,
                changed_keys(a.entries@.take(i as int), b.entries@, query_eqf()),
                a.entries@,
                b.entries@,
            ),
        decreases a.entries@.len() - i,
    {
        let ghost av = a.entries@;
        let ghost bv = b.entries@;
        let ghost ckpre = changed_keys(av.take(i as int), bv, query_eqf());
        let ghost dspre = ds@;
        proof {
            assert(av.take(i + 1 as int).drop_last() =~= av.take(i as int));
            assert(av.take(i + 1 as int).last() == av[i as int]);
        }
        match b.find(&a.entries[i].0) {
            None => {
                proof {
                    assert(!assoc_has_key(bv, av[i as int].0@));
                    assert(changed_keys(av.take(i + 1 as int), bv, query_eqf()) =~= ckpre);
                }
            },
            Some(j) => {
                proof {
                    assert(assoc_has_key(bv, av[i as int].0@));
                    lemma_assoc_view_at(bv, j as int);
                }
                if a.entries[i].1.1 == b.entries[j].1.1 {
                    proof {
                        assert(query_eqf()(av[i as int].1, assoc_view(bv)[av[i as int].0@]));
                        assert(changed_keys(av.take(i + 1 as int), bv, query_eqf()) =~= ckpre);
                    }
                } else {
                    let patch = installed_upgraded_patch(
                        a.entries[i].1.1.as_str(),
                        b.entries[j].1.1.as_str(),
                    );
                    let mut source = a.entries[i].0.clone();
                    if a.entries[i].1.0 != b.entries[j].1.0 {
                        source.append("\n-- ");
                        source.append(usize_to_string(a.entries[i].1.0).as_str());
                        source.append(" rows\n++ ");
                        source.append(usize_to_string(b.entries[j].1.0).as_str());
                        source.append(" rows\n");
                    }
                    proof {
                        lemma_assoc_view_at(av, i as int);
                        assert(source@ =~= query_source_spec(
                            av[i as int].0@,
                            assoc_view(av)[av[i as int].0@],
                            assoc_view(bv)[av[i as int].0@],
                        ));
                    }
                    ds.push(SchemaDiff::UnifiedDiff(Some(source), patch.1));
                    proof {
                        assert(!query_eqf()(av[i as int].1, assoc_view(bv)[av[i as int].0@]));
                        assert(changed_keys(av.take(i + 1 as int), bv, query_eqf()) =~= ckpre.push(
                            av[i as int].0@,
                        ));
                    }
                }
            },
        }
        proof {
            let ck = changed_keys(av.take(i + 1 as int), bv, query_eqf());
            assert(ds@.len() == ck.len());
            assert forall|idx: int| 0 <= idx < ds@.len() implies ((#[trigger] ds@[idx]) matches
                SchemaDiff::UnifiedDiff(Some(s), p) && s@ == query_source_spec(
                ck[idx],
                assoc_view(av)[ck[idx]],
                assoc_view(bv)[ck[idx]],
            ) && p@ == "--- "@ + "installed"@ + "\n"@ + "+++ "@ + "upgraded"@ + "\n"@ + patch_body(
                assoc_view(av)[ck[idx]].1@,
                assoc_view(bv)[ck[idx]].1@,
            )) by {
                if idx < ckpre.len() {
                    assert(ds@[idx] == dspre[idx]);
                    assert(ck[idx] == ckpre[idx]);
                }
            }
            assert(query_diffs_ok(ds@, ck, av, bv));
        }
        i = i + 1;
    }
    proof {
        assert(a.entries@.take(a.entries@.len() as int) =~= a.entries@);
    }
    ds
}

/// The changed settings reported by a configuration comparison: one pair per
/// key of `ck`, carrying the setting's name and its value on the other side.
pub open spec fn guc_items_ok(
    items: Seq<(String, String)>,
    ck: Seq<Seq<char>>,
    b: Seq<(String, String)>,
) -> bool {
    items.len() == ck.len() && (forall|i: int|
        0 <= i < items.len() ==> (#[trigger] items[i]).0@ == ck[i] && items[i].1@ == assoc_view(
            b,
        )[ck[i]]@)
}

/// A snapshot of the server's runtime settings, taken around one script run,
/// labelled with the extension version the script installs.
pub struct Guc {
    pub extver: String,
    pub gucs: AssocList<String>,
}

impl Guc {
    /// Whether the backing entries are in sorted key order.
    pub open spec fn wf(self) -> bool {
        assoc_sorted(self.gucs.entries@)
    }

    /// Wraps a settings snapshot under its version label.
    pub fn new_from(extver: String, gucs: AssocList<String>) -> (r: Guc)
        ensures
            r.extver == extver,
            r.gucs == gucs,
    {
        Guc { extver, gucs }
    }

    /// Compares two settings snapshots.  A script may add settings, so only a
    /// setting present on both sides with different values is reported; the
    /// result carries each such setting with its new value, in key order.
    /// Returns nothing exactly when no shared setting changed.
    pub fn compare(&self, other: &Guc) -> (r: Option<SchemaDiff>)
        requires
            self.wf(),
            other.wf(),
        ensures
            (r is None) <==> (forall|i: int, j: int|
                0 <= i < self.gucs.entries@.len() && 0 <= j < other.gucs.entries@.len() && (
                #[trigger] self.gucs.entries@[i]).0@ == (#[trigger] other.gucs.entries@[j]).0@
                    ==> self.gucs.entries@[i].1@ == other.gucs.entries@[j].1@),
            r matches Some(d) ==> (d matches SchemaDiff::GucDiff(ver, items) && ver@
                == self.extver@ && guc_items_ok(
                items@,
                changed_keys(self.gucs.entries@, other.gucs.entries@, str_eqf()),
                other.gucs.entries@,
            )),
    {
        let ghost av = self.gucs.entries@;
        let ghost bv = other.gucs.entries@;
        proof {
            lemma_sorted_unique(av);
            lemma_sorted_unique(bv);
        }
        let mut items: Vec<(String, String)> = Vec::new();
        let mut i: usize = 0;
        proof {
            assert(av.take(0) =~= Seq::<(String, String)>::empty());
        }
        while i < self.gucs.entries.len()
            invariant
                0 <= i <= self.gucs.entries@.len(),
                av == self.gucs.entries@,
                bv == other.gucs.entries@,
                assoc_sorted(av),
                assoc_sorted(bv),
                assoc_unique(av),
                assoc_unique(bv),
                guc_items_ok(items@, changed_keys(av.take(i as int), bv, str_eqf()), bv),
            decreases self.gucs.entries@.len() - i,
        {
            let ghost ckpre = changed_keys(av.take(i as int), bv, str_eqf());
            let ghost itemspre = items@;
            proof {
                assert(av.take(i + 1 as int).drop_last() =~= av.take(i as int));
                assert(av.take(i + 1 as int).last() == av[i as int]);
            }
            match other.gucs.find(&self.gucs.entries[i].0) {
                None => {
                    proof {
                        assert(!assoc_has_key(bv, av[i as int].0@));
                        assert(changed_keys(av.take(i + 1 as int), bv, str_eqf()) =~= ckpre);
                    }
                },
                Some(j) => {
                    proof {
                        assert(assoc_has_key(bv, av[i as int].0@));
                        lemma_assoc_view_at(bv, j as int);
                    }
                    if self.gucs.entries[i].1 == other.gucs.entries[j].1 {
                        proof {
                            assert(str_eqf()(av[i as int].1, assoc_view(bv)[av[i as int].0@]));
                            assert(changed_keys(av.take(i + 1 as int), bv, str_eqf()) =~= ckpre);
                        }
                    } else {
                        items.push(
                            (self.gucs.entries[i].0.clone(), other.gucs.entries[j].1.clone()),
                        );
                        proof {
                            assert(!str_eqf()(av[i as int].1, assoc_view(bv)[av[i as int].0@]));
                            assert(changed_keys(av.take(i + 1 as int), bv, str_eqf())
                                =~= ckpre.push(av[i as int].0@));
                        }
                    }
                },
            }
            proof {
                let ck = changed_keys(av.take(i + 1 as int), bv, str_eqf());
                assert(items@.len() == ck.len());
                assert forall|idx: int| 0 <= idx < items@.len() implies (#[trigger] items@[idx]).0@
                    == ck[idx] && items@[idx].1@ == assoc_view(bv)[ck[idx]]@ by {
                    if idx < ckpre.len() {
                        assert(items@[idx] == itemspre[idx]);
                        assert(ck[idx] == ckpre[idx]);
                    }
                }
            }
            i = i + 1;
        }
        proof {
            assert(av.take(av.len() as int) =~= av);
            lemma_changed_keys_empty(av, bv, str_eqf());
        }
        if items.len() == 0 {
            proof {
                assert forall|i: int, j: int|
                    0 <= i < av.len() && 0 <= j < bv.len() && (#[trigger] av[i]).0@ == (
                    #[trigger] bv[j]).0@ implies av[i].1@ == bv[j].1@ by {
                    assert(assoc_has_key(bv, av[i].0@));
                    assert(str_eqf()(av[i].1, assoc_view(bv)[av[i].0@]));
                    lemma_assoc_view_at(bv, j);
                }
            }
            None
        } else {
            proof {
                if forall|i: int, j: int|
                    0 <= i < av.len() && 0 <= j < bv.len() && (#[trigger] av[i]).0@ == (
                    #[trigger] bv[j]).0@ ==> av[i].1@ == bv[j].1@ {
                    assert forall|i: int|
                        0 <= i < av.len() && assoc_has_key(bv, (#[trigger] av[i]).0@) implies str_eqf()(
                        av[i].1,
                        assoc_view(bv)[av[i].0@],
                    ) by {
                        let j = choose|j: int| 0 <= j < bv.len() && (#[trigger] bv[j]).0@ == av[i].0@;
                        lemma_assoc_view_at(bv, j);
                    }
                    assert(changed_keys(av, bv, str_eqf()).len() == 0);
                }
            }
            Some(SchemaDiff::GucDiff(self.extver.clone(), items))
        }
    }
}

/// Collects one named difference for every shared key whose values differ.
fn compare_str_pairs(a: &AssocList<String>, b: &AssocList<String>) -> (ds: Vec<SchemaDiff>)
    requires
        assoc_sorted(a.entries@),
        assoc_sorted(b.entries@),
    ensures
        named_diffs_ok(ds@, changed_keys(a.entries@, b.entries@, str_eqf()), a.entries@, b.entries@),
{
    proof {
        lemma_sorted_unique(a.entries@);
        lemma_sorted_unique(b.entries@);
    }
    let mut ds: Vec<SchemaDiff> = Vec::new();
    let mut i: usize = 0;
    proof {
        assert(a.entries@.take(0) =~= Seq::<(String, String)>::empty());
    }
    while i < a.entries.len()
        invariant
            0 <= i <= a.entries@.len(),
            assoc_sorted(a.entries@),
            assoc_sorted(b.entries@),
            assoc_unique(a.entries@),
            assoc_unique(b.entries@),
            named_diffs_ok(
                ds@,
                changed_keys(a.entries@.take(i as int), b.entries@, str_eqf()),
                a.entries@,
                b.entries@,
            ),
        decreases a.entries@.len() - i,
    {
        let ghost av = a.entries@;
        let ghost bv = b.entries@;
        let ghost ckpre = changed_keys(av.take(i as int), bv, str_eqf());
        let ghost dspre = ds@;
        proof {
            assert(av.take(i + 1 as int).drop_last() =~= av.take(i as int));
            assert(av.take(i + 1 as int).last() == av[i as int]);
        }
        match b.find(&a.entries[i].0) {
            None => {
                proof {
                    assert(!assoc_has_key(bv, av[i as int].0@));
                    assert(changed_keys(av.take(i + 1 as int), bv, str_eqf()) =~= ckpre);
                }
            },
            Some(j) => {
                proof {
                    assert(assoc_has_key(bv, av[i as int].0@));
                    lemma_assoc_view_at(bv, j as int);
                }
                if a.entries[i].1 == b.entries[j].1 {
                    proof {
                        assert(str_eqf()(av[i as int].1, assoc_view(bv)[av[i as int].0@]));
                        assert(changed_keys(av.take(i + 1 as int), bv, str_eqf()) =~= ckpre);
                    }
                } else {
                    let w = a.entries[i].0.clone();
                    let x = a.entries[i].1.clone();
                    let y = b.entries[j].1.clone();
                    ds.push(SchemaDiff::NamedDiff(w, x, y));
                    proof {
                        assert(!str_eqf()(av[i as int].1, assoc_view(bv)[av[i as int].0@]));
                        assert(changed_keys(av.take(i + 1 as int), bv, str_eqf()) =~= ckpre.push(
                            av[i as int].0@,
                        ));
                        lemma_assoc_view_at(av, i as int);
                        assert(w@ == av[i as int].0@);
                        assert(x@ == assoc_view(av)[av[i as int].0@]@);
                        assert(y@ == assoc_view(bv)[av[i as int].0@]@);
                    }
                }
            },
        }
        proof {
            let ck = changed_keys(av.take(i + 1 as int), bv, str_eqf());
            assert(ds@.len() == ck.len());
            assert forall|idx: int| 0 <= idx < ds@.len() implies ((#[trigger] ds@[idx]) matches
                SchemaDiff::NamedDiff(w, x, y) && w@ == ck[idx] && x@ == assoc_view(av)[ck[idx]]@
                && y@ == assoc_view(bv)[ck[idx]]@) by {
                if idx < ckpre.len() {
                    assert(ds@[idx] == dspre[idx]);
                    assert(ck[idx] == ckpre[idx]);
                }
            }
            assert(named_diffs_ok(ds@, ck, av, bv));
        }
        i = i + 1;
    }
    proof {
        assert(a.entries@.take(a.entries@.len() as int) =~= a.entries@);
    }
    ds
}

/// Builds the keyed-collection diff node from the computed parts, or nothing
/// when the two collections agree.
fn finish_keyed_prim(
    a: &AssocList<String>,
    b: &AssocList<String>,
    typname: &str,
    with_values: bool,
    ds: Vec<SchemaDiff>,
) -> (r: Option<SchemaDiff>)
    requires
        assoc_sorted(a.entries@),
        assoc_sorted(b.entries@),
        with_values ==> named_diffs_ok(
            ds@,
            changed_keys(a.entries@, b.entries@, str_eqf()),
            a.entries@,
            b.entries@,
        ),
        !with_values ==> ds@.len() == 0,
    ensures
        (r is None) <==> (if with_values {
            str_pairs_equal(a.entries@, b.entries@)
        } else {
            same_key_sets(a.entries@, b.entries@)
        }),
        r matches Some(d) ==> keyed_prim_diff_ok(d, a.entries@, b.entries@, typname@, with_values),
{
    let ghost av = a.entries@;
    let ghost bv = b.entries@;
    proof {
        lemma_sorted_unique(av);
        lemma_sorted_unique(bv);
    }
    let mi = missing_keys(a, b);
    let mu = missing_keys(b, a);
    let ghost any_missing = mi@.len() > 0 || mu@.len() > 0;
    proof {
        lemma_missing_from_empty(av, bv);
        lemma_missing_from_empty(bv, av);
        lemma_changed_keys_empty(av, bv, str_eqf());
        if !any_missing {
            assert forall|k: Seq<char>| #[trigger] assoc_has_key(av, k) <==> assoc_has_key(
                bv,
                k,
            ) by {
                if assoc_has_key(av, k) {
                    let i = choose|i: int| 0 <= i < av.len() && (#[trigger] av[i]).0@ == k;
                    assert(assoc_has_key(bv, av[i].0@));
                }
                if assoc_has_key(bv, k) {
                    let j = choose|j: int| 0 <= j < bv.len() && (#[trigger] bv[j]).0@ == k;
                    assert(assoc_has_key(av, bv[j].0@));
                }
            }
            lemma_same_keys_pointwise(av, bv);
        }
        // If the two collections agree, no key can be missing and no shared
        // key can have changed.
        if with_values && str_pairs_equal(av, bv) {
            assert forall|j: int| 0 <= j < bv.len() implies assoc_has_key(
                av,
                (#[trigger] bv[j]).0@,
            ) by {
                assert(av[j].0@ == bv[j].0@);
            }
            assert forall|j: int| 0 <= j < av.len() implies assoc_has_key(
                bv,
                (#[trigger] av[j]).0@,
            ) by {
                assert(bv[j].0@ == av[j].0@);
            }
            assert(missing_from(av, bv).len() == 0);
            assert(missing_from(bv, av).len() == 0);
            assert forall|i: int|
                0 <= i < av.len() && assoc_has_key(bv, (#[trigger] av[i]).0@) implies str_eqf()(
                av[i].1,
                assoc_view(bv)[av[i].0@],
            ) by {
                lemma_assoc_view_at(bv, i);
            }
            assert(changed_keys(av, bv, str_eqf()).len() == 0);
        }
        if !with_values && same_key_sets(av, bv) {
            assert forall|j: int| 0 <= j < bv.len() implies assoc_has_key(
                av,
                (#[trigger] bv[j]).0@,
            ) by {
                assert(assoc_has_key(bv, bv[j].0@));
            }
            assert forall|j: int| 0 <= j < av.len() implies assoc_has_key(
                bv,
                (#[trigger] av[j]).0@,
            ) by {
                assert(assoc_has_key(av, av[j].0@));
            }
            assert(missing_from(av, bv).len() == 0);
            assert(missing_from(bv, av).len() == 0);
        }
    }
    let groups = build_missing_groups(mi, mu);
    if groups.len() == 0 && ds.len() == 0 {
        proof {
            if with_values {
                assert forall|i: int| 0 <= i < av.len() implies (#[trigger] av[i]).0@ == bv[i].0@
                    && av[i].1@ == bv[i].1@ by {
                    assert(assoc_has_key(bv, av[i].0@));
                    assert(str_eqf()(av[i].1, assoc_view(bv)[av[i].0@]));
                    lemma_assoc_view_at(bv, i);
                }
            }
        }
        None
    } else {
        Some(
            SchemaDiff::HashMapDiff(
                a.entries.len(),
                b.entries.len(),
                String::from_str(typname),
                groups,
                ds,
            ),
        )
    }
}

} // verus!
