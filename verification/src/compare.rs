//! The comparable-value model: every snapshot is a tree of these values, and
//! the engine computes a structured difference between two same-shaped trees.

use vstd::prelude::*;

use crate::assoc::{
    assoc_has_key, assoc_keys, assoc_sorted, assoc_unique, assoc_view, changed_keys,
    lemma_assoc_view_at, lemma_changed_keys_empty, lemma_missing_from_empty,
    lemma_same_keys_pointwise, lemma_sorted_unique, missing_from, missing_keys, AssocList,
};
use crate::pgdiff::{build_missing_groups, missing_groups_ok, DiffSource, SchemaDiff};
use crate::pgtype::{
    keyed_prim_diff_ok, queries_equal, query_diffs_ok, query_eqf, str_eqf, str_pairs_equal,
    ClassOptions, ExecutedQueries, List,
};
use crate::text::{char_of_code, char_code_string, has_newline, i64_to_string, int_str, join_with};
use crate::unified::patch_body;

verus! {

/// One value of a catalog snapshot: a scalar, an optional value, an ordered
/// sequence, an identity-keyed collection, one of the primitive keyed bags, or
/// a named composite record.
pub enum Value {
    /// A boolean catalog column.
    Bool(bool),
    /// An integral catalog column.
    Int(i64),
    /// A textual catalog column; multi-line text is diffed line by line.
    Text(String),
    /// A single-character catalog code, stored as the server stores it.
    PgChar(i8),
    /// A value that a snapshot may lack, such as a version-gated field.
    Opt(Option<Box<Value>>),
    /// An ordered, order-significant sequence.
    Sequence(Vec<Value>),
    /// An identity-keyed, order-insignificant collection of values.
    Keyed(KeyedMap),
    /// A `key=value` option bag.
    Options(ClassOptions),
    /// An unordered name list, compared by presence alone.
    List(List),
    /// The rendered result sets of ad hoc queries.
    Queries(ExecutedQueries),
    /// A named record with individually compared fields.
    Composite(Composite),
}

/// An identity-keyed collection: the key of each entry derives from the
/// value's own identity, and the label names the element type in reports.
pub struct KeyedMap {
    pub typname: String,
    pub entries: AssocList<Value>,
}

/// A named record: a type label and an identity for diff attribution, and the
/// fields in declaration order.
pub struct Composite {
    pub typname: String,
    pub ident: String,
    pub fields: Vec<CompositeField>,
}

/// One field of a composite: its declared name, whether it embeds a nested
/// catalog record (whose differences are spliced into the parent's), and its
/// value.
pub struct CompositeField {
    pub name: String,
    pub embedded: bool,
    pub value: Value,
}

/// Semantic equality of two values.  Identity strings and type labels take no
/// part: they attribute differences, they are not compared.  Row counts of
/// executed queries are likewise only decoration.
pub open spec fn values_equal(a: Value, b: Value) -> bool
    decreases a,
{
    match (a, b) {
        (Value::Bool(x), Value::Bool(y)) => x == y,
        (Value::Int(x), Value::Int(y)) => x == y,
        (Value::Text(x), Value::Text(y)) => x@ == y@,
        (Value::PgChar(x), Value::PgChar(y)) => x == y,
        (Value::Opt(x), Value::Opt(y)) => match (x, y) {
            (None, None) => true,
            (Some(xv), Some(yv)) => values_equal(*xv, *yv),
            _ => false,
        },
        (Value::Sequence(x), Value::Sequence(y)) => x@.len() == y@.len() && (forall|i: int|
            0 <= i < x@.len() ==> values_equal(#[trigger] x@[i], y@[i])),
        (Value::Keyed(x), Value::Keyed(y)) => {
            let xe = x.entries.entries@;
            let ye = y.entries.entries@;
            xe.len() == ye.len() && (forall|i: int|
                0 <= i < xe.len() ==> (#[trigger] xe[i]).0@ == ye[i].0@ && values_equal(
                    xe[i].1,
                    ye[i].1,
                ))
        },
        (Value::Options(x), Value::Options(y)) => str_pairs_equal(
            x.options.entries@,
            y.options.entries@,
        ),
        (Value::List(x), Value::List(y)) => {
            let xe = x.values.entries@;
            let ye = y.values.entries@;
            xe.len() == ye.len() && (forall|i: int|
                0 <= i < xe.len() ==> (#[trigger] xe[i]).0@ == ye[i].0@)
        },
        (Value::Queries(x), Value::Queries(y)) => queries_equal(
            x.queries.entries@,
            y.queries.entries@,
        ),
        (Value::Composite(x), Value::Composite(y)) => x.fields@.len() == y.fields@.len() && (
        forall|i: int|
            0 <= i < x.fields@.len() ==> values_equal(
                (#[trigger] x.fields@[i]).value,
                y.fields@[i].value,
            )),
        _ => false,
    }
}

/// Whether a value can render itself: an absent optional cannot, and a value
/// renders its parts, so no absent optional may hide where rendering reaches.
pub open spec fn describable(v: Value) -> bool
    decreases v,
{
    match v {
        Value::Opt(x) => match x {
            None => false,
            Some(xv) => describable(*xv),
        },
        Value::Sequence(vs) => forall|i: int| 0 <= i < vs@.len() ==> describable(#[trigger] vs@[i]),
        _ => true,
    }
}

/// Well-formedness of a snapshot value: keyed collections are sorted by key,
/// a present optional and every sequence element can be rendered (comparison
/// renders them when the peer side lacks them), and an embedded field holds a
/// composite record.
pub open spec fn wf(v: Value) -> bool
    decreases v,
{
    match v {
        Value::Bool(_) => true,
        Value::Int(_) => true,
        Value::Text(_) => true,
        Value::PgChar(_) => true,
        Value::Opt(x) => match x {
            None => true,
            Some(xv) => describable(*xv) && wf(*xv),
        },
        Value::Sequence(vs) => forall|i: int|
            0 <= i < vs@.len() ==> describable(#[trigger] vs@[i]) && wf(vs@[i]),
        Value::Keyed(m) => {
            let es = m.entries.entries@;
            assoc_sorted(es) && (forall|i: int| 0 <= i < es.len() ==> wf((#[trigger] es[i]).1))
        },
        Value::Options(o) => o.wf(),
        Value::List(l) => l.wf(),
        Value::Queries(q) => q.wf(),
        Value::Composite(c) => forall|i: int|
            0 <= i < c.fields@.len() ==> wf((#[trigger] c.fields@[i]).value) && (
            c.fields@[i].embedded ==> c.fields@[i].value is Composite),
    }
}

/// Whether two values have the same shape, so that comparing them is
/// meaningful: the same variant, and shape-compatible parts wherever
/// comparison will descend.
pub open spec fn compatible(a: Value, b: Value) -> bool
    decreases a,
{
    match (a, b) {
        (Value::Bool(_), Value::Bool(_)) => true,
        (Value::Int(_), Value::Int(_)) => true,
        (Value::Text(_), Value::Text(_)) => true,
        (Value::PgChar(_), Value::PgChar(_)) => true,
        (Value::Opt(x), Value::Opt(y)) => match (x, y) {
            (Some(xv), Some(yv)) => compatible(*xv, *yv),
            _ => true,
        },
        (Value::Sequence(x), Value::Sequence(y)) => forall|i: int|
            0 <= i < x@.len() && i < y@.len() ==> compatible(#[trigger] x@[i], y@[i]),
        (Value::Keyed(x), Value::Keyed(y)) => {
            let xe = x.entries.entries@;
            let ye = y.entries.entries@;
            x.typname@ == y.typname@ && (forall|i: int, j: int|
                0 <= i < xe.len() && 0 <= j < ye.len() && (#[trigger] xe[i]).0@ == (
                #[trigger] ye[j]).0@ ==> compatible(xe[i].1, ye[j].1))
        },
        (Value::Options(_), Value::Options(_)) => true,
        (Value::List(_), Value::List(_)) => true,
        (Value::Queries(_), Value::Queries(_)) => true,
        (Value::Composite(x), Value::Composite(y)) => {
            let xf = x.fields@;
            let yf = y.fields@;
            x.typname@ == y.typname@ && xf.len() == yf.len() && (forall|i: int|
                0 <= i < xf.len() ==> (#[trigger] xf[i]).name@ == yf[i].name@ && xf[i].embedded
                    == yf[i].embedded && compatible(xf[i].value, yf[i].value))
        },
        _ => false,
    }
}

/// The renderings of the values of a sequence, in order.
pub open spec fn describe_list(vs: Seq<Value>) -> Seq<Seq<char>>
    decreases vs,
{
    if vs.len() == 0 {
        Seq::empty()
    } else {
        describe_list(vs.drop_last()).push(spec_describe(vs.last()))
    }
}

/// The `key=value` renderings of an option bag's entries.
pub open spec fn kv_list(es: Seq<(String, String)>) -> Seq<Seq<char>> {
    es.map_values(|p: (String, String)| p.0@ + "="@ + p.1@)
}

/// The rendering of a value, used when the peer side lacks it.  An absent
/// optional has no rendering; `describable` rules it out.
pub open spec fn spec_describe(v: Value) -> Seq<char>
    decreases v,
{
    match v {
        Value::Bool(x) => if x {
            "true"@
        } else {
            "false"@
        },
        Value::Int(x) => int_str(x as int),
        Value::Text(s) => s@,
        Value::PgChar(c) => seq![char_of_code(c)],
        Value::Opt(x) => match x {
            None => Seq::empty(),
            Some(xv) => spec_describe(*xv),
        },
        Value::Sequence(vs) => "["@ + join_with(describe_list(vs@), ", "@) + "]"@,
        Value::Keyed(m) => join_with(assoc_keys(m.entries.entries@), ","@),
        Value::Options(o) => join_with(kv_list(o.options.entries@), ","@),
        Value::List(l) => join_with(assoc_keys(l.values.entries@), ","@),
        Value::Queries(q) => join_with(assoc_keys(q.queries.entries@), ","@),
        Value::Composite(c) => c.typname@ + " "@ + c.ident@,
    }
}

/// Equality of two keyed-collection element values.
pub open spec fn values_eqf() -> spec_fn(Value, Value) -> bool {
    |x: Value, y: Value| values_equal(x, y)
}

/// Whether two sequences differ at an index: either both hold it and the two
/// elements differ, or only the longer one holds it.
pub open spec fn seq_index_differs(x: Seq<Value>, y: Seq<Value>, i: int) -> bool {
    if i < x.len() && i < y.len() {
        !values_equal(x[i], y[i])
    } else {
        true
    }
}

/// The indices below `n` at which the two sequences differ, ascending.
pub open spec fn seq_diff_indices_upto(x: Seq<Value>, y: Seq<Value>, n: int) -> Seq<int>
    decreases n,
{
    if n <= 0 {
        Seq::empty()
    } else {
        seq_diff_indices_upto(x, y, n - 1) + (if seq_index_differs(x, y, n - 1) {
            seq![n - 1]
        } else {
            Seq::<int>::empty()
        })
    }
}

/// All indices at which the two sequences differ, ascending.
pub open spec fn seq_diff_indices(x: Seq<Value>, y: Seq<Value>) -> Seq<int> {
    seq_diff_indices_upto(
        x,
        y,
        if x.len() < y.len() {
            y.len() as int
        } else {
            x.len() as int
        },
    )
}

/// The per-index entries of a sequence diff: one entry per differing index in
/// ascending order, 1-based for display; an index past the shorter side's end
/// is pinned to an absence report carrying the longer side's rendering.
pub open spec fn seq_entries_ok(
    es: Seq<(usize, Box<SchemaDiff>)>,
    x: Seq<Value>,
    y: Seq<Value>,
) -> bool
    decreases x, 1int,
{
    seq_entries_match(es, x, y, seq_diff_indices(x, y))
}

/// The field labels of a composite difference over the first `n` fields:
/// nothing for an equal field, the embedded record's own labels spliced in
/// for an embedded field, and the field's declared name otherwise.
pub open spec fn comp_field_labels(a: Composite, b: Composite, n: int) -> Seq<Seq<char>>
    decreases a, n,
{
    if n <= 0 || a.fields@.len() != b.fields@.len() || n > a.fields@.len() {
        Seq::empty()
    } else {
        comp_field_labels(a, b, n - 1) + ({
            let f = a.fields@[n - 1];
            let g = b.fields@[n - 1];
            if values_equal(f.value, g.value) {
                Seq::<Seq<char>>::empty()
            } else if f.embedded {
                match (f.value, g.value) {
                    (Value::Composite(xc), Value::Composite(yc)) => comp_labels(xc, yc),
                    _ => seq![f.name@],
                }
            } else {
                seq![f.name@]
            }
        })
    }
}

/// The field labels of a composite difference, in field order, with embedded
/// records flattened away.
pub open spec fn comp_labels(a: Composite, b: Composite) -> Seq<Seq<char>>
    decreases a, a.fields@.len() + 1,
{
    comp_field_labels(a, b, a.fields@.len() as int)
}

/// The label of each entry of a composite diff node.
pub open spec fn entry_labels(es: Seq<(Option<String>, SchemaDiff)>) -> Seq<Seq<char>> {
    es.map_values(
        |e: (Option<String>, SchemaDiff)|
            match e.0 {
                Some(f) => f@,
                None => Seq::<char>::empty(),
            },
    )
}

/// The diff node stands for the value pair at one shared key of a keyed
/// collection.
pub open spec fn keyed_entry_shape(
    xe: Seq<(String, Value)>,
    ye: Seq<(String, Value)>,
    k: Seq<char>,
    d: SchemaDiff,
) -> bool
    decreases xe, 0int,
{
    exists|l: int, m: int|
        #![trigger xe[l], ye[m]]
        0 <= l < xe.len() && 0 <= m < ye.len() && xe[l].0@ == k && ye[m].0@ == k && diff_shape_ok(
            xe[l].1,
            ye[m].1,
            d,
        )
}

/// What a produced diff node says about the two values it came from.  For a
/// present pair of optionals, the node describes the inner pair.
pub open spec fn diff_shape_ok(a: Value, b: Value, d: SchemaDiff) -> bool
    decreases a, 2int,
{
    match (a, b) {
        (Value::Bool(_), Value::Bool(_)) => d matches SchemaDiff::Diff(x, y) && x@
            == spec_describe(a) && y@ == spec_describe(b),
        (Value::Int(_), Value::Int(_)) => d matches SchemaDiff::Diff(x, y) && x@ == spec_describe(
            a,
        ) && y@ == spec_describe(b),
        (Value::PgChar(_), Value::PgChar(_)) => d matches SchemaDiff::Diff(x, y) && x@
            == spec_describe(a) && y@ == spec_describe(b),
        (Value::Text(s), Value::Text(t)) => if !has_newline(s@) {
            d matches SchemaDiff::Diff(x, y) && x@ == s@ && y@ == t@
        } else {
            d matches SchemaDiff::UnifiedDiff(None, p) && p@ == "--- "@ + "installed"@ + "\n"@
                + "+++ "@ + "upgraded"@ + "\n"@ + patch_body(s@, t@)
        },
        (Value::Opt(x), Value::Opt(y)) => match (x, y) {
            (Some(xv), None) => d matches SchemaDiff::NoneDiff(src, s) && src
                == DiffSource::Upgraded && s@ == spec_describe(*xv),
            (None, Some(yv)) => d matches SchemaDiff::NoneDiff(src, s) && src
                == DiffSource::Installed && s@ == spec_describe(*yv),
            (Some(xv), Some(yv)) => diff_shape_ok(*xv, *yv, d),
            (None, None) => true,
        },
        (Value::Sequence(x), Value::Sequence(y)) => d matches SchemaDiff::VecDiff(s1, s2, es) && s1
            as int == x@.len() && s2 as int == y@.len() && seq_entries_ok(es@, x@, y@),
        (Value::Keyed(x), Value::Keyed(y)) => {
            let xe = x.entries.entries@;
            let ye = y.entries.entries@;
            d matches SchemaDiff::HashMapDiff(s1, s2, t, ms, ds) && s1 as int == xe.len() && s2
                as int == ye.len() && t@ == x.typname@ && missing_groups_ok(
                ms@,
                missing_from(xe, ye),
                missing_from(ye, xe),
            ) && ({
                let ck = changed_keys(xe, ye, values_eqf());
                ds@.len() == ck.len() && (forall|i: int|
                    0 <= i < ds@.len() ==> keyed_entry_shape(xe, ye, ck[i], #[trigger] ds@[i]))
            })
        },
        (Value::Options(x), Value::Options(y)) => keyed_prim_diff_ok(
            d,
            x.options.entries@,
            y.options.entries@,
            "Option"@,
            true,
        ),
        (Value::List(x), Value::List(y)) => keyed_prim_diff_ok(
            d,
            x.values.entries@,
            y.values.entries@,
            "Value"@,
            false,
        ),
        (Value::Queries(x), Value::Queries(y)) => crate::pgtype::queries_diff_node_ok(
            d,
            x.queries.entries@,
            y.queries.entries@,
        ),
        (Value::Composite(x), Value::Composite(y)) => d matches SchemaDiff::StructDiff(t, n, es)
            && t@ == x.typname@ && n@ == x.ident@ && entry_labels(es@) == comp_labels(x, y) && (
        forall|j: int| 0 <= j < es@.len() ==> (#[trigger] es@[j]).0 is Some),
        _ => true,
    }
}

/// Joins the keys of an association list with commas.
pub(crate) fn join_keys<V>(es: &AssocList<V>) -> (r: String)
    ensures
        r@ == join_with(assoc_keys(es.entries@), ","@),
{
    let mut r = String::new();
    let mut i: usize = 0;
    proof {
        assert(assoc_keys(es.entries@.take(0)) =~= Seq::<Seq<char>>::empty());
    }
    while i < es.entries.len()
        invariant
            0 <= i <= es.entries@.len(),
            r@ == join_with(assoc_keys(es.entries@.take(i as int)), ","@),
        decreases es.entries@.len() - i,
    {
        if i > 0 {
            r.append(",");
        }
        r.append(es.entries[i].0.as_str());
        proof {
            let ks = assoc_keys(es.entries@.take(i + 1 as int));
            assert(es.entries@.take(i + 1 as int).drop_last() =~= es.entries@.take(i as int));
            assert(ks.drop_last() =~= assoc_keys(es.entries@.take(i as int)));
            assert(ks.last() == es.entries@[i as int].0@);
            assert(r@ =~= join_with(ks, ","@));
        }
        i = i + 1;
    }
    proof {
        assert(es.entries@.take(es.entries@.len() as int) =~= es.entries@);
    }
    r
}

/// Joins an option bag's entries as comma-separated `key=value` pairs.
fn join_kv(es: &AssocList<String>) -> (r: String)
    ensures
        r@ == join_with(kv_list(es.entries@), ","@),
{
    let mut r = String::new();
    let mut i: usize = 0;
    proof {
        assert(kv_list(es.entries@.take(0)) =~= Seq::<Seq<char>>::empty());
    }
    while i < es.entries.len()
        invariant
            0 <= i <= es.entries@.len(),
            r@ == join_with(kv_list(es.entries@.take(i as int)), ","@),
        decreases es.entries@.len() - i,
    {
        if i > 0 {
            r.append(",");
        }
        r.append(es.entries[i].0.as_str());
        r.append("=");
        r.append(es.entries[i].1.as_str());
        proof {
            let ks = kv_list(es.entries@.take(i + 1 as int));
            assert(es.entries@.take(i + 1 as int).drop_last() =~= es.entries@.take(i as int));
            assert(ks.drop_last() =~= kv_list(es.entries@.take(i as int)));
            assert(ks.last() == es.entries@[i as int].0@ + "="@ + es.entries@[i as int].1@);
            assert(r@ =~= join_with(ks, ","@));
        }
        i = i + 1;
    }
    proof {
        assert(es.entries@.take(es.entries@.len() as int) =~= es.entries@);
    }
    r
}

/// The entries agree with a given index list: one entry per index, 1-based,
/// with one-sided indices pinned to absence reports.
pub open spec fn seq_entries_match(
    es: Seq<(usize, Box<SchemaDiff>)>,
    x: Seq<Value>,
    y: Seq<Value>,
    idxs: Seq<int>,
) -> bool
    decreases x, 0int,
{
    es.len() == idxs.len() && (forall|j: int|
        0 <= j < es.len() ==> (#[trigger] es[j]).0 as int == idxs[j] + 1 && (idxs[j] >= y.len()
            ==> (*es[j].1 matches SchemaDiff::NoneDiff(src, s) && src == DiffSource::Upgraded && s@
            == spec_describe(x[idxs[j]]))) && (idxs[j] >= x.len() ==> (*es[j].1 matches
        SchemaDiff::NoneDiff(src, s) && src == DiffSource::Installed && s@ == spec_describe(
            y[idxs[j]],
        ))) && (0 <= idxs[j] < x.len() && idxs[j] < y.len() ==> diff_shape_ok(
            x[idxs[j]],
            y[idxs[j]],
            *es[j].1,
        )))
}

/// No index below `n` differs exactly when the collected index list is empty.
pub(crate) proof fn lemma_upto_empty(x: Seq<Value>, y: Seq<Value>, n: int)
    ensures
        seq_diff_indices_upto(x, y, n).len() == 0 <==> (forall|i: int|
            0 <= i < n ==> !seq_index_differs(x, y, i)),
    decreases n,
{
    if n > 0 {
        lemma_upto_empty(x, y, n - 1);
    }
}

/// What a well-formed, compatible pair of sequences guarantees of the
/// elements at one index.
proof fn lemma_seq_elem_facts(v: Vec<Value>, w: Vec<Value>, i: int)
    requires
        wf(Value::Sequence(v)),
        wf(Value::Sequence(w)),
        compatible(Value::Sequence(v), Value::Sequence(w)),
        0 <= i,
    ensures
        i < v@.len() ==> wf(v@[i]) && describable(v@[i]),
        i < w@.len() ==> wf(w@[i]) && describable(w@[i]),
        i < v@.len() && i < w@.len() ==> compatible(v@[i], w@[i]),
{
}

/// Compares two ordered sequences index by index; extra indices of the longer
/// side are reported as absences on the shorter one.
fn compare_sequences(x: &Vec<Value>, y: &Vec<Value>) -> (r: Option<SchemaDiff>)
    requires
        wf(Value::Sequence(*x)),
        wf(Value::Sequence(*y)),
        compatible(Value::Sequence(*x), Value::Sequence(*y)),
    ensures
        (r is None) <==> values_equal(Value::Sequence(*x), Value::Sequence(*y)),
        r matches Some(d) ==> diff_shape_ok(Value::Sequence(*x), Value::Sequence(*y), d),
    decreases x@,
{
    let xlen = x.len();
    let ylen = y.len();
    let maxlen = if xlen < ylen {
        ylen
    } else {
        xlen
    };
    let mut es: Vec<(usize, Box<SchemaDiff>)> = Vec::new();
    let mut i: usize = 0;
    while i < maxlen
        invariant
            0 <= i <= maxlen,
            xlen == x@.len(),
            ylen == y@.len(),
            maxlen == (if xlen < ylen {
                ylen as int
            } else {
                xlen as int
            }),
            wf(Value::Sequence(*x)),
            wf(Value::Sequence(*y)),
            compatible(Value::Sequence(*x), Value::Sequence(*y)),
            seq_entries_match(es@, x@, y@, seq_diff_indices_upto(x@, y@, i as int)),
        decreases maxlen - i,
    {
        let ghost idxspre = seq_diff_indices_upto(x@, y@, i as int);
        let ghost espre = es@;
        if i < xlen && i < ylen {
            proof {
                assert(decreases_to!(x@ => x@[i as int]));
                lemma_seq_elem_facts(*x, *y, i as int);
            }
            let sub = x[i].compare(&y[i]);
            match sub {
                None => {
                    proof {
                        assert(!seq_index_differs(x@, y@, i as int));
                        assert(seq_diff_indices_upto(x@, y@, i + 1 as int) =~= idxspre);
                    }
                },
                Some(d) => {
                    es.push((i + 1, Box::new(d)));
                    proof {
                        assert(seq_index_differs(x@, y@, i as int));
                        assert(seq_diff_indices_upto(x@, y@, i + 1 as int) =~= idxspre.push(
                            i as int,
                        ));
                    }
                },
            }
        } else if i < xlen {
            proof {
                lemma_seq_elem_facts(*x, *y, i as int);
                assert(describable(x@[i as int]));
            }
            let s = x[i].describe();
            es.push((i + 1, Box::new(SchemaDiff::NoneDiff(DiffSource::Upgraded, s))));
            proof {
                assert(seq_index_differs(x@, y@, i as int));
                assert(seq_diff_indices_upto(x@, y@, i + 1 as int) =~= idxspre.push(i as int));
            }
        } else {
            proof {
                lemma_seq_elem_facts(*x, *y, i as int);
                assert(describable(y@[i as int]));
            }
            let s = y[i].describe();
            es.push((i + 1, Box::new(SchemaDiff::NoneDiff(DiffSource::Installed, s))));
            proof {
                assert(seq_index_differs(x@, y@, i as int));
                assert(seq_diff_indices_upto(x@, y@, i + 1 as int) =~= idxspre.push(i as int));
            }
        }
        proof {
            let idxs = seq_diff_indices_upto(x@, y@, i + 1 as int);
            assert(es@.len() == idxs.len());
            assert forall|j: int| 0 <= j < es@.len() implies (#[trigger] es@[j]).0 as int == idxs[j]
                + 1 && (idxs[j] >= y@.len() ==> (*es@[j].1 matches SchemaDiff::NoneDiff(src, s)
                && src == DiffSource::Upgraded && s@ == spec_describe(x@[idxs[j]]))) && (idxs[j]
                >= x@.len() ==> (*es@[j].1 matches SchemaDiff::NoneDiff(src, s) && src
                == DiffSource::Installed && s@ == spec_describe(y@[idxs[j]]))) by {
                if j < idxspre.len() {
                    assert(es@[j] == espre[j]);
                    assert(idxs[j] == idxspre[j]);
                }
            }
        }
        i = i + 1;
    }
    proof {
        lemma_upto_empty(x@, y@, maxlen as int);
    }
    if es.len() == 0 {
        proof {
            assert forall|j: int| 0 <= j < x@.len() implies values_equal(
                #[trigger] x@[j],
                y@[j],
            ) by {
                assert(!seq_index_differs(x@, y@, j));
            }
            if xlen != ylen {
                let ghost w: int = if xlen < ylen {
                    xlen as int
                } else {
                    ylen as int
                };
                assert(seq_index_differs(x@, y@, w));
            }
        }
        None
    } else {
        proof {
            if values_equal(Value::Sequence(*x), Value::Sequence(*y)) {
                assert forall|j: int| 0 <= j < maxlen implies !seq_index_differs(x@, y@, j) by {
                    assert(values_equal(x@[j], y@[j]));
                }
            }
            assert(seq_diff_indices(x@, y@) == seq_diff_indices_upto(x@, y@, maxlen as int));
            assert(seq_entries_match(es@, x@, y@, seq_diff_indices(x@, y@)));
            assert(seq_entries_ok(es@, x@, y@));
        }
        Some(SchemaDiff::VecDiff(xlen, ylen, es))
    }
}

/// Compares two identity-keyed collections: reports the identities each side
/// lacks and, for each shared identity, the recursive difference of the two
/// values.
pub fn compare_map(mx: &KeyedMap, my: &KeyedMap) -> (r: Option<SchemaDiff>)
    requires
        wf(Value::Keyed(*mx)),
        wf(Value::Keyed(*my)),
        compatible(Value::Keyed(*mx), Value::Keyed(*my)),
    ensures
        (r is None) <==> values_equal(Value::Keyed(*mx), Value::Keyed(*my)),
        r matches Some(d) ==> diff_shape_ok(Value::Keyed(*mx), Value::Keyed(*my), d),
    decreases *mx,
{
    let ghost xe = mx.entries.entries@;
    let ghost ye = my.entries.entries@;
    proof {
        lemma_sorted_unique(xe);
        lemma_sorted_unique(ye);
    }
    let mut ds: Vec<SchemaDiff> = Vec::new();
    let mut i: usize = 0;
    proof {
        assert(xe.take(0) =~= Seq::<(String, Value)>::empty());
    }
    while i < mx.entries.entries.len()
        invariant
            0 <= i <= xe.len(),
            xe == mx.entries.entries@,
            ye == my.entries.entries@,
            wf(Value::Keyed(*mx)),
            wf(Value::Keyed(*my)),
            compatible(Value::Keyed(*mx), Value::Keyed(*my)),
            assoc_unique(xe),
            assoc_unique(ye),
            (decreases_to!(*mx => xe)),
            ds@.len() == changed_keys(xe.take(i as int), ye, values_eqf()).len(),
            forall|idx: int|
                0 <= idx < ds@.len() ==> keyed_entry_shape(
                    xe,
                    ye,
                    changed_keys(xe.take(i as int), ye, values_eqf())[idx],
                    #[trigger] ds@[idx],
                ),
        decreases xe.len() - i,
    {
        let ghost ckpre = changed_keys(xe.take(i as int), ye, values_eqf());
        let ghost dspre = ds@;
        proof {
            assert(xe.take(i + 1 as int).drop_last() =~= xe.take(i as int));
            assert(xe.take(i + 1 as int).last() == xe[i as int]);
        }
        match my.entries.find(&mx.entries.entries[i].0) {
            None => {
                proof {
                    assert(!assoc_has_key(ye, xe[i as int].0@));
                    assert(changed_keys(xe.take(i + 1 as int), ye, values_eqf()) =~= ckpre);
                }
            },
            Some(j) => {
                proof {
                    assert(assoc_has_key(ye, xe[i as int].0@));
                    lemma_assoc_view_at(ye, j as int);
                    assert(compatible(xe[i as int].1, ye[j as int].1));
                    assert(wf(xe[i as int].1) && wf(ye[j as int].1));
                    assert(decreases_to!(xe => xe[i as int]));
                    assert(decreases_to!(*mx => xe[i as int].1));
                }
                let sub = mx.entries.entries[i].1.compare(&my.entries.entries[j].1);
                match sub {
                    None => {
                        proof {
                            assert(values_eqf()(xe[i as int].1, assoc_view(ye)[xe[i as int].0@]));
                            assert(changed_keys(xe.take(i + 1 as int), ye, values_eqf())
                                =~= ckpre);
                        }
                    },
                    Some(d) => {
                        proof {
                            assert(diff_shape_ok(xe[i as int].1, ye[j as int].1, d));
                        }
                        ds.push(d);
                        proof {
                            assert(!values_eqf()(xe[i as int].1, assoc_view(ye)[xe[i as int].0@]));
                            assert(changed_keys(xe.take(i + 1 as int), ye, values_eqf())
                                =~= ckpre.push(xe[i as int].0@));
                            assert(keyed_entry_shape(xe, ye, xe[i as int].0@, d));
                        }
                    },
                }
            },
        }
        proof {
            let ck = changed_keys(xe.take(i + 1 as int), ye, values_eqf());
            assert forall|idx: int| 0 <= idx < ds@.len() implies keyed_entry_shape(
                xe,
                ye,
                ck[idx],
                #[trigger] ds@[idx],
            ) by {
                if idx < ckpre.len() {
                    assert(ds@[idx] == dspre[idx]);
                    assert(ck[idx] == ckpre[idx]);
                }
            }
        }
        i = i + 1;
    }
    proof {
        assert(xe.take(xe.len() as int) =~= xe);
        lemma_missing_from_empty(xe, ye);
        lemma_missing_from_empty(ye, xe);
        lemma_changed_keys_empty(xe, ye, values_eqf());
    }
    let mi = missing_keys(&mx.entries, &my.entries);
    let mu = missing_keys(&my.entries, &mx.entries);
    proof {
        if mi@.len() == 0 && mu@.len() == 0 {
            assert forall|k: Seq<char>| #[trigger] assoc_has_key(xe, k) <==> assoc_has_key(
                ye,
                k,
            ) by {
                if assoc_has_key(xe, k) {
                    let l = choose|l: int| 0 <= l < xe.len() && (#[trigger] xe[l]).0@ == k;
                    assert(assoc_has_key(ye, xe[l].0@));
                }
                if assoc_has_key(ye, k) {
                    let l = choose|l: int| 0 <= l < ye.len() && (#[trigger] ye[l]).0@ == k;
                    assert(assoc_has_key(xe, ye[l].0@));
                }
            }
            lemma_same_keys_pointwise(xe, ye);
        }
        if values_equal(Value::Keyed(*mx), Value::Keyed(*my)) {
            // Equal collections leave nothing missing and nothing changed.
            assert forall|j: int| 0 <= j < ye.len() implies assoc_has_key(
                xe,
                (#[trigger] ye[j]).0@,
            ) by {
                assert(xe[j].0@ == ye[j].0@);
            }
            assert forall|j: int| 0 <= j < xe.len() implies assoc_has_key(
                ye,
                (#[trigger] xe[j]).0@,
            ) by {
                assert(ye[j].0@ == xe[j].0@);
            }
            assert(missing_from(xe, ye).len() == 0);
            assert(missing_from(ye, xe).len() == 0);
            assert forall|l: int|
                0 <= l < xe.len() && assoc_has_key(ye, (#[trigger] xe[l]).0@) implies values_eqf()(
                xe[l].1,
                assoc_view(ye)[xe[l].0@],
            ) by {
                lemma_assoc_view_at(ye, l);
            }
            assert(changed_keys(xe, ye, values_eqf()).len() == 0);
        }
    }
    let groups = build_missing_groups(mi, mu);
    if groups.len() == 0 && ds.len() == 0 {
        proof {
            assert forall|l: int| 0 <= l < xe.len() implies (#[trigger] xe[l]).0@ == ye[l].0@
                && values_equal(xe[l].1, ye[l].1) by {
                assert(assoc_has_key(ye, xe[l].0@));
                assert(values_eqf()(xe[l].1, assoc_view(ye)[xe[l].0@]));
                lemma_assoc_view_at(ye, l);
            }
        }
        None
    } else {
        Some(
            SchemaDiff::HashMapDiff(
                mx.entries.len(),
                my.entries.len(),
                mx.typname.clone(),
                groups,
                ds,
            ),
        )
    }
}

/// Equal composites produce no field labels.
proof fn lemma_comp_labels_empty_when_equal(a: Composite, b: Composite, n: int)
    requires
        values_equal(Value::Composite(a), Value::Composite(b)),
    ensures
        comp_field_labels(a, b, n).len() == 0,
    decreases n,
{
    if n > 0 {
        lemma_comp_labels_empty_when_equal(a, b, n - 1);
        if !(n <= 0 || a.fields@.len() != b.fields@.len() || n > a.fields@.len()) {
            assert(values_equal(a.fields@[n - 1].value, b.fields@[n - 1].value));
        }
    }
}

/// Composites that differ somewhere produce at least one field label.
proof fn lemma_comp_labels_nonempty(a: Composite, b: Composite)
    requires
        wf(Value::Composite(a)),
        wf(Value::Composite(b)),
        compatible(Value::Composite(a), Value::Composite(b)),
        !values_equal(Value::Composite(a), Value::Composite(b)),
    ensures
        comp_labels(a, b).len() > 0,
    decreases a, a.fields@.len() + 1,
{
    let i = choose|i: int|
        0 <= i < a.fields@.len() && !values_equal(
            (#[trigger] a.fields@[i]).value,
            b.fields@[i].value,
        );
    lemma_comp_labels_at_nonempty(a, b, a.fields@.len() as int, i);
}

/// A differing field below `n` makes the first `n` fields' labels non-empty.
proof fn lemma_comp_labels_at_nonempty(a: Composite, b: Composite, n: int, i: int)
    requires
        wf(Value::Composite(a)),
        wf(Value::Composite(b)),
        compatible(Value::Composite(a), Value::Composite(b)),
        0 <= i < n <= a.fields@.len(),
        !values_equal(a.fields@[i].value, b.fields@[i].value),
    ensures
        comp_field_labels(a, b, n).len() > 0,
    decreases a, n,
{
    if i == n - 1 {
        let f = a.fields@[n - 1];
        let g = b.fields@[n - 1];
        if f.embedded {
            assert(f.value is Composite);
            assert(g.value is Composite);
            match (f.value, g.value) {
                (Value::Composite(xc), Value::Composite(yc)) => {
                    assert(wf(f.value) && wf(g.value));
                    assert(compatible(f.value, g.value));
                    lemma_comp_labels_nonempty(xc, yc);
                },
                _ => {},
            }
        }
    } else {
        lemma_comp_labels_at_nonempty(a, b, n - 1, i);
    }
}

/// Compares two composites field by field.  A differing embedded record's
/// entries are spliced directly into the parent's entry list, so the report
/// shows only the real field path.
pub(crate) fn compare_composites(cx: &Composite, cy: &Composite) -> (r: Option<SchemaDiff>)
    requires
        wf(Value::Composite(*cx)),
        wf(Value::Composite(*cy)),
        compatible(Value::Composite(*cx), Value::Composite(*cy)),
    ensures
        (r is None) <==> values_equal(Value::Composite(*cx), Value::Composite(*cy)),
        r matches Some(d) ==> diff_shape_ok(Value::Composite(*cx), Value::Composite(*cy), d),
    decreases *cx,
{
    let ghost xf = cx.fields@;
    let ghost yf = cy.fields@;
    let mut es: Vec<(Option<String>, SchemaDiff)> = Vec::new();
    let mut i: usize = 0;
    proof {
        assert(entry_labels(es@) =~= Seq::<Seq<char>>::empty());
    }
    while i < cx.fields.len()
        invariant
            0 <= i <= xf.len(),
            xf == cx.fields@,
            yf == cy.fields@,
            wf(Value::Composite(*cx)),
            wf(Value::Composite(*cy)),
            compatible(Value::Composite(*cx), Value::Composite(*cy)),
            (decreases_to!(*cx => xf)),
            entry_labels(es@) == comp_field_labels(*cx, *cy, i as int),
            forall|j: int| 0 <= j < es@.len() ==> (#[trigger] es@[j]).0 is Some,
        decreases xf.len() - i,
    {
        let ghost labelspre = comp_field_labels(*cx, *cy, i as int);
        let ghost espre = es@;
        proof {
            assert(compatible(xf[i as int].value, yf[i as int].value));
            assert(wf(xf[i as int].value) && wf(yf[i as int].value));
            assert(decreases_to!(xf => xf[i as int]));
            assert(decreases_to!(*cx => xf[i as int].value));
        }
        let sub = cx.fields[i].value.compare(&cy.fields[i].value);
        match sub {
            None => {
                proof {
                    assert(values_equal(xf[i as int].value, yf[i as int].value));
                    assert(comp_field_labels(*cx, *cy, i + 1 as int) =~= labelspre);
                }
            },
            Some(d) => {
                if cx.fields[i].embedded {
                    proof {
                        assert(xf[i as int].value is Composite);
                        assert(yf[i as int].value is Composite);
                    }
                    match d {
                        SchemaDiff::StructDiff(_, _, mut inner) => {
                            let ghost innerv = inner@;
                            es.append(&mut inner);
                            proof {
                                match (xf[i as int].value, yf[i as int].value) {
                                    (Value::Composite(xc), Value::Composite(yc)) => {
                                        assert(entry_labels(innerv) == comp_labels(xc, yc));
                                        assert(comp_field_labels(*cx, *cy, i + 1 as int)
                                            =~= labelspre + comp_labels(xc, yc));
                                    },
                                    _ => {},
                                }
                                assert(es@ =~= espre + innerv);
                                assert(entry_labels(es@) =~= entry_labels(espre) + entry_labels(
                                    innerv,
                                ));
                            }
                        },
                        _ => {
                            proof {
                                assert(false);
                            }
                        },
                    }
                } else {
                    es.push((Some(cx.fields[i].name.clone()), d));
                    proof {
                        assert(comp_field_labels(*cx, *cy, i + 1 as int) =~= labelspre.push(
                            xf[i as int].name@,
                        ));
                        assert(entry_labels(es@) =~= entry_labels(espre).push(
                            xf[i as int].name@,
                        ));
                    }
                }
            },
        }
        i = i + 1;
    }
    proof {
        assert(comp_labels(*cx, *cy) == comp_field_labels(*cx, *cy, xf.len() as int));
    }
    if es.len() == 0 {
        proof {
            if !values_equal(Value::Composite(*cx), Value::Composite(*cy)) {
                lemma_comp_labels_nonempty(*cx, *cy);
                assert(entry_labels(es@).len() == 0);
            }
        }
        None
    } else {
        proof {
            if values_equal(Value::Composite(*cx), Value::Composite(*cy)) {
                lemma_comp_labels_empty_when_equal(*cx, *cy, xf.len() as int);
                assert(entry_labels(es@).len() == es@.len());
            }
        }
        Some(SchemaDiff::StructDiff(cx.typname.clone(), cx.ident.clone(), es))
    }
}

impl Value {
    /// Compares two same-shaped values.  Returns nothing exactly when the two
    /// are semantically identical; otherwise one diff node describing the
    /// difference, shaped as `diff_shape_ok` states.
    pub fn compare(&self, other: &Value) -> (r: Option<SchemaDiff>)
        requires
            wf(*self),
            wf(*other),
            compatible(*self, *other),
        ensures
            (r is None) <==> values_equal(*self, *other),
            r matches Some(d) ==> diff_shape_ok(*self, *other, d),
        decreases *self,
    {
        match (self, other) {
            (Value::Bool(x), Value::Bool(y)) => {
                if *x == *y {
                    None
                } else {
                    Some(SchemaDiff::Diff(self.describe(), other.describe()))
                }
            },
            (Value::Int(x), Value::Int(y)) => {
                if *x == *y {
                    None
                } else {
                    Some(SchemaDiff::Diff(self.describe(), other.describe()))
                }
            },
            (Value::PgChar(x), Value::PgChar(y)) => {
                if *x == *y {
                    None
                } else {
                    Some(SchemaDiff::Diff(self.describe(), other.describe()))
                }
            },
            (Value::Text(s), Value::Text(t)) => {
                if crate::text::contains_newline(s.as_str()) {
                    let p = crate::unified::installed_upgraded_patch(s.as_str(), t.as_str());
                    if p.0 == 0 {
                        None
                    } else {
                        Some(SchemaDiff::UnifiedDiff(None, p.1))
                    }
                } else {
                    if *s == *t {
                        None
                    } else {
                        Some(SchemaDiff::Diff(s.clone(), t.clone()))
                    }
                }
            },
            (Value::Opt(x), Value::Opt(y)) => {
                match (x, y) {
                    (None, None) => None,
                    (Some(xv), None) => Some(
                        SchemaDiff::NoneDiff(DiffSource::Upgraded, xv.describe()),
                    ),
                    (None, Some(yv)) => Some(
                        SchemaDiff::NoneDiff(DiffSource::Installed, yv.describe()),
                    ),
                    (Some(xv), Some(yv)) => xv.compare(yv),
                }
            },
            (Value::Sequence(x), Value::Sequence(y)) => {
                proof {
                    assert(decreases_to!(*self => x@));
                }
                compare_sequences(x, y)
            },
            (Value::Keyed(mx), Value::Keyed(my)) => {
                proof {
                    assert(decreases_to!(*self => *mx));
                }
                compare_map(mx, my)
            },
            (Value::Options(ox), Value::Options(oy)) => ox.compare(oy),
            (Value::List(lx), Value::List(ly)) => lx.compare(ly),
            (Value::Queries(qx), Value::Queries(qy)) => qx.compare(qy),
            (Value::Composite(cx), Value::Composite(cy)) => {
                proof {
                    assert(decreases_to!(*self => *cx));
                }
                compare_composites(cx, cy)
            },
            _ => vstd::pervasive::unreached(),
        }
    }

    /// Renders this value for the report, as `spec_describe` states.
    pub fn describe(&self) -> (r: String)
        requires
            describable(*self),
        ensures
            r@ == spec_describe(*self),
        decreases *self,
    {
        match self {
            Value::Bool(x) => if *x {
                String::from_str("true")
            } else {
                String::from_str("false")
            },
            Value::Int(x) => i64_to_string(*x),
            Value::Text(s) => s.clone(),
            Value::PgChar(c) => char_code_string(*c),
            Value::Opt(x) => match x {
                Some(xv) => xv.describe(),
                None => vstd::pervasive::unreached(),
            },
            Value::Sequence(vs) => {
                let mut r = String::from_str("[");
                let mut i: usize = 0;
                proof {
                    assert(describe_list(vs@.take(0)) =~= Seq::<Seq<char>>::empty());
                }
                while i < vs.len()
                    invariant
                        0 <= i <= vs@.len(),
                        *self == Value::Sequence(*vs),
                        forall|j: int| 0 <= j < vs@.len() ==> describable(#[trigger] vs@[j]),
                        (decreases_to!(*self => vs@)),
                        r@ == "["@ + join_with(describe_list(vs@.take(i as int)), ", "@),
                    decreases vs@.len() - i,
                {
                    if i > 0 {
                        r.append(", ");
                    }
                    proof {
                        assert(decreases_to!(vs@ => vs@[i as int]));
                    }
                    let part = vs[i].describe();
                    r.append(part.as_str());
                    proof {
                        let ds = describe_list(vs@.take(i + 1 as int));
                        assert(vs@.take(i + 1 as int).drop_last() =~= vs@.take(i as int));
                        assert(vs@.take(i + 1 as int).last() == vs@[i as int]);
                        assert(ds.drop_last() =~= describe_list(vs@.take(i as int)));
                        assert(ds.last() == spec_describe(vs@[i as int]));
                        assert(r@ =~= "["@ + join_with(ds, ", "@));
                    }
                    i = i + 1;
                }
                r.append("]");
                proof {
                    assert(vs@.take(vs@.len() as int) =~= vs@);
                    assert(r@ =~= spec_describe(*self));
                }
                r
            },
            Value::Keyed(m) => join_keys(&m.entries),
            Value::Options(o) => join_kv(&o.options),
            Value::List(l) => join_keys(&l.values),
            Value::Queries(q) => join_keys(&q.queries),
            Value::Composite(c) => {
                let mut r = c.typname.clone();
                r.append(" ");
                r.append(c.ident.as_str());
                proof {
                    assert(r@ =~= spec_describe(*self));
                }
                r
            },
        }
    }
}

} // verus!
