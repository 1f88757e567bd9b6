//! The engine's general laws, stated over the same spec functions that the
//! comparison contracts use, so that callers can combine them with those
//! contracts directly.

use vstd::prelude::*;

use crate::assoc::{
    assoc_has_key, assoc_keys, lemma_missing_from_disjoint, missing_from,
};
use crate::compare::{
    compatible, diff_shape_ok, comp_field_labels, comp_labels, lemma_upto_empty, seq_diff_indices,
    seq_diff_indices_upto, seq_index_differs, values_equal, wf, Composite, Value,
};
use crate::pgdiff::SchemaDiff;
use crate::text::has_newline;

verus! {

/// Comparison is reflexive: every value is semantically equal to itself, and
/// a well-formed value is shape-compatible with itself.  With `compare`'s
/// contract this says that `compare(a, a)` returns no difference.
pub proof fn lemma_compare_reflexive(v: Value)
    requires
        wf(v),
    ensures
        values_equal(v, v),
        compatible(v, v),
    decreases v,
{
    match v {
        Value::Opt(x) => match x {
            Some(xv) => {
                lemma_compare_reflexive(*xv);
            },
            None => {},
        },
        Value::Sequence(vs) => {
            assert forall|i: int| 0 <= i < vs@.len() implies values_equal(
                #[trigger] vs@[i],
                vs@[i],
            ) && compatible(vs@[i], vs@[i]) by {
                lemma_compare_reflexive(vs@[i]);
            }
        },
        Value::Keyed(m) => {
            let es = m.entries.entries@;
            crate::assoc::lemma_sorted_unique(es);
            assert forall|i: int| 0 <= i < es.len() implies values_equal(
                (#[trigger] es[i]).1,
                es[i].1,
            ) by {
                lemma_compare_reflexive(es[i].1);
            }
            assert forall|i: int, j: int|
                0 <= i < es.len() && 0 <= j < es.len() && (#[trigger] es[i]).0@ == (
                #[trigger] es[j]).0@ implies compatible(es[i].1, es[j].1) by {
                assert(i == j);
                lemma_compare_reflexive(es[i].1);
            }
        },
        Value::Composite(c) => {
            assert forall|i: int| 0 <= i < c.fields@.len() implies values_equal(
                (#[trigger] c.fields@[i]).value,
                c.fields@[i].value,
            ) && compatible(c.fields@[i].value, c.fields@[i].value) by {
                lemma_compare_reflexive(c.fields@[i].value);
            }
        },
        _ => {},
    }
}

/// Over disjoint key sets of sizes `m` and `n`, the two missing-key groups of
/// a keyed-collection difference list exactly the `n` keys of the other side
/// and the `m` keys of this side.
pub proof fn lemma_disjoint_missing_counts<A, B>(a: Seq<(String, A)>, b: Seq<(String, B)>)
    requires
        forall|k: Seq<char>| !(#[trigger] assoc_has_key(a, k) && assoc_has_key(b, k)),
    ensures
        missing_from(a, b).len() == b.len(),
        missing_from(b, a).len() == a.len(),
        missing_from(a, b) =~= assoc_keys(b),
        missing_from(b, a) =~= assoc_keys(a),
{
    lemma_missing_from_disjoint(a, b);
    assert forall|k: Seq<char>| !(#[trigger] assoc_has_key(b, k) && assoc_has_key(a, k)) by {
        assert(!(assoc_has_key(a, k) && assoc_has_key(b, k)));
    }
    lemma_missing_from_disjoint(b, a);
}

/// Below the prefix length the sides agree, so no index there differs.
proof fn lemma_prefix_upto(x: Seq<Value>, k: int, n: int)
    requires
        forall|i: int| 0 <= i < x.len() ==> wf(#[trigger] x[i]),
        0 <= k <= x.len(),
        k <= n <= x.len(),
    ensures
        seq_diff_indices_upto(x, x.take(k), n) =~= Seq::new((n - k) as nat, |j: int| k + j),
    decreases n,
{
    if n == k {
        assert forall|i: int| 0 <= i < k implies !seq_index_differs(x, x.take(k), i) by {
            assert(x.take(k)[i] == x[i]);
            lemma_compare_reflexive(x[i]);
        }
        lemma_upto_empty(x, x.take(k), k);
        assert(seq_diff_indices_upto(x, x.take(k), n).len() == 0);
    } else {
        lemma_prefix_upto(x, k, n - 1);
        assert(seq_index_differs(x, x.take(k), n - 1));
    }
}

/// Comparing a sequence of length `n` against its own prefix of length
/// `k < n` finds exactly the `n - k` indices past the prefix, each of which a
/// sequence diff reports as an absence on the shorter, upgraded side.
pub proof fn lemma_prefix_diff_indices(x: Seq<Value>, k: int)
    requires
        forall|i: int| 0 <= i < x.len() ==> wf(#[trigger] x[i]),
        0 <= k < x.len(),
    ensures
        seq_diff_indices(x, x.take(k)).len() == x.len() - k,
        forall|j: int|
            0 <= j < x.len() - k ==> #[trigger] seq_diff_indices(x, x.take(k))[j] == k + j,
        forall|j: int|
            0 <= j < x.len() - k ==> #[trigger] seq_diff_indices(x, x.take(k))[j] >= x.take(
                k,
            ).len(),
{
    lemma_prefix_upto(x, k, x.len() as int);
}

/// String comparison is diff-style-stable: equal text is equal whether or not
/// it spans lines, a single-line difference is reported as a plain value
/// difference, and a multi-line difference as a unified text diff.
pub proof fn lemma_string_diff_style(s: String, t: String, d: SchemaDiff)
    ensures
        s@ == t@ ==> values_equal(Value::Text(s), Value::Text(t)),
        (diff_shape_ok(Value::Text(s), Value::Text(t), d) && !has_newline(s@)) ==> d is Diff,
        (diff_shape_ok(Value::Text(s), Value::Text(t), d) && has_newline(s@)) ==> d is UnifiedDiff,
{
}

/// The label lists agree field by field when only field `i` differs.
proof fn lemma_single_field_labels(a: Composite, b: Composite, i: int, n: int)
    requires
        wf(Value::Composite(a)),
        wf(Value::Composite(b)),
        compatible(Value::Composite(a), Value::Composite(b)),
        0 <= i < a.fields@.len(),
        forall|j: int|
            0 <= j < a.fields@.len() && j != i ==> values_equal(
                (#[trigger] a.fields@[j]).value,
                b.fields@[j].value,
            ),
        a.fields@[i].embedded,
        !values_equal(a.fields@[i].value, b.fields@[i].value),
        0 <= n <= a.fields@.len(),
    ensures
        a.fields@[i].value matches Value::Composite(xc) && b.fields@[i].value matches
            Value::Composite(yc) ==> comp_field_labels(a, b, n) =~= (if i < n {
            comp_labels(xc, yc)
        } else {
            Seq::<Seq<char>>::empty()
        }),
    decreases n,
{
    assert(a.fields@[i].value is Composite);
    assert(b.fields@[i].value is Composite);
    if n > 0 {
        lemma_single_field_labels(a, b, i, n - 1);
    }
}

/// Flattening: when two composites differ only inside an embedded sub-record,
/// the composite difference carries exactly the embedded record's own field
/// labels — the leaf field names — with no wrapper entry for the embedded
/// field itself.
pub proof fn lemma_embedded_flattening(a: Composite, b: Composite, i: int)
    requires
        wf(Value::Composite(a)),
        wf(Value::Composite(b)),
        compatible(Value::Composite(a), Value::Composite(b)),
        0 <= i < a.fields@.len(),
        forall|j: int|
            0 <= j < a.fields@.len() && j != i ==> values_equal(
                (#[trigger] a.fields@[j]).value,
                b.fields@[j].value,
            ),
        a.fields@[i].embedded,
        !values_equal(a.fields@[i].value, b.fields@[i].value),
    ensures
        a.fields@[i].value matches Value::Composite(xc) && b.fields@[i].value matches
            Value::Composite(yc) ==> comp_labels(a, b) =~= comp_labels(xc, yc),
{
    lemma_single_field_labels(a, b, i, a.fields@.len() as int);
}

} // verus!
