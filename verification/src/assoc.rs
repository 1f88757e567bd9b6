//! A key-sorted association list: the deterministic, order-stable backing of
//! every keyed collection in a snapshot.  Keys are unique and kept in
//! lexicographic order, so that reports over unchanged inputs come out
//! byte-identical from run to run.

use vstd::prelude::*;

use crate::text::{chars_le, chars_lt, lemma_chars_le_antisym, lemma_chars_le_total, str_le};

verus! {

/// An association list whose entries are sorted by strictly increasing key.
pub struct AssocList<V> {
    pub entries: Vec<(String, V)>,
}

/// The keys of the entries, in entry order.
pub open spec fn assoc_keys<V>(es: Seq<(String, V)>) -> Seq<Seq<char>> {
    es.map_values(|p: (String, V)| p.0@)
}

/// Whether some entry has this key.
pub open spec fn assoc_has_key<V>(es: Seq<(String, V)>, k: Seq<char>) -> bool {
    exists|i: int| 0 <= i < es.len() && (#[trigger] es[i]).0@ == k
}

/// Keys in strictly increasing lexicographic order; this implies uniqueness.
pub open spec fn assoc_sorted<V>(es: Seq<(String, V)>) -> bool {
    forall|i: int, j: int| 0 <= i < j < es.len() ==> chars_lt(es[i].0@, es[j].0@)
}

/// No two entries share a key.
pub open spec fn assoc_unique<V>(es: Seq<(String, V)>) -> bool {
    forall|i: int, j: int| 0 <= i < j < es.len() ==> (#[trigger] es[i]).0@ != (#[trigger] es[j]).0@
}

pub proof fn lemma_sorted_unique<V>(es: Seq<(String, V)>)
    requires
        assoc_sorted(es),
    ensures
        assoc_unique(es),
{
    assert forall|i: int, j: int| 0 <= i < j < es.len() implies (#[trigger] es[i]).0@ != (
    #[trigger] es[j]).0@ by {
        assert(chars_lt(es[i].0@, es[j].0@));
    }
}

/// The keys of `b` that have no entry in `a`, in `b`'s key order.
pub open spec fn missing_from<A, B>(a: Seq<(String, A)>, b: Seq<(String, B)>) -> Seq<Seq<char>>
    decreases b.len(),
{
    if b.len() == 0 {
        Seq::empty()
    } else {
        missing_from(a, b.drop_last()) + (if assoc_has_key(a, b.last().0@) {
            Seq::<Seq<char>>::empty()
        } else {
            seq![b.last().0@]
        })
    }
}

/// The views of a list of strings.
pub open spec fn strs_view(ss: Seq<String>) -> Seq<Seq<char>> {
    ss.map_values(|s: String| s@)
}

/// `missing_from` lists exactly the keys of `b` without an entry in `a`.
pub proof fn lemma_missing_from_has<A, B>(
    a: Seq<(String, A)>,
    b: Seq<(String, B)>,
    k: Seq<char>,
)
    ensures
        missing_from(a, b).contains(k) <==> (assoc_has_key(b, k) && !assoc_has_key(a, k)),
    decreases b.len(),
{
    if b.len() > 0 {
        lemma_missing_from_has(a, b.drop_last(), k);
        if assoc_has_key(b, k) && !assoc_has_key(a, k) && b.last().0@ != k {
            let i = choose|i: int| 0 <= i < b.len() && (#[trigger] b[i]).0@ == k;
            assert(b.drop_last()[i] == b[i]);
        }
        if assoc_has_key(b.drop_last(), k) {
            let i = choose|i: int|
                0 <= i < b.drop_last().len() && (#[trigger] b.drop_last()[i]).0@ == k;
            assert(b[i] == b.drop_last()[i]);
        }
        if !assoc_has_key(a, b.last().0@) {
            assert(missing_from(a, b).last() == b.last().0@);
            assert(missing_from(a, b).drop_last() =~= missing_from(a, b.drop_last()));
        } else {
            assert(missing_from(a, b) =~= missing_from(a, b.drop_last()));
        }
    }
}

/// A collection misses nothing from another exactly when it holds every key of
/// the other.
pub proof fn lemma_missing_from_empty<A, B>(a: Seq<(String, A)>, b: Seq<(String, B)>)
    ensures
        missing_from(a, b).len() == 0 <==> (forall|j: int|
            0 <= j < b.len() ==> assoc_has_key(a, (#[trigger] b[j]).0@)),
    decreases b.len(),
{
    if b.len() > 0 {
        lemma_missing_from_empty(a, b.drop_last());
        if missing_from(a, b).len() == 0 {
            assert forall|j: int| 0 <= j < b.len() implies assoc_has_key(
                a,
                (#[trigger] b[j]).0@,
            ) by {
                if j < b.len() - 1 {
                    assert(b.drop_last()[j] == b[j]);
                }
            }
        } else {
            if forall|j: int| 0 <= j < b.len() ==> assoc_has_key(a, (#[trigger] b[j]).0@) {
                assert forall|j: int| 0 <= j < b.drop_last().len() implies assoc_has_key(
                    a,
                    (#[trigger] b.drop_last()[j]).0@,
                ) by {
                    assert(b.drop_last()[j] == b[j]);
                }
                assert(assoc_has_key(a, b.last().0@));
            }
        }
    }
}

/// Over disjoint key sets, every key of `b` is missing from `a`.
pub proof fn lemma_missing_from_disjoint<A, B>(a: Seq<(String, A)>, b: Seq<(String, B)>)
    requires
        forall|k: Seq<char>| !(#[trigger] assoc_has_key(a, k) && assoc_has_key(b, k)),
    ensures
        missing_from(a, b) =~= assoc_keys(b),
    decreases b.len(),
{
    if b.len() > 0 {
        assert forall|k: Seq<char>| !(#[trigger] assoc_has_key(a, k) && assoc_has_key(
            b.drop_last(),
            k,
        )) by {
            if assoc_has_key(b.drop_last(), k) {
                let i = choose|i: int|
                    0 <= i < b.drop_last().len() && (#[trigger] b.drop_last()[i]).0@ == k;
                assert(b[i] == b.drop_last()[i]);
            }
        }
        lemma_missing_from_disjoint(a, b.drop_last());
        assert(assoc_has_key(b, b.last().0@));
        assert(!assoc_has_key(a, b.last().0@));
        assert(assoc_keys(b.drop_last()) =~= assoc_keys(b).drop_last());
    }
}

/// Two sorted lists over the same key set list those keys in the same order,
/// position by position.
pub proof fn lemma_same_keys_pointwise<A, B>(a: Seq<(String, A)>, b: Seq<(String, B)>)
    requires
        assoc_sorted(a),
        assoc_sorted(b),
        forall|k: Seq<char>| #[trigger] assoc_has_key(a, k) <==> assoc_has_key(b, k),
    ensures
        a.len() == b.len(),
        forall|i: int| 0 <= i < a.len() ==> (#[trigger] a[i]).0@ == b[i].0@,
    decreases a.len(),
{
    if a.len() == 0 {
        if b.len() > 0 {
            assert(assoc_has_key(b, b[0].0@));
            assert(!assoc_has_key(a, b[0].0@));
        }
    } else {
        assert(assoc_has_key(a, a[0].0@));
        assert(assoc_has_key(b, a[0].0@));
        let j = choose|j: int| 0 <= j < b.len() && (#[trigger] b[j]).0@ == a[0].0@;
        assert(assoc_has_key(b, b[0].0@));
        assert(assoc_has_key(a, b[0].0@));
        let l = choose|l: int| 0 <= l < a.len() && (#[trigger] a[l]).0@ == b[0].0@;
        // Each head is the least key of its list, so the heads agree.
        assert(chars_le(b[0].0@, a[0].0@)) by {
            if j > 0 {
                assert(chars_lt(b[0].0@, b[j].0@));
            } else {
                crate::text::lemma_chars_le_refl(b[0].0@);
            }
        }
        assert(chars_le(a[0].0@, b[0].0@)) by {
            if l > 0 {
                assert(chars_lt(a[0].0@, a[l].0@));
            } else {
                crate::text::lemma_chars_le_refl(a[0].0@);
            }
        }
        lemma_chars_le_antisym(a[0].0@, b[0].0@);
        // The tails cover the same keys.
        assert forall|k: Seq<char>| #[trigger]
            assoc_has_key(a.drop_first(), k) <==> assoc_has_key(b.drop_first(), k) by {
            lemma_tail_has_key(a, k);
            lemma_tail_has_key(b, k);
        }
        lemma_same_keys_pointwise(a.drop_first(), b.drop_first());
        assert(a.drop_first().len() == b.drop_first().len());
        assert(a.len() == b.len());
        assert forall|i: int| 0 <= i < a.len() implies (#[trigger] a[i]).0@ == b[i].0@ by {
            if i > 0 {
                assert(a.drop_first()[i - 1] == a[i]);
                assert(b.drop_first()[i - 1] == b[i]);
                assert(a.drop_first()[i - 1].0@ == b.drop_first()[i - 1].0@);
            }
        }
    }
}

/// In a sorted list, a key sits in the tail exactly when it sits in the list
/// and is not the head's key.
proof fn lemma_tail_has_key<A>(a: Seq<(String, A)>, k: Seq<char>)
    requires
        assoc_sorted(a),
        a.len() > 0,
    ensures
        assoc_has_key(a.drop_first(), k) <==> (assoc_has_key(a, k) && k != a[0].0@),
{
    if assoc_has_key(a.drop_first(), k) {
        let i = choose|i: int|
            0 <= i < a.drop_first().len() && (#[trigger] a.drop_first()[i]).0@ == k;
        assert(a[i + 1] == a.drop_first()[i]);
        assert(chars_lt(a[0].0@, a[i + 1].0@));
    }
    if assoc_has_key(a, k) && k != a[0].0@ {
        let i = choose|i: int| 0 <= i < a.len() && (#[trigger] a[i]).0@ == k;
        assert(i > 0);
        assert(a.drop_first()[i - 1] == a[i]);
    }
}

/// The mapping an association list stands for, ignoring entry order.
pub open spec fn assoc_view<V>(es: Seq<(String, V)>) -> Map<Seq<char>, V>
    decreases es.len(),
{
    if es.len() == 0 {
        Map::empty()
    } else {
        assoc_view(es.drop_last()).insert(es.last().0@, es.last().1)
    }
}

pub proof fn lemma_assoc_view_dom<V>(es: Seq<(String, V)>, k: Seq<char>)
    ensures
        assoc_view(es).dom().contains(k) <==> assoc_has_key(es, k),
    decreases es.len(),
{
    if es.len() > 0 {
        lemma_assoc_view_dom(es.drop_last(), k);
        if assoc_has_key(es, k) && es.last().0@ != k {
            let i = choose|i: int| 0 <= i < es.len() && (#[trigger] es[i]).0@ == k;
            assert(es.drop_last()[i] == es[i]);
        }
        if assoc_has_key(es.drop_last(), k) {
            let i = choose|i: int| 0 <= i < es.drop_last().len() && (#[trigger] es.drop_last()[i]).0@
                == k;
            assert(es[i] == es.drop_last()[i]);
        }
    }
}

/// In a list without repeated keys, the mapping sends each entry's key to that
/// entry's value.
pub proof fn lemma_assoc_view_at<V>(es: Seq<(String, V)>, i: int)
    requires
        assoc_unique(es),
        0 <= i < es.len(),
    ensures
        assoc_view(es).dom().contains(es[i].0@),
        assoc_view(es)[es[i].0@] == es[i].1,
    decreases es.len(),
{
    lemma_assoc_view_dom(es, es[i].0@);
    if i < es.len() - 1 {
        assert(es.drop_last()[i] == es[i]);
        lemma_assoc_view_at(es.drop_last(), i);
        assert(es.last().0@ != es[i].0@);
    }
}

impl<V> AssocList<V> {
    /// The empty association list.
    pub fn new() -> (r: AssocList<V>)
        ensures
            r.entries@ =~= Seq::<(String, V)>::empty(),
            assoc_sorted(r.entries@),
    {
        AssocList { entries: Vec::new() }
    }

    /// The number of entries.
    pub fn len(&self) -> (r: usize)
        ensures
            r == self.entries@.len(),
    {
        self.entries.len()
    }

    /// Finds the position of the entry holding this key, if any.
    pub fn find(&self, key: &String) -> (r: Option<usize>)
        ensures
            match r {
                Some(i) => 0 <= i < self.entries@.len() && self.entries@[i as int].0@ == key@,
                None => !assoc_has_key(self.entries@, key@),
            },
    {
        let mut i: usize = 0;
        while i < self.entries.len()
            invariant
                0 <= i <= self.entries@.len(),
                forall|j: int| 0 <= j < i ==> (#[trigger] self.entries@[j]).0@ != key@,
            decreases self.entries@.len() - i,
        {
            if self.entries[i].0 == *key {
                return Some(i);
            }
            i = i + 1;
        }
        None
    }

    /// The position where this key sorts into the entries: everything before
    /// it has a strictly smaller key, and the entry at it (if any) has a key
    /// at or above this one.
    fn lower_bound(&self, key: &String) -> (pos: usize)
        requires
            assoc_sorted(self.entries@),
        ensures
            0 <= pos <= self.entries@.len(),
            forall|j: int| 0 <= j < pos ==> chars_lt((#[trigger] self.entries@[j]).0@, key@),
            pos < self.entries@.len() ==> chars_le(key@, self.entries@[pos as int].0@),
    {
        let mut pos: usize = 0;
        loop
            invariant
                assoc_sorted(self.entries@),
                0 <= pos <= self.entries@.len(),
                forall|j: int| 0 <= j < pos ==> chars_lt((#[trigger] self.entries@[j]).0@, key@),
            decreases self.entries@.len() - pos,
        {
            if pos >= self.entries.len() {
                return pos;
            }
            if str_le(key.as_str(), self.entries[pos].0.as_str()) {
                return pos;
            }
            proof {
                lemma_chars_le_total(key@, self.entries@[pos as int].0@);
            }
            pos = pos + 1;
        }
    }

    /// Inserts the pair, keeping the keys sorted; an entry already holding the
    /// key is replaced, as in an ordinary map.
    pub fn insert(&mut self, key: String, value: V)
        requires
            assoc_sorted(old(self).entries@),
        ensures
            assoc_sorted(final(self).entries@),
            assoc_view(final(self).entries@) == assoc_view(old(self).entries@).insert(key@, value),
            forall|k: Seq<char>|
                #[trigger] assoc_has_key(final(self).entries@, k) <==> (assoc_has_key(
                    old(self).entries@,
                    k,
                ) || k == key@),
    {
        let ghost kview = key@;
        let ghost old_es = self.entries@;
        let pos = self.lower_bound(&key);
        if pos < self.entries.len() && self.entries[pos].0 == key {
            self.entries.remove(pos);
        }
        let ghost mid_es = self.entries@;
        self.entries.insert(pos, (key, value));
        proof {
            let new_es = self.entries@;
            let p = pos as int;
            assert(new_es[p].0@ == kview);
            assert(insert_shape(old_es, mid_es, new_es, kview, p));
            // Sortedness: smaller keys sit before `pos`, larger ones after it.
            assert forall|i: int, j: int| 0 <= i < j < new_es.len() implies chars_lt(
                (#[trigger] new_es[i]).0@,
                (#[trigger] new_es[j]).0@,
            ) by {
                lemma_insert_entry(old_es, mid_es, new_es, kview, p, i);
                lemma_insert_entry(old_es, mid_es, new_es, kview, p, j);
                if i == p {
                    lemma_key_above(old_es, mid_es, new_es, kview, p, j);
                } else if j == p {
                    assert(chars_lt(new_es[i].0@, kview));
                } else if i < p && j > p {
                    lemma_key_above(old_es, mid_es, new_es, kview, p, j);
                    crate::text::lemma_chars_lt_trans(new_es[i].0@, kview, new_es[j].0@);
                } else if j < p {
                    assert(new_es[i] == old_es[i]);
                    assert(new_es[j] == old_es[j]);
                } else {
                    assert(new_es[i] == mid_es[i - 1]);
                    assert(new_es[j] == mid_es[j - 1]);
                    if mid_es == old_es {
                        assert(mid_es[i - 1] == old_es[i - 1]);
                        assert(mid_es[j - 1] == old_es[j - 1]);
                    } else {
                        assert(mid_es[i - 1] == old_es[i]);
                        assert(mid_es[j - 1] == old_es[j]);
                    }
                }
            }
            // Membership.
            assert forall|kk: Seq<char>|
                #[trigger] assoc_has_key(new_es, kk) <==> (assoc_has_key(old_es, kk) || kk
                    == kview) by {
                lemma_has_key_insert(old_es, mid_es, new_es, kview, p, kk);
            }
            // Every entry but the inserted one stands unchanged in the old list.
            assert forall|i: int| 0 <= i < new_es.len() && i != p implies assoc_has_key(
                old_es,
                (#[trigger] new_es[i]).0@,
            ) && agree_at(old_es, new_es[i]) by {
                if i < p {
                    assert(new_es[i] == mid_es[i]);
                    assert(mid_es[i] == old_es[i]);
                } else {
                    assert(new_es[i] == mid_es[i - 1]);
                    if mid_es == old_es {
                        assert(mid_es[i - 1] == old_es[i - 1]);
                    } else {
                        assert(mid_es[i - 1] == old_es[i]);
                    }
                }
            }
            lemma_sorted_unique(new_es);
            lemma_view_of_insert(old_es, new_es, kview, value, p);
        }
    }
}

/// Each entry of the post-insertion sequence is the inserted pair at `pos`, an
/// old entry with a strictly smaller key before it, or an old entry at or
/// above the key after it.
proof fn lemma_insert_entry<V>(
    old_es: Seq<(String, V)>,
    mid_es: Seq<(String, V)>,
    new_es: Seq<(String, V)>,
    k: Seq<char>,
    pos: int,
    i: int,
)
    requires
        insert_shape(old_es, mid_es, new_es, k, pos),
        0 <= i < new_es.len(),
    ensures
        i < pos ==> new_es[i] == old_es[i] && chars_lt(new_es[i].0@, k),
        i == pos ==> new_es[i].0@ == k,
        i > pos ==> assoc_has_key(old_es, new_es[i].0@),
{
    if i > pos {
        if mid_es == old_es {
            assert(new_es[i] == mid_es[i - 1]);
        } else {
            assert(new_es[i] == mid_es[i - 1]);
            assert(mid_es[i - 1] == old_es[i]);
        }
    }
}

/// After insertion, every entry beyond `pos` has a key strictly above the
/// inserted one.
proof fn lemma_key_above<V>(
    old_es: Seq<(String, V)>,
    mid_es: Seq<(String, V)>,
    new_es: Seq<(String, V)>,
    k: Seq<char>,
    pos: int,
    j: int,
)
    requires
        insert_shape(old_es, mid_es, new_es, k, pos),
        pos < j < new_es.len(),
    ensures
        chars_lt(k, new_es[j].0@),
{
    if mid_es == old_es {
        assert(new_es[j] == old_es[j - 1]);
        assert(pos < old_es.len());
        assert(chars_le(k, old_es[pos].0@));
        assert(old_es[pos].0@ != k);
        if j - 1 > pos {
            assert(chars_lt(old_es[pos].0@, old_es[j - 1].0@));
            crate::text::lemma_chars_le_trans(k, old_es[pos].0@, old_es[j - 1].0@);
            if k == old_es[j - 1].0@ {
                lemma_chars_le_antisym(old_es[pos].0@, old_es[j - 1].0@);
            }
        }
    } else {
        assert(new_es[j] == mid_es[j - 1]);
        assert(mid_es[j - 1] == old_es[j]);
        assert(chars_lt(old_es[pos].0@, old_es[j].0@));
        assert(old_es[pos].0@ == k);
    }
}

/// The relation between the entries before the insertion, after the optional
/// removal of the replaced entry, and after the insertion itself.
pub open spec fn insert_shape<V>(
    old_es: Seq<(String, V)>,
    mid_es: Seq<(String, V)>,
    new_es: Seq<(String, V)>,
    k: Seq<char>,
    pos: int,
) -> bool {
    &&& assoc_sorted(old_es)
    &&& 0 <= pos <= mid_es.len()
    &&& (forall|j: int| 0 <= j < pos ==> chars_lt((#[trigger] old_es[j]).0@, k))
    &&& (if pos < old_es.len() && old_es[pos].0@ == k {
        mid_es == old_es.remove(pos)
    } else {
        mid_es == old_es && (pos < old_es.len() ==> chars_le(k, old_es[pos].0@) && old_es[pos].0@
            != k)
    })
    &&& new_es.len() == mid_es.len() + 1
    &&& new_es[pos].0@ == k
    &&& new_es == mid_es.insert(pos, new_es[pos])
}

proof fn lemma_has_key_insert<V>(
    old_es: Seq<(String, V)>,
    mid_es: Seq<(String, V)>,
    new_es: Seq<(String, V)>,
    k: Seq<char>,
    pos: int,
    kk: Seq<char>,
)
    requires
        insert_shape(old_es, mid_es, new_es, k, pos),
    ensures
        assoc_has_key(new_es, kk) <==> (assoc_has_key(old_es, kk) || kk == k),
{
    if kk == k {
        assert(new_es[pos].0@ == kk);
    }
    if assoc_has_key(new_es, kk) && kk != k {
        let i = choose|i: int| 0 <= i < new_es.len() && (#[trigger] new_es[i]).0@ == kk;
        assert(i != pos);
        if i < pos {
            assert(new_es[i] == mid_es[i]);
        } else {
            assert(new_es[i] == mid_es[i - 1]);
        }
        if mid_es == old_es {
        } else {
            assert forall|j: int| 0 <= j < mid_es.len() implies assoc_has_key(
                old_es,
                (#[trigger] mid_es[j]).0@,
            ) by {
                if j < pos {
                    assert(mid_es[j] == old_es[j]);
                } else {
                    assert(mid_es[j] == old_es[j + 1]);
                }
            }
        }
    }
    if assoc_has_key(old_es, kk) && kk != k {
        let i = choose|i: int| 0 <= i < old_es.len() && (#[trigger] old_es[i]).0@ == kk;
        if mid_es == old_es {
            if i < pos {
                assert(new_es[i] == mid_es[i]);
            } else {
                assert(new_es[i + 1] == mid_es[i]);
            }
        } else {
            assert(old_es[pos].0@ == k);
            assert(i != pos);
            if i < pos {
                assert(mid_es[i] == old_es[i]);
                assert(new_es[i] == mid_es[i]);
            } else {
                assert(mid_es[i - 1] == old_es[i]);
                assert(new_es[i] == mid_es[i - 1]);
            }
        }
    }
}

/// The map view after a sorted insertion is the old view with the new binding.
proof fn lemma_view_of_insert<V>(
    old_es: Seq<(String, V)>,
    new_es: Seq<(String, V)>,
    k: Seq<char>,
    value: V,
    pos: int,
)
    requires
        assoc_sorted(old_es),
        assoc_unique(new_es),
        0 <= pos < new_es.len(),
        new_es[pos].0@ == k,
        new_es[pos].1 == value,
        forall|kk: Seq<char>|
            #[trigger] assoc_has_key(new_es, kk) <==> (assoc_has_key(old_es, kk) || kk == k),
        forall|i: int|
            0 <= i < new_es.len() && i != pos ==> assoc_has_key(
                old_es,
                (#[trigger] new_es[i]).0@,
            ) && agree_at(old_es, new_es[i]),
    ensures
        assoc_view(new_es) == assoc_view(old_es).insert(k, value),
{
    lemma_sorted_unique(old_es);
    let lhs = assoc_view(new_es);
    let rhs = assoc_view(old_es).insert(k, value);
    assert forall|kk: Seq<char>| lhs.dom().contains(kk) <==> rhs.dom().contains(kk) by {
        lemma_assoc_view_dom(new_es, kk);
        lemma_assoc_view_dom(old_es, kk);
    }
    assert forall|kk: Seq<char>| #[trigger]
        lhs.dom().contains(kk) implies lhs[kk] == rhs[kk] by {
        lemma_assoc_view_dom(new_es, kk);
        let i = choose|i: int| 0 <= i < new_es.len() && (#[trigger] new_es[i]).0@ == kk;
        lemma_assoc_view_at(new_es, i);
        if i == pos {
            assert(kk == k);
        } else {
            assert(kk != k);
            let j = choose|j: int|
                0 <= j < old_es.len() && (#[trigger] old_es[j]).0 == new_es[i].0 && old_es[j].1
                    == new_es[i].1;
            lemma_assoc_view_at(old_es, j);
        }
    }
    assert(lhs =~= rhs);
}

/// The entry also stands, key and value alike, somewhere in the other list.
pub open spec fn agree_at<V>(old_es: Seq<(String, V)>, e: (String, V)) -> bool {
    exists|j: int| 0 <= j < old_es.len() && (#[trigger] old_es[j]).0 == e.0 && old_es[j].1 == e.1
}

/// The keys of `a` that also stand in `b` but whose two values are not equal
/// under `eqf`, in `a`'s key order.
pub open spec fn changed_keys<V>(
    a: Seq<(String, V)>,
    b: Seq<(String, V)>,
    eqf: spec_fn(V, V) -> bool,
) -> Seq<Seq<char>>
    decreases a.len(),
{
    if a.len() == 0 {
        Seq::empty()
    } else {
        changed_keys(a.drop_last(), b, eqf) + (if assoc_has_key(b, a.last().0@) && !eqf(
            a.last().1,
            assoc_view(b)[a.last().0@],
        ) {
            seq![a.last().0@]
        } else {
            Seq::<Seq<char>>::empty()
        })
    }
}

/// No key is changed exactly when every shared key's values are equal.
pub proof fn lemma_changed_keys_empty<V>(
    a: Seq<(String, V)>,
    b: Seq<(String, V)>,
    eqf: spec_fn(V, V) -> bool,
)
    ensures
        changed_keys(a, b, eqf).len() == 0 <==> (forall|i: int|
            0 <= i < a.len() && assoc_has_key(b, (#[trigger] a[i]).0@) ==> eqf(
                a[i].1,
                assoc_view(b)[a[i].0@],
            )),
    decreases a.len(),
{
    if a.len() > 0 {
        lemma_changed_keys_empty(a.drop_last(), b, eqf);
        if changed_keys(a, b, eqf).len() == 0 {
            assert forall|i: int|
                0 <= i < a.len() && assoc_has_key(b, (#[trigger] a[i]).0@) implies eqf(
                a[i].1,
                assoc_view(b)[a[i].0@],
            ) by {
                if i < a.len() - 1 {
                    assert(a.drop_last()[i] == a[i]);
                }
            }
        } else {
            if forall|i: int|
                0 <= i < a.len() && assoc_has_key(b, (#[trigger] a[i]).0@) ==> eqf(
                    a[i].1,
                    assoc_view(b)[a[i].0@],
                ) {
                assert forall|i: int|
                    0 <= i < a.drop_last().len() && assoc_has_key(
                        b,
                        (#[trigger] a.drop_last()[i]).0@,
                    ) implies eqf(a.drop_last()[i].1, assoc_view(b)[a.drop_last()[i].0@]) by {
                    assert(a.drop_last()[i] == a[i]);
                }
            }
        }
    }
}

/// Collects the keys of `b` that have no entry in `a`, in `b`'s entry order.
pub fn missing_keys<A, B>(a: &AssocList<A>, b: &AssocList<B>) -> (r: Vec<String>)
    ensures
        strs_view(r@) == missing_from(a.entries@, b.entries@),
{
    let mut out: Vec<String> = Vec::new();
    let mut j: usize = 0;
    proof {
        assert(strs_view(out@) =~= missing_from(a.entries@, b.entries@.take(0)));
    }
    while j < b.entries.len()
        invariant
            0 <= j <= b.entries@.len(),
            strs_view(out@) == missing_from(a.entries@, b.entries@.take(j as int)),
        decreases b.entries@.len() - j,
    {
        let ghost pre = out@;
        match a.find(&b.entries[j].0) {
            Some(_) => {
                proof {
                    assert(assoc_has_key(a.entries@, b.entries@[j as int].0@));
                }
            },
            None => {
                out.push(b.entries[j].0.clone());
            },
        }
        proof {
            let bs = b.entries@;
            assert(bs.take(j + 1 as int).drop_last() =~= bs.take(j as int));
            assert(bs.take(j + 1 as int).last() == bs[j as int]);
            assert(strs_view(out@) =~= missing_from(a.entries@, bs.take(j + 1 as int)));
        }
        j = j + 1;
    }
    proof {
        assert(b.entries@.take(b.entries@.len() as int) =~= b.entries@);
    }
    out
}

} // verus!
