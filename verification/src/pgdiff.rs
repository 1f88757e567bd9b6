//! The diff tree: a tagged-union description of where and how two catalog
//! snapshots differ, and the renderer that turns it into an indented,
//! human-readable report.  Nodes are produced by the comparison engine and
//! consumed once by the renderer; they are never persisted.

use vstd::prelude::*;

use crate::assoc::strs_view;
use crate::text::{dec_str, sp_indent, usize_to_string};

verus! {

/// Which of the two snapshots a one-sided difference belongs to.
///
/// `Installed` is the snapshot taken after installing the target version
/// directly; `Upgraded` is the snapshot taken after running the incremental
/// upgrade script.
#[derive(Clone, Copy, Debug, PartialEq, Eq, Structural)]
pub enum DiffSource {
    Installed,
    Upgraded,
}

/// The report label of a side.
pub open spec fn side_name(s: DiffSource) -> Seq<char> {
    match s {
        DiffSource::Installed => "installed"@,
        DiffSource::Upgraded => "upgraded"@,
    }
}

/// The report label of the opposite side.
pub open spec fn other_name(s: DiffSource) -> Seq<char> {
    match s {
        DiffSource::Installed => "upgraded"@,
        DiffSource::Upgraded => "installed"@,
    }
}

impl DiffSource {
    /// The label of this side, as printed in reports.
    pub fn str_self(&self) -> (r: &'static str)
        ensures
            r@ == side_name(*self),
    {
        match self {
            DiffSource::Installed => "installed",
            DiffSource::Upgraded => "upgraded",
        }
    }

    /// The label of the opposite side, as printed in reports.
    pub fn str_other(&self) -> (r: &'static str)
        ensures
            r@ == other_name(*self),
    {
        match self {
            DiffSource::Installed => "upgraded",
            DiffSource::Upgraded => "installed",
        }
    }
}

/// One node of the diff tree.
pub enum SchemaDiff {
    /// A terminal value differs: the two rendered values.
    Diff(String, String),
    /// A named setting inside a keyed bag of primitives differs:
    /// the label and the two rendered values.
    NamedDiff(String, String, String),
    /// An ordered sequence differs: both lengths and the per-index
    /// sub-differences, each index 1-based for human display.
    VecDiff(usize, usize, Vec<(usize, Box<SchemaDiff>)>),
    /// One side has no value: the empty side and the other side's rendering.
    NoneDiff(DiffSource, String),
    /// A keyed collection differs: both sizes, the element type label, the
    /// missing-key groups per side, and the differences of shared keys.
    HashMapDiff(usize, usize, String, Vec<(DiffSource, Vec<String>)>, Vec<SchemaDiff>),
    /// A composite differs: its type label, its identity, and per field an
    /// optional field label with the field's sub-difference.
    StructDiff(String, String, Vec<(Option<String>, SchemaDiff)>),
    /// Multi-line text differs: an optional context header and the rendered
    /// unified patch.
    UnifiedDiff(Option<String>, String),
    /// Runtime settings leaked by a script: the version label and the
    /// changed settings with their new values.
    GucDiff(String, Vec<(String, String)>),
}

/// The length-relation line of a sequence difference: which side has how many
/// more elements.  Equal lengths print nothing.
pub open spec fn sp_size_line_vec(s1: int, s2: int, level: nat) -> Seq<char> {
    if s1 < s2 {
        sp_indent(level) + "- "@ + side_name(DiffSource::Upgraded) + " has "@ + dec_str(s2 - s1)
            + " more elements ("@ + dec_str(s2) + ") than "@ + side_name(DiffSource::Installed)
            + " ("@ + dec_str(s1) + ")\n"@
    } else if s1 == s2 {
        Seq::empty()
    } else {
        sp_indent(level) + "- "@ + side_name(DiffSource::Installed) + " has "@ + dec_str(s1 - s2)
            + " more elements ("@ + dec_str(s1) + ") than "@ + side_name(DiffSource::Upgraded)
            + " ("@ + dec_str(s2) + ")\n"@
    }
}

/// The size-relation line of a keyed-collection difference.  Equal sizes with
/// inner mismatches print a "both have" line instead.
pub open spec fn sp_size_line_map(s1: int, s2: int, typname: Seq<char>, level: nat) -> Seq<char> {
    if s1 < s2 {
        sp_indent(level) + side_name(DiffSource::Upgraded) + " has "@ + dec_str(s2 - s1)
            + " more "@ + typname + " ("@ + dec_str(s2) + ") than "@ + side_name(
            DiffSource::Installed,
        ) + " ("@ + dec_str(s1) + ")\n"@
    } else if s1 == s2 {
        sp_indent(level) + side_name(DiffSource::Installed) + " and "@ + side_name(
            DiffSource::Upgraded,
        ) + " both have "@ + dec_str(s1) + " "@ + typname + " but some mismatch in them:\n"@
    } else {
        sp_indent(level) + side_name(DiffSource::Installed) + " has "@ + dec_str(s1 - s2)
            + " more "@ + typname + " ("@ + dec_str(s1) + ") than "@ + side_name(
            DiffSource::Upgraded,
        ) + " ("@ + dec_str(s2) + ")\n"@
    }
}

/// The rendering of a diff node at an indentation level.
pub open spec fn sp_render(d: SchemaDiff, level: nat) -> Seq<char>
    decreases d,
{
    match d {
        SchemaDiff::Diff(a, b) => sp_indent(level) + "- "@ + a@ + "\n"@ + sp_indent(level) + "+ "@
            + b@ + "\n\n"@,
        SchemaDiff::NamedDiff(w, a, b) => sp_indent(level) + "- mismatch found for "@ + w@ + ":\n"@
            + sp_indent(level + 1) + "- "@ + a@ + "\n"@ + sp_indent(level + 1) + "+ "@ + b@
            + "\n\n"@,
        SchemaDiff::VecDiff(s1, s2, es) => sp_size_line_vec(s1 as int, s2 as int, level)
            + sp_vec_entries(es@, level),
        SchemaDiff::NoneDiff(src, s) => sp_indent(level) + "- "@ + side_name(src)
            + " has no value, while "@ + other_name(src) + " has\n"@ + sp_indent(level + 1) + "+ "@
            + s@ + "\n\n"@,
        SchemaDiff::HashMapDiff(s1, s2, t, ms, ds) => sp_size_line_map(
            s1 as int,
            s2 as int,
            t@,
            level,
        ) + sp_missing_groups(ms@, t@, level) + sp_subdiffs(ds@, level),
        SchemaDiff::StructDiff(t, n, es) => sp_indent(level) + "- mismatch found for "@ + t@ + " "@
            + n@ + ":\n"@ + sp_struct_entries(es@, level),
        SchemaDiff::UnifiedDiff(s, p) => (match s {
            Some(x) => x@ + "\n"@,
            None => Seq::empty(),
        }) + p@ + "\n"@,
        SchemaDiff::GucDiff(ver, items) => "Some GUC changes leaked the script for version "@
            + ver@ + ":\n"@ + sp_guc_items(items@, level) + "\n"@,
    }
}

/// The per-index entries of a sequence difference, in index order.
pub open spec fn sp_vec_entries(es: Seq<(usize, Box<SchemaDiff>)>, level: nat) -> Seq<char>
    decreases es,
{
    if es.len() == 0 {
        Seq::empty()
    } else {
        sp_vec_entries(es.drop_last(), level) + sp_indent(level) + "- mismatch for elem #"@
            + dec_str(es.last().0 as int) + ":\n"@ + sp_render(*es.last().1, level + 1)
    }
}

/// The itemized identities of one missing-key group.
pub open spec fn sp_idents(ids: Seq<String>, level: nat) -> Seq<char>
    decreases ids,
{
    if ids.len() == 0 {
        Seq::empty()
    } else {
        sp_idents(ids.drop_last(), level) + sp_indent(level) + "- "@ + ids.last()@ + "\n"@
    }
}

/// The missing-key groups of a keyed-collection difference, each a headline
/// followed by its itemized identities.
pub open spec fn sp_missing_groups(
    gs: Seq<(DiffSource, Vec<String>)>,
    typname: Seq<char>,
    level: nat,
) -> Seq<char>
    decreases gs,
{
    if gs.len() == 0 {
        Seq::empty()
    } else {
        sp_missing_groups(gs.drop_last(), typname, level) + sp_indent(level + 1) + dec_str(
            gs.last().1@.len() as int,
        ) + " "@ + typname + " missing in "@ + side_name(gs.last().0) + ":\n"@ + sp_idents(
            gs.last().1@,
            level + 2,
        ) + "\n"@
    }
}

/// The shared-key differences of a keyed-collection difference, one nesting
/// level deeper.
pub open spec fn sp_subdiffs(ds: Seq<SchemaDiff>, level: nat) -> Seq<char>
    decreases ds,
{
    if ds.len() == 0 {
        Seq::empty()
    } else {
        sp_subdiffs(ds.drop_last(), level) + sp_render(ds.last(), level + 1)
    }
}

/// The field entries of a composite difference: a labelled field renders an
/// "in `field`" headline with the sub-difference below it; an unlabelled entry
/// splices its sub-difference directly.
pub open spec fn sp_struct_entries(es: Seq<(Option<String>, SchemaDiff)>, level: nat) -> Seq<char>
    decreases es,
{
    if es.len() == 0 {
        Seq::empty()
    } else {
        sp_struct_entries(es.drop_last(), level) + (match es.last().0 {
            None => sp_render(es.last().1, level + 1),
            Some(f) => sp_indent(level + 1) + "- in "@ + f@ + ":\n"@ + sp_render(
                es.last().1,
                level + 2,
            ),
        })
    }
}

/// The itemized changed settings of a configuration difference.
pub open spec fn sp_guc_items(items: Seq<(String, String)>, level: nat) -> Seq<char>
    decreases items,
{
    if items.len() == 0 {
        Seq::empty()
    } else {
        sp_guc_items(items.drop_last(), level) + sp_indent(level) + " - "@ + items.last().0@
            + " changed to: "@ + items.last().1@ + "\n"@
    }
}

/// The shape of the missing-key groups of a keyed-collection difference:
/// a group for the keys the installed side lacks, then one for the keys the
/// upgraded side lacks, each present only when its list is non-empty.
pub open spec fn missing_groups_ok(
    ms: Seq<(DiffSource, Vec<String>)>,
    mi: Seq<Seq<char>>,
    mu: Seq<Seq<char>>,
) -> bool {
    if mi.len() > 0 && mu.len() > 0 {
        ms.len() == 2 && ms[0].0 == DiffSource::Installed && strs_view(ms[0].1@) == mi && ms[1].0
            == DiffSource::Upgraded && strs_view(ms[1].1@) == mu
    } else if mi.len() > 0 {
        ms.len() == 1 && ms[0].0 == DiffSource::Installed && strs_view(ms[0].1@) == mi
    } else if mu.len() > 0 {
        ms.len() == 1 && ms[0].0 == DiffSource::Upgraded && strs_view(ms[0].1@) == mu
    } else {
        ms.len() == 0
    }
}

/// Packs the two missing-key lists into their report groups, skipping empty
/// ones.
pub fn build_missing_groups(mi: Vec<String>, mu: Vec<String>) -> (r: Vec<(DiffSource, Vec<String>)>)
    ensures
        missing_groups_ok(r@, strs_view(mi@), strs_view(mu@)),
        r@.len() == 0 <==> (mi@.len() == 0 && mu@.len() == 0),
{
    let mut r: Vec<(DiffSource, Vec<String>)> = Vec::new();
    if mi.len() > 0 {
        r.push((DiffSource::Installed, mi));
    }
    if mu.len() > 0 {
        r.push((DiffSource::Upgraded, mu));
    }
    r
}

impl SchemaDiff {
    /// Renders the whole report of this diff tree, starting unindented.
    pub fn to_string(&self) -> (r: String)
        ensures
            r@ == sp_render(*self, 0),
    {
        let ind = String::new();
        self.decode(&ind, Ghost(0nat))
    }

    /// Renders this node at the given indentation level; `ind` is the
    /// already-built indentation prefix of that level.
    fn decode(&self, ind: &String, level: Ghost<nat>) -> (r: String)
        requires
            ind@ == sp_indent(level@),
        ensures
            r@ == sp_render(*self, level@),
        decreases *self,
    {
        let mut ind1 = ind.clone();
        ind1.append("  ");
        let mut ind2 = ind1.clone();
        ind2.append("  ");
        proof {
            assert(ind1@ == sp_indent(level@ + 1));
            assert(ind2@ == sp_indent(level@ + 2));
        }
        let mut res = String::new();
        match self {
            SchemaDiff::Diff(a, b) => {
                res.append(ind.as_str());
                res.append("- ");
                res.append(a.as_str());
                res.append("\n");
                res.append(ind.as_str());
                res.append("+ ");
                res.append(b.as_str());
                res.append("\n\n");
                proof {
                    assert(res@ =~= sp_render(*self, level@));
                }
            },
            SchemaDiff::NamedDiff(w, a, b) => {
                res.append(ind.as_str());
                res.append("- mismatch found for ");
                res.append(w.as_str());
                res.append(":\n");
                res.append(ind1.as_str());
                res.append("- ");
                res.append(a.as_str());
                res.append("\n");
                res.append(ind1.as_str());
                res.append("+ ");
                res.append(b.as_str());
                res.append("\n\n");
                proof {
                    assert(res@ =~= sp_render(*self, level@));
                }
            },
            SchemaDiff::VecDiff(s1, s2, es) => {
                let n1 = *s1;
                let n2 = *s2;
                if n1 < n2 {
                    res.append(ind.as_str());
                    res.append("- ");
                    res.append(DiffSource::Upgraded.str_self());
                    res.append(" has ");
                    res.append(usize_to_string(n2 - n1).as_str());
                    res.append(" more elements (");
                    res.append(usize_to_string(n2).as_str());
                    res.append(") than ");
                    res.append(DiffSource::Installed.str_self());
                    res.append(" (");
                    res.append(usize_to_string(n1).as_str());
                    res.append(")\n");
                } else if n1 > n2 {
                    res.append(ind.as_str());
                    res.append("- ");
                    res.append(DiffSource::Installed.str_self());
                    res.append(" has ");
                    res.append(usize_to_string(n1 - n2).as_str());
                    res.append(" more elements (");
                    res.append(usize_to_string(n1).as_str());
                    res.append(") than ");
                    res.append(DiffSource::Upgraded.str_self());
                    res.append(" (");
                    res.append(usize_to_string(n2).as_str());
                    res.append(")\n");
                }
                proof {
                    assert(res@ =~= sp_size_line_vec(n1 as int, n2 as int, level@));
                }
                let ghost pre = res@;
                let mut i: usize = 0;
                while i < es.len()
                    invariant
                        0 <= i <= es.len(),
                        ind1@ == sp_indent(level@ + 1),
                        ind@ == sp_indent(level@),
                        (decreases_to!(*self => es@)),
                        res@ == pre + sp_vec_entries(es@.take(i as int), level@),
                    decreases es.len() - i,
                {
                    res.append(ind.as_str());
                    res.append("- mismatch for elem #");
                    res.append(usize_to_string(es[i].0).as_str());
                    res.append(":\n");
                    proof {
                        assert(decreases_to!(es@ => es@[i as int]));
                        assert(decreases_to!(*self => *es@[i as int].1));
                    }
                    let sub = es[i].1.decode(&ind1, Ghost(level@ + 1));
                    res.append(sub.as_str());
                    proof {
                        assert(es@.take(i + 1 as int).drop_last() =~= es@.take(i as int));
                        assert(es@.take(i + 1 as int).last() == es@[i as int]);
                        assert(res@ =~= pre + sp_vec_entries(es@.take(i + 1 as int), level@));
                    }
                    i = i + 1;
                }
                proof {
                    assert(es@.take(es@.len() as int) =~= es@);
                }
            },
            SchemaDiff::NoneDiff(src, s) => {
                res.append(ind.as_str());
                res.append("- ");
                res.append(src.str_self());
                res.append(" has no value, while ");
                res.append(src.str_other());
                res.append(" has\n");
                res.append(ind1.as_str());
                res.append("+ ");
                res.append(s.as_str());
                res.append("\n\n");
                proof {
                    assert(res@ =~= sp_render(*self, level@));
                }
            },
            SchemaDiff::HashMapDiff(s1, s2, t, ms, ds) => {
                let n1 = *s1;
                let n2 = *s2;
                if n1 < n2 {
                    res.append(ind.as_str());
                    res.append(DiffSource::Upgraded.str_self());
                    res.append(" has ");
                    res.append(usize_to_string(n2 - n1).as_str());
                    res.append(" more ");
                    res.append(t.as_str());
                    res.append(" (");
                    res.append(usize_to_string(n2).as_str());
                    res.append(") than ");
                    res.append(DiffSource::Installed.str_self());
                    res.append(" (");
                    res.append(usize_to_string(n1).as_str());
                    res.append(")\n");
                } else if n1 == n2 {
                    res.append(ind.as_str());
                    res.append(DiffSource::Installed.str_self());
                    res.append(" and ");
                    res.append(DiffSource::Upgraded.str_self());
                    res.append(" both have ");
                    res.append(usize_to_string(n1).as_str());
                    res.append(" ");
                    res.append(t.as_str());
                    res.append(" but some mismatch in them:\n");
                } else {
                    res.append(ind.as_str());
                    res.append(DiffSource::Installed.str_self());
                    res.append(" has ");
                    res.append(usize_to_string(n1 - n2).as_str());
                    res.append(" more ");
                    res.append(t.as_str());
                    res.append(" (");
                    res.append(usize_to_string(n1).as_str());
                    res.append(") than ");
                    res.append(DiffSource::Upgraded.str_self());
                    res.append(" (");
                    res.append(usize_to_string(n2).as_str());
                    res.append(")\n");
                }
                proof {
                    assert(res@ =~= sp_size_line_map(n1 as int, n2 as int, t@, level@));
                }
                let ghost pre = res@;
                let mut g: usize = 0;
                while g < ms.len()
                    invariant
                        0 <= g <= ms.len(),
                        ind1@ == sp_indent(level@ + 1),
                        ind2@ == sp_indent(level@ + 2),
                        res@ == pre + sp_missing_groups(ms@.take(g as int), t@, level@),
                    decreases ms.len() - g,
                {
                    res.append(ind1.as_str());
                    res.append(usize_to_string(ms[g].1.len()).as_str());
                    res.append(" ");
                    res.append(t.as_str());
                    res.append(" missing in ");
                    res.append(ms[g].0.str_self());
                    res.append(":\n");
                    let ghost grouppre = res@;
                    let ids = &ms[g].1;
                    let mut j: usize = 0;
                    while j < ids.len()
                        invariant
                            0 <= j <= ids.len(),
                            ind2@ == sp_indent(level@ + 2),
                            res@ == grouppre + sp_idents(ids@.take(j as int), level@ + 2),
                        decreases ids.len() - j,
                    {
                        res.append(ind2.as_str());
                        res.append("- ");
                        res.append(ids[j].as_str());
                        res.append("\n");
                        proof {
                            assert(ids@.take(j + 1 as int).drop_last() =~= ids@.take(j as int));
                            assert(ids@.take(j + 1 as int).last() == ids@[j as int]);
                            assert(res@ =~= grouppre + sp_idents(ids@.take(j + 1 as int), level@ + 2));
                        }
                        j = j + 1;
                    }
                    res.append("\n");
                    proof {
                        assert(ids@.take(ids@.len() as int) =~= ids@);
                        assert(ms@.take(g + 1 as int).drop_last() =~= ms@.take(g as int));
                        assert(ms@.take(g + 1 as int).last() == ms@[g as int]);
                        assert(res@ =~= pre + sp_missing_groups(ms@.take(g + 1 as int), t@, level@));
                    }
                    g = g + 1;
                }
                proof {
                    assert(ms@.take(ms@.len() as int) =~= ms@);
                }
                let ghost pre2 = res@;
                let mut k: usize = 0;
                while k < ds.len()
                    invariant
                        0 <= k <= ds.len(),
                        ind1@ == sp_indent(level@ + 1),
                        (decreases_to!(*self => ds@)),
                        res@ == pre2 + sp_subdiffs(ds@.take(k as int), level@),
                    decreases ds.len() - k,
                {
                    proof {
                        assert(decreases_to!(ds@ => ds@[k as int]));
                    }
                    let sub = ds[k].decode(&ind1, Ghost(level@ + 1));
                    res.append(sub.as_str());
                    proof {
                        assert(ds@.take(k + 1 as int).drop_last() =~= ds@.take(k as int));
                        assert(ds@.take(k + 1 as int).last() == ds@[k as int]);
                        assert(res@ =~= pre2 + sp_subdiffs(ds@.take(k + 1 as int), level@));
                    }
                    k = k + 1;
                }
                proof {
                    assert(ds@.take(ds@.len() as int) =~= ds@);
                }
            },
            SchemaDiff::StructDiff(t, n, es) => {
                res.append(ind.as_str());
                res.append("- mismatch found for ");
                res.append(t.as_str());
                res.append(" ");
                res.append(n.as_str());
                res.append(":\n");
                let ghost pre = res@;
                let mut i: usize = 0;
                while i < es.len()
                    invariant
                        0 <= i <= es.len(),
                        ind1@ == sp_indent(level@ + 1),
                        ind2@ == sp_indent(level@ + 2),
                        (decreases_to!(*self => es@)),
                        res@ == pre + sp_struct_entries(es@.take(i as int), level@),
                    decreases es.len() - i,
                {
                    proof {
                        assert(decreases_to!(es@ => es@[i as int]));
                    }
                    match &es[i].0 {
                        None => {
                            let sub = es[i].1.decode(&ind1, Ghost(level@ + 1));
                            res.append(sub.as_str());
                        },
                        Some(f) => {
                            res.append(ind1.as_str());
                            res.append("- in ");
                            res.append(f.as_str());
                            res.append(":\n");
                            let sub = es[i].1.decode(&ind2, Ghost(level@ + 2));
                            res.append(sub.as_str());
                        },
                    }
                    proof {
                        assert(es@.take(i + 1 as int).drop_last() =~= es@.take(i as int));
                        assert(es@.take(i + 1 as int).last() == es@[i as int]);
                        assert(res@ =~= pre + sp_struct_entries(es@.take(i + 1 as int), level@));
                    }
                    i = i + 1;
                }
                proof {
                    assert(es@.take(es@.len() as int) =~= es@);
                }
            },
            SchemaDiff::UnifiedDiff(s, p) => {
                match s {
                    Some(x) => {
                        res.append(x.as_str());
                        res.append("\n");
                    },
                    None => {},
                }
                res.append(p.as_str());
                res.append("\n");
                proof {
                    assert(res@ =~= sp_render(*self, level@));
                }
            },
            SchemaDiff::GucDiff(ver, items) => {
                res.append("Some GUC changes leaked the script for version ");
                res.append(ver.as_str());
                res.append(":\n");
                let ghost pre = res@;
                let mut i: usize = 0;
                while i < items.len()
                    invariant
                        0 <= i <= items.len(),
                        ind@ == sp_indent(level@),
                        res@ == pre + sp_guc_items(items@.take(i as int), level@),
                    decreases items.len() - i,
                {
                    res.append(ind.as_str());
                    res.append(" - ");
                    res.append(items[i].0.as_str());
                    res.append(" changed to: ");
                    res.append(items[i].1.as_str());
                    res.append("\n");
                    proof {
                        assert(items@.take(i + 1 as int).drop_last() =~= items@.take(i as int));
                        assert(items@.take(i + 1 as int).last() == items@[i as int]);
                        assert(res@ =~= pre + sp_guc_items(items@.take(i + 1 as int), level@));
                    }
                    i = i + 1;
                }
                res.append("\n");
                proof {
                    assert(items@.take(items@.len() as int) =~= items@);
                    assert(res@ =~= sp_render(*self, level@));
                }
            },
        }
        res
    }
}

} // verus!
