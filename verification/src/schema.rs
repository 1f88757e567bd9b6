//! Version-gated schema descriptors: each catalog field declares the server
//! major-version range in which it exists, and the rules here turn a field
//! table into the per-version SQL target list and into comparable values with
//! explicit "not applicable" placeholders outside the range.

use vstd::prelude::*;

use crate::compare::Value;

verus! {

pub const PG_9_3: u32 = 90300;

pub const PG_9_4: u32 = 90400;

pub const PG_9_5: u32 = 90500;

pub const PG_9_6: u32 = 90600;

pub const PG_10: u32 = 100000;

pub const PG_11: u32 = 110000;

pub const PG_12: u32 = 120000;

pub const PG_13: u32 = 130000;

pub const PG_14: u32 = 140000;

pub const PG_MIN: u32 = 0;

pub const PG_MAX: u32 = u32::MAX;

/// The SQL type of a catalog field, used to type the `NULL` placeholder that
/// stands in for a field outside its version range.
#[derive(Clone)]
pub enum FieldType {
    Bool,
    Integer,
    Smallint,
    Text,
    Name,
    Char,
    ClassOptions,
    List,
}

/// The SQL spelling of a field type.
pub open spec fn sql_type_name(t: FieldType) -> Seq<char> {
    match t {
        FieldType::Bool => "bool"@,
        FieldType::Integer => "integer"@,
        FieldType::Smallint => "smallint"@,
        FieldType::Text => "text"@,
        FieldType::Name => "name"@,
        FieldType::Char => "\"char\""@,
        FieldType::ClassOptions => "text[]"@,
        FieldType::List => "text[]"@,
    }
}

fn sql_type_str(t: &FieldType) -> (r: &'static str)
    ensures
        r@ == sql_type_name(*t),
{
    match t {
        FieldType::Bool => "bool",
        FieldType::Integer => "integer",
        FieldType::Smallint => "smallint",
        FieldType::Text => "text",
        FieldType::Name => "name",
        FieldType::Char => "\"char\"",
        FieldType::ClassOptions => "text[]",
        FieldType::List => "text[]",
    }
}

/// One field of a catalog object type: its column name, its SQL type, an
/// optional extraction expression, and the server major-version range
/// (minimum inclusive, maximum exclusive) in which the field exists.
#[derive(Clone)]
pub struct FieldDef {
    pub name: String,
    pub ftype: FieldType,
    pub expr: Option<String>,
    pub pgmin: u32,
    pub pgmax: u32,
}

/// Whether a field is materialized at a server version.
pub open spec fn field_in_version(d: FieldDef, server_version_num: u32) -> bool {
    d.pgmin <= server_version_num < d.pgmax
}

/// The target-list entry of one field at one server version: inside the
/// field's range its expression (or bare column name), outside it a typed
/// `NULL` placeholder, either aliased to the column name.
pub open spec fn tlist_entry(d: FieldDef, server_version_num: u32) -> Seq<char> {
    if field_in_version(d, server_version_num) {
        match d.expr {
            None => d.name@,
            Some(e) => e@ + " AS "@ + d.name@,
        }
    } else {
        "NULL::"@ + sql_type_name(d.ftype) + " AS "@ + d.name@
    }
}

impl FieldDef {
    /// Whether this field is materialized at the given server version.
    pub fn in_version(&self, server_version_num: u32) -> (r: bool)
        ensures
            r == field_in_version(*self, server_version_num),
    {
        self.pgmin <= server_version_num && server_version_num < self.pgmax
    }
}

/// Builds the SQL target list of a field table at one server version, one
/// entry per field as `tlist_entry` states.
pub fn tlist(defs: &Vec<FieldDef>, server_version_num: u32) -> (r: Vec<String>)
    ensures
        r@.len() == defs@.len(),
        forall|i: int| 0 <= i < r@.len() ==> (#[trigger] r@[i])@ == tlist_entry(
            defs@[i],
            server_version_num,
        ),
{
    let mut r: Vec<String> = Vec::new();
    let mut i: usize = 0;
    while i < defs.len()
        invariant
            0 <= i <= defs@.len(),
            r@.len() == i,
            forall|j: int| 0 <= j < i ==> (#[trigger] r@[j])@ == tlist_entry(
                defs@[j],
                server_version_num,
            ),
        decreases defs@.len() - i,
    {
        let d = &defs[i];
        let mut entry = String::new();
        if d.in_version(server_version_num) {
            match &d.expr {
                None => {
                    entry.append(d.name.as_str());
                },
                Some(e) => {
                    entry.append(e.as_str());
                    entry.append(" AS ");
                    entry.append(d.name.as_str());
                },
            }
        } else {
            entry.append("NULL::");
            entry.append(sql_type_str(&d.ftype));
            entry.append(" AS ");
            entry.append(d.name.as_str());
        }
        proof {
            assert(entry@ =~= tlist_entry(defs@[i as int], server_version_num));
        }
        r.push(entry);
        i = i + 1;
    }
    r
}

/// Materializes one version-gated field value: inside the field's range the
/// decoded value, wrapped as present; outside it the explicit "not
/// applicable" placeholder, which compares clean against another placeholder
/// and never masquerades as a real value.
pub fn materialize(def: &FieldDef, server_version_num: u32, value: Value) -> (r: Value)
    ensures
        field_in_version(*def, server_version_num) ==> (r matches Value::Opt(Some(v)) && *v
            == value),
        !field_in_version(*def, server_version_num) ==> r matches Value::Opt(None),
{
    if def.in_version(server_version_num) {
        Value::Opt(Some(Box::new(value)))
    } else {
        Value::Opt(None)
    }
}

} // verus!
