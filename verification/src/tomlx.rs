//! Trusted boundary to the `toml` crate: the parser turns manifest text
//! into the crate's own table form, and the serializer renders a table
//! back to text.  Both results are named, never restated: parsing and
//! rendering are functions of their arguments alone.
use vstd::prelude::*;

use crate::table::{ConfigTable, ConfigValue, Entries};

verus! {

#[verifier::external_type_specification]
#[verifier::external_body]
pub struct ExTomlValue(toml::Value);

#[verifier::external_type_specification]
#[verifier::external_body]
#[verifier::reject_recursive_types(K)]
#[verifier::reject_recursive_types(V)]
pub struct ExTomlMap<K, V>(toml::map::Map<K, V>);

/// What the `toml` parser makes of a text: `None` when the text is not a
/// valid manifest, otherwise the parsed table's entries, sorted by key at
/// every level.
pub uninterp spec fn toml_parse(text: Seq<char>) -> Option<Entries>;

/// The text the `toml` serializer renders for a table's entries.
pub uninterp spec fn toml_text_of(t: Entries) -> Seq<char>;

/// Rebuilds one parsed `toml` value in the crate's own form; floats and
/// dates are carried through opaquely.
#[verifier::external_body]
fn value_from_toml(v: toml::Value) -> ConfigValue {
    match v {
        toml::Value::String(s) => ConfigValue::Str(s),
        toml::Value::Integer(i) => ConfigValue::Int(i),
        toml::Value::Boolean(b) => ConfigValue::Bool(b),
        toml::Value::Array(a) => ConfigValue::Arr(a.into_iter().map(value_from_toml).collect()),
        toml::Value::Table(t) => ConfigValue::Tab(table_from_toml(t)),
        other => ConfigValue::Other(other),
    }
}

/// Rebuilds a parsed `toml` table in the crate's own form.  The map is
/// backed by an ordered tree, so its iteration yields the keys in
/// ascending order and the entries come out sorted.
#[verifier::external_body]
fn table_from_toml(t: toml::map::Map<String, toml::Value>) -> ConfigTable {
    ConfigTable { entries: t.into_iter().map(|e| (e.0, value_from_toml(e.1))).collect() }
}

/// Turns one of the crate's values back into a `toml` value.
#[verifier::external_body]
fn value_to_toml(v: &ConfigValue) -> toml::Value {
    match v {
        ConfigValue::Str(s) => toml::Value::String(s.clone()),
        ConfigValue::Int(i) => toml::Value::Integer(*i),
        ConfigValue::Bool(b) => toml::Value::Boolean(*b),
        ConfigValue::Arr(a) => toml::Value::Array(a.iter().map(value_to_toml).collect()),
        ConfigValue::Tab(t) => toml::Value::Table(table_to_toml(t)),
        ConfigValue::Other(o) => o.clone(),
    }
}

/// Turns one of the crate's tables back into a `toml` table.
#[verifier::external_body]
fn table_to_toml(t: &ConfigTable) -> toml::map::Map<String, toml::Value> {
    t.entries.iter().map(|e| (e.0.clone(), value_to_toml(&e.1))).collect()
}

/// Relies on `toml`'s parser, `str::parse::<toml::Table>`: success and the
/// parsed table are a function of the text alone, and the backing ordered
/// map hands the entries out sorted by key at every level, so the rebuilt
/// table is well formed.
#[verifier::external_body]
pub(crate) fn parse_toml(text: &str) -> (r: Option<ConfigTable>)
    ensures
        match r {
            Some(t) => t.wf() && toml_parse(text@) == Some(t@),
            None => toml_parse(text@) is None,
        },
{
    match text.parse::<toml::Table>() {
        Ok(t) => Some(table_from_toml(t)),
        Err(_) => None,
    }
}

/// Relies on `toml`'s serializer, the `Display` impl of `toml::Table`: the
/// rendered text is a function of the table's contents alone.
#[verifier::external_body]
pub(crate) fn toml_text(t: &ConfigTable) -> (r: String)
    ensures
        r@ == toml_text_of(t@),
{
    table_to_toml(t).to_string()
}

} // verus!
