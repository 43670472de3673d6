//! The trusted boundary to the YAML decoder. A metadata block is decoded
//! by `serde_yaml` into its top-level mapping entries; everything after
//! that point — recognizing keys, checking field shapes, assembling the
//! metadata record — is verified library code.

use vstd::prelude::*;

verus! {

/// One YAML value in the shapes the metadata block recognizes: a string,
/// a list of strings, an explicit null, or anything else.
#[derive(Debug, Clone)]
pub enum MetaValue {
    Str(String),
    List(Vec<String>),
    Null,
    Other,
}

/// Mathematical image of a recognized YAML value.
pub enum MetaValueV {
    Str(Seq<char>),
    List(Seq<Seq<char>>),
    Null,
    Other,
}

impl View for MetaValue {
    type V = MetaValueV;

    open spec fn view(&self) -> MetaValueV {
        match self {
            MetaValue::Str(s) => MetaValueV::Str(s@),
            MetaValue::List(l) => MetaValueV::List(l.deep_view()),
            MetaValue::Null => MetaValueV::Null,
            MetaValue::Other => MetaValueV::Other,
        }
    }
}

/// View of a decoded field list: each entry as (key view, value view).
pub open spec fn fields_seq(v: Vec<(String, MetaValue)>) -> Seq<(Seq<char>, MetaValueV)> {
    v@.map_values(|p: (String, MetaValue)| (p.0@, p.1@))
}

/// View of a decode outcome: the mapping's entries in order, or the
/// decoder's error message.
pub open spec fn fields_view(
    r: Result<Vec<(String, MetaValue)>, String>,
) -> Result<Seq<(Seq<char>, MetaValueV)>, Seq<char>> {
    match r {
        Ok(v) => Ok(fields_seq(v)),
        Err(e) => Err(e@),
    }
}

/// What `serde_yaml` decodes a metadata block's text into: the top-level
/// mapping entries in document order, or an error for text that is not a
/// YAML mapping with string keys. The outcome depends on the text alone.
pub uninterp spec fn yaml_fields_of(s: Seq<char>) -> Result<Seq<(Seq<char>, MetaValueV)>, Seq<char>>;

/// Declares `serde_yaml::Value` so the conversion below can take it.
#[verifier::external_type_specification]
#[verifier::external_body]
pub struct ExYamlValue(serde_yaml::Value);

/// Relies on `serde_yaml::from_str::<serde_yaml::Value>`: decodes YAML
/// text into its top-level mapping entries, keeping document order.
#[verifier::external_body]
pub fn yaml_fields(y: &str) -> (r: Result<Vec<(String, MetaValue)>, String>)
    ensures
        fields_view(r) == yaml_fields_of(y@),
{
    let value: serde_yaml::Value = serde_yaml::from_str(y).map_err(|e| e.to_string())?;
    let mapping = match value {
        serde_yaml::Value::Mapping(m) => m,
        _ => return Err("metadata block is not a mapping".to_string()),
    };
    let mut fields = Vec::new();
    for (key, val) in mapping {
        match key {
            serde_yaml::Value::String(k) => fields.push((k, meta_value(val))),
            _ => return Err("metadata keys must be strings".to_string()),
        }
    }
    Ok(fields)
}

/// Relies on `serde_yaml::Value`: sorts one decoded YAML value into the
/// shapes the metadata block recognizes, moving its contents.
#[verifier::external_body]
fn meta_value(v: serde_yaml::Value) -> MetaValue {
    match v {
        serde_yaml::Value::String(s) => MetaValue::Str(s),
        serde_yaml::Value::Null => MetaValue::Null,
        serde_yaml::Value::Sequence(items) => {
            let mut out = Vec::new();
            for item in items {
                match item {
                    serde_yaml::Value::String(s) => out.push(s),
                    _ => return MetaValue::Other,
                }
            }
            MetaValue::List(out)
        }
        _ => MetaValue::Other,
    }
}

} // verus!
