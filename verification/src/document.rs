//! Configuration documents as plain values. A document is a sequence of
//! key/value entries; a value is a string, a boolean, an array of strings, or
//! the debug text of a value of another kind. Parsing the TOML text is the one
//! trusted step; everything downstream works on these plain values.

use vstd::prelude::*;

verus! {

/// One element of an items array: a string, or the debug text of a value of
/// another kind (kept so the error can name the offending value).
pub enum DocItem {
    Text(String),
    Other(String),
}

/// Ghost image of a `DocItem`.
pub enum DocItemModel {
    Text(Seq<char>),
    Other(Seq<char>),
}

impl View for DocItem {
    type V = DocItemModel;

    open spec fn view(&self) -> DocItemModel {
        match self {
            DocItem::Text(s) => DocItemModel::Text(s@),
            DocItem::Other(s) => DocItemModel::Other(s@),
        }
    }
}

/// One value of a parsed document.
pub enum DocValue {
    Text(String),
    Flag(bool),
    Many(Vec<DocItem>),
    Other(String),
}

/// Ghost image of a `DocValue`.
pub enum DocValueModel {
    Text(Seq<char>),
    Flag(bool),
    Many(Seq<DocItemModel>),
    Other(Seq<char>),
}

impl View for DocValue {
    type V = DocValueModel;

    open spec fn view(&self) -> DocValueModel {
        match self {
            DocValue::Text(s) => DocValueModel::Text(s@),
            DocValue::Flag(b) => DocValueModel::Flag(*b),
            DocValue::Many(v) => DocValueModel::Many(v@.map_values(|d: DocItem| d@)),
            DocValue::Other(s) => DocValueModel::Other(s@),
        }
    }
}

/// The entries of a document as ghost values.
pub open spec fn doc_view(d: Seq<(String, DocValue)>) -> Seq<(Seq<char>, DocValueModel)> {
    d.map_values(|p: (String, DocValue)| (p.0@, p.1@))
}

/// What `toml::from_str::<toml::Table>` yields on a given text, reduced to
/// plain values: the table's entries in the order the table iterates them, or
/// the parse error's display text. The result is a function of the text alone.
pub uninterp spec fn toml_doc_of(s: Seq<char>) -> Result<Seq<(Seq<char>, DocValueModel)>, Seq<char>>;

/// Relies on `toml::from_str::<toml::Table>`: parses TOML text into a table of
/// key/value entries. The table is backed by an ordered map, so the entries
/// and their order are a function of the text alone; string and boolean
/// values and string array elements are carried over one for one, and any
/// other value is kept as its debug text.
#[verifier::external_body]
pub fn parse_toml_document(s: &str) -> (r: Result<Vec<(String, DocValue)>, String>)
    ensures
        match r {
            Ok(d) => toml_doc_of(s@) matches Ok(m) && doc_view(d@) == m,
            Err(e) => toml_doc_of(s@) matches Err(m) && e@ == m,
        },
{
    match toml::from_str::<toml::Table>(s) {
        Ok(t) => Ok(t.into_iter().map(|(k, v)| (k, match v {
            toml::Value::String(x) => DocValue::Text(x),
            toml::Value::Boolean(b) => DocValue::Flag(b),
            toml::Value::Array(a) => DocValue::Many(a.into_iter().map(|e| match e {
                toml::Value::String(x) => DocItem::Text(x),
                other => DocItem::Other(format!("{other:?}")),
            }).collect()),
            other => DocValue::Other(format!("{other:?}")),
        })).collect()),
        Err(e) => Err(e.to_string()),
    }
}

} // verus!
