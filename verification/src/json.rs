//! The fast path for lines that are JSON documents themselves.
use vstd::prelude::*;
use crate::record::{field_views, Field};
use crate::text::{lowercased, to_chars, to_lowercase};

verus! {

/// `serde_json::Value`: a JSON value of any kind, carried through as it is.
#[verifier::external_type_specification]
#[verifier::external_body]
pub struct ExJsonValue(serde_json::Value);

/// One member of a JSON object: its name and its value.
pub struct JsonMember {
    pub key: String,
    pub value: serde_json::Value,
}

/// What a parsed JSON document is at its top level.
pub enum JsonDoc {
    Object(Vec<JsonMember>),
    Array,
    Scalar,
}

/// What a member is in contracts.
pub ghost struct MemberModel {
    pub key: Seq<char>,
    pub value: serde_json::Value,
}

/// What a document is in contracts.
pub ghost enum DocModel {
    Object(Seq<MemberModel>),
    Array,
    Scalar,
}

impl View for JsonMember {
    type V = MemberModel;

    open spec fn view(&self) -> MemberModel {
        MemberModel { key: self.key@, value: self.value }
    }
}

impl View for JsonDoc {
    type V = DocModel;

    open spec fn view(&self) -> DocModel {
        match self {
            JsonDoc::Object(members) => DocModel::Object(
                Seq::new(members@.len(), |i: int| members@[i]@),
            ),
            JsonDoc::Array => DocModel::Array,
            JsonDoc::Scalar => DocModel::Scalar,
        }
    }
}

/// The document that a text is in strict JSON; `None` where the text is no
/// JSON. The members of an object stand in the order in which the parser's
/// map hands them out.
pub uninterp spec fn json_document(text: Seq<char>) -> Option<DocModel>;

/// The content of a value that is a JSON string; `None` for a value of
/// any other kind.
pub uninterp spec fn json_string(value: serde_json::Value) -> Option<Seq<char>>;

/// The compact JSON text that a value is displayed as.
pub uninterp spec fn json_rendered(value: serde_json::Value) -> Seq<char>;

/// `serde_json::from_str` to a `serde_json::Value`: a parse error gives
/// `None`; an object gives its members, name and value, in the order of
/// its map; an array and any other value give their kind alone.
#[verifier::external_body]
pub(crate) fn parse_document(text: &str) -> (r: Option<JsonDoc>)
    ensures
        r is Some <==> json_document(text@) is Some,
        r matches Some(d) ==> json_document(text@) == Some(d@),
{
    match serde_json::from_str::<serde_json::Value>(text) {
        Ok(serde_json::Value::Object(m)) => {
            let members = m.into_iter().map(|(key, value)| JsonMember { key, value });
            Some(JsonDoc::Object(members.collect()))
        },
        Ok(serde_json::Value::Array(_)) => Some(JsonDoc::Array),
        Ok(_) => Some(JsonDoc::Scalar),
        Err(_) => None,
    }
}

/// `serde_json::Value::as_str`: the content of a string value, `None` for
/// any other.
#[verifier::external_body]
pub(crate) fn string_content(value: &serde_json::Value) -> (r: Option<String>)
    ensures
        r is Some <==> json_string(*value) is Some,
        r matches Some(s) ==> json_string(*value) == Some(s@),
{
    value.as_str().map(str::to_owned)
}

/// `to_string` by the `Display` of `serde_json::Value`: the value as
/// compact JSON text.
#[verifier::external_body]
pub(crate) fn render(value: &serde_json::Value) -> (r: String)
    ensures
        r@ == json_rendered(*value),
{
    value.to_string()
}

/// The text opens and closes with matching brackets of an object or array.
pub open spec fn is_bracketed(t: Seq<char>) -> bool {
    t.len() > 0 && ((t[0] == '{' && t.last() == '}') || (t[0] == '[' && t.last() == ']'))
}

/// The key under which a whole array is kept.
pub open spec fn array_key() -> Seq<char> {
    "json_data"@
}

/// The pair of one member: the key in lowercase; the content of a string
/// value, or the textual form of any other.
pub open spec fn member_pair(m: MemberModel) -> (Seq<char>, Seq<char>) {
    (
        lowercased(m.key),
        match json_string(m.value) {
            Some(s) => s,
            None => json_rendered(m.value),
        },
    )
}

/// The pairs of a document: one for each member of an object, in order; for
/// an array the whole text under one key; none for a scalar.
pub open spec fn document_pairs(doc: DocModel, text: Seq<char>) -> Option<
    Seq<(Seq<char>, Seq<char>)>,
> {
    match doc {
        DocModel::Object(members) => Some(
            Seq::new(members.len(), |i: int| member_pair(members[i])),
        ),
        DocModel::Array => Some(seq![(array_key(), text)]),
        DocModel::Scalar => None,
    }
}

/// The pairs of a trimmed line on the fast path; `None` where the line is
/// not bracketed, is no JSON, or is a scalar.
pub open spec fn json_pairs(t: Seq<char>) -> Option<Seq<(Seq<char>, Seq<char>)>> {
    if !is_bracketed(t) {
        None
    } else {
        match json_document(t) {
            Some(doc) => document_pairs(doc, t),
            None => None,
        }
    }
}

/// An array is never taken apart: its text is the one value.
pub proof fn lemma_array_is_opaque(text: Seq<char>)
    ensures
        document_pairs(DocModel::Array, text) == Some(seq![(array_key(), text)]),
{
}

/// An object gives one pair for each member, in the members' order, with
/// the key in lowercase and a string's content or another value's text.
pub proof fn lemma_object_pairs(members: Seq<MemberModel>, text: Seq<char>)
    ensures
        document_pairs(DocModel::Object(members), text) is Some,
        document_pairs(DocModel::Object(members), text).unwrap().len() == members.len(),
        forall|i: int|
            0 <= i < members.len() ==> {
                let p = #[trigger] document_pairs(DocModel::Object(members), text).unwrap()[i];
                &&& p.0 == lowercased(members[i].key)
                &&& (json_string(members[i].value) matches Some(s) ==> p.1 == s)
                &&& (json_string(members[i].value) is None ==> p.1 == json_rendered(
                    members[i].value,
                ))
            },
{
}

/// Tells whether `t` opens and closes like an object or an array.
pub fn has_brackets(t: &Vec<char>) -> (b: bool)
    ensures
        b == is_bracketed(t@),
{
    let n: usize = t.len();
    n > 0 && ((t[0] == '{' && t[n - 1] == '}') || (t[0] == '[' && t[n - 1] == ']'))
}

/// The pairs of a parsed document whose text was `text`.
pub fn document_fields(doc: &JsonDoc, text: &str) -> (r: Option<Vec<Field>>)
    ensures
        r is Some <==> document_pairs(doc@, text@) is Some,
        r matches Some(f) ==> document_pairs(doc@, text@) == Some(field_views(f@)),
{
    match doc {
        JsonDoc::Object(members) => {
            let mut out: Vec<Field> = Vec::new();
            let mut i: usize = 0;
            while i < members.len()
                invariant
                    i <= members.len(),
                    out@.len() == i,
                    forall|j: int| 0 <= j < i ==> (#[trigger] out@[j])@ == member_pair(members@[j]@),
                decreases members.len() - i,
            {
                let m = &members[i];
                let key = to_lowercase(m.key.as_str());
                let value = match string_content(&m.value) {
                    Some(s) => s,
                    None => render(&m.value),
                };
                out.push(Field { key, value });
                i += 1;
            }
            assert(field_views(out@) =~= document_pairs(doc@, text@).unwrap());
            Some(out)
        },
        JsonDoc::Array => {
            let mut out: Vec<Field> = Vec::new();
            out.push(Field { key: "json_data".to_owned(), value: text.to_owned() });
            assert(field_views(out@) =~= seq![(array_key(), text@)]);
            Some(out)
        },
        JsonDoc::Scalar => None,
    }
}

/// The fast path: the pairs of a trimmed line that is a JSON object or
/// array, `None` for every other line.
pub fn try_parse_json(trimmed: &str) -> (r: Option<Vec<Field>>)
    ensures
        r is Some <==> json_pairs(trimmed@) is Some,
        r matches Some(f) ==> json_pairs(trimmed@) == Some(field_views(f@)),
{
    let chars = to_chars(trimmed);
    if !has_brackets(&chars) {
        return None;
    }
    match parse_document(trimmed) {
        Some(doc) => document_fields(&doc, trimmed),
        None => None,
    }
}

} // verus!
