//! Looking values up in a context: a JSON document addressed by dotted paths.
use vstd::prelude::*;
use crate::number::Number;
use crate::operand::{Operand, Term};
use crate::text::{chars_of, split, split_at, string_of, texts};

verus! {

/// `serde_json::Value`, taken as it is: of what a value holds, nothing is
/// known but what [`document`] names.
#[verifier::external_type_specification]
#[verifier::external_body]
pub struct ExValue(serde_json::Value);

/// A JSON document as a mathematical value.
pub enum Json {
    Null,
    Bool(bool),
    /// A number, held as the decimal text that writes it.
    Number(Seq<char>),
    Text(Seq<char>),
    Array(Seq<Json>),
    Object(Map<Seq<char>, Json>),
}

impl Json {
    /// The member `key` of an object; `Null` where there is no such member
    /// or `self` is no object.
    pub open spec fn member(self, key: Seq<char>) -> Json {
        match self {
            Json::Object(members) => if members.contains_key(key) {
                members[key]
            } else {
                Json::Null
            },
            _ => Json::Null,
        }
    }

    /// The operand that stands for this document: a boolean, a number or a
    /// text for itself, and the missing value for null and for anything that
    /// is no single value. A number is read from the text that writes it.
    pub open spec fn operand(self) -> Term {
        match self {
            Json::Bool(b) => Term::Boolean(b),
            Json::Number(text) => Term::number_or_missing(Number::scientific(text)),
            Json::Text(text) => Term::Text(text),
            _ => Term::Missing,
        }
    }

    /// The document reached from `self` by taking the member `keys[0]`, then
    /// of that the member `keys[1]`, and so on.
    pub open spec fn descend(self, keys: Seq<Seq<char>>) -> Json
        decreases keys.len(),
    {
        if keys.len() == 0 {
            self
        } else {
            self.member(keys[0]).descend(keys.drop_first())
        }
    }
}

/// The document that a `serde_json::Value` holds.
pub uninterp spec fn document(v: serde_json::Value) -> Json;

/// Indexing a `serde_json::Value` by a string: the member of that name where
/// the value is an object that has one, and otherwise a null value.
#[verifier::external_body]
fn member_of<'a>(v: &'a serde_json::Value, key: &str) -> (r: &'a serde_json::Value)
    ensures
        document(*r) == document(*v).member(key@),
{
    &v[key]
}

/// `Value::is_null` tells whether the value is the JSON null.
pub assume_specification[ serde_json::Value::is_null ](v: &serde_json::Value) -> (b: bool)
    ensures
        b == (document(*v) is Null),
;

/// `Value::as_bool` yields the boolean that the value is, if it is one.
pub assume_specification[ serde_json::Value::as_bool ](v: &serde_json::Value) -> (r: Option<bool>)
    ensures
        r == (match document(*v) {
            Json::Bool(b) => Some(b),
            _ => None,
        }),
;

/// `Value::as_str` yields the text of the string that the value is, if it is
/// one.
pub assume_specification[ serde_json::Value::as_str ](v: &serde_json::Value) -> (r: Option<&str>)
    ensures
        match document(*v) {
            Json::Text(text) => r matches Some(s) && s@ == text,
            _ => r is None,
        },
;

/// The text that `Display` writes for the `serde_json::Number` that the
/// value is, if it is one.
#[verifier::external_body]
fn number_text(v: &serde_json::Value) -> (r: Option<String>)
    ensures
        match document(*v) {
            Json::Number(text) => r matches Some(s) && s@ == text,
            _ => r is None,
        },
{
    match v {
        serde_json::Value::Number(n) => Some(n.to_string()),
        _ => None,
    }
}

/// Cloning a `serde_json::Value` yields a value that holds the same document.
pub assume_specification[ <serde_json::Value as Clone>::clone ](v: &serde_json::Value) -> (r:
    serde_json::Value)
    ensures
        document(r) == document(*v),
;

/// The value at the dotted path `path` in the document `doc`: `Null` where a
/// segment names no member, or where the walk comes upon anything but an
/// object.
pub open spec fn resolve(doc: Json, path: Seq<char>) -> Json {
    doc.descend(split(path, '.'))
}

/// Nothing is reached from `Null`.
pub proof fn lemma_descend_null(keys: Seq<Seq<char>>)
    ensures
        Json::Null.descend(keys) == Json::Null,
    decreases keys.len(),
{
    if keys.len() > 0 {
        lemma_descend_null(keys.drop_first());
    }
}

/// The value at the dotted path `name` in `context`.
pub fn get_context_var(name: &String, context: &serde_json::Value) -> (r: serde_json::Value)
    ensures
        document(r) == resolve(document(*context), name@),
{
    let chars = chars_of(name.as_str());
    let keys = split_at(&chars, '.');
    let ghost all = split(name@, '.');
    let mut cur: &serde_json::Value = context;
    let mut i: usize = 0;
    proof {
        assert(all.skip(0) =~= all);
    }
    while i < keys.len()
        invariant
            i <= keys.len(),
            texts(keys@) == all,
            all == split(name@, '.'),
            document(*cur).descend(all.skip(i as int)) == resolve(document(*context), name@),
        decreases keys.len() - i,
    {
        let key = string_of(&keys[i], 0, keys[i].len());
        proof {
            assert(key@ == keys@[i as int]@);
            assert(all.skip(i as int)[0] == key@);
            assert(all.skip(i as int).drop_first() =~= all.skip(i + 1));
        }
        cur = member_of(cur, key.as_str());
        if cur.is_null() {
            proof {
                lemma_descend_null(all.skip(i + 1));
            }
            return cur.clone();
        }
        i += 1;
    }
    cur.clone()
}

/// The operand that stands for the value `v`.
pub fn to_operand(v: &serde_json::Value) -> (r: Operand)
    ensures
        r@ == document(*v).operand(),
{
    if let Some(b) = v.as_bool() {
        Operand::Boolean(b)
    } else if let Some(s) = v.as_str() {
        Operand::String(s.to_owned())
    } else if let Some(text) = number_text(v) {
        match Number::from_scientific(text.as_str()) {
            Some(n) => Operand::Number(n),
            None => Operand::Missing,
        }
    } else {
        Operand::Missing
    }
}

/// The operand that stands for the value at the dotted path `name` in
/// `context`; the missing value where there is none.
pub fn var_to_operand(name: &String, context: &serde_json::Value) -> (r: Operand)
    ensures
        r@ == resolve(document(*context), name@).operand(),
{
    let value = get_context_var(name, context);
    to_operand(&value)
}

} // verus!
