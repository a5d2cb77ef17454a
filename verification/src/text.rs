//! Strings and their characters.
use vstd::prelude::*;

verus! {

/// The texts in a list of strings.
pub open spec fn texts(strings: Seq<String>) -> Seq<Seq<char>> {
    strings.map_values(|s: String| s@)
}

/// The characters of an optional string.
pub open spec fn optional_text(s: Option<String>) -> Option<Seq<char>> {
    match s {
        Some(text) => Some(text@),
        None => None,
    }
}

/// Copies an optional string.
pub fn clone_optional_text(s: &Option<String>) -> (copy: Option<String>)
    ensures
        optional_text(copy) == optional_text(*s),
        copy is Some == s is Some,
        s is Some ==> copy->0@ == s->0@,
{
    match s {
        Some(text) => Some(text.clone()),
        None => None,
    }
}

/// Whether two texts are the same.
pub fn same_text(a: &str, b: &str) -> (same: bool)
    ensures
        same == (a@ == b@),
{
    a.to_owned() == b.to_owned()
}

/// A list of strings has one text for each string, in the same order, and an optional string has a
/// text exactly if it is there.
pub proof fn lemma_texts(strings: Seq<String>, s: Option<String>)
    ensures
        texts(strings).len() == strings.len(),
        forall|i: int| 0 <= i < strings.len() ==> #[trigger] texts(strings)[i] == strings[i]@,
        optional_text(s) is Some <==> s is Some,
        s is Some ==> optional_text(s)->0 == s->0@,
{
}

} // verus!
