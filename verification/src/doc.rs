//! The generic document that records and collections are persisted as: a
//! text leaf, or a mapping from string keys to nested documents. The stored
//! format uses two levels of mapping (the root maps `todo_list` to a mapping
//! from GUIDs to record mappings), but the type itself is free-form, as a
//! parsed file may hold anything.

use vstd::prelude::*;
use crate::text::str_eq;

verus! {

/// One node of a parsed document.
pub enum Doc {
    /// A scalar, kept as its text.
    Text(String),
    /// A mapping, kept in document order; keys may repeat in a hand-made
    /// document, and a lookup then takes the first occurrence.
    Mapping(Vec<(String, Doc)>),
}

/// The text of a leaf (the empty sequence on a mapping).
pub open spec fn text_of(d: Doc) -> Seq<char> {
    match d {
        Doc::Text(s) => s@,
        Doc::Mapping(_) => Seq::empty(),
    }
}

/// The entries of a mapping (the empty sequence on a leaf).
pub open spec fn entries_of(d: Doc) -> Seq<(String, Doc)> {
    match d {
        Doc::Text(_) => Seq::empty(),
        Doc::Mapping(es) => es@,
    }
}

/// The value under `key`, taking the first pair that carries it.
pub open spec fn doc_lookup(entries: Seq<(String, Doc)>, key: Seq<char>) -> Option<Doc>
    decreases entries.len(),
{
    if entries.len() == 0 {
        None
    } else if entries[0].0@ == key {
        Some(entries[0].1)
    } else {
        doc_lookup(entries.drop_first(), key)
    }
}

/// First-match lookup among a mapping's entries.
pub fn doc_get<'a>(entries: &'a Vec<(String, Doc)>, key: &str) -> (r: Option<&'a Doc>)
    ensures
        match r {
            Some(d) => doc_lookup(entries@, key@) == Some(*d),
            None => doc_lookup(entries@, key@) is None,
        },
{
    let mut i: usize = 0;
    proof {
        assert(entries@.skip(0) =~= entries@);
    }
    while i < entries.len()
        invariant
            0 <= i <= entries@.len(),
            doc_lookup(entries@, key@) == doc_lookup(entries@.skip(i as int), key@),
        decreases entries@.len() - i,
    {
        if str_eq(entries[i].0.as_str(), key) {
            proof {
                assert(entries@.skip(i as int)[0] == entries@[i as int]);
            }
            return Some(&entries[i].1);
        }
        proof {
            assert(entries@.skip(i as int)[0] == entries@[i as int]);
            assert(entries@.skip(i as int).drop_first() =~= entries@.skip(i + 1));
        }
        i += 1;
    }
    proof {
        assert(entries@.skip(i as int).len() == 0);
    }
    None
}

} // verus!
