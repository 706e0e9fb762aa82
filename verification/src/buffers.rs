//! The open documents, held in a `dashmap::DashMap` from a document's URI to its text.

use crate::rope::rope_text;
use dashmap::DashMap;
use ropey::Rope;
use vstd::prelude::*;

verus! {

/// `dashmap::DashMap`, of which only the contents are spoken: see `buffer_texts`. The map can be
/// changed through a shared reference; here every change goes through an exclusive one, so that the
/// contents stand still between the calls.
#[verifier::external_type_specification]
#[verifier::external_body]
#[verifier::reject_recursive_types(K)]
#[verifier::reject_recursive_types(V)]
#[verifier::reject_recursive_types(S)]
pub struct ExDashMap<K, V, S>(DashMap<K, V, S>);

/// The texts that a map of buffers holds, by URI.
pub uninterp spec fn buffer_texts(buffers: DashMap<String, Rope>) -> Map<Seq<char>, Seq<char>>;

/// `DashMap::new` makes a map that holds nothing.
#[verifier::external_body]
pub(crate) fn buffers_new() -> (buffers: DashMap<String, Rope>)
    ensures
        buffer_texts(buffers).dom() == Set::<Seq<char>>::empty(),
{
    DashMap::new()
}

/// `DashMap::entry` with `or_default` gives the place for a key, which is set to `text`: the key
/// then has this value, whatever it had before, and no other key changes.
#[verifier::external_body]
pub(crate) fn buffers_set(buffers: &mut DashMap<String, Rope>, uri: String, text: Rope)
    ensures
        buffer_texts(*final(buffers)) == buffer_texts(*old(buffers)).insert(uri@, rope_text(text)),
{
    *buffers.entry(uri).or_default() = text;
}

/// `DashMap::remove` takes a key and its value out of the map, where it is there, and leaves the
/// others alone.
#[verifier::external_body]
pub(crate) fn buffers_remove(buffers: &mut DashMap<String, Rope>, uri: &String)
    ensures
        buffer_texts(*final(buffers)) == buffer_texts(*old(buffers)).remove(uri@),
{
    buffers.remove(uri);
}

/// `DashMap::get` finds the value for a key, of which a clone is handed out.
#[verifier::external_body]
pub(crate) fn buffers_get(buffers: &DashMap<String, Rope>, uri: &String) -> (found: Option<Rope>)
    ensures
        match found {
            Some(text) => buffer_texts(*buffers).dom().contains(uri@) && rope_text(text)
                == buffer_texts(*buffers)[uri@],
            None => !buffer_texts(*buffers).dom().contains(uri@),
        },
{
    buffers.get(uri).map(|buffer| buffer.value().clone())
}

} // verus!
