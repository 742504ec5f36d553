use vstd::prelude::*;

verus! {

#[verifier::external_type_specification]
#[verifier::external_body]
#[verifier::reject_recursive_types(K)]
#[verifier::reject_recursive_types(V)]
pub struct ExTrie<K, V>(radix_trie::Trie<K, V>);

/// The key-value entries a trie holds, abstracted as a map from the byte
/// sequence to the code value stored under it.
pub uninterp spec fn trie_entries(t: radix_trie::Trie<Vec<u8>, u16>) -> Map<Seq<u8>, u16>;

/// Relies on radix_trie::Trie::new: creates a trie with no entries.
#[verifier::external_body]
pub(crate) fn trie_new() -> (t: radix_trie::Trie<Vec<u8>, u16>)
    ensures
        trie_entries(t) =~= Map::empty(),
{
    radix_trie::Trie::new()
}

/// Relies on radix_trie::Trie::get: fetches the value stored under exactly
/// this key, if any.
#[verifier::external_body]
pub(crate) fn trie_get(t: &radix_trie::Trie<Vec<u8>, u16>, key: &Vec<u8>) -> (r: Option<u16>)
    ensures
        r == if trie_entries(*t).dom().contains(key@) {
            Some(trie_entries(*t)[key@])
        } else {
            None::<u16>
        },
{
    t.get(key).copied()
}

/// Relies on radix_trie::Trie::insert: stores the value under the key,
/// replacing any previous value for that exact key.
#[verifier::external_body]
pub(crate) fn trie_insert(t: &mut radix_trie::Trie<Vec<u8>, u16>, key: Vec<u8>, value: u16)
    ensures
        trie_entries(*final(t)) == trie_entries(*old(t)).insert(key@, value),
{
    t.insert(key, value);
}

} // verus!
