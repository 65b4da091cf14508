//! The hash tables of the Huffman coder: `ahash::AHashMap`, declared to the
//! verifier with what its lookups and inserts do to the table's contents.
use vstd::prelude::*;
use ahash::{AHashMap, RandomState};

verus! {

/// The hasher builder of `AHashMap`; its random keys change where entries
/// sit in the table, never what a lookup finds.
#[verifier::external_type_specification]
#[verifier::external_body]
pub struct ExRandomState(RandomState);

/// `ahash::AHashMap`, a wrapper of `std::collections::HashMap`.
#[verifier::external_type_specification]
#[verifier::external_body]
#[verifier::reject_recursive_types(K)]
#[verifier::reject_recursive_types(V)]
#[verifier::reject_recursive_types(S)]
pub struct ExAHashMap<K, V, S>(AHashMap<K, V, S>);

/// A table of byte counts.
pub type CountTable = AHashMap<u8, u64>;

/// A table of byte codes.
pub type CodeTable = AHashMap<u8, Vec<bool>>;

/// A table from codes to bytes.
pub type SymbolTable = AHashMap<Vec<bool>, u8>;

/// The counts a table of byte counts holds.
pub uninterp spec fn count_table(m: AHashMap<u8, u64>) -> Map<u8, u64>;

/// The codes a table of byte codes holds.
pub uninterp spec fn code_table(m: AHashMap<u8, Vec<bool>>) -> Map<u8, Seq<bool>>;

/// The bytes a table from codes to bytes holds.
pub uninterp spec fn symbol_table(m: AHashMap<Vec<bool>, u8>) -> Map<Seq<bool>, u8>;

/// `AHashMap::new`: an empty table.
#[verifier::external_body]
pub(crate) fn new_count_table() -> (r: CountTable)
    ensures
        (count_table(r) == Map::<u8, u64>::empty()),
{
    AHashMap::new()
}

/// `AHashMap::get`: the count of `k`, if the table holds one.
#[verifier::external_body]
pub(crate) fn count_table_get(m: &AHashMap<u8, u64>, k: u8) -> (r: Option<u64>)
    ensures
        r == (if count_table(*m).contains_key(k) { Some(count_table(*m)[k]) } else { None::<u64> }),
{
    m.get(&k).copied()
}

/// `AHashMap::insert`: the table with `k` mapped to `v`.
#[verifier::external_body]
pub(crate) fn count_table_insert(m: &mut AHashMap<u8, u64>, k: u8, v: u64)
    ensures
        count_table(*final(m)) == count_table(*old(m)).insert(k, v),
{
    m.insert(k, v);
}

/// `AHashMap::new`: an empty table.
#[verifier::external_body]
pub(crate) fn new_code_table() -> (r: CodeTable)
    ensures
        (code_table(r) == Map::<u8, Seq<bool>>::empty()),
{
    AHashMap::new()
}

/// `AHashMap::get`: the code of `k`, if the table holds one.
#[verifier::external_body]
pub(crate) fn code_table_get(m: &AHashMap<u8, Vec<bool>>, k: u8) -> (r: Option<&Vec<bool>>)
    ensures
        r is Some <==> code_table(*m).contains_key(k),
        r matches Some(v) ==> v@ == code_table(*m)[k],
{
    m.get(&k)
}

/// `AHashMap::insert`: the table with `k` mapped to `v`.
#[verifier::external_body]
pub(crate) fn code_table_insert(m: &mut AHashMap<u8, Vec<bool>>, k: u8, v: Vec<bool>)
    ensures
        code_table(*final(m)) == code_table(*old(m)).insert(k, v@),
{
    m.insert(k, v);
}

/// `AHashMap::new`: an empty table.
#[verifier::external_body]
pub(crate) fn new_symbol_table() -> (r: SymbolTable)
    ensures
        (symbol_table(r) == Map::<Seq<bool>, u8>::empty()),
{
    AHashMap::new()
}

/// `AHashMap::get`: the byte of code `k`, if the table holds one; keys
/// compare as `Vec<bool>` does, element by element.
#[verifier::external_body]
pub(crate) fn symbol_table_get(m: &AHashMap<Vec<bool>, u8>, k: &Vec<bool>) -> (r: Option<u8>)
    ensures
        r == (if symbol_table(*m).contains_key(k@) { Some(symbol_table(*m)[k@]) } else { None::<u8> }),
{
    m.get(k).copied()
}

/// `AHashMap::insert`: the table with `k` mapped to `v`.
#[verifier::external_body]
pub(crate) fn symbol_table_insert(m: &mut AHashMap<Vec<bool>, u8>, k: Vec<bool>, v: u8)
    ensures
        symbol_table(*final(m)) == symbol_table(*old(m)).insert(k@, v),
{
    m.insert(k, v);
}

} // verus!
