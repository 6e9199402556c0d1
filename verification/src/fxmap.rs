//! The hash maps of `rustc_hash` that the library keys by names and paths.
//!
//! `FxHashMap<K, V>` is `std::collections::HashMap<K, V, FxBuildHasher>`.
//! Verus sees no inside of such a map: what one holds is named by the
//! functions `*_entries` below, and each operation that the library uses is
//! a small function here whose contract states what the operation does to
//! those entries.  These contracts are trusted: `FxBuildHasher` hashes a
//! `String` deterministically and `String` equality is equality of the text,
//! so a lookup finds exactly the entry stored under an equal key.
use vstd::prelude::*;

use rustc_hash::{FxBuildHasher, FxHashMap};

use crate::files::FileMeta;
use crate::parse::{Instruction, InstructionView};
use crate::strutil::views;

verus! {

#[verifier::external_type_specification]
#[verifier::external_body]
pub struct ExFxBuildHasher(FxBuildHasher);

pub type TextMap = FxHashMap<String, String>;

pub type ListMap = FxHashMap<String, Vec<String>>;

pub type InstructionMap = FxHashMap<String, Instruction>;

pub type IdMap = FxHashMap<String, usize>;

pub type HashTable = FxHashMap<String, u64>;

pub type MetaMap = FxHashMap<String, Option<FileMeta>>;

/// The entries of a map from names to texts.
pub uninterp spec fn text_entries(m: FxHashMap<String, String>) -> Map<Seq<char>, Seq<char>>;

/// The entries of a map from names to lists of texts.
pub uninterp spec fn list_entries(m: FxHashMap<String, Vec<String>>) -> Map<
    Seq<char>,
    Seq<Seq<char>>,
>;

/// The entries of a map from names to instructions.
pub uninterp spec fn instruction_entries(m: FxHashMap<String, Instruction>) -> Map<
    Seq<char>,
    InstructionView,
>;

/// The entries of a map from paths to node numbers.
pub uninterp spec fn id_entries(m: FxHashMap<String, usize>) -> Map<Seq<char>, usize>;

/// The entries of a map from paths to command hashes.
pub uninterp spec fn hash_entries(m: FxHashMap<String, u64>) -> Map<Seq<char>, u64>;

/// The entries of a map from paths to what a stat found.
pub uninterp spec fn meta_entries(m: FxHashMap<String, Option<FileMeta>>) -> Map<
    Seq<char>,
    Option<FileMeta>,
>;

// ---- maps from names to texts ----
/// `FxHashMap::default()`: a map with no entries.
#[verifier::external_body]
pub(crate) fn text_map_new() -> (r: TextMap)
    ensures
        text_entries(r).dom().is_empty(),
{
    FxHashMap::default()
}

/// `FxHashMap::get`: the text stored under `k`, if any.
#[verifier::external_body]
pub(crate) fn text_map_get<'a>(m: &'a FxHashMap<String, String>, k: &str) -> (r: Option<&'a String>)
    ensures
        r is Some <==> text_entries(*m).contains_key(k@),
        r matches Some(v) ==> v@ == text_entries(*m)[k@],
{
    m.get(k)
}

/// `FxHashMap::insert`: stores `v` under `k`, replacing what was there.
#[verifier::external_body]
pub(crate) fn text_map_insert(m: &mut FxHashMap<String, String>, k: String, v: String)
    ensures
        text_entries(*final(m)) == text_entries(*old(m)).insert(k@, v@),
{
    m.insert(k, v);
}

// ---- maps from names to lists of texts ----
/// `FxHashMap::default()`: a map with no entries.
#[verifier::external_body]
pub(crate) fn list_map_new() -> (r: ListMap)
    ensures
        list_entries(r).dom().is_empty(),
{
    FxHashMap::default()
}

/// `FxHashMap::get`: the list stored under `k`, if any.
#[verifier::external_body]
pub(crate) fn list_map_get<'a>(m: &'a FxHashMap<String, Vec<String>>, k: &str) -> (r: Option<
    &'a Vec<String>,
>)
    ensures
        r is Some <==> list_entries(*m).contains_key(k@),
        r matches Some(v) ==> views(v@) == list_entries(*m)[k@],
{
    m.get(k)
}

/// `FxHashMap::insert`: stores `v` under `k`, replacing what was there.
#[verifier::external_body]
pub(crate) fn list_map_insert(m: &mut FxHashMap<String, Vec<String>>, k: String, v: Vec<String>)
    ensures
        list_entries(*final(m)) == list_entries(*old(m)).insert(k@, views(v@)),
{
    m.insert(k, v);
}

/// `FxHashMap::remove`: takes out the list stored under `k`, if any.
#[verifier::external_body]
pub(crate) fn list_map_remove(m: &mut FxHashMap<String, Vec<String>>, k: &str) -> (r: Option<
    Vec<String>,
>)
    ensures
        list_entries(*final(m)) == list_entries(*old(m)).remove(k@),
        r is Some <==> list_entries(*old(m)).contains_key(k@),
        r matches Some(v) ==> views(v@) == list_entries(*old(m))[k@],
{
    m.remove(k)
}

// ---- maps from names to instructions ----
/// `FxHashMap::default()`: a map with no entries.
#[verifier::external_body]
pub(crate) fn instruction_map_new() -> (r: InstructionMap)
    ensures
        instruction_entries(r).dom().is_empty(),
{
    FxHashMap::default()
}

/// `FxHashMap::get`: the instruction stored under `k`, if any.
#[verifier::external_body]
pub(crate) fn instruction_map_get<'a>(m: &'a FxHashMap<String, Instruction>, k: &str) -> (r: Option<
    &'a Instruction,
>)
    ensures
        r is Some <==> instruction_entries(*m).contains_key(k@),
        r matches Some(v) ==> v@ == instruction_entries(*m)[k@],
{
    m.get(k)
}

/// `FxHashMap::insert`: stores `v` under `k`, replacing what was there.
#[verifier::external_body]
pub(crate) fn instruction_map_insert(m: &mut FxHashMap<String, Instruction>, k: String, v: Instruction)
    ensures
        instruction_entries(*final(m)) == instruction_entries(*old(m)).insert(k@, v@),
{
    m.insert(k, v);
}

// ---- maps from paths to node numbers ----
/// `FxHashMap::default()`: a map with no entries.
#[verifier::external_body]
pub(crate) fn id_map_new() -> (r: IdMap)
    ensures
        id_entries(r).dom().is_empty(),
{
    FxHashMap::default()
}

/// `FxHashMap::get`: the number stored under `k`, if any.
#[verifier::external_body]
pub(crate) fn id_map_get(m: &FxHashMap<String, usize>, k: &str) -> (r: Option<usize>)
    ensures
        r is Some <==> id_entries(*m).contains_key(k@),
        r matches Some(v) ==> v == id_entries(*m)[k@],
{
    m.get(k).copied()
}

/// `FxHashMap::insert`: stores `v` under `k`, replacing what was there.
#[verifier::external_body]
pub(crate) fn id_map_insert(m: &mut FxHashMap<String, usize>, k: String, v: usize)
    ensures
        id_entries(*final(m)) == id_entries(*old(m)).insert(k@, v),
{
    m.insert(k, v);
}

// ---- maps from paths to command hashes ----
/// `FxHashMap::default()`: a map with no entries.
#[verifier::external_body]
pub(crate) fn hash_map_new() -> (r: HashTable)
    ensures
        hash_entries(r).dom().is_empty(),
{
    FxHashMap::default()
}

/// `FxHashMap::get`: the hash stored under `k`, if any.
#[verifier::external_body]
pub(crate) fn hash_map_get(m: &FxHashMap<String, u64>, k: &str) -> (r: Option<u64>)
    ensures
        r is Some <==> hash_entries(*m).contains_key(k@),
        r matches Some(v) ==> v == hash_entries(*m)[k@],
{
    m.get(k).copied()
}

/// `FxHashMap::insert`: stores `v` under `k`, replacing what was there.
#[verifier::external_body]
pub(crate) fn hash_map_insert(m: &mut FxHashMap<String, u64>, k: String, v: u64)
    ensures
        hash_entries(*final(m)) == hash_entries(*old(m)).insert(k@, v),
{
    m.insert(k, v);
}

/// `FxHashMap::iter`: every entry once, as (key, hash) pairs, in the map's
/// own order, which nothing here states.
#[verifier::external_body]
pub(crate) fn hash_map_pairs(m: &FxHashMap<String, u64>) -> (r: Vec<(String, u64)>)
    ensures
        forall|i: int, j: int|
            0 <= i < j < r@.len() ==> (#[trigger] r@[i]).0@ != (#[trigger] r@[j]).0@,
        forall|i: int|
            0 <= i < r@.len() ==> hash_entries(*m).contains_key((#[trigger] r@[i]).0@)
                && hash_entries(*m)[r@[i].0@] == r@[i].1,
        forall|k: Seq<char>|
            #[trigger] hash_entries(*m).contains_key(k) ==> exists|i: int|
                0 <= i < r@.len() && (#[trigger] r@[i]).0@ == k,
{
    m.iter().map(|(k, v)| (k.clone(), *v)).collect()
}

// ---- maps from paths to stat results ----
/// `FxHashMap::default()`: a map with no entries.
#[verifier::external_body]
pub(crate) fn meta_map_new() -> (r: MetaMap)
    ensures
        meta_entries(r).dom().is_empty(),
{
    FxHashMap::default()
}

/// `FxHashMap::get`: the stat result stored under `k`, if any.
#[verifier::external_body]
pub(crate) fn meta_map_get(m: &FxHashMap<String, Option<FileMeta>>, k: &str) -> (r: Option<
    Option<FileMeta>,
>)
    ensures
        r is Some <==> meta_entries(*m).contains_key(k@),
        r matches Some(v) ==> v == meta_entries(*m)[k@],
{
    m.get(k).copied()
}

/// `FxHashMap::insert`: stores `v` under `k`, replacing what was there.
#[verifier::external_body]
pub(crate) fn meta_map_insert(m: &mut FxHashMap<String, Option<FileMeta>>, k: String, v: Option<FileMeta>)
    ensures
        meta_entries(*final(m)) == meta_entries(*old(m)).insert(k@, v),
{
    m.insert(k, v);
}

/// `FxHashMap::remove`: takes out what is stored under `k`.
#[verifier::external_body]
pub(crate) fn meta_map_remove(m: &mut FxHashMap<String, Option<FileMeta>>, k: &str)
    ensures
        meta_entries(*final(m)) == meta_entries(*old(m)).remove(k@),
{
    m.remove(k);
}

} // verus!
