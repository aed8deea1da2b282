//! The finite-state map from keywords to keyword numbers, held as bytes.
use vstd::prelude::*;
use crate::order::lex_lt;
use vstd::utf8::{encode_utf8, decode_utf8, valid_utf8};
use fst::{IntoStreamer, Streamer};

verus! {

/// The bytes `fst::MapBuilder` writes for key-value pairs inserted in order.
pub uninterp spec fn fst_built(pairs: Seq<(Seq<u8>, u64)>) -> Seq<u8>;

/// The key-value pairs an FST map holds, in key order.
pub uninterp spec fn fst_entries(bytes: Seq<u8>) -> Seq<(Seq<u8>, u64)>;

/// The pairs a union of a Levenshtein-distance-1 search and a prefix search
/// for `word` yields from an FST map, in key order.
pub uninterp spec fn fst_fuzzy(bytes: Seq<u8>, word: Seq<char>) -> Seq<(Seq<u8>, u64)>;

/// Whether `fst::automaton::Levenshtein::new(word, 1)` stays within its state limit.
pub uninterp spec fn levenshtein_fits(word: Seq<char>) -> bool;

/// Bytes that the map builder wrote for keys in increasing order: the only
/// FST bytes this library reads.
pub open spec fn built_map(bytes: Seq<u8>) -> bool {
    &&& keys_increasing(fst_entries(bytes))
    &&& bytes == fst_built(fst_entries(bytes))
}

/// `b` is `a` with at most one character inserted, deleted or substituted.
pub open spec fn within_one_edit(a: Seq<char>, b: Seq<char>) -> bool {
    ||| a == b
    ||| exists|i: int| 0 <= i < a.len() && a.len() == b.len() && #[trigger] a.update(i, b[i]) == b
    ||| exists|i: int| 0 <= i < b.len() && #[trigger] b.remove(i) == a
    ||| exists|i: int| 0 <= i < a.len() && #[trigger] a.remove(i) == b
}

/// A search term finds a key: the key starts with the term's UTF-8 bytes, or
/// the term is ASCII and the key is UTF-8 text within one edit of it.
pub open spec fn term_finds(word: Seq<char>, key: Seq<u8>) -> bool {
    ||| encode_utf8(word).is_prefix_of(key)
    ||| (crate::text::is_ascii_text(word) && valid_utf8(key) && within_one_edit(word, decode_utf8(key)))
}

/// A key is yielded only when it starts with the term's bytes or is UTF-8 text
/// within one edit of the term.
pub open spec fn term_may_find(word: Seq<char>, key: Seq<u8>) -> bool {
    ||| encode_utf8(word).is_prefix_of(key)
    ||| (valid_utf8(key) && within_one_edit(word, decode_utf8(key)))
}

/// Keys in strictly increasing byte order.
pub open spec fn keys_increasing(pairs: Seq<(Seq<u8>, u64)>) -> bool {
    forall|i: int, j: int| 0 <= i < j < pairs.len() ==> lex_lt(#[trigger] pairs[i].0, #[trigger] pairs[j].0)
}

/// The pairs a vector of owned keys and values stands for.
pub open spec fn pairs_view(pairs: Seq<(Vec<u8>, u64)>) -> Seq<(Seq<u8>, u64)> {
    pairs.map_values(|p: (Vec<u8>, u64)| (p.0@, p.1))
}

/// Builds an FST map in memory.
/// Calls `fst::MapBuilder::memory`, `insert` for each pair in order, and
/// `into_inner`. Claimed of them: insertion fails exactly on a key that is not
/// greater than the previous one (writing to memory cannot fail); the bytes are
/// a function of the pairs; reading them back gives the pairs inserted.
#[verifier::external_body]
pub(crate) fn build_fst(pairs: &Vec<(Vec<u8>, u64)>) -> (r: Option<Vec<u8>>)
    ensures
        r is Some <==> keys_increasing(pairs_view(pairs@)),
        r matches Some(b) ==> {
            &&& b@ == fst_built(pairs_view(pairs@))
            &&& fst_entries(b@) == pairs_view(pairs@)
        },
{
    let mut builder = fst::MapBuilder::memory();
    for (key, value) in pairs.iter() {
        if builder.insert(key, *value).is_err() {
            return None;
        }
    }
    builder.into_inner().ok()
}

/// Every key-value pair of an FST map, in key order.
/// Calls `fst::Map::new` and streams `Map::stream`. Reading bytes the builder
/// did not write may panic in the crate, so `requires` asks for the builder's bytes.
#[verifier::external_body]
pub(crate) fn all_entries(bytes: &[u8]) -> (r: Vec<(Vec<u8>, u64)>)
    requires
        built_map(bytes@),
    ensures
        pairs_view(r@) == fst_entries(bytes@),
{
    let mut out = Vec::new();
    if let Ok(map) = fst::Map::new(bytes) {
        let mut stream = map.stream();
        while let Some((key, value)) = stream.next() {
            out.push((key.to_vec(), value));
        }
    }
    out
}

/// The keys within Levenshtein distance 1 of `word`, or starting with it,
/// each once and in key order, with their values.
/// Calls `fst::Map::new`, `fst::automaton::Levenshtein::new(word, 1)`,
/// `fst::automaton::Str::new(word).starts_with()`, `Map::search` for both and
/// `OpBuilder::union`, and streams the union. `requires` asks for the
/// builder's bytes, as for `all_entries`. Claimed of them: the result is a
/// function of the bytes and the word; it fails exactly when the automaton
/// exceeds its state limit; the union yields each key once, in increasing
/// byte order; every pair yielded is a pair of the map whose key
/// starts with the word or is within one edit of it (edits count Unicode
/// characters); every key that starts with the word is yielded, and so is every
/// key within one edit when the word is ASCII. Left unsaid: completeness of the
/// edit search for a non-ASCII word, where the crate's automaton routes every
/// character sharing a leading byte with a query character through that
/// character's transitions, and so misses some of them.
#[verifier::external_body]
pub(crate) fn fuzzy_lookup(bytes: &[u8], word: &str) -> (r: Option<Vec<(Vec<u8>, u64)>>)
    requires
        built_map(bytes@),
    ensures
        r is Some <==> levenshtein_fits(word@),
        r matches Some(v) ==> pairs_view(v@) == fst_fuzzy(bytes@, word@),
        r matches Some(v) ==> keys_increasing(pairs_view(v@)),
        r matches Some(v) ==> forall|i: int| 0 <= i < v@.len() ==> {
            &&& fst_entries(bytes@).contains(#[trigger] pairs_view(v@)[i])
            &&& term_may_find(word@, pairs_view(v@)[i].0)
        },
        r matches Some(v) ==> forall|e: (Seq<u8>, u64)|
            fst_entries(bytes@).contains(e) && term_finds(word@, e.0) ==> #[trigger] pairs_view(v@).contains(e),
{
    let map = fst::Map::new(bytes).ok()?;
    let lev = fst::automaton::Levenshtein::new(word, 1).ok()?;
    let prefix = fst::Automaton::starts_with(fst::automaton::Str::new(word));
    let mut union = fst::map::OpBuilder::new().add(map.search(lev)).add(map.search(prefix)).union();
    let mut out = Vec::new();
    while let Some((key, values)) = union.next() {
        out.push((key.to_vec(), values[0].value));
    }
    Some(out)
}

} // verus!
