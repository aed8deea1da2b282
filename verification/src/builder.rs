//! Building an index from documents.
use vstd::prelude::*;
use vstd::utf8::encode_utf8;
use crate::text::{lowercase, to_lowercase, chars_of};
use crate::order::{lex_lt, strictly_sorted, ranking, strict_order, distinct_positions, bytes_less, bytes_equal,
    lemma_lex_strict_order, lemma_lex_total, lemma_insert_keeps_sorted, lemma_set_of_push, lemma_set_of_insert};
use crate::keywords::{Keyword, IndexConfig, document_keywords, document_keywords_exec, keywords_view, new_rake};
use crate::index::{Document, Index, IndexParts};
use crate::stopwords::{english_stop_lines, english_stop_word_lines};
use crate::strvec::{FsstStrVec, total_bytes, compressed_layout};
use crate::fstmap::{fst_built, build_fst, pairs_view, keys_increasing};
use crate::order::{is_ranked, sort_ranked, lemma_ranking_unique, lemma_sorted_unique};
use crate::keywords::{distinct_texts, lemma_document_keywords_distinct, all_rank_scored, rank_scored, rank_byte, lemma_rank_byte_monotone};
use crate::search::{index_consistent, in_postings, document_fields, fields_of, document_present};
use vstd::slice::slice_to_vec;

verus! {

/// The stop words of a stop-word file's lines: every line that is not empty
/// and does not start with `#`, lowercased.
pub open spec fn stop_words_from(lines: Seq<Seq<char>>) -> Seq<Seq<char>>
    decreases lines.len(),
{
    if lines.len() == 0 {
        Seq::empty()
    } else {
        let prev = stop_words_from(lines.drop_last());
        let line = lines.last();
        if line.len() > 0 && line[0] != '#' {
            prev.push(lowercase(line))
        } else {
            prev
        }
    }
}

/// Reads the stop words from a stop-word file's lines.
pub fn stop_word_list(lines: &Vec<String>) -> (r: Vec<String>)
    ensures
        r@.map_values(|s: String| s@) == stop_words_from(lines@.map_values(|s: String| s@)),
{
    let ghost lv = lines@.map_values(|s: String| s@);
    let n = lines.len();
    let mut r: Vec<String> = Vec::new();
    assert(lv.take(0) =~= Seq::<Seq<char>>::empty());
    for k in 0..n
        invariant
            n == lines@.len(),
            lv == lines@.map_values(|s: String| s@),
            r@.map_values(|s: String| s@) == stop_words_from(lv.take(k as int)),
    {
        assert(lv.take(k + 1).drop_last() =~= lv.take(k as int));
        assert(lv.take(k + 1).last() == lines@[k as int]@);
        let chars = chars_of(lines[k].as_str());
        let ghost before = r@.map_values(|s: String| s@);
        if chars.len() > 0 && chars[0] != '#' {
            let low = to_lowercase(lines[k].as_str());
            r.push(low);
            assert(r@.map_values(|s: String| s@) =~= before.push(low@));
        }
    }
    assert(lv.take(n as int) =~= lv);
    r
}

/// The last position at which `x` occurs, or -1.
pub open spec fn last_index_of(s: Seq<Seq<char>>, x: Seq<char>) -> int
    decreases s.len(),
{
    if s.len() == 0 {
        -1
    } else if s.last() == x {
        s.len() - 1
    } else {
        last_index_of(s.drop_last(), x)
    }
}

pub proof fn lemma_last_index_of(s: Seq<Seq<char>>, p: int)
    requires
        0 <= p < s.len(),
    ensures
        p <= last_index_of(s, s[p]) < s.len(),
        s[last_index_of(s, s[p])] == s[p],
    decreases s.len(),
{
    if s.last() != s[p] {
        assert(s.drop_last()[p] == s[p]);
        lemma_last_index_of(s.drop_last(), p);
    }
}

/// The hrefs of the documents.
pub open spec fn document_hrefs(docs: Seq<Document>) -> Seq<Seq<char>> {
    docs.map_values(|d: Document| d.href@)
}

/// For each document, the last document with the same href: the number its
/// postings refer to it by.
fn document_numbers(documents: &Vec<Document>) -> (r: Vec<usize>)
    ensures
        r@.len() == documents@.len(),
        forall|p: int| 0 <= p < r@.len() ==> #[trigger] r@[p] == last_index_of(
            document_hrefs(documents@),
            document_hrefs(documents@)[p],
        ),
{
    let ghost hv = document_hrefs(documents@);
    let n = documents.len();
    let mut r: Vec<usize> = Vec::new();
    for p in 0..n
        invariant
            n == documents@.len(),
            hv == document_hrefs(documents@),
            r@.len() == p,
            forall|i: int| 0 <= i < p ==> #[trigger] r@[i] == last_index_of(hv, hv[i]),
    {
        let ghost x = hv[p as int];
        assert(x == documents@[p as int].href@);
        proof {
            lemma_last_index_of(hv, p as int);
        }
        let mut j = n;
        assert(hv.take(n as int) =~= hv);
        while j > 0
            invariant
                j <= n,
                n == hv.len(),
                hv == document_hrefs(documents@),
                x == hv[p as int],
                x == documents@[p as int].href@,
                p < n,
                last_index_of(hv, x) == last_index_of(hv.take(j as int), x),
                last_index_of(hv, x) >= p,
            ensures
                last_index_of(hv, x) == last_index_of(hv.take(j as int), x),
                last_index_of(hv, x) >= p,
                j > 0 ==> hv[j - 1] == x,
            decreases j,
        {
            assert(hv.take(j as int).drop_last() =~= hv.take(j - 1));
            assert(hv.take(j as int).last() == hv[j - 1]);
            assert(hv[j - 1] == documents@[j - 1].href@);
            if documents[j - 1].href == documents[p].href {
                break;
            }
            j = j - 1;
        }
        proof {
            if j == 0 {
                assert(last_index_of(hv.take(0), x) == -1);
            } else {
                assert(hv.take(j as int).last() == hv[j - 1]);
            }
        }
        r.push(j - 1);
    }
    r
}

/// Every document's keywords, in document order.
pub open spec fn all_document_keywords(
    docs: Seq<Document>,
    stop_words: Seq<Seq<char>>,
    single: nat,
    multi: nat,
) -> Seq<Seq<Keyword>> {
    docs.map_values(|d: Document| document_keywords(d, stop_words, single, multi))
}

/// A hit of a keyword: rank, document position, and the (document number, score) it posts.
pub type Hit = (u64, usize, (usize, u8));

/// Every (document position, keyword) pair, documents in order, each
/// document's keywords in order.
pub open spec fn occurrences(kws: Seq<Seq<Keyword>>) -> Seq<(int, Keyword)>
    decreases kws.len(),
{
    if kws.len() == 0 {
        Seq::empty()
    } else {
        occurrences(kws.drop_last()) + kws.last().map_values(|k: Keyword| (kws.len() - 1, k))
    }
}

/// The key an occurrence is filed under: its text's UTF-8 bytes.
pub open spec fn occ_key(x: (int, Keyword)) -> Seq<u8> {
    encode_utf8(x.1.0)
}

/// The hit of occurrence `o`: its rank, its document's position, the document
/// number (the last document with the same href) and the score.
pub open spec fn hit_of(occ: Seq<(int, Keyword)>, hrefs: Seq<Seq<char>>, o: int) -> Hit {
    (occ[o].1.1, occ[o].0 as usize, (last_index_of(hrefs, hrefs[occ[o].0]) as usize, occ[o].1.2))
}

/// The hits filed under a key.
pub open spec fn hits_of(occ: Seq<(int, Keyword)>, hrefs: Seq<Seq<char>>, key: Seq<u8>) -> Set<Hit> {
    Set::new(|h: Hit| exists|o: int| 0 <= o < occ.len() && occ_key(occ[o]) == key && h == hit_of(occ, hrefs, o))
}

/// The keys of all occurrences.
pub open spec fn all_keys(occ: Seq<(int, Keyword)>) -> Set<Seq<u8>> {
    occ.map_values(|x: (int, Keyword)| occ_key(x)).to_set()
}

/// The keys as byte strings.
pub open spec fn keys_view(keys: Seq<Vec<u8>>) -> Seq<Seq<u8>> {
    keys.map_values(|k: Vec<u8>| k@)
}

/// A keyword table filing the given occurrences: keys strictly increasing,
/// exactly the occurrences' keys, each with a list of its hits, no two from
/// the same document.
pub open spec fn table_files(
    keys: Seq<Vec<u8>>,
    lists: Seq<Vec<Hit>>,
    occ: Seq<(int, Keyword)>,
    hrefs: Seq<Seq<char>>,
) -> bool {
    &&& strictly_sorted(keys_view(keys), |a: Seq<u8>, b: Seq<u8>| lex_lt(a, b))
    &&& keys_view(keys).to_set() == all_keys(occ)
    &&& lists.len() == keys.len()
    &&& forall|t: int| 0 <= t < lists.len() ==> (#[trigger] lists[t])@.to_set() == hits_of(occ, hrefs, keys[t]@)
    &&& forall|t: int| 0 <= t < lists.len() ==> distinct_positions((#[trigger] lists[t])@)
}

proof fn lemma_hits_push(occ: Seq<(int, Keyword)>, x: (int, Keyword), hrefs: Seq<Seq<char>>, key: Seq<u8>)
    ensures
        hits_of(occ.push(x), hrefs, key) == if occ_key(x) == key {
            hits_of(occ, hrefs, key).insert(hit_of(occ.push(x), hrefs, occ.len() as int))
        } else {
            hits_of(occ, hrefs, key)
        },
{
    let occ2 = occ.push(x);
    assert forall|o: int| 0 <= o < occ.len() implies #[trigger] hit_of(occ2, hrefs, o) == hit_of(occ, hrefs, o) && occ2[o] == occ[o] by {
    }
    let expected = if occ_key(x) == key {
        hits_of(occ, hrefs, key).insert(hit_of(occ2, hrefs, occ.len() as int))
    } else {
        hits_of(occ, hrefs, key)
    };
    assert forall|h: Hit| hits_of(occ2, hrefs, key).contains(h) implies expected.contains(h) by {
        let o = choose|o: int| 0 <= o < occ2.len() && occ_key(occ2[o]) == key && h == hit_of(occ2, hrefs, o);
        if o < occ.len() {
            assert(hit_of(occ2, hrefs, o) == hit_of(occ, hrefs, o));
        }
    }
    assert forall|h: Hit| expected.contains(h) implies hits_of(occ2, hrefs, key).contains(h) by {
        if occ_key(x) == key && h == hit_of(occ2, hrefs, occ.len() as int) {
            assert(occ2[occ.len() as int] == x);
        } else {
            let o = choose|o: int| 0 <= o < occ.len() && occ_key(occ[o]) == key && h == hit_of(occ, hrefs, o);
            assert(hit_of(occ2, hrefs, o) == hit_of(occ, hrefs, o));
        }
    }
    assert(hits_of(occ2, hrefs, key) =~= expected);
}

proof fn lemma_all_keys_push(occ: Seq<(int, Keyword)>, x: (int, Keyword))
    ensures
        all_keys(occ.push(x)) == all_keys(occ).insert(occ_key(x)),
{
    assert(occ.push(x).map_values(|y: (int, Keyword)| occ_key(y)) =~= occ.map_values(|y: (int, Keyword)| occ_key(y)).push(occ_key(x)));
    lemma_set_of_push(occ.map_values(|y: (int, Keyword)| occ_key(y)), occ_key(x));
}

proof fn lemma_no_hits_without_key(occ: Seq<(int, Keyword)>, hrefs: Seq<Seq<char>>, key: Seq<u8>)
    requires
        !all_keys(occ).contains(key),
    ensures
        hits_of(occ, hrefs, key) == Set::<Hit>::empty(),
{
    assert forall|h: Hit| !hits_of(occ, hrefs, key).contains(h) by {
        if hits_of(occ, hrefs, key).contains(h) {
            let o = choose|o: int| 0 <= o < occ.len() && occ_key(occ[o]) == key && h == hit_of(occ, hrefs, o);
            assert(occ.map_values(|y: (int, Keyword)| occ_key(y))[o] == key);
        }
    }
    assert(hits_of(occ, hrefs, key) =~= Set::<Hit>::empty());
}

/// A hit already listed under a key comes from another document than a new
/// occurrence of that key.
proof fn lemma_position_differs(
    occ: Seq<(int, Keyword)>,
    x: (int, Keyword),
    hrefs: Seq<Seq<char>>,
    key: Seq<u8>,
    list: Seq<Hit>,
    i: int,
)
    requires
        0 <= i < list.len(),
        list.to_set() == hits_of(occ, hrefs, key),
        forall|o: int| 0 <= o < occ.len() && #[trigger] occ_key(occ[o]) == key ==> occ[o].0 != x.0,
        0 <= x.0 <= usize::MAX,
        forall|o: int| 0 <= o < occ.len() ==> 0 <= #[trigger] occ[o].0 <= usize::MAX,
    ensures
        list[i].1 != x.0 as usize,
{
    assert(list.to_set().contains(list[i]));
    let o = choose|o: int| 0 <= o < occ.len() && occ_key(occ[o]) == key && list[i] == hit_of(occ, hrefs, o);
    assert(occ[o].0 != x.0);
}

/// Files one more occurrence in the keyword table.
fn file_occurrence(
    keys: &mut Vec<Vec<u8>>,
    lists: &mut Vec<Vec<Hit>>,
    key: Vec<u8>,
    hit: Hit,
    Ghost(occ): Ghost<Seq<(int, Keyword)>>,
    Ghost(x): Ghost<(int, Keyword)>,
    Ghost(hrefs): Ghost<Seq<Seq<char>>>,
)
    requires
        table_files(old(keys)@, old(lists)@, occ, hrefs),
        key@ == occ_key(x),
        hit == hit_of(occ.push(x), hrefs, occ.len() as int),
        forall|o: int| 0 <= o < occ.len() && #[trigger] occ_key(occ[o]) == key@ ==> occ[o].0 != x.0,
        0 <= x.0 <= usize::MAX,
        forall|o: int| 0 <= o < occ.len() ==> 0 <= #[trigger] occ[o].0 <= usize::MAX,
    ensures
        table_files(final(keys)@, final(lists)@, occ.push(x), hrefs),
{
    let ghost kv = keys_view(keys@);
    let ghost occ2 = occ.push(x);
    proof {
        lemma_lex_strict_order();
        lemma_all_keys_push(occ, x);
    }
    let len = keys.len();
    let mut pos: usize = 0;
    while pos < len
        invariant
            pos <= len,
            len == keys@.len(),
            kv == keys_view(keys@),
            forall|i: int| 0 <= i < pos ==> lex_lt(#[trigger] kv[i], key@),
        ensures
            pos < len ==> !lex_lt(kv[pos as int], key@),
            forall|i: int| 0 <= i < pos ==> lex_lt(#[trigger] kv[i], key@),
        decreases len - pos,
    {
        assert(kv[pos as int] == keys@[pos as int]@);
        if !bytes_less(keys[pos].as_slice(), key.as_slice()) {
            break;
        }
        pos = pos + 1;
    }
    let found = pos < len && bytes_equal(keys[pos].as_slice(), key.as_slice());
    if found {
        let ghost old_lists = lists@;
        assert(kv[pos as int] == key@);
        let mut list = lists.remove(pos);
        let ghost old_list = list@;
        list.push(hit);
        lists.insert(pos, list);
        proof {
            lemma_set_of_push(old_list, hit);
            assert(lists@ =~= old_lists.update(pos as int, list));
            assert forall|t: int| 0 <= t < lists@.len() implies (#[trigger] lists@[t])@.to_set() == hits_of(occ2, hrefs, keys@[t]@) by {
                lemma_hits_push(occ, x, hrefs, keys@[t]@);
                if t != pos {
                    assert(kv[t] == keys@[t]@);
                    if kv[t] == key@ {
                        assert(lex_lt(kv[t], kv[pos as int]) || lex_lt(kv[pos as int], kv[t]));
                        crate::order::lemma_lex_irreflexive(key@);
                    }
                }
            }
            assert forall|t: int| 0 <= t < lists@.len() implies distinct_positions((#[trigger] lists@[t])@) by {
                if t == pos {
                    assert forall|i: int, j: int| 0 <= i < list@.len() && 0 <= j < list@.len() && i != j implies (#[trigger] list@[i]).1 != (#[trigger] list@[j]).1 by {
                        if i < old_list.len() && j < old_list.len() {
                            assert(list@[i] == old_list[i] && list@[j] == old_list[j]);
                        } else if i < old_list.len() {
                            assert(list@[i] == old_list[i]);
                            lemma_position_differs(occ, x, hrefs, key@, old_list, i);
                        } else {
                            assert(list@[j] == old_list[j]);
                            lemma_position_differs(occ, x, hrefs, key@, old_list, j);
                        }
                    }
                }
            }
            assert(keys_view(keys@).to_set().insert(key@) =~= keys_view(keys@).to_set());
        }
    } else {
        let ghost old_lists = lists@;
        proof {
            if pos < len {
                assert(kv[pos as int] == keys@[pos as int]@);
                lemma_lex_total(kv[pos as int], key@);
            }
            assert(!kv.to_set().contains(key@)) by {
                if kv.to_set().contains(key@) {
                    let i = choose|i: int| 0 <= i < kv.len() && kv[i] == key@;
                    crate::order::lemma_lex_irreflexive(key@);
                    if i > pos {
                        assert(lex_lt(kv[pos as int], kv[i]));
                        crate::order::lemma_lex_transitive(key@, kv[pos as int], kv[i]);
                    }
                }
            }
            lemma_no_hits_without_key(occ, hrefs, key@);
            lemma_insert_keeps_sorted(kv, key@, pos as int, |a: Seq<u8>, b: Seq<u8>| lex_lt(a, b));
            lemma_set_of_insert(kv, pos as int, key@);
        }
        let mut list: Vec<Hit> = Vec::new();
        list.push(hit);
        keys.insert(pos, key);
        lists.insert(pos, list);
        proof {
            assert(keys_view(keys@) =~= kv.insert(pos as int, key@));
            assert(list@.to_set() =~= Set::<Hit>::empty().insert(hit)) by {
                lemma_set_of_push(Seq::<Hit>::empty(), hit);
                assert(Seq::<Hit>::empty().push(hit) =~= list@);
                assert(Seq::<Hit>::empty().to_set() =~= Set::<Hit>::empty());
            }
            assert forall|t: int| 0 <= t < lists@.len() implies (#[trigger] lists@[t])@.to_set() == hits_of(occ2, hrefs, keys@[t]@) by {
                lemma_hits_push(occ, x, hrefs, keys@[t]@);
                if t < pos {
                    assert(lists@[t] == old_lists[t] && keys@[t]@ == kv[t]);
                    assert(kv.to_set().contains(kv[t]));
                } else if t > pos {
                    assert(lists@[t] == old_lists[t - 1] && keys@[t]@ == kv[t - 1]);
                    assert(kv.to_set().contains(kv[t - 1]));
                }
            }
            assert forall|t: int| 0 <= t < lists@.len() implies distinct_positions((#[trigger] lists@[t])@) by {
                if t < pos {
                    assert(lists@[t] == old_lists[t]);
                } else if t > pos {
                    assert(lists@[t] == old_lists[t - 1]);
                }
            }
        }
    }
}

/// Why an index could not be built.
#[derive(Debug, PartialEq, Eq, Structural)]
pub enum BuildError {
    /// The keyword map refused a key.
    KeywordMap,
}

/// All keys in increasing byte order.
pub open spec fn keyword_list(occ: Seq<(int, Keyword)>) -> Seq<Seq<u8>> {
    choose|s: Seq<Seq<u8>>| s.to_set() == all_keys(occ) && strictly_sorted(s, |a: Seq<u8>, b: Seq<u8>| lex_lt(a, b))
}

/// For each key in order, the (document number, score) of its hits, best
/// ranked first and, among equal ranks, earlier documents first.
pub open spec fn postings_of(occ: Seq<(int, Keyword)>, hrefs: Seq<Seq<char>>) -> Seq<Seq<(usize, u8)>> {
    keyword_list(occ).map_values(|k: Seq<u8>| ranking(hits_of(occ, hrefs, k)).map_values(|h: Hit| h.2))
}

/// Keys paired with their numbers.
pub open spec fn numbered(keys: Seq<Seq<u8>>) -> Seq<(Seq<u8>, u64)> {
    keys.map(|i: int, k: Seq<u8>| (k, i as u64))
}

/// Field `f` of a document: title, category, href, body.
pub open spec fn field_of(doc: Document, f: int) -> Seq<char> {
    if f == 0 {
        doc.title@
    } else if f == 1 {
        doc.category@
    } else if f == 2 {
        doc.href@
    } else {
        doc.body@
    }
}

/// The documents' title, category, href and body, document after document.
pub open spec fn document_text(docs: Seq<Document>) -> Seq<Seq<char>> {
    Seq::new(4 * docs.len(), |i: int| field_of(docs[i / 4], i % 4))
}

/// The stored parts an index built from these documents has: the sorted keys
/// numbered in order, the compressed document text, and each key's postings.
pub open spec fn built_parts(docs: Seq<Document>, stop_words: Seq<Seq<char>>, single: nat, multi: nat) -> IndexParts {
    let occ = occurrences(all_document_keywords(docs, stop_words, single, multi));
    let layout = compressed_layout(document_text(docs));
    (
        numbered(keyword_list(occ)),
        layout.0,
        layout.1,
        layout.2,
        layout.3,
        postings_of(occ, document_hrefs(docs)),
    )
}

/// An index holds exactly what these documents give with these stop words and budgets.
pub open spec fn indexes(idx: Index, docs: Seq<Document>, stop_words: Seq<Seq<char>>, single: nat, multi: nat) -> bool {
    let occ = occurrences(all_document_keywords(docs, stop_words, single, multi));
    &&& idx.parts() == built_parts(docs, stop_words, single, multi)
    &&& idx.strings() == document_text(docs)
    &&& idx.postings() == postings_of(occ, document_hrefs(docs))
    &&& idx.fst_bytes() == fst_built(numbered(keyword_list(occ)))
    &&& crate::fstmap::fst_entries(idx.fst_bytes()) == numbered(keyword_list(occ))
    &&& forall|t: int| 0 <= t < keyword_list(occ).len() ==> vstd::utf8::valid_utf8(#[trigger] keyword_list(occ)[t])
    &&& forall|t: int, k: int| 0 <= t < idx.postings().len() && 0 <= k < idx.postings()[t].len()
        ==> #[trigger] idx.postings()[t][k].0 < docs.len()
    &&& forall|t: int, k: int, l: int| 0 <= t < idx.postings().len() && 0 <= k < l < idx.postings()[t].len()
        ==> (#[trigger] idx.postings()[t][k]).1 >= (#[trigger] idx.postings()[t][l]).1
    &&& forall|t: int| 0 <= t < idx.postings().len() ==> (#[trigger] idx.postings()[t]).len() > 0
    &&& forall|p: int, k: Keyword| 0 <= p < docs.len()
        && #[trigger] document_keywords(docs[p], stop_words, single, multi).contains(k)
        ==> holds_keyword(idx, encode_utf8(k.0), (last_index_of(document_hrefs(docs), docs[p].href@) as usize, k.2))
}

/// The index's map has the key, and the key's posting list holds the entry.
pub open spec fn holds_keyword(idx: Index, key: Seq<u8>, entry: (usize, u8)) -> bool {
    exists|t: int| {
        &&& 0 <= t < crate::fstmap::fst_entries(idx.fst_bytes()).len()
        &&& #[trigger] crate::fstmap::fst_entries(idx.fst_bytes())[t].0 == key
        &&& idx.postings()[crate::fstmap::fst_entries(idx.fst_bytes())[t].1 as int].contains(entry)
    }
}

/// Every keyword of every document has an occurrence.
proof fn lemma_occurrence_of(kws: Seq<Seq<Keyword>>, p: int, j: int) -> (o: int)
    requires
        0 <= p < kws.len(),
        0 <= j < kws[p].len(),
    ensures
        0 <= o < occurrences(kws).len(),
        occurrences(kws)[o] == (p, kws[p][j]),
    decreases kws.len(),
{
    let prev = occurrences(kws.drop_last());
    let tail = kws.last().map_values(|k: Keyword| (kws.len() - 1, k));
    if p < kws.len() - 1 {
        assert(kws.drop_last()[p] == kws[p]);
        let o = lemma_occurrence_of(kws.drop_last(), p, j);
        assert(occurrences(kws)[o] == prev[o]);
        o
    } else {
        assert(tail[j] == (p, kws[p][j]));
        assert(occurrences(kws)[prev.len() + j] == tail[j]);
        prev.len() + j
    }
}

proof fn lemma_occurrences_step(kws: Seq<Seq<Keyword>>, p: int)
    requires
        0 <= p < kws.len(),
    ensures
        occurrences(kws.take(p + 1)) == occurrences(kws.take(p)) + kws[p].map_values(|k: Keyword| (p, k)),
{
    assert(kws.take(p + 1).drop_last() =~= kws.take(p));
    assert(kws.take(p + 1).last() == kws[p]);
}

proof fn lemma_occurrence_positions(kws: Seq<Seq<Keyword>>)
    ensures
        forall|o: int| 0 <= o < occurrences(kws).len() ==> 0 <= #[trigger] occurrences(kws)[o].0 < kws.len(),
    decreases kws.len(),
{
    if kws.len() > 0 {
        lemma_occurrence_positions(kws.drop_last());
        let prev = occurrences(kws.drop_last());
        let tail = kws.last().map_values(|k: Keyword| (kws.len() - 1, k));
        assert forall|o: int| 0 <= o < occurrences(kws).len() implies 0 <= #[trigger] occurrences(kws)[o].0 < kws.len() by {
            if o < prev.len() {
                assert(occurrences(kws)[o] == prev[o]);
            } else {
                assert(occurrences(kws)[o] == tail[o - prev.len()]);
            }
        }
    }
}

proof fn lemma_occurrence_keywords(kws: Seq<Seq<Keyword>>)
    requires
        forall|i: int| 0 <= i < kws.len() ==> all_rank_scored(#[trigger] kws[i]),
    ensures
        forall|o: int| 0 <= o < occurrences(kws).len() ==> rank_scored(#[trigger] occurrences(kws)[o].1),
    decreases kws.len(),
{
    if kws.len() > 0 {
        assert forall|i: int| 0 <= i < kws.drop_last().len() implies all_rank_scored(#[trigger] kws.drop_last()[i]) by {
            assert(kws.drop_last()[i] == kws[i]);
        }
        lemma_occurrence_keywords(kws.drop_last());
        let prev = occurrences(kws.drop_last());
        let last = kws.last();
        assert(all_rank_scored(kws[kws.len() - 1]));
        let tail = last.map_values(|k: Keyword| (kws.len() - 1, k));
        assert forall|o: int| 0 <= o < occurrences(kws).len() implies rank_scored(#[trigger] occurrences(kws)[o].1) by {
            if o < prev.len() {
                assert(occurrences(kws)[o] == prev[o]);
            } else {
                assert(occurrences(kws)[o] == tail[o - prev.len()]);
                assert(rank_scored(last[o - prev.len()]));
            }
        }
    }
}

/// Reverses a vector.
fn reversed<T>(v: Vec<T>) -> (r: Vec<T>)
    ensures
        r@ == v@.reverse(),
{
    let ghost orig = v@;
    let mut v = v;
    let mut r: Vec<T> = Vec::new();
    while v.len() > 0
        invariant
            v@ == orig.take(v@.len() as int),
            r@ == orig.skip(v@.len() as int).reverse(),
            v@.len() <= orig.len(),
        decreases v@.len(),
    {
        let ghost n = v@.len();
        let x = v.pop().unwrap();
        r.push(x);
        assert(v@ =~= orig.take(n - 1));
        assert(r@ =~= orig.skip(n - 1).reverse());
    }
    assert(orig.skip(0) =~= orig);
    r
}

proof fn lemma_text_at(docs: Seq<Document>, p: int, f: int)
    requires
        0 <= p < docs.len(),
        0 <= f < 4,
    ensures
        4 * p + f < document_text(docs).len(),
        document_text(docs)[4 * p + f] == field_of(docs[p], f),
{
    assert((4 * p + f) / 4 == p && (4 * p + f) % 4 == f) by (nonlinear_arith)
        requires 0 <= f < 4;
    assert(4 * p + f < 4 * docs.len()) by (nonlinear_arith)
        requires 0 <= p < docs.len(), 0 <= f < 4;
}

/// Adds one field's bytes to a running total, unless the total would pass the limit.
fn add_field_bytes(total: u64, field: &String, Ghost(text): Ghost<Seq<Seq<char>>>, Ghost(i): Ghost<int>) -> (r: Option<u64>)
    requires
        0 <= i < text.len(),
        text[i] == field@,
        total == total_bytes(text.take(i)),
        2 * total <= u32::MAX,
    ensures
        r is None ==> 2 * total_bytes(text) > u32::MAX,
        r matches Some(t) ==> t == total_bytes(text.take(i + 1)) && 2 * t <= u32::MAX,
{
    proof {
        crate::strvec::lemma_total_bytes_step(text, i);
    }
    let b = field.as_str().as_bytes().len();
    if b as u64 > 2147483647 || total + b as u64 > 2147483647 {
        return None;
    }
    Some(total + b as u64)
}

/// Whether the documents' text is small enough to index: at most half of
/// `u32::MAX` bytes in all.
pub fn documents_fit(documents: &Vec<Document>) -> (r: bool)
    ensures
        r == (2 * total_bytes(document_text(documents@)) <= u32::MAX),
{
    let ghost text = document_text(documents@);
    let n = documents.len();
    let mut total: u64 = 0;
    assert(text.take(0) =~= Seq::<Seq<char>>::empty());
    for p in 0..n
        invariant
            n == documents@.len(),
            text == document_text(documents@),
            text.len() == 4 * n,
            total == total_bytes(text.take(4 * p)),
            2 * total <= u32::MAX,
    {
        let d = &documents[p];
        proof {
            lemma_text_at(documents@, p as int, 0);
            lemma_text_at(documents@, p as int, 1);
            lemma_text_at(documents@, p as int, 2);
            lemma_text_at(documents@, p as int, 3);
        }
        total = match add_field_bytes(total, &d.title, Ghost(text), Ghost(4 * p as int)) {
            Some(t) => t,
            None => return false,
        };
        total = match add_field_bytes(total, &d.category, Ghost(text), Ghost(4 * p + 1)) {
            Some(t) => t,
            None => return false,
        };
        total = match add_field_bytes(total, &d.href, Ghost(text), Ghost(4 * p + 2)) {
            Some(t) => t,
            None => return false,
        };
        total = match add_field_bytes(total, &d.body, Ghost(text), Ghost(4 * p + 3)) {
            Some(t) => t,
            None => return false,
        };
    }
    assert(text.take(4 * n as int) =~= text);
    true
}

/// Build an index from documents, with the stop words of a stop-word file's
/// lines and the given keyword budgets.
pub fn build_index_with_stop_words(
    documents: Vec<Document>,
    stop_lines: &Vec<String>,
    config: &IndexConfig,
) -> (r: Result<Index, BuildError>)
    requires
        2 * total_bytes(document_text(documents@)) <= u32::MAX,
    ensures
        r is Ok,
        r matches Ok(idx) ==> indexes(
            idx,
            documents@,
            stop_words_from(stop_lines@.map_values(|s: String| s@)),
            config.single_word_budget as nat,
            config.multi_word_budget as nat,
        ),
{
    let stop = stop_word_list(stop_lines);
    let ghost sv = stop@.map_values(|s: String| s@);
    let extractor = new_rake(&stop);
    let ghost single = config.single_word_budget as nat;
    let ghost multi = config.multi_word_budget as nat;
    let ghost kv = all_document_keywords(documents@, sv, single, multi);
    let ghost hv = document_hrefs(documents@);
    let n = documents.len();

    // The keywords of each document.
    let mut kws: Vec<Vec<(String, u64, u8)>> = Vec::new();
    for p in 0..n
        invariant
            n == documents@.len(),
            kws@.len() == p,
            kv == all_document_keywords(documents@, sv, single, multi),
            single == config.single_word_budget as nat,
            multi == config.multi_word_budget as nat,
            sv == stop@.map_values(|s: String| s@),
            crate::keywords::rake_stop_words(extractor) == sv.to_set(),
            forall|i: int| 0 <= i < p ==> keywords_view(#[trigger] kws@[i]@) == kv[i],
            forall|i: int| 0 <= i < p ==> all_rank_scored(#[trigger] kv[i]),
    {
        let k = document_keywords_exec(&documents[p], &stop, &extractor, config);
        kws.push(k);
    }
    let numbers = document_numbers(&documents);
    proof {
        assert forall|i: int| 0 <= i < n implies distinct_texts(#[trigger] kv[i]) by {
            lemma_document_keywords_distinct(documents@[i], sv, single, multi);
        }
    }

    // File every keyword occurrence under its key.
    let mut keys: Vec<Vec<u8>> = Vec::new();
    let mut lists: Vec<Vec<Hit>> = Vec::new();
    proof {
        crate::order::lemma_lex_strict_order();
        assert(kv.take(0) =~= Seq::<Seq<Keyword>>::empty());
        assert(keys_view(keys@).to_set() =~= Set::<Seq<u8>>::empty());
        assert(all_keys(occurrences(kv.take(0))) =~= Set::<Seq<u8>>::empty());
    }
    for p in 0..n
        invariant
            n == documents@.len(),
            kws@.len() == n,
            kv.len() == n,
            hv == document_hrefs(documents@),
            numbers@.len() == n,
            forall|i: int| 0 <= i < n ==> #[trigger] numbers@[i] == last_index_of(hv, hv[i]),
            forall|i: int| 0 <= i < n ==> keywords_view(#[trigger] kws@[i]@) == kv[i],
            forall|i: int| 0 <= i < n ==> distinct_texts(#[trigger] kv[i]),
            table_files(keys@, lists@, occurrences(kv.take(p as int)), hv),
    {
        let ghost done = occurrences(kv.take(p as int));
        let ghost cur = kv[p as int];
        proof {
            lemma_occurrence_positions(kv.take(p as int));
            lemma_occurrences_step(kv, p as int);
            assert(cur.take(0).map_values(|k: Keyword| (p as int, k)) =~= Seq::<(int, Keyword)>::empty());
            assert(done + cur.take(0).map_values(|k: Keyword| (p as int, k)) =~= done);
        }
        let doc_kws = &kws[p];
        let m = doc_kws.len();
        for k in 0..m
            invariant
                m == doc_kws@.len(),
                keywords_view(doc_kws@) == cur,
                distinct_texts(cur),
                p < n,
                numbers@.len() == n,
                hv.len() == n,
                numbers@[p as int] == last_index_of(hv, hv[p as int]),
                forall|o: int| 0 <= o < done.len() ==> 0 <= #[trigger] done[o].0 < p,
                table_files(keys@, lists@, done + cur.take(k as int).map_values(|x: Keyword| (p as int, x)), hv),
        {
            let ghost q = done + cur.take(k as int).map_values(|x: Keyword| (p as int, x));
            let ghost x = (p as int, cur[k as int]);
            let kw = &doc_kws[k];
            assert(keywords_view(doc_kws@)[k as int] == (kw.0@, kw.1, kw.2));
            let key = slice_to_vec(kw.0.as_str().as_bytes());
            let hit: Hit = (kw.1, p, (numbers[p], kw.2));
            proof {
                assert forall|o: int| 0 <= o < q.len() && #[trigger] occ_key(q[o]) == key@ implies q[o].0 != x.0 by {
                    if o >= done.len() {
                        let j = o - done.len();
                        assert(q[o] == (p as int, cur[j]));
                        if encode_utf8(cur[j].0) == encode_utf8(cur[k as int].0) {
                            vstd::utf8::encode_utf8_decode_utf8(cur[j].0);
                            vstd::utf8::encode_utf8_decode_utf8(cur[k as int].0);
                        }
                    } else {
                        assert(q[o] == done[o]);
                    }
                }
                assert forall|o: int| 0 <= o < q.len() implies 0 <= #[trigger] q[o].0 <= usize::MAX by {
                    if o >= done.len() {
                        assert(q[o] == (p as int, cur[o - done.len()]));
                    } else {
                        assert(q[o] == done[o]);
                    }
                }
                assert(q.push(x)[q.len() as int] == x);
            }
            file_occurrence(&mut keys, &mut lists, key, hit, Ghost(q), Ghost(x), Ghost(hv));
            assert(q.push(x) =~= done + cur.take(k + 1).map_values(|y: Keyword| (p as int, y)));
        }
        assert(cur.take(m as int) =~= cur);
    }
    assert(kv.take(n as int) =~= kv);
    let ghost occ = occurrences(kv);
    let ghost klist = keyword_list(occ);
    proof {
        assert(keys_view(keys@).to_set() == all_keys(occ));
        lemma_sorted_unique(keys_view(keys@), klist, |a: Seq<u8>, b: Seq<u8>| lex_lt(a, b));
        lemma_occurrence_positions(kv);
        lemma_occurrence_keywords(kv);
    }

    // Rank each key's hits and number the keys.
    let nk = keys.len();
    let ghost kraw = keys@;
    let ghost kview = keys_view(keys@);
    let ghost lview = lists@;
    let mut rest_keys = reversed(keys);
    let mut rest_lists = reversed(lists);
    let mut pairs: Vec<(Vec<u8>, u64)> = Vec::new();
    let mut postings: Vec<Vec<(usize, u8)>> = Vec::new();
    for t in 0..nk
        invariant
            nk == kview.len(),
            nk == lview.len(),
            kview == klist,
            klist == keyword_list(occ),
            kview == keys_view(kraw),
            table_files(kraw, lview, occ, hv),
            rest_keys@.len() == nk - t,
            rest_lists@.len() == nk - t,
            forall|i: int| 0 <= i < nk - t ==> (#[trigger] rest_keys@[i])@ == kview[nk - 1 - i],
            forall|i: int| 0 <= i < nk - t ==> #[trigger] rest_lists@[i] == lview[nk - 1 - i],
            pairs_view(pairs@) == numbered(klist).take(t as int),
            crate::index::postings_view(postings@) == postings_of(occ, hv).take(t as int),
            hv.len() == n,
            n == documents@.len(),
            forall|o: int| 0 <= o < occ.len() ==> 0 <= #[trigger] occ[o].0 < n,
            forall|u: int, k: int| 0 <= u < postings@.len() && 0 <= k < postings@[u]@.len()
                ==> #[trigger] postings@[u]@[k].0 < n,
            forall|o: int| 0 <= o < occ.len() ==> rank_scored(#[trigger] occ[o].1),
            forall|u: int, k: int, l: int| 0 <= u < postings@.len() && 0 <= k < l < postings@[u]@.len()
                ==> (#[trigger] postings@[u]@[k]).1 >= (#[trigger] postings@[u]@[l]).1,
            forall|u: int| 0 <= u < postings@.len() ==> (#[trigger] postings@[u])@.len() > 0,
            forall|u: int, o: int| 0 <= u < postings@.len() && 0 <= o < occ.len() && #[trigger] occ_key(occ[o]) == kview[u]
                ==> (#[trigger] postings@[u])@.contains(hit_of(occ, hv, o).2),
    {
        let key = rest_keys.pop().unwrap();
        let mut list = rest_lists.pop().unwrap();
        assert(key@ == kview[t as int]);
        assert(list == lview[t as int]);
        sort_ranked(&mut list);
        proof {
            lemma_ranking_unique(list@);
        }
        let nl = list.len();
        let mut entry: Vec<(usize, u8)> = Vec::new();
        for j in 0..nl
            invariant
                nl == list@.len(),
                entry@ == list@.map_values(|h: Hit| h.2).take(j as int),
        {
            entry.push(list[j].2);
            assert(list@.map_values(|h: Hit| h.2).take(j + 1) =~= list@.map_values(|h: Hit| h.2).take(j as int).push(list@[j as int].2));
        }
        assert(list@.map_values(|h: Hit| h.2).take(nl as int) =~= list@.map_values(|h: Hit| h.2));
        proof {
            assert forall|k: int| 0 <= k < entry@.len() implies #[trigger] entry@[k].0 < n by {
                assert(entry@[k] == list@[k].2);
                assert(list@.to_set().contains(list@[k]));
                assert(lview[t as int]@.to_set() == hits_of(occ, hv, kraw[t as int]@));
                let o = choose|o: int| 0 <= o < occ.len() && occ_key(occ[o]) == kraw[t as int]@
                    && list@[k] == hit_of(occ, hv, o);
                assert(0 <= occ[o].0 < n);
                lemma_last_index_of(hv, occ[o].0);
            }
            assert(list@.len() > 0) by {
                let kv_t = kview[t as int];
                assert(kview.to_set().contains(kv_t));
                let keys_seq = occ.map_values(|y: (int, Keyword)| occ_key(y));
                assert(keys_seq.to_set().contains(kv_t));
                let o = choose|o: int| 0 <= o < keys_seq.len() && #[trigger] keys_seq[o] == kv_t;
                assert(keys_seq[o] == occ_key(occ[o]));
                assert(kv_t == kraw[t as int]@);
                assert(hits_of(occ, hv, kraw[t as int]@).contains(hit_of(occ, hv, o)));
                assert(lview[t as int]@.to_set() == hits_of(occ, hv, kraw[t as int]@));
                if list@.len() == 0 {
                    assert(list@.to_set().contains(hit_of(occ, hv, o)));
                }
            }
            assert forall|o: int| 0 <= o < occ.len() && #[trigger] occ_key(occ[o]) == kview[t as int]
                implies entry@.contains(hit_of(occ, hv, o).2) by {
                assert(kview[t as int] == kraw[t as int]@);
                assert(hits_of(occ, hv, kraw[t as int]@).contains(hit_of(occ, hv, o)));
                assert(lview[t as int]@.to_set() == hits_of(occ, hv, kraw[t as int]@));
                assert(list@.to_set().contains(hit_of(occ, hv, o)));
                let k = choose|k: int| 0 <= k < list@.len() && list@[k] == hit_of(occ, hv, o);
                assert(entry@[k] == list@[k].2);
            }
            assert forall|k: int| 0 <= k < list@.len() implies (#[trigger] list@[k]).0 < crate::keywords::FINITE_RANK_LIMIT
                && list@[k].2.1 == rank_byte(list@[k].0) by {
                assert(list@.to_set().contains(list@[k]));
                let o = choose|o: int| 0 <= o < occ.len() && occ_key(occ[o]) == kraw[t as int]@
                    && list@[k] == hit_of(occ, hv, o);
                assert(rank_scored(occ[o].1));
            }
            assert forall|k: int, l: int| 0 <= k < l < entry@.len() implies (#[trigger] entry@[k]).1 >= (#[trigger] entry@[l]).1 by {
                assert(entry@[k] == list@[k].2 && entry@[l] == list@[l].2);
                assert(crate::order::keys_of(list@)[k] == (list@[k].0, list@[k].1));
                assert(crate::order::keys_of(list@)[l] == (list@[l].0, list@[l].1));
                assert(crate::order::rank_lt(crate::order::keys_of(list@)[k], crate::order::keys_of(list@)[l]));
                lemma_rank_byte_monotone(list@[l].0, list@[k].0);
            }
            assert(kview[t as int] == kraw[t as int]@);
            assert(lview[t as int]@.to_set() == hits_of(occ, hv, kraw[t as int]@));
            assert(postings_of(occ, hv).len() == klist.len());
            assert(postings_of(occ, hv)[t as int] == ranking(hits_of(occ, hv, klist[t as int])).map_values(|h: Hit| h.2));
            assert(entry@ == postings_of(occ, hv)[t as int]);
        }
        let ghost before_pairs = pairs_view(pairs@);
        let ghost before_postings = crate::index::postings_view(postings@);
        pairs.push((key, t as u64));
        postings.push(entry);
        assert(pairs_view(pairs@) =~= before_pairs.push((kview[t as int], t as u64)));
        assert(numbered(klist).take(t + 1) =~= numbered(klist).take(t as int).push((klist[t as int], t as u64)));
        assert(crate::index::postings_view(postings@) =~= before_postings.push(postings_of(occ, hv)[t as int]));
        assert(postings_of(occ, hv).take(t + 1) =~= postings_of(occ, hv).take(t as int).push(postings_of(occ, hv)[t as int]));
    }
    assert(numbered(klist).take(nk as int) =~= numbered(klist));
    proof {
        assert forall|t: int| 0 <= t < klist.len() implies vstd::utf8::valid_utf8(#[trigger] klist[t]) by {
            assert(kview.to_set().contains(kview[t]));
            assert(all_keys(occ).contains(klist[t]));
            let keys_seq = occ.map_values(|y: (int, Keyword)| occ_key(y));
            assert(keys_seq.to_set().contains(klist[t]));
            let o = choose|o: int| 0 <= o < keys_seq.len() && #[trigger] keys_seq[o] == klist[t];
            assert(keys_seq[o] == occ_key(occ[o]));
            vstd::utf8::encode_utf8_valid_utf8(occ[o].1.0);
        }
    }
    assert(postings_of(occ, hv).take(nk as int) =~= postings_of(occ, hv));

    // The keyword map.
    assert(keys_increasing(pairs_view(pairs@)));
    let fst = match build_fst(&pairs) {
        Some(b) => b,
        None => return Err(BuildError::KeywordMap),
    };

    // The documents' strings.
    let mut strs: Vec<&str> = Vec::new();
    let ghost text = document_text(documents@);
    for p in 0..n
        invariant
            n == documents@.len(),
            text == document_text(documents@),
            strs@.len() == 4 * p,
            forall|i: int| 0 <= i < 4 * p ==> (#[trigger] strs@[i])@ == text[i],
    {
        let d = &documents[p];
        strs.push(d.title.as_str());
        strs.push(d.category.as_str());
        strs.push(d.href.as_str());
        strs.push(d.body.as_str());
        proof {
            assert forall|i: int| 4 * p <= i < 4 * p + 4 implies (#[trigger] strs@[i])@ == text[i] by {
                assert(i / 4 == p) by (nonlinear_arith)
                    requires 4 * p <= i < 4 * p + 4;
                assert(i % 4 == i - 4 * p) by (nonlinear_arith)
                    requires 4 * p <= i < 4 * p + 4;
            }
        }
    }
    assert(strs@.map_values(|s: &str| s@) =~= text);
    let document_strings = FsstStrVec::from_strings(strs.as_slice());
    proof {
        assert forall|i: int| 0 <= i < crate::fstmap::fst_entries(fst@).len()
            implies #[trigger] crate::fstmap::fst_entries(fst@)[i].1 < postings@.len() by {
            assert(crate::fstmap::fst_entries(fst@)[i] == numbered(klist)[i]);
        }
        assert(crate::index::postings_view(postings@).len() == postings@.len());
    }
    let index = Index::from_parts(fst, document_strings, postings);
    proof {
        assert forall|p: int, k: Keyword| 0 <= p < n
            && #[trigger] document_keywords(documents@[p], sv, single, multi).contains(k)
            implies holds_keyword(index, encode_utf8(k.0), (last_index_of(hv, documents@[p].href@) as usize, k.2)) by {
            assert(kv[p] == document_keywords(documents@[p], sv, single, multi));
            let j = choose|j: int| 0 <= j < kv[p].len() && kv[p][j] == k;
            let o = lemma_occurrence_of(kv, p, j);
            assert(hv[p] == documents@[p].href@);
            let keys_seq = occ.map_values(|y: (int, Keyword)| occ_key(y));
            assert(keys_seq[o] == occ_key(occ[o]));
            assert(all_keys(occ).contains(occ_key(occ[o])));
            assert(kview.to_set().contains(occ_key(occ[o])));
            let t = choose|t: int| 0 <= t < kview.len() && kview[t] == occ_key(occ[o]);
            assert(crate::fstmap::fst_entries(fst@)[t] == numbered(klist)[t]);
            assert(postings@[t]@.contains(hit_of(occ, hv, o).2));
            assert(hit_of(occ, hv, o).2 == (last_index_of(hv, hv[p]) as usize, k.2));
            assert(crate::fstmap::fst_entries(index.fst_bytes())[t].0 == encode_utf8(k.0));
            assert(index.postings()[t] == postings@[t]@);
        }
    }
    Ok(index)
}

/// Build an index from documents with the English stop words and the given budgets.
pub fn build_index_with_config(documents: Vec<Document>, config: &IndexConfig) -> (r: Result<Index, BuildError>)
    requires
        2 * total_bytes(document_text(documents@)) <= u32::MAX,
    ensures
        r is Ok,
        r matches Ok(idx) ==> indexes(
            idx,
            documents@,
            stop_words_from(english_stop_lines()),
            config.single_word_budget as nat,
            config.multi_word_budget as nat,
        ),
{
    let lines = english_stop_word_lines();
    build_index_with_stop_words(documents, &lines, config)
}

/// Build an index from documents with the English stop words, keeping at most
/// five single words and three two-word phrases from each body.
pub fn build_index(documents: Vec<Document>) -> (r: Result<Index, BuildError>)
    requires
        2 * total_bytes(document_text(documents@)) <= u32::MAX,
    ensures
        r is Ok,
        r matches Ok(idx) ==> indexes(idx, documents@, stop_words_from(english_stop_lines()), 5, 3),
{
    let config = IndexConfig::new();
    build_index_with_config(documents, &config)
}

/// Building is a function of its inputs: two indexes built from the same
/// documents, stop words and budgets have the same parts, so they are written
/// as the same bytes.
pub proof fn law_build_deterministic(
    a: Index,
    b: Index,
    docs: Seq<Document>,
    stop_words: Seq<Seq<char>>,
    single: nat,
    multi: nat,
)
    requires
        indexes(a, docs, stop_words, single, multi),
        indexes(b, docs, stop_words, single, multi),
    ensures
        a.parts() == b.parts(),
        a.encoding() == b.encoding(),
{
}

/// An index holds four strings per document: title, category, href and body,
/// document after document.
pub proof fn law_document_strings(idx: Index, docs: Seq<Document>, stop_words: Seq<Seq<char>>, single: nat, multi: nat, p: int)
    requires
        indexes(idx, docs, stop_words, single, multi),
        0 <= p < docs.len(),
    ensures
        idx.strings().len() == 4 * docs.len(),
        idx.strings()[4 * p] == docs[p].title@,
        idx.strings()[4 * p + 1] == docs[p].category@,
        idx.strings()[4 * p + 2] == docs[p].href@,
        idx.strings()[4 * p + 3] == docs[p].body@,
{
    assert((4 * p) / 4 == p && (4 * p) % 4 == 0) by (nonlinear_arith);
    assert((4 * p + 1) / 4 == p && (4 * p + 1) % 4 == 1) by (nonlinear_arith);
    assert((4 * p + 2) / 4 == p && (4 * p + 2) % 4 == 2) by (nonlinear_arith);
    assert((4 * p + 3) / 4 == p && (4 * p + 3) % 4 == 3) by (nonlinear_arith);
}

/// A built index is consistent: every key of its map is UTF-8 text, every
/// document its postings name is one of the documents, whose title, category,
/// href and body the index holds, and every posting list is non-empty and runs
/// from the highest byte score down. With the contract of `search`, a search of a
/// built index fails only when a query term's automaton is too large, and
/// returns only the documents it was built from.
pub proof fn law_built_index_consistent(
    idx: Index,
    docs: Seq<Document>,
    stop_words: Seq<Seq<char>>,
    single: nat,
    multi: nat,
)
    requires
        indexes(idx, docs, stop_words, single, multi),
    ensures
        index_consistent(idx),
        forall|d: usize| #[trigger] in_postings(idx, d) ==> d < docs.len()
            && document_fields(idx.strings(), d) == fields_of(docs[d as int]),
        forall|t: int, k: int, l: int| 0 <= t < idx.postings().len() && 0 <= k < l < idx.postings()[t].len()
            ==> (#[trigger] idx.postings()[t][k]).1 >= (#[trigger] idx.postings()[t][l]).1,
        forall|t: int| 0 <= t < idx.postings().len() ==> (#[trigger] idx.postings()[t]).len() > 0,
{
    let occ = occurrences(all_document_keywords(docs, stop_words, single, multi));
    let klist = keyword_list(occ);
    assert forall|e: (Seq<u8>, u64)| #[trigger] crate::fstmap::fst_entries(idx.fst_bytes()).contains(e)
        implies vstd::utf8::valid_utf8(e.0) by {
        let t = choose|t: int| 0 <= t < numbered(klist).len() && numbered(klist)[t] == e;
        assert(numbered(klist)[t].0 == klist[t]);
    }
    assert forall|d: usize| #[trigger] in_postings(idx, d) implies d < docs.len()
        && document_fields(idx.strings(), d) == fields_of(docs[d as int]) by {
        let (t, k) = choose|t: int, k: int|
            0 <= t < idx.postings().len() && 0 <= k < idx.postings()[t].len() && #[trigger] idx.postings()[t][k].0 == d;
        law_document_strings(idx, docs, stop_words, single, multi, d as int);
    }
    assert forall|t: int, k: int| 0 <= t < idx.postings().len() && 0 <= k < idx.postings()[t].len()
        implies document_present(idx.strings(), #[trigger] idx.postings()[t][k].0) by {
        assert(in_postings(idx, idx.postings()[t][k].0));
    }
}

/// An index built from documents holds every keyword each document gets with
/// the given stop words and budgets (a single-word budget of `single`, a
/// two-word budget of `multi`): the keyword's UTF-8 bytes are a key of the map,
/// and its posting list names the document (by the last document with its
/// href) with the keyword's score.
pub proof fn law_index_holds_document_keywords(
    idx: Index,
    docs: Seq<Document>,
    stop_words: Seq<Seq<char>>,
    single: nat,
    multi: nat,
    p: int,
    k: Keyword,
)
    requires
        indexes(idx, docs, stop_words, single, multi),
        0 <= p < docs.len(),
        document_keywords(docs[p], stop_words, single, multi).contains(k),
    ensures
        holds_keyword(idx, encode_utf8(k.0), (last_index_of(document_hrefs(docs), docs[p].href@) as usize, k.2)),
{
}

/// A line of a stop-word file that holds a stop word: not empty, not a comment.
pub open spec fn stop_line(line: Seq<char>) -> bool {
    line.len() > 0 && line[0] != '#'
}

/// The stop words of a file are exactly its non-empty, non-comment lines,
/// lowercased, in order.
pub proof fn law_stop_words(lines: Seq<Seq<char>>)
    ensures
        forall|i: int| 0 <= i < lines.len() && stop_line(#[trigger] lines[i])
            ==> stop_words_from(lines).contains(lowercase(lines[i])),
        forall|j: int| 0 <= j < stop_words_from(lines).len() ==> exists|i: int|
            0 <= i < lines.len() && stop_line(lines[i]) && #[trigger] stop_words_from(lines)[j] == lowercase(#[trigger] lines[i]),
        stop_words_from(lines).len() <= lines.len(),
    decreases lines.len(),
{
    if lines.len() > 0 {
        let init = lines.drop_last();
        law_stop_words(init);
        let prev = stop_words_from(init);
        let cur = stop_words_from(lines);
        assert forall|i: int| 0 <= i < lines.len() && stop_line(#[trigger] lines[i]) implies cur.contains(lowercase(lines[i])) by {
            if i < lines.len() - 1 {
                assert(init[i] == lines[i]);
                assert(prev.contains(lowercase(init[i])));
                let k = choose|k: int| 0 <= k < prev.len() && prev[k] == lowercase(init[i]);
                assert(cur[k] == prev[k]);
            } else {
                assert(cur[prev.len() as int] == lowercase(lines.last()));
            }
        }
        assert forall|j: int| 0 <= j < cur.len() implies exists|i: int|
            0 <= i < lines.len() && stop_line(lines[i]) && #[trigger] cur[j] == lowercase(#[trigger] lines[i]) by {
            if j < prev.len() {
                assert(cur[j] == prev[j]);
                let i = choose|i: int| 0 <= i < init.len() && stop_line(init[i]) && #[trigger] prev[j] == lowercase(#[trigger] init[i]);
                assert(init[i] == lines[i]);
            } else {
                assert(cur[j] == lowercase(lines[lines.len() - 1]));
            }
        }
    }
}

} // verus!
