//! Fuzzy keyword search over an index.
use vstd::prelude::*;
use vstd::utf8::valid_utf8;
use crate::text::{words, normalize, lowercase, split_words, normalize_word, to_lowercase, contains_string,
    is_ascii_text, ascii_lower, lemma_words_ascii_case, normalised_word_of};
use crate::order::{ranking, is_ranked, distinct_positions, sort_ranked, lemma_ranking_unique, lemma_ranking_exists, keys_of, rank_lt};
use crate::fstmap::{fst_fuzzy, fst_entries, fuzzy_lookup, pairs_view, levenshtein_fits, built_map, term_finds};
use crate::index::{Document, Index, keyword_numbers_in_range};

verus! {

/// Why a search failed.
#[derive(Debug, PartialEq, Eq, Structural)]
pub enum SearchError {
    /// A query term could not be turned into a search automaton.
    KeywordLookup,
    /// A matched keyword is not UTF-8 text.
    KeywordText,
    /// A ranked document has no strings in the index.
    MissingDocument,
}

/// Calls `std::str::from_utf8`, which succeeds exactly on UTF-8 bytes.
#[verifier::external_body]
fn is_utf8(bytes: &[u8]) -> (r: bool)
    ensures
        r == valid_utf8(bytes@),
{
    std::str::from_utf8(bytes).is_ok()
}

/// Non-empty normalised words, each once, in order of first occurrence.
pub open spec fn distinct_terms(ws: Seq<Seq<char>>) -> Seq<Seq<char>>
    decreases ws.len(),
{
    if ws.len() == 0 {
        Seq::empty()
    } else {
        let prev = distinct_terms(ws.drop_last());
        let w = normalize(ws.last());
        if w.len() > 0 && !prev.contains(w) {
            prev.push(w)
        } else {
            prev
        }
    }
}

/// The terms searched for: the query's normalised words and the whole query lowercased.
pub open spec fn query_terms(query: Seq<char>) -> Seq<Seq<char>> {
    let base = distinct_terms(words(query));
    let whole = lowercase(query);
    if base.contains(whole) {
        base
    } else {
        base.push(whole)
    }
}

/// The keyword matches of each term in turn; `None` when a lookup fails.
pub open spec fn term_matches(fst: Seq<u8>, terms: Seq<Seq<char>>) -> Option<Seq<(Seq<u8>, u64)>>
    decreases terms.len(),
{
    if terms.len() == 0 {
        Some(Seq::empty())
    } else {
        match term_matches(fst, terms.drop_last()) {
            None => None,
            Some(prev) => if levenshtein_fits(terms.last()) {
                Some(prev + fst_fuzzy(fst, terms.last()))
            } else {
                None
            },
        }
    }
}

/// Adds two scores, stopping at 255.
pub open spec fn sat_add(a: u8, b: u8) -> u8 {
    if a + b > 255 {
        255
    } else {
        (a + b) as u8
    }
}

/// Where a document's running score stands, or -1.
pub open spec fn find_doc(acc: Seq<(usize, u8)>, d: usize) -> int
    decreases acc.len(),
{
    if acc.len() == 0 {
        -1
    } else if acc.last().0 == d {
        acc.len() - 1
    } else {
        find_doc(acc.drop_last(), d)
    }
}

/// Adds a score to a document's running score, starting it if new.
pub open spec fn add_hit(acc: Seq<(usize, u8)>, d: usize, s: u8) -> Seq<(usize, u8)> {
    let i = find_doc(acc, d);
    if i >= 0 {
        acc.update(i, (d, sat_add(acc[i].1, s)))
    } else {
        acc.push((d, s))
    }
}

/// Adds every entry of a posting list.
pub open spec fn add_posting(acc: Seq<(usize, u8)>, posting: Seq<(usize, u8)>) -> Seq<(usize, u8)>
    decreases posting.len(),
{
    if posting.len() == 0 {
        acc
    } else {
        let prev = add_posting(acc, posting.drop_last());
        add_hit(prev, posting.last().0, posting.last().1)
    }
}

/// Adds the postings of every matched keyword.
pub open spec fn add_matches(
    postings: Seq<Seq<(usize, u8)>>,
    matches: Seq<(Seq<u8>, u64)>,
) -> Seq<(usize, u8)>
    decreases matches.len(),
{
    if matches.len() == 0 {
        Seq::empty()
    } else {
        add_posting(add_matches(postings, matches.drop_last()), postings[matches.last().1 as int])
    }
}

/// Documents with their scores as ranking items: score, then document number.
pub open spec fn score_items(acc: Seq<(usize, u8)>) -> Seq<(u64, usize, ())> {
    acc.map_values(|e: (usize, u8)| (e.1 as u64, e.0, ()))
}

/// The documents to return: by score, highest first, then by number; at most `max`.
pub open spec fn ranked_documents(acc: Seq<(usize, u8)>, max: usize) -> Seq<usize> {
    let ranked = ranking(score_items(acc).to_set());
    let kept = if max < ranked.len() { ranked.take(max as int) } else { ranked };
    kept.map_values(|e: (u64, usize, ())| e.1)
}

/// A document's four strings are in the index.
pub open spec fn document_present(strings: Seq<Seq<char>>, d: usize) -> bool {
    4 * d + 3 < strings.len()
}

/// A document's title, category, href and body.
pub open spec fn document_fields(strings: Seq<Seq<char>>, d: usize) -> (Seq<char>, Seq<char>, Seq<char>, Seq<char>) {
    (strings[4 * d], strings[4 * d + 1], strings[4 * d + 2], strings[4 * d + 3])
}

/// What a search returns: the fields of the ranked documents, or why it failed.
pub open spec fn search_result(index: Index, query: Seq<char>, max: usize) -> Result<
    Seq<(Seq<char>, Seq<char>, Seq<char>, Seq<char>)>,
    SearchError,
> {
    match term_matches(index.fst_bytes(), query_terms(query)) {
        None => Err(SearchError::KeywordLookup),
        Some(ms) => if !(forall|i: int| 0 <= i < ms.len() ==> valid_utf8(#[trigger] ms[i].0)) {
            Err(SearchError::KeywordText)
        } else {
            let docs = ranked_documents(add_matches(index.postings(), ms), max);
            if !(forall|i: int| 0 <= i < docs.len() ==> document_present(index.strings(), #[trigger] docs[i])) {
                Err(SearchError::MissingDocument)
            } else {
                Ok(docs.map_values(|d: usize| document_fields(index.strings(), d)))
            }
        }
    }
}

/// The fields of a document.
pub open spec fn fields_of(doc: Document) -> (Seq<char>, Seq<char>, Seq<char>, Seq<char>) {
    (doc.title@, doc.category@, doc.href@, doc.body@)
}

/// Documents running scores are kept for no document twice.
pub open spec fn distinct_docs(acc: Seq<(usize, u8)>) -> bool {
    forall|i: int, j: int| 0 <= i < acc.len() && 0 <= j < acc.len() && i != j ==> (#[trigger] acc[i]).0 != (#[trigger] acc[j]).0
}

proof fn lemma_find_doc(acc: Seq<(usize, u8)>, d: usize)
    ensures
        -1 <= find_doc(acc, d) < acc.len(),
        find_doc(acc, d) >= 0 ==> acc[find_doc(acc, d)].0 == d,
        find_doc(acc, d) < 0 ==> forall|i: int| 0 <= i < acc.len() ==> (#[trigger] acc[i]).0 != d,
    decreases acc.len(),
{
    if acc.len() > 0 {
        lemma_find_doc(acc.drop_last(), d);
        if acc.last().0 != d && find_doc(acc.drop_last(), d) < 0 {
            assert forall|i: int| 0 <= i < acc.len() implies (#[trigger] acc[i]).0 != d by {
                if i < acc.len() - 1 {
                    assert(acc[i] == acc.drop_last()[i]);
                }
            }
        }
    }
}

proof fn lemma_add_hit_distinct(acc: Seq<(usize, u8)>, d: usize, s: u8)
    requires
        distinct_docs(acc),
    ensures
        distinct_docs(add_hit(acc, d, s)),
{
    lemma_find_doc(acc, d);
    let r = add_hit(acc, d, s);
    if find_doc(acc, d) < 0 {
        assert forall|i: int, j: int| 0 <= i < r.len() && 0 <= j < r.len() && i != j implies (#[trigger] r[i]).0 != (#[trigger] r[j]).0 by {
            if i < acc.len() && j < acc.len() {
                assert(r[i] == acc[i] && r[j] == acc[j]);
            } else if i < acc.len() {
                assert(r[i] == acc[i]);
            } else if j < acc.len() {
                assert(r[j] == acc[j]);
            }
        }
    }
}

/// Finds a document's running score, from the last one back.
fn locate_doc(acc: &Vec<(usize, u8)>, d: usize) -> (r: Option<usize>)
    ensures
        r is None ==> find_doc(acc@, d) < 0,
        r matches Some(i) ==> i == find_doc(acc@, d),
{
    let mut k = acc.len();
    assert(acc@.take(k as int) =~= acc@);
    while k > 0
        invariant
            k <= acc@.len(),
            find_doc(acc@, d) == find_doc(acc@.take(k as int), d),
        decreases k,
    {
        assert(acc@.take(k as int).drop_last() =~= acc@.take(k - 1));
        assert(acc@.take(k as int).last() == acc@[k - 1]);
        if acc[k - 1].0 == d {
            return Some(k - 1);
        }
        k = k - 1;
    }
    None
}

fn add_hit_exec(acc: &mut Vec<(usize, u8)>, d: usize, s: u8)
    requires
        distinct_docs(old(acc)@),
    ensures
        final(acc)@ == add_hit(old(acc)@, d, s),
        distinct_docs(final(acc)@),
{
    proof {
        lemma_find_doc(acc@, d);
        lemma_add_hit_distinct(acc@, d, s);
    }
    match locate_doc(acc, d) {
        Some(i) => {
            let cur = acc[i].1;
            let total: u8 = if cur as u16 + s as u16 > 255 { 255 } else { cur + s };
            acc.set(i, (d, total));
        },
        None => {
            acc.push((d, s));
        },
    }
}

proof fn lemma_term_matches_prefix_none(fst: Seq<u8>, terms: Seq<Seq<char>>, k: int)
    requires
        0 <= k <= terms.len(),
        term_matches(fst, terms.take(k)) is None,
    ensures
        term_matches(fst, terms) is None,
    decreases terms.len() - k,
{
    if k < terms.len() {
        assert(terms.take(k + 1).drop_last() =~= terms.take(k));
        lemma_term_matches_prefix_none(fst, terms, k + 1);
    } else {
        assert(terms.take(k) =~= terms);
    }
}

proof fn lemma_term_matches_none(fst: Seq<u8>, terms: Seq<Seq<char>>, t: int)
    requires
        0 <= t < terms.len(),
        !levenshtein_fits(terms[t]),
    ensures
        term_matches(fst, terms) is None,
{
    assert(terms.take(t + 1).drop_last() =~= terms.take(t));
    assert(terms.take(t + 1).last() == terms[t]);
    lemma_term_matches_prefix_none(fst, terms, t + 1);
}

/// Appends found matches to those gathered so far.
fn append_matches(matched: &mut Vec<(Vec<u8>, u64)>, found: Vec<(Vec<u8>, u64)>)
    ensures
        pairs_view(final(matched)@) == pairs_view(old(matched)@) + pairs_view(found@),
{
    let mut found = found;
    let ghost f = found@;
    matched.append(&mut found);
    assert(pairs_view(matched@) =~= pairs_view(old(matched)@) + pairs_view(f));
}

/// The terms searched for, as `query_terms` describes them.
pub fn query_term_list(query: &str) -> (r: Vec<String>)
    ensures
        r@.map_values(|s: String| s@) == query_terms(query@),
{
    let ws = split_words(query);
    let ghost wv = ws@.map_values(|w: Vec<char>| w@);
    let n = ws.len();
    let mut terms: Vec<String> = Vec::new();
    for k in 0..n
        invariant
            n == ws@.len(),
            wv == ws@.map_values(|w: Vec<char>| w@),
            terms@.map_values(|s: String| s@) == distinct_terms(wv.take(k as int)),
    {
        assert(wv.take(k + 1).drop_last() =~= wv.take(k as int));
        assert(wv.take(k + 1).last() == ws@[k as int]@);
        let w = normalize_word(&ws[k]);
        let ghost before = terms@.map_values(|s: String| s@);
        if !w.as_str().is_empty() && !contains_string(&terms, &w) {
            terms.push(w);
            assert(terms@.map_values(|s: String| s@) =~= before.push(w@));
        }
    }
    assert(wv.take(n as int) =~= wv);
    let whole = to_lowercase(query);
    let ghost before = terms@.map_values(|s: String| s@);
    if !contains_string(&terms, &whole) {
        terms.push(whole);
        assert(terms@.map_values(|s: String| s@) =~= before.push(whole@));
    }
    terms
}

/// The title, category, href and body of a document, if the index holds them.
fn fetch_document(strings: &crate::strvec::FsstStrVec, d: usize) -> (r: Option<Document>)
    ensures
        r is Some <==> document_present(strings@, d),
        r matches Some(doc) ==> fields_of(doc) == document_fields(strings@, d) && doc.keywords is None,
{
    let n = strings.len();
    let base = match d.checked_mul(4) {
        Some(b) => b,
        None => return None,
    };
    if base > usize::MAX - 3 || base + 3 >= n {
        return None;
    }
    let title = strings.get(base);
    let category = strings.get(base + 1);
    let href = strings.get(base + 2);
    let body = strings.get(base + 3);
    match (title, category, href, body) {
        (Some(title), Some(category), Some(href), Some(body)) => Some(
            Document { title, category, href, body, keywords: None },
        ),
        _ => None,
    }
}

/// Looks every term up, in order.
fn lookup_terms(fst: &Vec<u8>, terms: &Vec<String>) -> (r: Result<Vec<(Vec<u8>, u64)>, SearchError>)
    requires
        built_map(fst@),
    ensures
        r is Err <==> term_matches(fst@, terms@.map_values(|s: String| s@)) is None,
        r matches Err(e) ==> e == SearchError::KeywordLookup,
        r matches Ok(m) ==> term_matches(fst@, terms@.map_values(|s: String| s@)) == Some(pairs_view(m@)),
        r matches Ok(m) ==> forall|i: int| 0 <= i < m@.len() ==> fst_entries(fst@).contains(#[trigger] pairs_view(m@)[i]),
        r matches Ok(m) ==> forall|t: int| 0 <= t < terms@.len()
            ==> crate::fstmap::keys_increasing(fst_fuzzy(fst@, #[trigger] terms@[t]@)),
        r matches Ok(m) ==> forall|t: int, e: (Seq<u8>, u64)|
            0 <= t < terms@.len() && fst_entries(fst@).contains(e) && #[trigger] term_finds(terms@[t]@, e.0)
                ==> pairs_view(m@).contains(e),
{
    let ghost tv = terms@.map_values(|s: String| s@);
    let mut matched: Vec<(Vec<u8>, u64)> = Vec::new();
    let nterms = terms.len();
    assert(tv.take(0) =~= Seq::<Seq<char>>::empty());
    for t in 0..nterms
        invariant
            nterms == terms@.len(),
            tv == terms@.map_values(|s: String| s@),
            built_map(fst@),
            term_matches(fst@, tv.take(t as int)) == Some(pairs_view(matched@)),
            forall|i: int| 0 <= i < matched@.len() ==> fst_entries(fst@).contains(#[trigger] pairs_view(matched@)[i]),
            forall|u: int, e: (Seq<u8>, u64)|
                0 <= u < t && fst_entries(fst@).contains(e) && #[trigger] term_finds(terms@[u]@, e.0)
                    ==> pairs_view(matched@).contains(e),
            forall|u: int| 0 <= u < t ==> crate::fstmap::keys_increasing(fst_fuzzy(fst@, #[trigger] terms@[u]@)),
    {
        assert(tv.take(t + 1).drop_last() =~= tv.take(t as int));
        assert(tv.take(t + 1).last() == terms@[t as int]@);
        match fuzzy_lookup(fst.as_slice(), terms[t].as_str()) {
            None => {
                proof {
                    lemma_term_matches_none(fst@, tv, t as int);
                }
                return Err(SearchError::KeywordLookup);
            },
            Some(found) => {
                let ghost before = pairs_view(matched@);
                let ghost fv = pairs_view(found@);
                assert(forall|i: int| 0 <= i < fv.len() ==> fst_entries(fst@).contains(#[trigger] fv[i]));
                append_matches(&mut matched, found);
                proof {
                    assert(pairs_view(matched@).len() == matched@.len());
                    assert(pairs_view(matched@) == before + fv);
                    assert forall|i: int| 0 <= i < matched@.len() implies fst_entries(fst@).contains(#[trigger] pairs_view(matched@)[i]) by {
                        if i < before.len() {
                            assert(pairs_view(matched@)[i] == before[i]);
                        } else {
                            assert(pairs_view(matched@)[i] == fv[i - before.len()]);
                        }
                    }
                    assert forall|u: int, e: (Seq<u8>, u64)|
                        0 <= u < t + 1 && fst_entries(fst@).contains(e) && #[trigger] term_finds(terms@[u]@, e.0)
                            implies pairs_view(matched@).contains(e) by {
                        if u < t {
                            assert(before.contains(e));
                            let j = choose|j: int| 0 <= j < before.len() && before[j] == e;
                            assert(pairs_view(matched@)[j] == e);
                        } else {
                            assert(fv.contains(e));
                            let j = choose|j: int| 0 <= j < fv.len() && fv[j] == e;
                            assert(pairs_view(matched@)[before.len() + j] == e);
                        }
                    }
                }
            },
        }
    }
    assert(tv.take(nterms as int) =~= tv);
    Ok(matched)
}

/// Whether every matched keyword is UTF-8 text.
fn keywords_are_text(matched: &Vec<(Vec<u8>, u64)>) -> (r: bool)
    ensures
        r == forall|i: int| 0 <= i < matched@.len() ==> valid_utf8(#[trigger] pairs_view(matched@)[i].0),
{
    let ghost ms = pairs_view(matched@);
    let nm = matched.len();
    for m in 0..nm
        invariant
            nm == matched@.len(),
            ms == pairs_view(matched@),
            forall|i: int| 0 <= i < m ==> valid_utf8(#[trigger] ms[i].0),
    {
        assert(ms[m as int].0 == matched@[m as int].0@);
        if !is_utf8(matched[m].0.as_slice()) {
            return false;
        }
    }
    true
}

/// Sums the scores of the matched keywords' postings per document.
fn score_documents(index: &Index, matched: &Vec<(Vec<u8>, u64)>) -> (r: Vec<(usize, u8)>)
    requires
        forall|i: int| 0 <= i < matched@.len() ==> fst_entries(index.fst_bytes()).contains(#[trigger] pairs_view(matched@)[i]),
    ensures
        r@ == add_matches(index.postings(), pairs_view(matched@)),
        distinct_docs(r@),
{
    let fst = index.fst_ref();
    let postings = index.postings_ref();
    let ghost ms = pairs_view(matched@);
    let nm = matched.len();
    let mut acc: Vec<(usize, u8)> = Vec::new();
    assert(ms.take(0) =~= Seq::<(Seq<u8>, u64)>::empty());
    for m in 0..nm
        invariant
            nm == matched@.len(),
            ms == pairs_view(matched@),
            fst@ == index.fst_bytes(),
            crate::index::postings_view(postings@) == index.postings(),
            forall|i: int| 0 <= i < nm ==> fst_entries(fst@).contains(#[trigger] ms[i]),
            keyword_numbers_in_range(fst_entries(fst@), index.postings().len()),
            acc@ == add_matches(index.postings(), ms.take(m as int)),
            distinct_docs(acc@),
    {
        assert(ms.take(m + 1).drop_last() =~= ms.take(m as int));
        assert(ms.take(m + 1).last() == ms[m as int]);
        let kw = matched[m].1;
        let plen = postings.len();
        proof {
            assert(ms[m as int] == (matched@[m as int].0@, matched@[m as int].1));
            assert(fst_entries(fst@).contains(ms[m as int]));
            let j = choose|j: int| 0 <= j < fst_entries(fst@).len() && fst_entries(fst@)[j] == ms[m as int];
            assert(fst_entries(fst@)[j].1 < index.postings().len());
            assert(crate::index::postings_view(postings@).len() == postings@.len());
            assert(fst_entries(fst@)[j].1 == kw);
            assert(kw < postings@.len());
        }
        let ki = kw as usize;
        assert(ki as int == kw as int);
        let posting = &postings[ki];
        assert(posting@ == crate::index::postings_view(postings@)[ki as int]);
        let np = posting.len();
        let ghost start = acc@;
        assert(posting@.take(0) =~= Seq::<(usize, u8)>::empty());
        for p in 0..np
            invariant
                np == posting@.len(),
                distinct_docs(acc@),
                acc@ == add_posting(start, posting@.take(p as int)),
        {
            assert(posting@.take(p + 1).drop_last() =~= posting@.take(p as int));
            assert(posting@.take(p + 1).last() == posting@[p as int]);
            let (d, s) = posting[p];
            add_hit_exec(&mut acc, d, s);
        }
        assert(posting@.take(np as int) =~= posting@);
    }
    assert(ms.take(nm as int) =~= ms);
    acc
}

/// The documents to return, best first.
fn rank_documents(acc: &Vec<(usize, u8)>, max_results: usize) -> (r: Vec<usize>)
    requires
        distinct_docs(acc@),
    ensures
        r@ == ranked_documents(acc@, max_results),
{
    let mut items: Vec<(u64, usize, ())> = Vec::new();
    let na = acc.len();
    for a in 0..na
        invariant
            na == acc@.len(),
            items@ == score_items(acc@).take(a as int),
    {
        items.push((acc[a].1 as u64, acc[a].0, ()));
        assert(score_items(acc@).take(a + 1) =~= score_items(acc@).take(a as int).push(score_items(acc@)[a as int]));
    }
    assert(score_items(acc@).take(na as int) =~= score_items(acc@));
    assert(distinct_positions(items@)) by {
        assert forall|i: int, j: int| 0 <= i < items@.len() && 0 <= j < items@.len() && i != j implies (#[trigger] items@[i]).1 != (#[trigger] items@[j]).1 by {
            assert(items@[i].1 == acc@[i].0 && items@[j].1 == acc@[j].0);
        }
    }
    sort_ranked(&mut items);
    proof {
        lemma_ranking_unique(items@);
    }
    items.truncate(max_results);
    let ghost target = ranked_documents(acc@, max_results);
    let n = items.len();
    let mut r: Vec<usize> = Vec::new();
    for k in 0..n
        invariant
            n == items@.len(),
            target == items@.map_values(|e: (u64, usize, ())| e.1),
            r@ == target.take(k as int),
    {
        r.push(items[k].1);
        assert(target.take(k + 1) =~= target.take(k as int).push(target[k as int]));
    }
    assert(target.take(n as int) =~= target);
    r
}

/// The documents' fields, if every one is in the index.
fn fetch_documents(strings: &crate::strvec::FsstStrVec, docs: &Vec<usize>) -> (r: Option<Vec<Document>>)
    ensures
        r is Some <==> forall|i: int| 0 <= i < docs@.len() ==> document_present(strings@, #[trigger] docs@[i]),
        r matches Some(v) ==> v@.map_values(|d: Document| fields_of(d)) == docs@.map_values(|d: usize| document_fields(strings@, d)),
        r matches Some(v) ==> forall|i: int| 0 <= i < v@.len() ==> (#[trigger] v@[i]).keywords is None,
{
    let nd = docs.len();
    let mut result: Vec<Document> = Vec::new();
    for k in 0..nd
        invariant
            nd == docs@.len(),
            forall|i: int| 0 <= i < k ==> document_present(strings@, #[trigger] docs@[i]),
            result@.map_values(|d: Document| fields_of(d)) == docs@.take(k as int).map_values(|d: usize| document_fields(strings@, d)),
            forall|i: int| 0 <= i < result@.len() ==> (#[trigger] result@[i]).keywords is None,
    {
        let d = docs[k];
        match fetch_document(strings, d) {
            None => {
                return None;
            },
            Some(doc) => {
                let ghost before = result@;
                result.push(doc);
                assert(docs@.take(k + 1) =~= docs@.take(k as int).push(d));
                assert(result@.map_values(|x: Document| fields_of(x)) =~= before.map_values(|x: Document| fields_of(x)).push(fields_of(doc)));
                assert(docs@.take(k + 1).map_values(|x: usize| document_fields(strings@, x)) =~=
                    docs@.take(k as int).map_values(|x: usize| document_fields(strings@, x)).push(document_fields(strings@, d)));
            },
        }
    }
    assert(docs@.take(nd as int) =~= docs@);
    Some(result)
}

/// Search the index for documents matching the query's words (within one
/// edit, or as a prefix of a keyword), best scored first, at most `max_results`.
pub fn search(index: &Index, query: &str, max_results: usize) -> (r: Result<Vec<Document>, SearchError>)
    ensures
        r matches Err(e) ==> search_result(*index, query@, max_results) == Err::<Seq<(Seq<char>, Seq<char>, Seq<char>, Seq<char>)>, SearchError>(e),
        r matches Ok(docs) ==> search_result(*index, query@, max_results) == Ok::<Seq<(Seq<char>, Seq<char>, Seq<char>, Seq<char>)>, SearchError>(
            docs@.map_values(|d: Document| fields_of(d)),
        ),
        r matches Ok(docs) ==> forall|i: int| 0 <= i < docs@.len() ==> (#[trigger] docs@[i]).keywords is None,
        r matches Ok(docs) ==> forall|d: usize| #[trigger] found_by_query(*index, query@, d) && docs@.len() < max_results
            ==> docs@.map_values(|x: Document| fields_of(x)).contains(document_fields(index.strings(), d)),
        r matches Ok(docs) ==> results_in_postings(*index, docs@.map_values(|x: Document| fields_of(x))),
        index_consistent(*index) ==> (r is Ok || r == Err::<Vec<Document>, SearchError>(SearchError::KeywordLookup)),
        r != Err::<Vec<Document>, SearchError>(SearchError::KeywordLookup) ==> forall|t: int| 0 <= t < query_terms(query@).len()
            ==> crate::fstmap::keys_increasing(fst_fuzzy(index.fst_bytes(), #[trigger] query_terms(query@)[t])),
{
    let terms = query_term_list(query);
    let fst = index.fst_ref();
    let matched = match lookup_terms(fst, &terms) {
        Ok(m) => m,
        Err(e) => return Err(e),
    };
    proof {
        let qt = query_terms(query@);
        assert(terms@.map_values(|s: String| s@) == qt);
        assert forall|t: int| 0 <= t < qt.len() implies crate::fstmap::keys_increasing(fst_fuzzy(fst@, #[trigger] qt[t])) by {
            assert(terms@[t]@ == qt[t]);
        }
    }
    if !keywords_are_text(&matched) {
        proof {
            if index_consistent(*index) {
                let i = choose|i: int| 0 <= i < matched@.len() && !valid_utf8(#[trigger] pairs_view(matched@)[i].0);
                assert(fst_entries(fst@).contains(pairs_view(matched@)[i]));
            }
        }
        return Err(SearchError::KeywordText);
    }
    let acc = score_documents(index, &matched);
    let docs = rank_documents(&acc, max_results);
    proof {
        let ms = pairs_view(matched@);
        law_ranked_documents(acc@, max_results);
        lemma_scored_occurs(index.postings(), ms);
        assert forall|i: int| 0 <= i < docs@.len() implies #[trigger] in_postings(*index, docs@[i]) by {
            let d = docs@[i];
            assert(scored(acc@, d));
            assert(occurs_in_matches(index.postings(), ms, d));
            let (m, e) = choose|m: int, e: int|
                0 <= m < ms.len() && 0 <= e < index.postings()[ms[m].1 as int].len()
                && #[trigger] index.postings()[ms[m].1 as int][e].0 == d;
            assert(fst_entries(fst@).contains(ms[m]));
            let j = choose|j: int| 0 <= j < fst_entries(fst@).len() && fst_entries(fst@)[j] == ms[m];
            assert(fst_entries(fst@)[j].1 < index.postings().len());
            assert(index.postings()[ms[m].1 as int][e].0 == d);
        }
    }
    match fetch_documents(index.document_strings(), &docs) {
        Some(v) => {
            proof {
                assert(v@.map_values(|x: Document| fields_of(x)).len() == v@.len());
                assert(docs@.map_values(|x: usize| document_fields(index.strings(), x)).len() == docs@.len());
                assert(v@.len() == docs@.len());
                let fv = v@.map_values(|x: Document| fields_of(x));
                assert forall|j: int| 0 <= j < fv.len() implies
                    in_postings(*index, #[trigger] docs@[j]) && fv[j] == document_fields(index.strings(), docs@[j]) by {
                    assert(docs@.map_values(|x: usize| document_fields(index.strings(), x))[j]
                        == document_fields(index.strings(), docs@[j]));
                    assert(in_postings(*index, docs@[j]));
                }
                assert(docs@.len() == fv.len());
                assert(results_in_postings(*index, fv));
                let ms = pairs_view(matched@);
                let qt = query_terms(query@);
                assert(terms@.map_values(|s: String| s@) == qt);
                assert forall|d: usize| #[trigger] found_by_query(*index, query@, d) && v@.len() < max_results
                    implies v@.map_values(|x: Document| fields_of(x)).contains(document_fields(index.strings(), d)) by {
                    let (t, e, k) = choose|t: int, e: (Seq<u8>, u64), k: int|
                        #![trigger term_finds(qt[t], e.0), index.postings()[e.1 as int][k]]
                        0 <= t < qt.len() && fst_entries(index.fst_bytes()).contains(e) && term_finds(qt[t], e.0)
                        && 0 <= k < index.postings()[e.1 as int].len() && index.postings()[e.1 as int][k].0 == d;
                    assert(terms@[t]@ == qt[t]);
                    assert(term_finds(terms@[t]@, e.0));
                    assert(ms.contains(e));
                    let mi = choose|mi: int| 0 <= mi < ms.len() && ms[mi] == e;
                    lemma_add_matches_scored(index.postings(), ms, mi, k);
                    law_ranked_documents(acc@, max_results);
                    let ranked = ranked_documents(acc@, max_results);
                    assert(v@.map_values(|x: Document| fields_of(x)).len() == v@.len());
                    assert(docs@ == ranked);
                    assert(ranked.len() < max_results);
                    assert(max_results >= acc@.len());
                    let i = choose|i: int| 0 <= i < acc@.len() && #[trigger] acc@[i].0 == d;
                    assert(ranked.contains(acc@[i].0));
                    let j = choose|j: int| 0 <= j < ranked.len() && ranked[j] == d;
                    assert(docs@.map_values(|x: usize| document_fields(index.strings(), x))[j] == document_fields(index.strings(), d));
                }
            }
            Ok(v)
        },
        None => {
            proof {
                if index_consistent(*index) {
                    let i = choose|i: int| 0 <= i < docs@.len() && !document_present(index.strings(), #[trigger] docs@[i]);
                    assert(in_postings(*index, docs@[i]));
                }
            }
            Err(SearchError::MissingDocument)
        },
    }
}

/// Document `d` is named in some posting list of the index.
pub open spec fn in_postings(index: Index, d: usize) -> bool {
    exists|kk: int, k: int|
        0 <= kk < index.postings().len() && 0 <= k < index.postings()[kk].len() && #[trigger] index.postings()[kk][k].0 == d
}

/// Each result is the fields of a document that some posting list names.
pub open spec fn results_in_postings(index: Index, results: Seq<(Seq<char>, Seq<char>, Seq<char>, Seq<char>)>) -> bool {
    exists|ds: Seq<usize>| #[trigger] ds.len() == results.len() && forall|j: int| 0 <= j < results.len() ==>
        in_postings(index, #[trigger] ds[j]) && results[j] == document_fields(index.strings(), ds[j])
}

/// Every key of the index's map is UTF-8 text, and every document a posting
/// list names has its four strings.
pub open spec fn index_consistent(index: Index) -> bool {
    &&& forall|e: (Seq<u8>, u64)| #[trigger] fst_entries(index.fst_bytes()).contains(e) ==> valid_utf8(e.0)
    &&& forall|kk: int, k: int| 0 <= kk < index.postings().len() && 0 <= k < index.postings()[kk].len()
        ==> document_present(index.strings(), #[trigger] index.postings()[kk][k].0)
}

/// Document `d` is in the posting list of a keyword that one of the query's
/// terms finds (see `term_finds`).
pub open spec fn found_by_query(index: Index, query: Seq<char>, d: usize) -> bool {
    exists|t: int, e: (Seq<u8>, u64), k: int|
        #![trigger term_finds(query_terms(query)[t], e.0), index.postings()[e.1 as int][k]]
        0 <= t < query_terms(query).len() && fst_entries(index.fst_bytes()).contains(e)
        && term_finds(query_terms(query)[t], e.0)
        && 0 <= k < index.postings()[e.1 as int].len() && index.postings()[e.1 as int][k].0 == d
}

proof fn lemma_add_hit_scored(acc: Seq<(usize, u8)>, d: usize, s: u8, x: usize)
    ensures
        scored(add_hit(acc, d, s), d),
        scored(acc, x) ==> scored(add_hit(acc, d, s), x),
{
    lemma_find_doc(acc, d);
    let r = add_hit(acc, d, s);
    let i = find_doc(acc, d);
    if i >= 0 {
        assert(r[i].0 == d);
        if scored(acc, x) {
            let j = choose|j: int| 0 <= j < acc.len() && #[trigger] acc[j].0 == x;
            assert(r[j].0 == x);
        }
    } else {
        assert(r[acc.len() as int].0 == d);
        if scored(acc, x) {
            let j = choose|j: int| 0 <= j < acc.len() && #[trigger] acc[j].0 == x;
            assert(r[j].0 == x);
        }
    }
}

proof fn lemma_add_posting_scored(acc: Seq<(usize, u8)>, posting: Seq<(usize, u8)>, x: usize)
    ensures
        scored(acc, x) ==> scored(add_posting(acc, posting), x),
        forall|k: int| 0 <= k < posting.len() && #[trigger] posting[k].0 == x ==> scored(add_posting(acc, posting), x),
    decreases posting.len(),
{
    if posting.len() > 0 {
        let prev = add_posting(acc, posting.drop_last());
        lemma_add_posting_scored(acc, posting.drop_last(), x);
        lemma_add_hit_scored(prev, posting.last().0, posting.last().1, x);
        assert forall|k: int| 0 <= k < posting.len() && #[trigger] posting[k].0 == x implies scored(add_posting(acc, posting), x) by {
            if k < posting.len() - 1 {
                assert(posting.drop_last()[k].0 == x);
            }
        }
    }
}

proof fn lemma_add_matches_scored(postings: Seq<Seq<(usize, u8)>>, ms: Seq<(Seq<u8>, u64)>, m: int, k: int)
    requires
        0 <= m < ms.len(),
        0 <= k < postings[ms[m].1 as int].len(),
    ensures
        scored(add_matches(postings, ms), postings[ms[m].1 as int][k].0),
    decreases ms.len(),
{
    let x = postings[ms[m].1 as int][k].0;
    let prev = add_matches(postings, ms.drop_last());
    let last = postings[ms.last().1 as int];
    if m < ms.len() - 1 {
        assert(ms.drop_last()[m] == ms[m]);
        lemma_add_matches_scored(postings, ms.drop_last(), m, k);
        lemma_add_posting_scored(prev, last, x);
    } else {
        lemma_add_posting_scored(prev, last, x);
        assert(last[k].0 == x);
    }
}

proof fn lemma_add_posting_distinct(acc: Seq<(usize, u8)>, posting: Seq<(usize, u8)>)
    requires
        distinct_docs(acc),
    ensures
        distinct_docs(add_posting(acc, posting)),
    decreases posting.len(),
{
    if posting.len() > 0 {
        lemma_add_posting_distinct(acc, posting.drop_last());
        lemma_add_hit_distinct(add_posting(acc, posting.drop_last()), posting.last().0, posting.last().1);
    }
}

proof fn lemma_add_matches_distinct(postings: Seq<Seq<(usize, u8)>>, matches: Seq<(Seq<u8>, u64)>)
    ensures
        distinct_docs(add_matches(postings, matches)),
    decreases matches.len(),
{
    if matches.len() > 0 {
        lemma_add_matches_distinct(postings, matches.drop_last());
        lemma_add_posting_distinct(add_matches(postings, matches.drop_last()), postings[matches.last().1 as int]);
    }
}

/// A document's running score.
pub open spec fn score_in(acc: Seq<(usize, u8)>, d: usize) -> u8 {
    acc[find_doc(acc, d)].1
}

/// Whether a document has a running score.
pub open spec fn scored(acc: Seq<(usize, u8)>, d: usize) -> bool {
    exists|i: int| 0 <= i < acc.len() && #[trigger] acc[i].0 == d
}

/// The documents a search returns: at most `max` of them, each once, each one
/// with a score, best score first and equal scores by document number; when
/// fewer than `max` documents have scores, all of them; and every scored
/// document left out ranks below every one returned.
pub proof fn law_ranked_documents(acc: Seq<(usize, u8)>, max: usize)
    requires
        distinct_docs(acc),
    ensures
        ranked_documents(acc, max).len() == if max < acc.len() { max as int } else { acc.len() as int },
        forall|i: int| 0 <= i < ranked_documents(acc, max).len() ==> scored(acc, #[trigger] ranked_documents(acc, max)[i]),
        forall|i: int, j: int| 0 <= i < j < ranked_documents(acc, max).len() ==> {
            let di = #[trigger] ranked_documents(acc, max)[i];
            let dj = #[trigger] ranked_documents(acc, max)[j];
            score_in(acc, di) > score_in(acc, dj) || (score_in(acc, di) == score_in(acc, dj) && di < dj)
        },
        max >= acc.len() ==> forall|i: int| 0 <= i < acc.len() ==> ranked_documents(acc, max).contains(#[trigger] acc[i].0),
        forall|i: int, j: int| 0 <= i < ranked_documents(acc, max).len() && 0 <= j < acc.len()
            && !ranked_documents(acc, max).contains(acc[j].0) ==> {
                let di = #[trigger] ranked_documents(acc, max)[i];
                let e = #[trigger] acc[j];
                score_in(acc, di) > e.1 || (score_in(acc, di) == e.1 && di < e.0)
            },
{
    let items = score_items(acc);
    assert(distinct_positions(items)) by {
        assert forall|i: int, j: int| 0 <= i < items.len() && 0 <= j < items.len() && i != j implies (#[trigger] items[i]).1 != (#[trigger] items[j]).1 by {
            assert(items[i].1 == acc[i].0 && items[j].1 == acc[j].0);
        }
    }
    lemma_ranking_exists(items);
    let ranked = ranking(items.to_set());
    lemma_ranking_len(items, ranked);
    let kept = if max < ranked.len() { ranked.take(max as int) } else { ranked };
    let docs = ranked_documents(acc, max);
    assert(docs == kept.map_values(|e: (u64, usize, ())| e.1));
    // Each kept item stands for one document and its score.
    assert forall|i: int| 0 <= i < kept.len() implies {
        &&& scored(acc, #[trigger] kept[i].1)
        &&& kept[i].0 == score_in(acc, kept[i].1) as u64
    } by {
        assert(kept[i] == ranked[i]);
        assert(ranked.to_set().contains(ranked[i]));
        let k = choose|k: int| 0 <= k < items.len() && items[k] == ranked[i];
        assert(acc[k].0 == ranked[i].1);
        lemma_find_doc(acc, ranked[i].1);
    }
    assert forall|i: int| 0 <= i < docs.len() implies scored(acc, #[trigger] docs[i]) by {
        assert(docs[i] == kept[i].1);
    }
    assert forall|i: int, j: int| 0 <= i < j < docs.len() implies {
        let di = #[trigger] docs[i];
        let dj = #[trigger] docs[j];
        score_in(acc, di) > score_in(acc, dj) || (score_in(acc, di) == score_in(acc, dj) && di < dj)
    } by {
        assert(docs[i] == kept[i].1 && docs[j] == kept[j].1);
        assert(kept[i] == ranked[i] && kept[j] == ranked[j]);
        assert(keys_of(ranked)[i] == (ranked[i].0, ranked[i].1));
        assert(keys_of(ranked)[j] == (ranked[j].0, ranked[j].1));
        assert(rank_lt(keys_of(ranked)[i], keys_of(ranked)[j]));
    }
    assert forall|i: int, j: int| 0 <= i < docs.len() && 0 <= j < acc.len() && !docs.contains(acc[j].0) implies {
        let di = #[trigger] docs[i];
        let e = #[trigger] acc[j];
        score_in(acc, di) > e.1 || (score_in(acc, di) == e.1 && di < e.0)
    } by {
        assert(items[j] == (acc[j].1 as u64, acc[j].0, ()));
        assert(items.to_set().contains(items[j]));
        let k = choose|k: int| 0 <= k < ranked.len() && ranked[k] == items[j];
        if k < kept.len() {
            assert(kept[k] == ranked[k]);
            assert(docs[k] == acc[j].0);
        }
        assert(docs[i] == kept[i].1 && kept[i] == ranked[i]);
        assert(keys_of(ranked)[i] == (ranked[i].0, ranked[i].1));
        assert(keys_of(ranked)[k] == (ranked[k].0, ranked[k].1));
        assert(rank_lt(keys_of(ranked)[i], keys_of(ranked)[k]));
    }
    if max >= acc.len() {
        assert forall|i: int| 0 <= i < acc.len() implies docs.contains(#[trigger] acc[i].0) by {
            assert(items[i] == (acc[i].1 as u64, acc[i].0, ()));
            assert(items.to_set().contains(items[i]));
            let k = choose|k: int| 0 <= k < ranked.len() && ranked[k] == items[i];
            assert(docs[k] == acc[i].0);
        }
    }
}

proof fn lemma_ranking_len<P>(items: Seq<(u64, usize, P)>, ranked: Seq<(u64, usize, P)>)
    requires
        distinct_positions(items),
        ranked.to_set() == items.to_set(),
        is_ranked(ranked),
    ensures
        ranked.len() == items.len(),
{
    // Both hold distinct elements, so their lengths are the sizes of the same set.
    assert(items.no_duplicates()) by {
        assert forall|i: int, j: int| 0 <= i < items.len() && 0 <= j < items.len() && i != j implies items[i] != items[j] by {
            assert(items[i].1 != items[j].1);
        }
    }
    assert(ranked.no_duplicates()) by {
        assert forall|i: int, j: int| 0 <= i < ranked.len() && 0 <= j < ranked.len() && i != j implies ranked[i] != ranked[j] by {
            if i < j {
                assert(rank_lt(keys_of(ranked)[i], keys_of(ranked)[j]));
            } else {
                assert(rank_lt(keys_of(ranked)[j], keys_of(ranked)[i]));
            }
        }
    }
    items.unique_seq_to_set();
    ranked.unique_seq_to_set();
}

/// A search returns at most `max_results` documents, each once, in ranking
/// order; every one of them occurs in the postings of a matched keyword.
pub proof fn law_search_results(index: Index, query: Seq<char>, max: usize)
    ensures
        search_result(index, query, max) matches Ok(docs) ==> docs.len() <= max,
        term_matches(index.fst_bytes(), query_terms(query)) matches Some(ms) ==> {
            let acc = add_matches(index.postings(), ms);
            &&& distinct_docs(acc)
            &&& forall|d: usize| scored(acc, d) ==> #[trigger] occurs_in_matches(index.postings(), ms, d)
        },
{
    if let Some(ms) = term_matches(index.fst_bytes(), query_terms(query)) {
        let acc = add_matches(index.postings(), ms);
        lemma_add_matches_distinct(index.postings(), ms);
        law_ranked_documents(acc, max);
        lemma_scored_occurs(index.postings(), ms);
    }
}

/// Document `d` occurs in the postings of one of the matched keywords.
pub open spec fn occurs_in_matches(postings: Seq<Seq<(usize, u8)>>, ms: Seq<(Seq<u8>, u64)>, d: usize) -> bool {
    exists|m: int, e: int|
        0 <= m < ms.len() && 0 <= e < postings[ms[m].1 as int].len() && #[trigger] postings[ms[m].1 as int][e].0 == d
}

proof fn lemma_scored_posting(acc: Seq<(usize, u8)>, posting: Seq<(usize, u8)>, d: usize)
    requires
        scored(add_posting(acc, posting), d),
    ensures
        scored(acc, d) || exists|e: int| 0 <= e < posting.len() && #[trigger] posting[e].0 == d,
    decreases posting.len(),
{
    if posting.len() > 0 {
        let prev = add_posting(acc, posting.drop_last());
        let last = posting.last();
        lemma_find_doc(prev, last.0);
        let i = choose|i: int| 0 <= i < add_posting(acc, posting).len() && #[trigger] add_posting(acc, posting)[i].0 == d;
        if last.0 == d {
            assert(posting[posting.len() - 1].0 == d);
        } else {
            if find_doc(prev, last.0) >= 0 {
                assert(prev[i].0 == d);
            } else {
                assert(i < prev.len());
                assert(prev[i].0 == d);
            }
            lemma_scored_posting(acc, posting.drop_last(), d);
            if !scored(acc, d) {
                let e = choose|e: int| 0 <= e < posting.drop_last().len() && #[trigger] posting.drop_last()[e].0 == d;
                assert(posting[e].0 == d);
            }
        }
    }
}

proof fn lemma_scored_occurs(postings: Seq<Seq<(usize, u8)>>, ms: Seq<(Seq<u8>, u64)>)
    ensures
        forall|d: usize| scored(add_matches(postings, ms), d) ==> #[trigger] occurs_in_matches(postings, ms, d),
    decreases ms.len(),
{
    if ms.len() > 0 {
        lemma_scored_occurs(postings, ms.drop_last());
        assert forall|d: usize| scored(add_matches(postings, ms), d) implies #[trigger] occurs_in_matches(postings, ms, d) by {
            let prev = add_matches(postings, ms.drop_last());
            let posting = postings[ms.last().1 as int];
            lemma_scored_posting(prev, posting, d);
            if scored(prev, d) {
                assert(occurs_in_matches(postings, ms.drop_last(), d));
                let (m, e) = choose|m: int, e: int|
                    0 <= m < ms.drop_last().len() && 0 <= e < postings[ms.drop_last()[m].1 as int].len()
                    && #[trigger] postings[ms.drop_last()[m].1 as int][e].0 == d;
                assert(ms[m] == ms.drop_last()[m]);
            } else {
                let e = choose|e: int| 0 <= e < posting.len() && #[trigger] posting[e].0 == d;
                assert(postings[ms[ms.len() - 1].1 as int][e].0 == d);
            }
        }
    } else {
        assert forall|d: usize| scored(add_matches(postings, ms), d) implies #[trigger] occurs_in_matches(postings, ms, d) by {
        }
    }
}

/// A search depends only on the index's keyword map, strings and postings: an
/// index read back from the bytes of another (see `Index::from_bytes`) answers
/// every query as the other does.
pub proof fn law_same_contents_same_search(a: Index, b: Index, query: Seq<char>, max: usize)
    requires
        a.fst_bytes() == b.fst_bytes(),
        a.strings() == b.strings(),
        a.postings() == b.postings(),
    ensures
        search_result(a, query, max) == search_result(b, query, max),
{
}

proof fn lemma_distinct_terms_alike(ws1: Seq<Seq<char>>, ws2: Seq<Seq<char>>)
    requires
        ws1.len() == ws2.len(),
        forall|i: int| 0 <= i < ws1.len() ==> normalize(#[trigger] ws1[i]) == normalize(ws2[i]),
    ensures
        distinct_terms(ws1) == distinct_terms(ws2),
    decreases ws1.len(),
{
    if ws1.len() > 0 {
        assert forall|i: int| 0 <= i < ws1.drop_last().len() implies normalize(#[trigger] ws1.drop_last()[i])
            == normalize(ws2.drop_last()[i]) by {
            assert(ws1.drop_last()[i] == ws1[i] && ws2.drop_last()[i] == ws2[i]);
        }
        lemma_distinct_terms_alike(ws1.drop_last(), ws2.drop_last());
        assert(normalize(ws1[ws1.len() - 1]) == normalize(ws2[ws2.len() - 1]));
    }
}

/// Search ignores the case of ASCII letters: two ASCII queries that differ only
/// in the case of their letters search for the same terms and get the same result.
pub proof fn law_search_ignores_ascii_case(index: Index, q1: Seq<char>, q2: Seq<char>, max: usize)
    requires
        is_ascii_text(q1),
        is_ascii_text(q2),
        ascii_lower(q1) == ascii_lower(q2),
    ensures
        query_terms(q1) == query_terms(q2),
        search_result(index, q1, max) == search_result(index, q2, max),
{
    lemma_words_ascii_case(q1, q2);
    lemma_distinct_terms_alike(words(q1), words(q2));
    assert(lowercase(q1) == lowercase(q2));
}

/// A document's running score, 0 when it has none.
pub open spec fn doc_score(acc: Seq<(usize, u8)>, d: usize) -> int {
    if scored(acc, d) { score_in(acc, d) as int } else { 0 }
}

/// The sum of the scores a posting list gives a document.
pub open spec fn posting_total(posting: Seq<(usize, u8)>, d: usize) -> int
    decreases posting.len(),
{
    if posting.len() == 0 {
        0
    } else {
        posting_total(posting.drop_last(), d) + if posting.last().0 == d { posting.last().1 as int } else { 0 }
    }
}

/// The sum of the scores the posting lists of the matched keywords give a document.
pub open spec fn matches_total(postings: Seq<Seq<(usize, u8)>>, ms: Seq<(Seq<u8>, u64)>, d: usize) -> int
    decreases ms.len(),
{
    if ms.len() == 0 {
        0
    } else {
        matches_total(postings, ms.drop_last(), d) + posting_total(postings[ms.last().1 as int], d)
    }
}

/// The lesser of a number and 255.
pub open spec fn cap_255(x: int) -> int {
    if x > 255 { 255 } else { x }
}

proof fn lemma_find_unique(acc: Seq<(usize, u8)>, d: usize, j: int)
    requires
        distinct_docs(acc),
        0 <= j < acc.len(),
        acc[j].0 == d,
    ensures
        scored(acc, d),
        find_doc(acc, d) == j,
        score_in(acc, d) == acc[j].1,
{
    lemma_find_doc(acc, d);
}

proof fn lemma_posting_total_nonneg(posting: Seq<(usize, u8)>, d: usize)
    ensures
        posting_total(posting, d) >= 0,
    decreases posting.len(),
{
    if posting.len() > 0 {
        lemma_posting_total_nonneg(posting.drop_last(), d);
    }
}

proof fn lemma_add_hit_score(acc: Seq<(usize, u8)>, x: usize, s: u8, d: usize)
    requires
        distinct_docs(acc),
    ensures
        doc_score(add_hit(acc, x, s), d) == if x == d { cap_255(doc_score(acc, d) + s) } else { doc_score(acc, d) },
        0 <= doc_score(acc, d) <= 255,
{
    lemma_find_doc(acc, x);
    lemma_add_hit_distinct(acc, x, s);
    let r = add_hit(acc, x, s);
    let i = find_doc(acc, x);
    if scored(acc, d) {
        let j = choose|j: int| 0 <= j < acc.len() && #[trigger] acc[j].0 == d;
        lemma_find_unique(acc, d, j);
    }
    if i >= 0 {
        if x == d {
            lemma_find_unique(acc, d, i);
            lemma_find_unique(r, d, i);
        } else if scored(acc, d) {
            let j = choose|j: int| 0 <= j < acc.len() && #[trigger] acc[j].0 == d;
            assert(r[j] == acc[j]);
            lemma_find_unique(r, d, j);
        } else {
            assert(!scored(r, d)) by {
                if scored(r, d) {
                    let j = choose|j: int| 0 <= j < r.len() && #[trigger] r[j].0 == d;
                    if j != i {
                        assert(r[j] == acc[j]);
                    }
                }
            }
        }
    } else {
        if x == d {
            assert(!scored(acc, d));
            lemma_find_unique(r, d, acc.len() as int);
        } else if scored(acc, d) {
            let j = choose|j: int| 0 <= j < acc.len() && #[trigger] acc[j].0 == d;
            assert(r[j] == acc[j]);
            lemma_find_unique(r, d, j);
        } else {
            assert(!scored(r, d)) by {
                if scored(r, d) {
                    let j = choose|j: int| 0 <= j < r.len() && #[trigger] r[j].0 == d;
                    if j < acc.len() {
                        assert(r[j] == acc[j]);
                    }
                }
            }
        }
    }
}

proof fn lemma_add_posting_score(acc: Seq<(usize, u8)>, posting: Seq<(usize, u8)>, d: usize)
    requires
        distinct_docs(acc),
    ensures
        doc_score(add_posting(acc, posting), d) == cap_255(doc_score(acc, d) + posting_total(posting, d)),
    decreases posting.len(),
{
    lemma_add_hit_score(acc, 0, 0, d);
    if posting.len() > 0 {
        let prev = add_posting(acc, posting.drop_last());
        lemma_add_posting_score(acc, posting.drop_last(), d);
        lemma_add_posting_distinct(acc, posting.drop_last());
        lemma_add_hit_score(prev, posting.last().0, posting.last().1, d);
        lemma_posting_total_nonneg(posting.drop_last(), d);
    }
}

/// A search adds up, per document, every score that the posting lists of the
/// matched keywords give it, stopping at 255: a document's score is the
/// lesser of 255 and that sum (0 when no list names it).
pub proof fn law_scores_add_up(postings: Seq<Seq<(usize, u8)>>, ms: Seq<(Seq<u8>, u64)>, d: usize)
    ensures
        doc_score(add_matches(postings, ms), d) == cap_255(matches_total(postings, ms, d)),
    decreases ms.len(),
{
    if ms.len() == 0 {
        assert(!scored(Seq::<(usize, u8)>::empty(), d));
    } else {
        let prev = add_matches(postings, ms.drop_last());
        law_scores_add_up(postings, ms.drop_last(), d);
        lemma_add_matches_distinct(postings, ms.drop_last());
        lemma_add_posting_score(prev, postings[ms.last().1 as int], d);
        lemma_posting_total_nonneg(postings[ms.last().1 as int], d);
        lemma_matches_total_nonneg(postings, ms.drop_last(), d);
    }
}

proof fn lemma_matches_total_nonneg(postings: Seq<Seq<(usize, u8)>>, ms: Seq<(Seq<u8>, u64)>, d: usize)
    ensures
        matches_total(postings, ms, d) >= 0,
    decreases ms.len(),
{
    if ms.len() > 0 {
        lemma_matches_total_nonneg(postings, ms.drop_last(), d);
        lemma_posting_total_nonneg(postings[ms.last().1 as int], d);
    }
}

proof fn lemma_distinct_terms(ws: Seq<Seq<char>>)
    ensures
        distinct_terms(ws).no_duplicates(),
        forall|i: int| 0 <= i < ws.len() && normalize(#[trigger] ws[i]).len() > 0
            ==> distinct_terms(ws).contains(normalize(ws[i])),
        forall|j: int| 0 <= j < distinct_terms(ws).len() ==> (#[trigger] distinct_terms(ws)[j]).len() > 0
            && normalised_word_of(ws, distinct_terms(ws)[j]),
    decreases ws.len(),
{
    if ws.len() > 0 {
        let init = ws.drop_last();
        lemma_distinct_terms(init);
        let prev = distinct_terms(init);
        let w = normalize(ws.last());
        let cur = distinct_terms(ws);
        assert forall|i: int| 0 <= i < ws.len() && normalize(#[trigger] ws[i]).len() > 0
            implies cur.contains(normalize(ws[i])) by {
            if i < ws.len() - 1 {
                assert(init[i] == ws[i]);
                assert(prev.contains(normalize(init[i])));
                let k = choose|k: int| 0 <= k < prev.len() && prev[k] == normalize(init[i]);
                assert(cur[k] == prev[k]);
            } else {
                if !prev.contains(w) {
                    assert(cur[prev.len() as int] == w);
                }
            }
        }
        assert forall|j: int| 0 <= j < cur.len() implies (#[trigger] cur[j]).len() > 0
            && normalised_word_of(ws, cur[j]) by {
            if j < prev.len() {
                assert(cur[j] == prev[j]);
                let i = choose|i: int| 0 <= i < init.len() && #[trigger] normalize(init[i]) == prev[j];
                assert(init[i] == ws[i]);
            } else {
                assert(cur[j] == w);
                assert(normalize(ws[ws.len() - 1]) == w);
            }
        }
        assert(cur.no_duplicates()) by {
            assert forall|a: int, b: int| 0 <= a < cur.len() && 0 <= b < cur.len() && a != b implies cur[a] != cur[b] by {
                if a < prev.len() && b < prev.len() {
                    assert(cur[a] == prev[a] && cur[b] == prev[b]);
                } else if a < prev.len() {
                    assert(cur[a] == prev[a]);
                    assert(prev.contains(prev[a]));
                } else if b < prev.len() {
                    assert(cur[b] == prev[b]);
                    assert(prev.contains(prev[b]));
                }
            }
        }
    }
}

/// A query searches for each non-empty normalised word of it once, and for the
/// whole query lowercased, and for nothing else.
pub proof fn law_query_terms(q: Seq<char>)
    ensures
        query_terms(q).no_duplicates(),
        query_terms(q).contains(lowercase(q)),
        forall|i: int| 0 <= i < words(q).len() && normalize(#[trigger] words(q)[i]).len() > 0
            ==> query_terms(q).contains(normalize(words(q)[i])),
        forall|j: int| 0 <= j < query_terms(q).len() ==> #[trigger] query_terms(q)[j] == lowercase(q)
            || (query_terms(q)[j].len() > 0 && normalised_word_of(words(q), query_terms(q)[j])),
{
    let base = distinct_terms(words(q));
    lemma_distinct_terms(words(q));
    let qt = query_terms(q);
    if base.contains(lowercase(q)) {
        assert(qt == base);
    } else {
        assert(qt == base.push(lowercase(q)));
        assert(qt[base.len() as int] == lowercase(q));
        assert forall|i: int| 0 <= i < words(q).len() && normalize(#[trigger] words(q)[i]).len() > 0
            implies qt.contains(normalize(words(q)[i])) by {
            let k = choose|k: int| 0 <= k < base.len() && base[k] == normalize(words(q)[i]);
            assert(qt[k] == base[k]);
        }
        assert forall|j: int| 0 <= j < qt.len() implies #[trigger] qt[j] == lowercase(q)
            || (qt[j].len() > 0 && normalised_word_of(words(q), qt[j])) by {
            if j < base.len() {
                assert(qt[j] == base[j]);
            }
        }
        assert(qt.no_duplicates()) by {
            assert forall|a: int, b: int| 0 <= a < qt.len() && 0 <= b < qt.len() && a != b implies qt[a] != qt[b] by {
                if a < base.len() && b < base.len() {
                    assert(qt[a] == base[a] && qt[b] == base[b]);
                } else if a < base.len() {
                    assert(qt[a] == base[a]);
                    assert(base.contains(base[a]));
                } else if b < base.len() {
                    assert(qt[b] == base[b]);
                    assert(base.contains(base[b]));
                }
            }
        }
    }
}

} // verus!
