//! Choosing the keywords of a document.
use vstd::prelude::*;
use vstd::utf8::*;
use crate::text::{
    words, normalize, lowercase, count_spaces, split_words, normalize_word, to_lowercase,
    contains_string, space_count, chars_of, normalised_word_of,
};
use crate::order::{lex_lt, strict_order, strictly_sorted, bytes_less, lemma_lex_irreflexive,
    lemma_lex_transitive, lemma_lex_total, lemma_insert_keeps_sorted, lemma_sorted_unique};
use crate::index::Document;

verus! {

broadcast use vstd::utf8::group_utf8_lib;

/// A keyword: its text, its rank (the bit pattern of its score as an IEEE-754
/// double, which orders non-negative scores as the scores do) and its score
/// as a byte.
pub type Keyword = (Seq<char>, u64, u8);

/// Ranks of non-negative, finite scores: the bit patterns below that of infinity.
pub const FINITE_RANK_LIMIT: u64 = 0x7FF0_0000_0000_0000;

/// The byte score of a rank: the integer part of the non-negative double whose
/// bits are `rank`, saturated at 255 (what `as u8` makes of that double).
pub open spec fn rank_byte(rank: u64) -> u8 {
    let e = rank >> 52u64;
    let m = rank & 0xF_FFFF_FFFF_FFFFu64;
    if e < 1023u64 {
        0
    } else if e >= 1031u64 {
        255
    } else {
        ((m | 0x10_0000_0000_0000u64) >> ((1075u64 - e) as u64)) as u8
    }
}

/// A keyword's rank is that of a non-negative finite score, and its byte score
/// is the rank's byte.
pub open spec fn rank_scored(k: Keyword) -> bool {
    k.1 < FINITE_RANK_LIMIT && k.2 == rank_byte(k.1)
}

/// A higher rank never has a lower byte score.
pub proof fn lemma_rank_byte_monotone(r1: u64, r2: u64)
    requires
        r1 <= r2,
        r2 < FINITE_RANK_LIMIT,
    ensures
        rank_byte(r1) <= rank_byte(r2),
{
    assert(r1 <= r2 && r2 < 0x7FF0_0000_0000_0000u64 ==> rank_byte(r1) <= rank_byte(r2)) by (bit_vector);
}

/// The listed and title keywords' byte scores are their ranks' bytes.
pub proof fn lemma_fixed_ranks_scored()
    ensures
        rank_byte(EXPLICIT_KEYWORD_RANK) == EXPLICIT_KEYWORD_SCORE,
        rank_byte(TITLE_KEYWORD_RANK) == TITLE_KEYWORD_SCORE,
{
    assert(rank_byte(0x4059_0000_0000_0000u64) == 100u8) by (bit_vector);
    assert(rank_byte(0x4056_8000_0000_0000u64) == 90u8) by (bit_vector);
}

/// Rank of a keyword listed by the document itself (the bits of 100.0).
pub const EXPLICIT_KEYWORD_RANK: u64 = 0x4059_0000_0000_0000;

/// Score of a keyword listed by the document itself.
pub const EXPLICIT_KEYWORD_SCORE: u8 = 100;

/// Rank of a keyword taken from the title (the bits of 90.0).
pub const TITLE_KEYWORD_RANK: u64 = 0x4056_8000_0000_0000;

/// Score of a keyword taken from the title.
pub const TITLE_KEYWORD_SCORE: u8 = 90;

/// How many keywords the body may add: single words and two-word phrases.
pub struct IndexConfig {
    pub single_word_budget: usize,
    pub multi_word_budget: usize,
}

impl IndexConfig {
    /// Five single words and three two-word phrases.
    pub fn new() -> (c: Self)
        ensures
            c.single_word_budget == 5,
            c.multi_word_budget == 3,
    {
        IndexConfig { single_word_budget: 5, multi_word_budget: 3 }
    }
}

impl Default for IndexConfig {
    fn default() -> (c: Self)
        ensures
            c.single_word_budget == 5,
            c.multi_word_budget == 3,
    {
        IndexConfig::new()
    }
}

#[verifier::external_type_specification]
#[verifier::external_body]
pub struct ExRake(rake::Rake);

/// The stop words a RAKE extractor holds.
pub uninterp spec fn rake_stop_words(r: rake::Rake) -> Set<Seq<char>>;

/// The keywords `rake::Rake::run_fragments` finds in one fragment of text with
/// a set of stop words: each phrase once, with the bits of its score and the
/// score converted to a byte.
pub uninterp spec fn rake_keywords(stop_words: Set<Seq<char>>, text: Seq<char>) -> Set<Keyword>;

/// Builds a RAKE extractor.
/// Calls `rake::StopWords::from` on the set of the given words and `rake::Rake::new`.
#[verifier::external_body]
pub(crate) fn new_rake(stop_words: &Vec<String>) -> (r: rake::Rake)
    ensures
        rake_stop_words(r) == stop_words@.map_values(|s: String| s@).to_set(),
{
    let set: std::collections::HashSet<String> = stop_words.iter().cloned().collect();
    rake::Rake::new(rake::StopWords::from(set))
}

/// The view of an owned keyword.
pub open spec fn keyword_view(k: (String, u64, u8)) -> Keyword {
    (k.0@, k.1, k.2)
}

/// The views of owned keywords.
pub open spec fn keywords_view(ks: Seq<(String, u64, u8)>) -> Seq<Keyword> {
    ks.map_values(|k: (String, u64, u8)| keyword_view(k))
}

/// Runs RAKE on one fragment of text.
/// Calls `rake::Rake::run_fragments` and converts each score to its bits and to a
/// byte (`as u8`). The crate computes each phrase's score from word counts
/// alone and keys its results by phrase, so the set of results is a function of
/// the stop words and the text; their order among equal scores follows a
/// hash map and is left unsaid. Each score is a sum of word degrees divided by
/// word frequencies, so it is non-negative and finite, and `as u8` truncates
/// such a double and saturates at 255, which `rank_byte` spells out.
#[verifier::external_body]
fn run_rake(r: &rake::Rake, text: &str) -> (k: Vec<(String, u64, u8)>)
    ensures
        keywords_view(k@).to_set() == rake_keywords(rake_stop_words(*r), text@),
        forall|i: int, j: int| 0 <= i < k@.len() && 0 <= j < k@.len() && i != j ==> (#[trigger] k@[i]).0@ != (#[trigger] k@[j]).0@,
        forall|i: int| 0 <= i < k@.len() ==> rank_scored(keyword_view(#[trigger] k@[i])),
{
    r.run_fragments(vec![text]).into_iter().map(|k| (k.keyword, k.score.to_bits(), k.score as u8)).collect()
}

/// RAKE's order made total: higher rank first, then the text's UTF-8 bytes in order.
pub open spec fn keyword_lt(x: Keyword, y: Keyword) -> bool {
    x.1 > y.1 || (x.1 == y.1 && lex_lt(encode_utf8(x.0), encode_utf8(y.0)))
}

/// The keywords RAKE finds, in `keyword_lt` order.
pub open spec fn rake_order(found: Set<Keyword>) -> Seq<Keyword> {
    choose|s: Seq<Keyword>| s.to_set() == found && strictly_sorted(s, |x: Keyword, y: Keyword| keyword_lt(x, y))
}

pub proof fn lemma_keyword_strict_order()
    ensures
        strict_order(|x: Keyword, y: Keyword| keyword_lt(x, y)),
{
    assert forall|x: Keyword| !keyword_lt(x, x) by {
        lemma_lex_irreflexive(encode_utf8(x.0));
    }
    assert forall|x: Keyword, y: Keyword, z: Keyword| keyword_lt(x, y) && keyword_lt(y, z) implies keyword_lt(x, z) by {
        if x.1 == y.1 && y.1 == z.1 {
            lemma_lex_transitive(encode_utf8(x.0), encode_utf8(y.0), encode_utf8(z.0));
        }
    }
}

/// Keywords with different texts are ordered one way or the other.
proof fn lemma_keyword_total(x: Keyword, y: Keyword)
    requires
        x.0 != y.0,
    ensures
        keyword_lt(x, y) || keyword_lt(y, x),
{
    if encode_utf8(x.0) == encode_utf8(y.0) {
        encode_utf8_decode_utf8(x.0);
        encode_utf8_decode_utf8(y.0);
    }
    lemma_lex_total(encode_utf8(x.0), encode_utf8(y.0));
}

/// Whether a keyword comes before another in `keyword_lt` order.
fn keyword_before(a: &(String, u64, u8), b: &(String, u64, u8)) -> (r: bool)
    ensures
        r == keyword_lt(keyword_view(*a), keyword_view(*b)),
{
    if a.1 != b.1 {
        a.1 > b.1
    } else {
        bytes_less(a.0.as_str().as_bytes(), b.0.as_str().as_bytes())
    }
}

/// Texts differ pairwise.
pub open spec fn distinct_texts(ks: Seq<Keyword>) -> bool {
    forall|i: int, j: int| 0 <= i < ks.len() && 0 <= j < ks.len() && i != j ==> (#[trigger] ks[i]).0 != (#[trigger] ks[j]).0
}

/// Sorts keywords in `keyword_lt` order.
fn sort_keywords(items: Vec<(String, u64, u8)>) -> (r: Vec<(String, u64, u8)>)
    requires
        distinct_texts(keywords_view(items@)),
    ensures
        r@.len() == items@.len(),
        keywords_view(r@).to_set() == keywords_view(items@).to_set(),
        strictly_sorted(keywords_view(r@), |x: Keyword, y: Keyword| keyword_lt(x, y)),
{
    let ghost orig = keywords_view(items@);
    let mut rest = items;
    let mut sorted: Vec<(String, u64, u8)> = Vec::new();
    proof {
        assert(keywords_view(sorted@).to_set() =~= Set::empty());
        assert(keywords_view(sorted@).to_set().union(keywords_view(rest@).to_set()) =~= orig.to_set());
        assert(keywords_view(sorted@) + keywords_view(rest@) =~= orig);
        lemma_keyword_strict_order();
    }
    while rest.len() > 0
        invariant
            sorted@.len() + rest@.len() == orig.len(),
            keywords_view(sorted@).to_set().union(keywords_view(rest@).to_set()) == orig.to_set(),
            distinct_texts(keywords_view(sorted@) + keywords_view(rest@)),
            strictly_sorted(keywords_view(sorted@), |x: Keyword, y: Keyword| keyword_lt(x, y)),
            strict_order(|x: Keyword, y: Keyword| keyword_lt(x, y)),
        decreases rest@.len(),
    {
        let ghost prev_sorted = keywords_view(sorted@);
        let ghost prev_rest = keywords_view(rest@);
        let item = rest.pop().unwrap();
        let ghost iv = keyword_view(item);
        proof {
            assert(prev_rest =~= keywords_view(rest@).push(iv));
            crate::order::lemma_set_of_push(keywords_view(rest@), iv);
            assert(prev_sorted + prev_rest =~= (prev_sorted + keywords_view(rest@)).push(iv));
        }
        let len = sorted.len();
        let mut pos: usize = 0;
        while pos < len
            invariant
                pos <= len,
                len == sorted@.len(),
                keywords_view(sorted@) == prev_sorted,
                iv == keyword_view(item),
                forall|i: int| 0 <= i < pos ==> keyword_lt(#[trigger] prev_sorted[i], iv),
            ensures
                pos < len ==> !keyword_lt(prev_sorted[pos as int], iv),
                forall|i: int| 0 <= i < pos ==> keyword_lt(#[trigger] prev_sorted[i], iv),
            decreases len - pos,
        {
            assert(prev_sorted[pos as int] == keyword_view(sorted@[pos as int]));
            if !keyword_before(&sorted[pos], &item) {
                break;
            }
            pos = pos + 1;
        }
        proof {
            if pos < len {
                let all = (prev_sorted + keywords_view(rest@)).push(iv);
                assert(all[pos as int] == prev_sorted[pos as int]);
                assert(all[all.len() - 1] == iv);
                assert(prev_sorted[pos as int] == keyword_view(sorted@[pos as int]));
                lemma_keyword_total(prev_sorted[pos as int], iv);
            }
            lemma_insert_keeps_sorted(prev_sorted, iv, pos as int, |x: Keyword, y: Keyword| keyword_lt(x, y));
            crate::order::lemma_set_of_insert(prev_sorted, pos as int, iv);
        }
        sorted.insert(pos, item);
        proof {
            assert(keywords_view(sorted@) =~= prev_sorted.insert(pos as int, iv));
            let before = (prev_sorted + keywords_view(rest@)).push(iv);
            let after = keywords_view(sorted@) + keywords_view(rest@);
            assert forall|i: int, j: int| 0 <= i < after.len() && 0 <= j < after.len() && i != j
                implies (#[trigger] after[i]).0 != (#[trigger] after[j]).0 by {
                let mi = if i < pos { i } else if i == pos { before.len() - 1 } else { i - 1 };
                let mj = if j < pos { j } else if j == pos { before.len() - 1 } else { j - 1 };
                assert(after[i] == before[mi]);
                assert(after[j] == before[mj]);
            }
            assert(keywords_view(sorted@).to_set().union(keywords_view(rest@).to_set()) =~= orig.to_set());
        }
    }
    proof {
        assert(keywords_view(rest@).to_set() =~= Set::empty());
        assert(keywords_view(sorted@).to_set().union(keywords_view(rest@).to_set()) =~= keywords_view(sorted@).to_set());
    }
    sorted
}

/// The texts of keywords.
pub open spec fn keyword_texts(ks: Seq<Keyword>) -> Seq<Seq<char>> {
    ks.map_values(|k: Keyword| k.0)
}

/// Adds candidate words in turn: each normalised, kept if non-empty, not a stop
/// word and not already a keyword.
pub open spec fn add_candidates(
    acc: Seq<Keyword>,
    cands: Seq<Seq<char>>,
    stop_words: Seq<Seq<char>>,
    rank: u64,
    score: u8,
) -> Seq<Keyword>
    decreases cands.len(),
{
    if cands.len() == 0 {
        acc
    } else {
        let prev = add_candidates(acc, cands.drop_last(), stop_words, rank, score);
        let w = normalize(cands.last());
        if w.len() > 0 && !stop_words.contains(w) && !keyword_texts(prev).contains(w) {
            prev.push((w, rank, score))
        } else {
            prev
        }
    }
}

/// Adds RAKE's keywords in turn, lowercased, skipping those already present:
/// a single word while the single-word budget lasts, a two-word phrase while the
/// multi-word budget lasts, nothing else; stops when both budgets are spent.
pub open spec fn add_body(acc: Seq<Keyword>, ranked: Seq<Keyword>, single: nat, multi: nat) -> Seq<Keyword>
    decreases ranked.len(),
{
    if ranked.len() == 0 || (single == 0 && multi == 0) {
        acc
    } else {
        let k = ranked[0];
        let low = lowercase(k.0);
        let rest = ranked.skip(1);
        if keyword_texts(acc).contains(low) {
            add_body(acc, rest, single, multi)
        } else if count_spaces(k.0) == 0 && single > 0 {
            add_body(acc.push((low, k.1, k.2)), rest, (single - 1) as nat, multi)
        } else if count_spaces(k.0) == 1 && multi > 0 {
            add_body(acc.push((low, k.1, k.2)), rest, single, (multi - 1) as nat)
        } else {
            add_body(acc, rest, single, multi)
        }
    }
}

/// The keywords a document lists itself.
pub open spec fn listed_keywords(doc: Document) -> Seq<Seq<char>> {
    match doc.keywords {
        Some(v) => v@.map_values(|s: String| s@),
        None => Seq::empty(),
    }
}

/// The keywords of a document: those it lists, then the title's words, then
/// RAKE's phrases from the body within the budgets.
pub open spec fn document_keywords(doc: Document, stop_words: Seq<Seq<char>>, single: nat, multi: nat) -> Seq<Keyword> {
    let listed = add_candidates(
        Seq::empty(),
        listed_keywords(doc),
        stop_words,
        EXPLICIT_KEYWORD_RANK,
        EXPLICIT_KEYWORD_SCORE,
    );
    let titled = add_candidates(listed, words(doc.title@), stop_words, TITLE_KEYWORD_RANK, TITLE_KEYWORD_SCORE);
    add_body(titled, rake_order(rake_keywords(stop_words.to_set(), doc.body@)), single, multi)
}

/// Whether a keyword with this text is present.
fn has_text(acc: &Vec<(String, u64, u8)>, w: &String) -> (r: bool)
    ensures
        r == keyword_texts(keywords_view(acc@)).contains(w@),
{
    let ghost texts = keyword_texts(keywords_view(acc@));
    let n = acc.len();
    for k in 0..n
        invariant
            n == acc@.len(),
            texts == keyword_texts(keywords_view(acc@)),
            forall|i: int| 0 <= i < k ==> acc@[i].0@ != w@,
    {
        if acc[k].0 == *w {
            assert(texts[k as int] == w@);
            return true;
        }
    }
    proof {
        if texts.contains(w@) {
            let i = choose|i: int| 0 <= i < texts.len() && #[trigger] texts[i] == w@;
            assert(acc@[i].0@ == w@);
        }
    }
    false
}

fn add_candidates_exec(
    acc: &mut Vec<(String, u64, u8)>,
    cands: &Vec<Vec<char>>,
    stop_words: &Vec<String>,
    rank: u64,
    score: u8,
)
    ensures
        keywords_view(final(acc)@) == add_candidates(
            keywords_view(old(acc)@),
            cands@.map_values(|c: Vec<char>| c@),
            stop_words@.map_values(|s: String| s@),
            rank,
            score,
        ),
{
    let ghost start = keywords_view(acc@);
    let ghost cv = cands@.map_values(|c: Vec<char>| c@);
    let ghost sv = stop_words@.map_values(|s: String| s@);
    let n = cands.len();
    assert(cv.take(0) =~= Seq::<Seq<char>>::empty());
    for k in 0..n
        invariant
            n == cands@.len(),
            cv == cands@.map_values(|c: Vec<char>| c@),
            sv == stop_words@.map_values(|s: String| s@),
            keywords_view(acc@) == add_candidates(start, cv.take(k as int), sv, rank, score),
    {
        assert(cv.take(k + 1).drop_last() =~= cv.take(k as int));
        assert(cv.take(k + 1).last() == cands@[k as int]@);
        let w = normalize_word(&cands[k]);
        let ghost before = keywords_view(acc@);
        if !w.as_str().is_empty() && !contains_string(stop_words, &w) && !has_text(acc, &w) {
            acc.push((w, rank, score));
            assert(keywords_view(acc@) =~= before.push((w@, rank, score)));
        }
    }
    assert(cv.take(n as int) =~= cv);
}

fn add_body_exec(acc: &mut Vec<(String, u64, u8)>, ranked: &Vec<(String, u64, u8)>, single: usize, multi: usize)
    ensures
        keywords_view(final(acc)@) == add_body(keywords_view(old(acc)@), keywords_view(ranked@), single as nat, multi as nat),
{
    let ghost target = add_body(keywords_view(acc@), keywords_view(ranked@), single as nat, multi as nat);
    let ghost rv = keywords_view(ranked@);
    let n = ranked.len();
    let mut i: usize = 0;
    let mut s = single;
    let mut m = multi;
    assert(rv.skip(0) =~= rv);
    while i < n && (s > 0 || m > 0)
        invariant
            n == ranked@.len(),
            i <= n,
            rv == keywords_view(ranked@),
            add_body(keywords_view(acc@), rv.skip(i as int), s as nat, m as nat) == target,
        decreases n - i,
    {
        let ghost rest = rv.skip(i as int);
        assert(rest[0] == keyword_view(ranked@[i as int]));
        assert(rest.skip(1) =~= rv.skip(i + 1));
        let kw = &ranked[i];
        let low = to_lowercase(kw.0.as_str());
        let ghost before = keywords_view(acc@);
        if has_text(acc, &low) {
        } else {
            let chars = chars_of(kw.0.as_str());
            let spaces = space_count(&chars);
            if spaces == 0 && s > 0 {
                acc.push((low, kw.1, kw.2));
                assert(keywords_view(acc@) =~= before.push((lowercase(kw.0@), kw.1, kw.2)));
                s = s - 1;
            } else if spaces == 1 && m > 0 {
                acc.push((low, kw.1, kw.2));
                assert(keywords_view(acc@) =~= before.push((lowercase(kw.0@), kw.1, kw.2)));
                m = m - 1;
            }
        }
        i = i + 1;
    }
    proof {
        if i == n {
            assert(rv.skip(i as int).len() == 0);
        }
    }
}

/// Chooses the keywords of a document.
pub fn document_keywords_exec(
    doc: &Document,
    stop_words: &Vec<String>,
    extractor: &rake::Rake,
    config: &IndexConfig,
) -> (r: Vec<(String, u64, u8)>)
    requires
        rake_stop_words(*extractor) == stop_words@.map_values(|s: String| s@).to_set(),
    ensures
        keywords_view(r@) == document_keywords(
            *doc,
            stop_words@.map_values(|s: String| s@),
            config.single_word_budget as nat,
            config.multi_word_budget as nat,
        ),
        all_rank_scored(keywords_view(r@)),
        added_from_rake(
            keywords_view(r@),
            listed_and_title_keywords(*doc, stop_words@.map_values(|s: String| s@)).len() as int,
            rake_keywords(stop_words@.map_values(|s: String| s@).to_set(), doc.body@),
        ),
        best_ranked_kept(
            keywords_view(r@),
            listed_and_title_keywords(*doc, stop_words@.map_values(|s: String| s@)),
            rake_keywords(stop_words@.map_values(|s: String| s@).to_set(), doc.body@),
        ),
        within_budget_kept(
            keywords_view(r@),
            rake_keywords(stop_words@.map_values(|s: String| s@).to_set(), doc.body@),
            config.single_word_budget as nat,
            config.multi_word_budget as nat,
        ),
{
    let ghost sv = stop_words@.map_values(|s: String| s@);
    let mut acc: Vec<(String, u64, u8)> = Vec::new();
    let mut listed: Vec<Vec<char>> = Vec::new();
    match &doc.keywords {
        Some(v) => {
            let n = v.len();
            for k in 0..n
                invariant
                    n == v@.len(),
                    listed@.map_values(|c: Vec<char>| c@) == v@.map_values(|s: String| s@).take(k as int),
            {
                listed.push(chars_of(v[k].as_str()));
                assert(v@.map_values(|s: String| s@).take(k + 1) =~= v@.map_values(|s: String| s@).take(k as int).push(v@[k as int]@));
                assert(listed@.map_values(|c: Vec<char>| c@) =~= v@.map_values(|s: String| s@).take(k as int).push(v@[k as int]@));
            }
            assert(v@.map_values(|s: String| s@).take(n as int) =~= v@.map_values(|s: String| s@));
        },
        None => {
            assert(listed@.map_values(|c: Vec<char>| c@) =~= Seq::<Seq<char>>::empty());
        },
    }
    assert(keywords_view(acc@) =~= Seq::<Keyword>::empty());
    add_candidates_exec(&mut acc, &listed, stop_words, EXPLICIT_KEYWORD_RANK, EXPLICIT_KEYWORD_SCORE);
    let title_words = split_words(doc.title.as_str());
    add_candidates_exec(&mut acc, &title_words, stop_words, TITLE_KEYWORD_RANK, TITLE_KEYWORD_SCORE);
    let found = run_rake(extractor, doc.body.as_str());
    let ranked = sort_keywords(found);
    proof {
        lemma_keyword_strict_order();
        let rs = keywords_view(ranked@);
        let target = rake_order(rake_keywords(sv.to_set(), doc.body@));
        assert(rs.to_set() == rake_keywords(sv.to_set(), doc.body@));
        assert(target.to_set() == rake_keywords(sv.to_set(), doc.body@)
            && strictly_sorted(target, |x: Keyword, y: Keyword| keyword_lt(x, y)));
        lemma_sorted_unique(rs, target, |x: Keyword, y: Keyword| keyword_lt(x, y));
        assert forall|i: int| 0 <= i < target.len() implies rank_scored(#[trigger] target[i]) by {
            assert(target.to_set().contains(target[i]));
            let fs = keywords_view(found@);
            assert(fs.to_set().contains(target[i]));
            let j = choose|j: int| 0 <= j < fs.len() && fs[j] == target[i];
            assert(fs[j] == keyword_view(found@[j]));
        }
        lemma_fixed_ranks_scored();
        let listed_v = add_candidates(Seq::empty(), listed_keywords(*doc), sv, EXPLICIT_KEYWORD_RANK, EXPLICIT_KEYWORD_SCORE);
        lemma_add_candidates_scored(Seq::empty(), listed_keywords(*doc), sv, EXPLICIT_KEYWORD_RANK, EXPLICIT_KEYWORD_SCORE);
        lemma_add_candidates_scored(listed_v, words(doc.title@), sv, TITLE_KEYWORD_RANK, TITLE_KEYWORD_SCORE);
        let titled_v = add_candidates(listed_v, words(doc.title@), sv, TITLE_KEYWORD_RANK, TITLE_KEYWORD_SCORE);
        lemma_add_body_scored(titled_v, target, config.single_word_budget as nat, config.multi_word_budget as nat);
        let fs = keywords_view(found@);
        assert(distinct_texts(fs)) by {
            assert forall|i: int, j: int| 0 <= i < fs.len() && 0 <= j < fs.len() && i != j
                implies (#[trigger] fs[i]).0 != (#[trigger] fs[j]).0 by {
                assert(fs[i] == keyword_view(found@[i]) && fs[j] == keyword_view(found@[j]));
            }
        }
        law_body_keywords(*doc, sv, config.single_word_budget as nat, config.multi_word_budget as nat, fs);
    }
    add_body_exec(&mut acc, &ranked, config.single_word_budget, config.multi_word_budget);
    acc
}

proof fn lemma_push_new_text(acc: Seq<Keyword>, k: Keyword)
    requires
        distinct_texts(acc),
        !keyword_texts(acc).contains(k.0),
    ensures
        distinct_texts(acc.push(k)),
{
    let r = acc.push(k);
    assert forall|i: int, j: int| 0 <= i < r.len() && 0 <= j < r.len() && i != j implies (#[trigger] r[i]).0 != (#[trigger] r[j]).0 by {
        if i < acc.len() && j < acc.len() {
            assert(r[i] == acc[i] && r[j] == acc[j]);
        } else if i < acc.len() {
            assert(keyword_texts(acc)[i] == acc[i].0);
        } else {
            assert(keyword_texts(acc)[j] == acc[j].0);
        }
    }
}

proof fn lemma_add_candidates_distinct(
    acc: Seq<Keyword>,
    cands: Seq<Seq<char>>,
    stop_words: Seq<Seq<char>>,
    rank: u64,
    score: u8,
)
    requires
        distinct_texts(acc),
    ensures
        distinct_texts(add_candidates(acc, cands, stop_words, rank, score)),
    decreases cands.len(),
{
    if cands.len() > 0 {
        lemma_add_candidates_distinct(acc, cands.drop_last(), stop_words, rank, score);
        let prev = add_candidates(acc, cands.drop_last(), stop_words, rank, score);
        let w = normalize(cands.last());
        if w.len() > 0 && !stop_words.contains(w) && !keyword_texts(prev).contains(w) {
            lemma_push_new_text(prev, (w, rank, score));
        }
    }
}

proof fn lemma_add_body_distinct(acc: Seq<Keyword>, ranked: Seq<Keyword>, single: nat, multi: nat)
    requires
        distinct_texts(acc),
    ensures
        distinct_texts(add_body(acc, ranked, single, multi)),
    decreases ranked.len(),
{
    if ranked.len() > 0 && !(single == 0 && multi == 0) {
        let k = ranked[0];
        let low = lowercase(k.0);
        let rest = ranked.skip(1);
        if keyword_texts(acc).contains(low) {
            lemma_add_body_distinct(acc, rest, single, multi);
        } else {
            lemma_push_new_text(acc, (low, k.1, k.2));
            if count_spaces(k.0) == 0 && single > 0 {
                lemma_add_body_distinct(acc.push((low, k.1, k.2)), rest, (single - 1) as nat, multi);
            } else if count_spaces(k.0) == 1 && multi > 0 {
                lemma_add_body_distinct(acc.push((low, k.1, k.2)), rest, single, (multi - 1) as nat);
            } else {
                lemma_add_body_distinct(acc, rest, single, multi);
            }
        }
    }
}

/// No two keywords of a document share a text.
pub proof fn lemma_document_keywords_distinct(doc: Document, stop_words: Seq<Seq<char>>, single: nat, multi: nat)
    ensures
        distinct_texts(document_keywords(doc, stop_words, single, multi)),
{
    let listed = add_candidates(
        Seq::empty(),
        listed_keywords(doc),
        stop_words,
        EXPLICIT_KEYWORD_RANK,
        EXPLICIT_KEYWORD_SCORE,
    );
    lemma_add_candidates_distinct(Seq::empty(), listed_keywords(doc), stop_words, EXPLICIT_KEYWORD_RANK, EXPLICIT_KEYWORD_SCORE);
    let titled = add_candidates(listed, words(doc.title@), stop_words, TITLE_KEYWORD_RANK, TITLE_KEYWORD_SCORE);
    lemma_add_candidates_distinct(listed, words(doc.title@), stop_words, TITLE_KEYWORD_RANK, TITLE_KEYWORD_SCORE);
    lemma_add_body_distinct(titled, rake_order(rake_keywords(stop_words.to_set(), doc.body@)), single, multi);
}

proof fn lemma_add_candidates_len(
    acc: Seq<Keyword>,
    cands: Seq<Seq<char>>,
    stop_words: Seq<Seq<char>>,
    rank: u64,
    score: u8,
)
    ensures
        add_candidates(acc, cands, stop_words, rank, score).len() <= acc.len() + cands.len(),
    decreases cands.len(),
{
    if cands.len() > 0 {
        lemma_add_candidates_len(acc, cands.drop_last(), stop_words, rank, score);
    }
}

/// The body adds at most `single` keywords without a space and `multi` with
/// one space after the keywords already chosen, and keeps those in place.
pub proof fn law_body_budget(acc: Seq<Keyword>, ranked: Seq<Keyword>, single: nat, multi: nat)
    ensures
        acc.len() <= add_body(acc, ranked, single, multi).len() <= acc.len() + single + multi,
        forall|i: int| 0 <= i < acc.len() ==> #[trigger] add_body(acc, ranked, single, multi)[i] == acc[i],
    decreases ranked.len(),
{
    if ranked.len() > 0 && !(single == 0 && multi == 0) {
        let k = ranked[0];
        let low = lowercase(k.0);
        let rest = ranked.skip(1);
        let pushed = acc.push((low, k.1, k.2));
        if keyword_texts(acc).contains(low) {
            law_body_budget(acc, rest, single, multi);
        } else if count_spaces(k.0) == 0 && single > 0 {
            law_body_budget(pushed, rest, (single - 1) as nat, multi);
            assert forall|i: int| 0 <= i < acc.len() implies #[trigger] add_body(acc, ranked, single, multi)[i] == acc[i] by {
                assert(pushed[i] == acc[i]);
            }
        } else if count_spaces(k.0) == 1 && multi > 0 {
            law_body_budget(pushed, rest, single, (multi - 1) as nat);
            assert forall|i: int| 0 <= i < acc.len() implies #[trigger] add_body(acc, ranked, single, multi)[i] == acc[i] by {
                assert(pushed[i] == acc[i]);
            }
        } else {
            law_body_budget(acc, rest, single, multi);
        }
    }
}

/// A document has at most as many keywords as it lists, plus its title's
/// words, plus the body's two budgets.
pub proof fn law_keyword_budget(doc: Document, stop_words: Seq<Seq<char>>, single: nat, multi: nat)
    ensures
        document_keywords(doc, stop_words, single, multi).len() <= listed_keywords(doc).len() + words(doc.title@).len()
            + single + multi,
{
    let listed = add_candidates(
        Seq::empty(),
        listed_keywords(doc),
        stop_words,
        EXPLICIT_KEYWORD_RANK,
        EXPLICIT_KEYWORD_SCORE,
    );
    lemma_add_candidates_len(Seq::empty(), listed_keywords(doc), stop_words, EXPLICIT_KEYWORD_RANK, EXPLICIT_KEYWORD_SCORE);
    let titled = add_candidates(listed, words(doc.title@), stop_words, TITLE_KEYWORD_RANK, TITLE_KEYWORD_SCORE);
    lemma_add_candidates_len(listed, words(doc.title@), stop_words, TITLE_KEYWORD_RANK, TITLE_KEYWORD_SCORE);
    law_body_budget(titled, rake_order(rake_keywords(stop_words.to_set(), doc.body@)), single, multi);
}

/// Every keyword's byte score is its rank's byte, and its rank is that of a
/// non-negative finite score.
pub open spec fn all_rank_scored(ks: Seq<Keyword>) -> bool {
    forall|i: int| 0 <= i < ks.len() ==> rank_scored(#[trigger] ks[i])
}

proof fn lemma_add_candidates_scored(
    acc: Seq<Keyword>,
    cands: Seq<Seq<char>>,
    stop_words: Seq<Seq<char>>,
    rank: u64,
    score: u8,
)
    requires
        all_rank_scored(acc),
        rank < FINITE_RANK_LIMIT,
        score == rank_byte(rank),
    ensures
        all_rank_scored(add_candidates(acc, cands, stop_words, rank, score)),
    decreases cands.len(),
{
    if cands.len() > 0 {
        lemma_add_candidates_scored(acc, cands.drop_last(), stop_words, rank, score);
        let prev = add_candidates(acc, cands.drop_last(), stop_words, rank, score);
        let w = normalize(cands.last());
        assert forall|i: int| 0 <= i < prev.push((w, rank, score)).len() implies rank_scored(#[trigger] prev.push((w, rank, score))[i]) by {
            if i < prev.len() {
                assert(prev.push((w, rank, score))[i] == prev[i]);
            }
        }
    }
}

proof fn lemma_add_body_scored(acc: Seq<Keyword>, ranked: Seq<Keyword>, single: nat, multi: nat)
    requires
        all_rank_scored(acc),
        all_rank_scored(ranked),
    ensures
        all_rank_scored(add_body(acc, ranked, single, multi)),
    decreases ranked.len(),
{
    if ranked.len() > 0 && !(single == 0 && multi == 0) {
        let k = ranked[0];
        let low = lowercase(k.0);
        let rest = ranked.skip(1);
        let pushed = acc.push((low, k.1, k.2));
        assert(rank_scored(k));
        assert forall|i: int| 0 <= i < rest.len() implies rank_scored(#[trigger] rest[i]) by {
            assert(rest[i] == ranked[i + 1]);
        }
        assert forall|i: int| 0 <= i < pushed.len() implies rank_scored(#[trigger] pushed[i]) by {
            if i < acc.len() {
                assert(pushed[i] == acc[i]);
            }
        }
        lemma_add_body_scored(acc, rest, single, multi);
        if single > 0 {
            lemma_add_body_scored(pushed, rest, (single - 1) as nat, multi);
        }
        if multi > 0 {
            lemma_add_body_scored(pushed, rest, single, (multi - 1) as nat);
        }
    }
}

/// The entry a RAKE keyword becomes when the body adds it.
pub open spec fn body_entry(k: Keyword) -> Keyword {
    (lowercase(k.0), k.1, k.2)
}

/// Ranks never increase along a sequence.
pub open spec fn rank_descending(ks: Seq<Keyword>) -> bool {
    forall|i: int, j: int| 0 <= i < j < ks.len() ==> (#[trigger] ks[i]).1 >= (#[trigger] ks[j]).1
}

/// RAKE's keywords, as the body takes them, are all of them, highest rank first.
proof fn lemma_rake_order(found: Seq<Keyword>)
    requires
        distinct_texts(found),
    ensures
        rake_order(found.to_set()).to_set() == found.to_set(),
        rank_descending(rake_order(found.to_set())),
        rake_order(found.to_set()).no_duplicates(),
{
    lemma_keyword_strict_order();
    assert forall|i: int, j: int| 0 <= i < found.len() && 0 <= j < found.len() && found[i] != found[j]
        implies keyword_lt(#[trigger] found[i], #[trigger] found[j]) || keyword_lt(found[j], found[i]) by {
        lemma_keyword_total(found[i], found[j]);
    }
    crate::order::lemma_sorted_exists(found, |x: Keyword, y: Keyword| keyword_lt(x, y));
    let o = rake_order(found.to_set());
    assert(o.to_set() == found.to_set() && strictly_sorted(o, |x: Keyword, y: Keyword| keyword_lt(x, y)));
    assert forall|i: int, j: int| 0 <= i < j < o.len() implies (#[trigger] o[i]).1 >= (#[trigger] o[j]).1 by {
        assert(keyword_lt(o[i], o[j]));
    }
    assert forall|i: int, j: int| 0 <= i < o.len() && 0 <= j < o.len() && i != j implies o[i] != o[j] by {
        if i < j {
            assert(keyword_lt(o[i], o[j]));
        } else {
            assert(keyword_lt(o[j], o[i]));
        }
    }
}

/// What the body adds comes from its ranked keywords, each lowercased, with a
/// text not yet present and within a budget that was not spent.
proof fn lemma_add_body_origin(acc: Seq<Keyword>, ranked: Seq<Keyword>, single: nat, multi: nat)
    ensures
        forall|e: Keyword| #[trigger] add_body(acc, ranked, single, multi).contains(e) && !acc.contains(e)
            ==> exists|i: int| 0 <= i < ranked.len() && e == body_entry(#[trigger] ranked[i])
                && !keyword_texts(acc).contains(e.0)
                && ((count_spaces(ranked[i].0) == 0 && single > 0) || (count_spaces(ranked[i].0) == 1 && multi > 0)),
    decreases ranked.len(),
{
    if ranked.len() > 0 && !(single == 0 && multi == 0) {
        let k = ranked[0];
        let low = lowercase(k.0);
        let rest = ranked.skip(1);
        let pushed = acc.push((low, k.1, k.2));
        assert forall|i: int| 0 <= i < rest.len() implies #[trigger] rest[i] == ranked[i + 1] by {}
        if keyword_texts(acc).contains(low) {
            assert(add_body(acc, ranked, single, multi) == add_body(acc, rest, single, multi));
            lemma_add_body_origin(acc, rest, single, multi);
            assert forall|e: Keyword| #[trigger] add_body(acc, ranked, single, multi).contains(e) && !acc.contains(e)
                implies exists|i: int| 0 <= i < ranked.len() && e == body_entry(#[trigger] ranked[i])
                    && !keyword_texts(acc).contains(e.0)
                    && ((count_spaces(ranked[i].0) == 0 && single > 0) || (count_spaces(ranked[i].0) == 1 && multi > 0)) by {
                assert(add_body(acc, rest, single, multi).contains(e));
                let i = choose|i: int| 0 <= i < rest.len() && e == body_entry(#[trigger] rest[i])
                    && !keyword_texts(acc).contains(e.0)
                    && ((count_spaces(rest[i].0) == 0 && single > 0) || (count_spaces(rest[i].0) == 1 && multi > 0));
                assert(rest[i] == ranked[i + 1]);
            }
        } else if (count_spaces(k.0) == 0 && single > 0) || (count_spaces(k.0) == 1 && multi > 0) {
            let s2: nat = if count_spaces(k.0) == 0 { (single - 1) as nat } else { single };
            let m2: nat = if count_spaces(k.0) == 0 { multi } else { (multi - 1) as nat };
            assert(add_body(acc, ranked, single, multi) == add_body(pushed, rest, s2, m2));
            lemma_add_body_origin(pushed, rest, s2, m2);
            assert forall|e: Keyword| #[trigger] add_body(acc, ranked, single, multi).contains(e) && !acc.contains(e)
                implies exists|i: int| 0 <= i < ranked.len() && e == body_entry(#[trigger] ranked[i])
                    && !keyword_texts(acc).contains(e.0)
                    && ((count_spaces(ranked[i].0) == 0 && single > 0) || (count_spaces(ranked[i].0) == 1 && multi > 0)) by {
                if e == body_entry(k) {
                    assert(body_entry(ranked[0]) == e);
                } else {
                    assert(!pushed.contains(e)) by {
                        if pushed.contains(e) {
                            let j = choose|j: int| 0 <= j < pushed.len() && pushed[j] == e;
                            if j < acc.len() {
                                assert(acc[j] == e);
                            }
                        }
                    }
                    assert(add_body(pushed, rest, s2, m2).contains(e));
                    let i = choose|i: int| 0 <= i < rest.len() && e == body_entry(#[trigger] rest[i])
                        && !keyword_texts(pushed).contains(e.0)
                        && ((count_spaces(rest[i].0) == 0 && s2 > 0) || (count_spaces(rest[i].0) == 1 && m2 > 0));
                    assert(rest[i] == ranked[i + 1]);
                    assert(!keyword_texts(acc).contains(e.0)) by {
                        if keyword_texts(acc).contains(e.0) {
                            let j = choose|j: int| 0 <= j < keyword_texts(acc).len() && keyword_texts(acc)[j] == e.0;
                            assert(keyword_texts(pushed)[j] == e.0);
                        }
                    }
                }
            }
        } else {
            assert(add_body(acc, ranked, single, multi) == add_body(acc, rest, single, multi));
            lemma_add_body_origin(acc, rest, single, multi);
            assert forall|e: Keyword| #[trigger] add_body(acc, ranked, single, multi).contains(e) && !acc.contains(e)
                implies exists|i: int| 0 <= i < ranked.len() && e == body_entry(#[trigger] ranked[i])
                    && !keyword_texts(acc).contains(e.0)
                    && ((count_spaces(ranked[i].0) == 0 && single > 0) || (count_spaces(ranked[i].0) == 1 && multi > 0)) by {
                assert(add_body(acc, rest, single, multi).contains(e));
                let i = choose|i: int| 0 <= i < rest.len() && e == body_entry(#[trigger] rest[i])
                    && !keyword_texts(acc).contains(e.0)
                    && ((count_spaces(rest[i].0) == 0 && single > 0) || (count_spaces(rest[i].0) == 1 && multi > 0));
                assert(rest[i] == ranked[i + 1]);
            }
        }
    }
}

proof fn lemma_texts_kept(acc: Seq<Keyword>, ranked: Seq<Keyword>, single: nat, multi: nat, t: Seq<char>)
    requires
        keyword_texts(acc).contains(t),
    ensures
        keyword_texts(add_body(acc, ranked, single, multi)).contains(t),
{
    law_body_budget(acc, ranked, single, multi);
    let r = add_body(acc, ranked, single, multi);
    let j = choose|j: int| 0 <= j < keyword_texts(acc).len() && keyword_texts(acc)[j] == t;
    assert(r[j] == acc[j]);
    assert(keyword_texts(r)[j] == t);
}

/// Taking ranked keywords highest first, the body never keeps one while
/// leaving out a higher-ranked one with as many spaces: if the entry of `k2`
/// is added, the text of every higher-ranked `k1` with the same number of
/// spaces ends up among the keywords.
proof fn lemma_add_body_best(
    acc: Seq<Keyword>,
    ranked: Seq<Keyword>,
    single: nat,
    multi: nat,
    k1: Keyword,
    k2: Keyword,
)
    requires
        rank_descending(ranked),
        ranked.contains(k1),
        k1.1 > k2.1,
        forall|k: Keyword| ranked.contains(k) && body_entry(k) == body_entry(k2)
            ==> count_spaces(k.0) == count_spaces(k1.0),
        !keyword_texts(acc).contains(lowercase(k2.0)),
        add_body(acc, ranked, single, multi).contains(body_entry(k2)),
    ensures
        keyword_texts(add_body(acc, ranked, single, multi)).contains(lowercase(k1.0)),
    decreases ranked.len(),
{
    let e2 = body_entry(k2);
    let c = count_spaces(k1.0);
    assert(!acc.contains(e2)) by {
        if acc.contains(e2) {
            let j = choose|j: int| 0 <= j < acc.len() && acc[j] == e2;
            assert(keyword_texts(acc)[j] == e2.0);
        }
    }
    if single == 0 && multi == 0 {
        assert(add_body(acc, ranked, single, multi) == acc);
        return;
    }
    let k = ranked[0];
    let low = lowercase(k.0);
    let rest = ranked.skip(1);
    let pushed = acc.push((low, k.1, k.2));
    assert forall|i: int| 0 <= i < rest.len() implies #[trigger] rest[i] == ranked[i + 1] by {}
    assert(rank_descending(rest)) by {
        assert forall|i: int, j: int| 0 <= i < j < rest.len() implies (#[trigger] rest[i]).1 >= (#[trigger] rest[j]).1 by {
            assert(rest[i] == ranked[i + 1] && rest[j] == ranked[j + 1]);
        }
    }
    assert forall|x: Keyword| rest.contains(x) implies ranked.contains(x) by {
        let i = choose|i: int| 0 <= i < rest.len() && rest[i] == x;
        assert(ranked[i + 1] == x);
    }
    let pos1 = choose|j: int| 0 <= j < ranked.len() && ranked[j] == k1;
    let texts_has = keyword_texts(acc).contains(low);
    let fits = (count_spaces(k.0) == 0 && single > 0) || (count_spaces(k.0) == 1 && multi > 0);
    let s2: nat = if count_spaces(k.0) == 0 { (single - 1) as nat } else { single };
    let m2: nat = if count_spaces(k.0) == 0 { multi } else { (multi - 1) as nat };
    if pos1 == 0 {
        if texts_has {
            lemma_texts_kept(acc, ranked, single, multi, low);
        } else if fits {
            assert(add_body(acc, ranked, single, multi) == add_body(pushed, rest, s2, m2));
            assert(keyword_texts(pushed)[acc.len() as int] == low);
            lemma_texts_kept(pushed, rest, s2, m2, low);
        } else {
            assert(add_body(acc, ranked, single, multi) == add_body(acc, rest, single, multi));
            lemma_add_body_origin(acc, rest, single, multi);
            assert(add_body(acc, rest, single, multi).contains(e2));
            let i = choose|i: int| 0 <= i < rest.len() && e2 == body_entry(#[trigger] rest[i])
                && !keyword_texts(acc).contains(e2.0)
                && ((count_spaces(rest[i].0) == 0 && single > 0) || (count_spaces(rest[i].0) == 1 && multi > 0));
            assert(rest.contains(rest[i]));
            assert(count_spaces(rest[i].0) == c);
            assert(false);
        }
    } else {
        assert(rest[pos1 - 1] == k1);
        assert(rest.contains(k1));
        assert(k.1 >= k1.1);
        if texts_has {
            assert(add_body(acc, ranked, single, multi) == add_body(acc, rest, single, multi));
            lemma_add_body_best(acc, rest, single, multi, k1, k2);
        } else if fits {
            assert(add_body(acc, ranked, single, multi) == add_body(pushed, rest, s2, m2));
            assert(!keyword_texts(pushed).contains(lowercase(k2.0))) by {
                if low == lowercase(k2.0) {
                    if pushed.contains(e2) {
                        let j = choose|j: int| 0 <= j < pushed.len() && pushed[j] == e2;
                        if j < acc.len() {
                            assert(acc[j] == e2);
                        } else {
                            assert(pushed[j] == (low, k.1, k.2));
                        }
                    } else {
                        lemma_add_body_origin(pushed, rest, s2, m2);
                        let i = choose|i: int| 0 <= i < rest.len() && e2 == body_entry(#[trigger] rest[i])
                            && !keyword_texts(pushed).contains(e2.0)
                            && ((count_spaces(rest[i].0) == 0 && s2 > 0) || (count_spaces(rest[i].0) == 1 && m2 > 0));
                        assert(keyword_texts(pushed)[acc.len() as int] == low);
                    }
                } else {
                    if keyword_texts(pushed).contains(lowercase(k2.0)) {
                        let j = choose|j: int| 0 <= j < keyword_texts(pushed).len() && keyword_texts(pushed)[j] == lowercase(k2.0);
                        if j < acc.len() {
                            assert(keyword_texts(acc)[j] == lowercase(k2.0));
                        }
                    }
                }
            }
            lemma_add_body_best(pushed, rest, s2, m2, k1, k2);
        } else {
            assert(add_body(acc, ranked, single, multi) == add_body(acc, rest, single, multi));
            lemma_add_body_best(acc, rest, single, multi, k1, k2);
        }
    }
}

/// The keywords a document has before its body is read: those it lists, then
/// its title's words.
pub open spec fn listed_and_title_keywords(doc: Document, stop_words: Seq<Seq<char>>) -> Seq<Keyword> {
    let listed = add_candidates(
        Seq::empty(),
        listed_keywords(doc),
        stop_words,
        EXPLICIT_KEYWORD_RANK,
        EXPLICIT_KEYWORD_SCORE,
    );
    add_candidates(listed, words(doc.title@), stop_words, TITLE_KEYWORD_RANK, TITLE_KEYWORD_SCORE)
}

/// Every keyword from position `start` on is a RAKE keyword lowercased, with
/// its rank and score, and with no space or one space.
pub open spec fn added_from_rake(res: Seq<Keyword>, start: int, rk: Set<Keyword>) -> bool {
    forall|i: int| start <= i < res.len() ==> #[trigger] from_rake(res[i], rk)
}

/// A keyword is a RAKE keyword lowercased, with its rank and score, and with
/// no space or one space.
pub open spec fn from_rake(e: Keyword, rk: Set<Keyword>) -> bool {
    exists|k: Keyword| #[trigger] rk.contains(k) && e == (lowercase(k.0), k.1, k.2) && count_spaces(k.0) <= 1
}

/// When a RAKE keyword's lowercase entry is among the keywords (and its text
/// was not there before the body), every higher-ranked RAKE keyword with as
/// many spaces has its lowercase text among the keywords too (unless another
/// RAKE keyword with that lowercase text, rank and score has another number of spaces).
pub open spec fn best_ranked_kept(res: Seq<Keyword>, before: Seq<Keyword>, rk: Set<Keyword>) -> bool {
    forall|k1: Keyword, k2: Keyword|
        #[trigger] rk.contains(k1) && #[trigger] rk.contains(k2) && k1.1 > k2.1
        && count_spaces(k1.0) == count_spaces(k2.0)
        && res.contains((lowercase(k2.0), k2.1, k2.2))
        && !keyword_texts(before).contains(lowercase(k2.0))
        && (forall|k: Keyword| rk.contains(k) && lowercase(k.0) == lowercase(k2.0) && k.1 == k2.1 && k.2 == k2.2
            ==> count_spaces(k.0) == count_spaces(k2.0))
        ==> keyword_texts(res).contains(lowercase(k1.0))
}

/// When a body has no more RAKE keywords without a space than the single-word
/// budget, all of them are among the keywords (lowercased); likewise for
/// two-word phrases and the multi-word budget.
pub open spec fn within_budget_kept(res: Seq<Keyword>, rk: Set<Keyword>, single: nat, multi: nat) -> bool {
    forall|k: Keyword| #[trigger] rk.contains(k)
        && ((count_spaces(k.0) == 0 && spaced_set(rk, 0).len() <= single)
            || (count_spaces(k.0) == 1 && spaced_set(rk, 1).len() <= multi))
        ==> keyword_texts(res).contains(lowercase(k.0))
}

/// What a document's body adds to its keywords, given RAKE's keywords `found`
/// for the body (as `run_rake` lists them): the listed and title keywords come
/// first, unchanged; every later keyword is a RAKE keyword of the body,
/// lowercased, with its rank and score and at most one space; the body's
/// keywords are the best-ranked ones within each number of spaces; and when
/// the RAKE keywords with a number of spaces fit their budget, all are kept.
pub proof fn law_body_keywords(
    doc: Document,
    stop_words: Seq<Seq<char>>,
    single: nat,
    multi: nat,
    found: Seq<Keyword>,
)
    requires
        found.to_set() == rake_keywords(stop_words.to_set(), doc.body@),
        distinct_texts(found),
    ensures
        listed_and_title_keywords(doc, stop_words).len() <= document_keywords(doc, stop_words, single, multi).len(),
        forall|i: int| 0 <= i < listed_and_title_keywords(doc, stop_words).len()
            ==> #[trigger] document_keywords(doc, stop_words, single, multi)[i] == listed_and_title_keywords(doc, stop_words)[i],
        added_from_rake(
            document_keywords(doc, stop_words, single, multi),
            listed_and_title_keywords(doc, stop_words).len() as int,
            rake_keywords(stop_words.to_set(), doc.body@),
        ),
        best_ranked_kept(
            document_keywords(doc, stop_words, single, multi),
            listed_and_title_keywords(doc, stop_words),
            rake_keywords(stop_words.to_set(), doc.body@),
        ),
        within_budget_kept(
            document_keywords(doc, stop_words, single, multi),
            rake_keywords(stop_words.to_set(), doc.body@),
            single,
            multi,
        ),
{
    let res = document_keywords(doc, stop_words, single, multi);
    let before = listed_and_title_keywords(doc, stop_words);
    let rk = rake_keywords(stop_words.to_set(), doc.body@);
    let ranked = rake_order(rk);
    lemma_rake_order(found);
    assert(res == add_body(before, ranked, single, multi));
    law_body_budget(before, ranked, single, multi);
    lemma_add_body_origin(before, ranked, single, multi);
    lemma_document_keywords_distinct(doc, stop_words, single, multi);
    assert forall|i: int| before.len() <= i < res.len() implies #[trigger] from_rake(res[i], rk) by {
        assert(0 <= i < res.len());
        assert(res.contains(res[i]));
        assert(!before.contains(res[i])) by {
            if before.contains(res[i]) {
                let j = choose|j: int| 0 <= j < before.len() && before[j] == res[i];
                assert(res[j] == before[j]);
                assert(res[j].0 == res[i].0);
            }
        }
        let m = choose|m: int| 0 <= m < ranked.len() && res[i] == body_entry(#[trigger] ranked[m])
            && !keyword_texts(before).contains(res[i].0)
            && ((count_spaces(ranked[m].0) == 0 && single > 0) || (count_spaces(ranked[m].0) == 1 && multi > 0));
        assert(ranked.to_set().contains(ranked[m]));
        assert(rk.contains(ranked[m]));
        assert(res[i] == (lowercase(ranked[m].0), ranked[m].1, ranked[m].2));
        assert(count_spaces(ranked[m].0) <= 1);
    }
    assert forall|k1: Keyword, k2: Keyword|
        #[trigger] rk.contains(k1) && #[trigger] rk.contains(k2) && k1.1 > k2.1
        && count_spaces(k1.0) == count_spaces(k2.0)
        && res.contains((lowercase(k2.0), k2.1, k2.2))
        && !keyword_texts(before).contains(lowercase(k2.0))
        && (forall|k: Keyword| rk.contains(k) && lowercase(k.0) == lowercase(k2.0) && k.1 == k2.1 && k.2 == k2.2
            ==> count_spaces(k.0) == count_spaces(k2.0))
        implies keyword_texts(res).contains(lowercase(k1.0)) by {
        assert(ranked.to_set().contains(k1));
        assert forall|k: Keyword| ranked.contains(k) && body_entry(k) == body_entry(k2)
            implies count_spaces(k.0) == count_spaces(k1.0) by {
            assert(ranked.to_set().contains(k));
        }
        lemma_add_body_best(before, ranked, single, multi, k1, k2);
    }
    assert(added_from_rake(res, before.len() as int, rk));
    assert(best_ranked_kept(res, before, rk));
    lemma_count_spaced_set(ranked, 0);
    lemma_count_spaced_set(ranked, 1);
    assert forall|k: Keyword| #[trigger] rk.contains(k)
        && ((count_spaces(k.0) == 0 && spaced_set(rk, 0).len() <= single)
            || (count_spaces(k.0) == 1 && spaced_set(rk, 1).len() <= multi))
        implies keyword_texts(res).contains(lowercase(k.0)) by {
        assert(ranked.to_set().contains(k));
        lemma_add_body_complete(before, ranked, single, multi, k);
    }
}

/// How many keywords of a sequence have `c` spaces.
pub open spec fn count_spaced(ks: Seq<Keyword>, c: nat) -> nat
    decreases ks.len(),
{
    if ks.len() == 0 {
        0
    } else {
        (if count_spaces(ks[0].0) == c { 1nat } else { 0nat }) + count_spaced(ks.skip(1), c)
    }
}

/// The keywords of a set that have `c` spaces.
pub open spec fn spaced_set(rk: Set<Keyword>, c: nat) -> Set<Keyword> {
    rk.filter(|x: Keyword| count_spaces(x.0) == c)
}

proof fn lemma_count_spaced_set(s: Seq<Keyword>, c: nat)
    requires
        s.no_duplicates(),
    ensures
        count_spaced(s, c) == spaced_set(s.to_set(), c).len(),
    decreases s.len(),
{
    if s.len() == 0 {
        assert(spaced_set(s.to_set(), c) =~= Set::<Keyword>::empty());
    } else {
        let h = s[0];
        let rest = s.skip(1);
        assert(rest.no_duplicates()) by {
            assert forall|i: int, j: int| 0 <= i < rest.len() && 0 <= j < rest.len() && i != j implies rest[i] != rest[j] by {
                assert(rest[i] == s[i + 1] && rest[j] == s[j + 1]);
            }
        }
        lemma_count_spaced_set(rest, c);
        assert(s.to_set() =~= rest.to_set().insert(h)) by {
            assert(s =~= seq![h] + rest);
            assert forall|x: Keyword| s.to_set().contains(x) implies rest.to_set().insert(h).contains(x) by {
                let i = choose|i: int| 0 <= i < s.len() && s[i] == x;
                if i > 0 {
                    assert(rest[i - 1] == x);
                }
            }
            assert forall|x: Keyword| rest.to_set().insert(h).contains(x) implies s.to_set().contains(x) by {
                if x != h {
                    let i = choose|i: int| 0 <= i < rest.len() && rest[i] == x;
                    assert(s[i + 1] == x);
                } else {
                    assert(s[0] == h);
                }
            }
        }
        assert(!rest.to_set().contains(h)) by {
            if rest.to_set().contains(h) {
                let i = choose|i: int| 0 <= i < rest.len() && rest[i] == h;
                assert(s[i + 1] == s[0]);
            }
        }
        let f = spaced_set(rest.to_set(), c);
        vstd::seq_lib::seq_to_set_is_finite(rest);
        rest.to_set().lemma_len_filter(|x: Keyword| count_spaces(x.0) == c);
        if count_spaces(h.0) == c {
            assert(spaced_set(s.to_set(), c) =~= f.insert(h));
            assert(!f.contains(h));
        } else {
            assert(spaced_set(s.to_set(), c) =~= f);
        }
    }
}

proof fn lemma_count_spaced_pos(ks: Seq<Keyword>, c: nat, k: Keyword)
    requires
        ks.contains(k),
        count_spaces(k.0) == c,
    ensures
        count_spaced(ks, c) >= 1,
    decreases ks.len(),
{
    if ks[0] != k {
        let i = choose|i: int| 0 <= i < ks.len() && ks[i] == k;
        assert(ks.skip(1)[i - 1] == k);
        lemma_count_spaced_pos(ks.skip(1), c, k);
    }
}

/// When the ranked keywords with as many spaces as `k` fit in the budget for
/// that number of spaces, the body takes `k` (or already has its text).
proof fn lemma_add_body_complete(acc: Seq<Keyword>, ranked: Seq<Keyword>, single: nat, multi: nat, k: Keyword)
    requires
        ranked.contains(k),
        (count_spaces(k.0) == 0 && count_spaced(ranked, 0) <= single)
            || (count_spaces(k.0) == 1 && count_spaced(ranked, 1) <= multi),
    ensures
        keyword_texts(add_body(acc, ranked, single, multi)).contains(lowercase(k.0)),
    decreases ranked.len(),
{
    let c = count_spaces(k.0);
    lemma_count_spaced_pos(ranked, c, k);
    let h = ranked[0];
    let low = lowercase(h.0);
    let rest = ranked.skip(1);
    let pushed = acc.push((low, h.1, h.2));
    let s2: nat = if count_spaces(h.0) == 0 { (single - 1) as nat } else { single };
    let m2: nat = if count_spaces(h.0) == 0 { multi } else { (multi - 1) as nat };
    if h == k {
        if keyword_texts(acc).contains(low) {
            lemma_texts_kept(acc, ranked, single, multi, low);
        } else {
            assert(add_body(acc, ranked, single, multi) == add_body(pushed, rest, s2, m2));
            assert(keyword_texts(pushed)[acc.len() as int] == low);
            lemma_texts_kept(pushed, rest, s2, m2, low);
        }
    } else {
        let i = choose|i: int| 0 <= i < ranked.len() && ranked[i] == k;
        assert(rest[i - 1] == k);
        assert(rest.contains(k));
        if keyword_texts(acc).contains(low) {
            assert(add_body(acc, ranked, single, multi) == add_body(acc, rest, single, multi));
            lemma_add_body_complete(acc, rest, single, multi, k);
        } else if (count_spaces(h.0) == 0 && single > 0) || (count_spaces(h.0) == 1 && multi > 0) {
            assert(add_body(acc, ranked, single, multi) == add_body(pushed, rest, s2, m2));
            lemma_count_spaced_pos(rest, c, k);
            lemma_add_body_complete(pushed, rest, s2, m2, k);
        } else {
            lemma_count_spaced_pos(rest, c, k);
            assert(add_body(acc, ranked, single, multi) == add_body(acc, rest, single, multi));
            lemma_add_body_complete(acc, rest, single, multi, k);
        }
    }
}

proof fn lemma_add_candidates_facts(
    acc: Seq<Keyword>,
    cands: Seq<Seq<char>>,
    stop_words: Seq<Seq<char>>,
    rank: u64,
    score: u8,
)
    ensures
        acc.len() <= add_candidates(acc, cands, stop_words, rank, score).len(),
        forall|i: int| 0 <= i < acc.len() ==> #[trigger] add_candidates(acc, cands, stop_words, rank, score)[i] == acc[i],
        forall|i: int| 0 <= i < cands.len() && normalize(#[trigger] cands[i]).len() > 0
            && !stop_words.contains(normalize(cands[i]))
            ==> keyword_texts(add_candidates(acc, cands, stop_words, rank, score)).contains(normalize(cands[i])),
        forall|j: int| acc.len() <= j < add_candidates(acc, cands, stop_words, rank, score).len() ==> {
            let e = #[trigger] add_candidates(acc, cands, stop_words, rank, score)[j];
            &&& e.1 == rank
            &&& e.2 == score
            &&& e.0.len() > 0
            &&& !stop_words.contains(e.0)
            &&& normalised_word_of(cands, e.0)
        },
    decreases cands.len(),
{
    let r = add_candidates(acc, cands, stop_words, rank, score);
    if cands.len() > 0 {
        let init = cands.drop_last();
        lemma_add_candidates_facts(acc, init, stop_words, rank, score);
        let prev = add_candidates(acc, init, stop_words, rank, score);
        let w = normalize(cands.last());
        let pushes = w.len() > 0 && !stop_words.contains(w) && !keyword_texts(prev).contains(w);
        assert forall|i: int| 0 <= i < acc.len() implies #[trigger] r[i] == acc[i] by {
            assert(prev[i] == acc[i]);
        }
        assert forall|i: int| 0 <= i < cands.len() && normalize(#[trigger] cands[i]).len() > 0
            && !stop_words.contains(normalize(cands[i]))
            implies keyword_texts(r).contains(normalize(cands[i])) by {
            if i < cands.len() - 1 {
                assert(init[i] == cands[i]);
                assert(keyword_texts(prev).contains(normalize(init[i])));
                let k = choose|k: int| 0 <= k < keyword_texts(prev).len() && keyword_texts(prev)[k] == normalize(init[i]);
                assert(keyword_texts(r)[k] == keyword_texts(prev)[k]);
            } else if pushes {
                assert(keyword_texts(r)[prev.len() as int] == w);
            }
        }
        assert forall|j: int| acc.len() <= j < r.len() implies {
            let e = #[trigger] r[j];
            &&& e.1 == rank
            &&& e.2 == score
            &&& e.0.len() > 0
            &&& !stop_words.contains(e.0)
            &&& normalised_word_of(cands, e.0)
        } by {
            if j < prev.len() {
                assert(r[j] == prev[j]);
                let i = choose|i: int| 0 <= i < init.len() && #[trigger] normalize(init[i]) == prev[j].0;
                assert(init[i] == cands[i]);
            } else {
                assert(r[j] == (w, rank, score));
                assert(normalize(cands[cands.len() - 1]) == w);
            }
        }
    }
}

/// The keywords a document gets before its body: each is a non-empty,
/// non-stop-word normalised listed keyword (with the listed rank and score) or
/// title word (with the title rank and score); every such listed keyword is
/// among them with the listed rank and score, and every such title word's text
/// is among them.
pub proof fn law_listed_and_title_keywords(doc: Document, stop_words: Seq<Seq<char>>)
    ensures
        forall|j: int| 0 <= j < listed_and_title_keywords(doc, stop_words).len() ==> {
            let e = #[trigger] listed_and_title_keywords(doc, stop_words)[j];
            &&& e.0.len() > 0
            &&& !stop_words.contains(e.0)
            &&& (e.1 == EXPLICIT_KEYWORD_RANK && e.2 == EXPLICIT_KEYWORD_SCORE && normalised_word_of(listed_keywords(doc), e.0))
                || (e.1 == TITLE_KEYWORD_RANK && e.2 == TITLE_KEYWORD_SCORE && normalised_word_of(words(doc.title@), e.0))
        },
        forall|i: int| 0 <= i < listed_keywords(doc).len() && normalize(#[trigger] listed_keywords(doc)[i]).len() > 0
            && !stop_words.contains(normalize(listed_keywords(doc)[i]))
            ==> listed_and_title_keywords(doc, stop_words).contains(
                (normalize(listed_keywords(doc)[i]), EXPLICIT_KEYWORD_RANK, EXPLICIT_KEYWORD_SCORE),
            ),
        forall|i: int| 0 <= i < words(doc.title@).len() && normalize(#[trigger] words(doc.title@)[i]).len() > 0
            && !stop_words.contains(normalize(words(doc.title@)[i]))
            ==> keyword_texts(listed_and_title_keywords(doc, stop_words)).contains(normalize(words(doc.title@)[i])),
{
    let lk = listed_keywords(doc);
    let tw = words(doc.title@);
    let listed = add_candidates(Seq::empty(), lk, stop_words, EXPLICIT_KEYWORD_RANK, EXPLICIT_KEYWORD_SCORE);
    let all = listed_and_title_keywords(doc, stop_words);
    lemma_add_candidates_facts(Seq::empty(), lk, stop_words, EXPLICIT_KEYWORD_RANK, EXPLICIT_KEYWORD_SCORE);
    lemma_add_candidates_facts(listed, tw, stop_words, TITLE_KEYWORD_RANK, TITLE_KEYWORD_SCORE);
    assert forall|j: int| 0 <= j < all.len() implies {
        let e = #[trigger] all[j];
        &&& e.0.len() > 0
        &&& !stop_words.contains(e.0)
        &&& (e.1 == EXPLICIT_KEYWORD_RANK && e.2 == EXPLICIT_KEYWORD_SCORE && normalised_word_of(lk, e.0))
            || (e.1 == TITLE_KEYWORD_RANK && e.2 == TITLE_KEYWORD_SCORE && normalised_word_of(tw, e.0))
    } by {
        if j < listed.len() {
            assert(all[j] == listed[j]);
        }
    }
    assert forall|i: int| 0 <= i < lk.len() && normalize(#[trigger] lk[i]).len() > 0
        && !stop_words.contains(normalize(lk[i]))
        implies all.contains((normalize(lk[i]), EXPLICIT_KEYWORD_RANK, EXPLICIT_KEYWORD_SCORE)) by {
        let n = normalize(lk[i]);
        assert(keyword_texts(listed).contains(n));
        let k = choose|k: int| 0 <= k < keyword_texts(listed).len() && keyword_texts(listed)[k] == n;
        assert(listed[k].0 == n);
        assert(all[k] == listed[k]);
    }
}

} // verus!
