use docsearch::builder::{build_index_with_stop_words, documents_fit, stop_word_list};
use docsearch::search::query_term_list;
use docsearch::stopwords::english_stop_word_lines;
use docsearch::strvec::{check_codes, text_fits};
use docsearch::{
    build_index, build_index_with_config, search, Document, FsstStrVec, Index, IndexConfig, IndexError,
    SearchError,
};

fn doc(title: &str, href: &str, body: &str, keywords: Option<Vec<&str>>) -> Document {
    Document {
        title: title.to_string(),
        category: "Category".to_string(),
        href: href.to_string(),
        body: body.to_string(),
        keywords: keywords.map(|ks| ks.into_iter().map(|k| k.to_string()).collect()),
    }
}

fn sample_documents() -> Vec<Document> {
    vec![
        doc(
            "Rust Programming",
            "/docs/rust",
            "Learn Rust programming language with ownership and borrowing",
            Some(vec!["rust", "programming"]),
        ),
        doc(
            "Python Guide",
            "/docs/python",
            "Python is a versatile programming language for scripting",
            Some(vec!["python", "guide"]),
        ),
        doc("Compiler Notes", "/docs/compiler", "Parsing and code generation in compilers", None),
    ]
}

fn keyword_pairs(pairs: &[(&str, u64)]) -> Vec<(Vec<u8>, u64)> {
    pairs.iter().map(|(k, v)| (k.as_bytes().to_vec(), *v)).collect()
}

fn strings_of_documents(docs: &[(&str, &str, &str, &str)]) -> FsstStrVec {
    let mut strings: Vec<&str> = Vec::new();
    for d in docs {
        strings.push(d.0);
        strings.push(d.1);
        strings.push(d.2);
        strings.push(d.3);
    }
    FsstStrVec::from_strings(&strings)
}

fn stored(
    keywords: Vec<(Vec<u8>, u64)>,
    syms: Vec<[u8; 8]>,
    lens: Vec<u8>,
    offsets: Vec<u32>,
    data: Vec<u8>,
    postings: Vec<Vec<(usize, u8)>>,
) -> Vec<u8> {
    postcard::to_allocvec(&(keywords, (syms, lens, offsets, data), postings)).unwrap()
}

// Reading what `to_bytes` wrote gives back an index that writes the same bytes
// and answers the same searches.
#[test]
fn index_bytes_read_back_as_the_same_index() {
    let index = build_index(sample_documents()).unwrap();
    let bytes = index.to_bytes().unwrap();
    let again = Index::from_bytes(&bytes).unwrap();
    assert_eq!(again.to_bytes().unwrap(), bytes);
    assert_eq!(again.keyword_count(), index.keyword_count());
    for query in ["rust", "pythn", "compil", "language", "nothing here"] {
        let a: Vec<String> = search(&index, query, 10).unwrap().into_iter().map(|d| d.href).collect();
        let b: Vec<String> = search(&again, query, 10).unwrap().into_iter().map(|d| d.href).collect();
        assert_eq!(a, b);
    }
}

#[test]
fn building_twice_gives_the_same_bytes() {
    let a = build_index(sample_documents()).unwrap().to_bytes().unwrap();
    let b = build_index(sample_documents()).unwrap().to_bytes().unwrap();
    assert_eq!(a, b);
}

#[test]
fn index_keeps_four_strings_per_document_in_order() {
    let docs = sample_documents();
    let index = build_index(sample_documents()).unwrap();
    let strings = index.document_strings();
    assert_eq!(strings.len(), 4 * docs.len());
    for (p, d) in docs.iter().enumerate() {
        assert_eq!(strings.get(4 * p), Some(d.title.clone()));
        assert_eq!(strings.get(4 * p + 1), Some(d.category.clone()));
        assert_eq!(strings.get(4 * p + 2), Some(d.href.clone()));
        assert_eq!(strings.get(4 * p + 3), Some(d.body.clone()));
    }
    assert_eq!(strings.get(4 * docs.len()), None);
}

#[test]
fn from_bytes_refuses_bytes_that_are_not_an_index() {
    assert!(matches!(Index::from_bytes(&[]), Err(IndexError::Decode)));
    assert!(matches!(Index::from_bytes(&[5, 1]), Err(IndexError::Decode)));
}

#[test]
fn from_bytes_refuses_strings_outside_their_codes() {
    let bytes = stored(keyword_pairs(&[]), vec![], vec![], vec![5], vec![], vec![]);
    assert!(matches!(Index::from_bytes(&bytes), Err(IndexError::Strings)));
    // A dangling escape code.
    let bytes = stored(keyword_pairs(&[]), vec![], vec![], vec![0], vec![255], vec![]);
    assert!(matches!(Index::from_bytes(&bytes), Err(IndexError::Strings)));
}

#[test]
fn from_bytes_refuses_a_broken_keyword_map() {
    let bytes = stored(keyword_pairs(&[("rust", 0), ("go", 1)]), vec![], vec![], vec![], vec![], vec![vec![], vec![]]);
    assert!(matches!(Index::from_bytes(&bytes), Err(IndexError::KeywordMap)));
    let bytes = stored(keyword_pairs(&[("rust", 0), ("rust", 0)]), vec![], vec![], vec![], vec![], vec![vec![]]);
    assert!(matches!(Index::from_bytes(&bytes), Err(IndexError::KeywordMap)));
}

#[test]
fn from_bytes_refuses_keyword_numbers_without_postings() {
    let bytes = stored(keyword_pairs(&[("rust", 3)]), vec![], vec![], vec![], vec![], vec![vec![(0, 1)]]);
    assert!(matches!(Index::from_bytes(&bytes), Err(IndexError::KeywordNumber)));
    let bytes = stored(keyword_pairs(&[("rust", 0)]), vec![], vec![], vec![], vec![], vec![vec![(0, 1)]]);
    assert!(Index::from_bytes(&bytes).is_ok());
}

#[test]
fn new_index_checks_its_keyword_map() {
    let strings = strings_of_documents(&[("Rust", "Docs", "/rust", "Rust body")]);
    assert!(matches!(
        Index::new(keyword_pairs(&[("zeta", 0), ("alpha", 0)]), strings, vec![vec![]]),
        Err(IndexError::KeywordMap)
    ));
    let strings = strings_of_documents(&[("Rust", "Docs", "/rust", "Rust body")]);
    assert!(matches!(
        Index::new(keyword_pairs(&[("rust", 1)]), strings, vec![vec![(0, 5)]]),
        Err(IndexError::KeywordNumber)
    ));
    let strings = strings_of_documents(&[("Rust", "Docs", "/rust", "Rust body")]);
    let index = Index::new(keyword_pairs(&[("rust", 0)]), strings, vec![vec![(0, 5)]]).unwrap();
    assert_eq!(index.keyword_count(), 1);
    let found = search(&index, "rust", 10).unwrap();
    assert_eq!(found.len(), 1);
    assert_eq!(found[0].title, "Rust");
    assert_eq!(found[0].category, "Docs");
    assert_eq!(found[0].href, "/rust");
    assert_eq!(found[0].body, "Rust body");
    assert_eq!(found[0].keywords, None);
}

#[test]
fn search_reports_a_keyword_that_is_not_text() {
    let keywords = vec![(vec![0xffu8], 0u64)];
    let strings = strings_of_documents(&[("T", "C", "/h", "B")]);
    let index = Index::new(keywords, strings, vec![vec![(0, 1)]]).unwrap();
    // The empty query is a prefix of every keyword.
    assert!(matches!(search(&index, "", 10), Err(SearchError::KeywordText)));
}

#[test]
fn search_reports_a_document_without_strings() {
    let strings = strings_of_documents(&[("T", "C", "/h", "B")]);
    let index = Index::new(keyword_pairs(&[("rust", 0)]), strings, vec![vec![(3, 10)]]).unwrap();
    assert!(matches!(search(&index, "rust", 10), Err(SearchError::MissingDocument)));
    // Cut to no results, the missing document is never fetched.
    assert_eq!(search(&index, "rust", 0).unwrap().len(), 0);
}

#[test]
fn search_adds_scores_and_saturates() {
    // Document 0 scores 200 + 200 (saturating at 255), document 1 scores 250.
    let strings = strings_of_documents(&[("A", "C", "/a", "x"), ("B", "C", "/b", "y")]);
    let index = Index::new(
        keyword_pairs(&[("alpha", 0), ("alphabet", 1)]),
        strings,
        vec![vec![(0, 200)], vec![(0, 200), (1, 250)]],
    )
    .unwrap();
    let found: Vec<String> = search(&index, "alpha", 10).unwrap().into_iter().map(|d| d.href).collect();
    assert_eq!(found, vec!["/a".to_string(), "/b".to_string()]);
    let only: Vec<String> = search(&index, "alphabet", 10).unwrap().into_iter().map(|d| d.href).collect();
    assert_eq!(only, vec!["/b".to_string(), "/a".to_string()]);
}

#[test]
fn search_returns_each_document_once_and_at_most_max_results() {
    let docs: Vec<Document> = ["Alpha", "Beta", "Gamma", "Delta", "Epsilon"]
        .iter()
        .enumerate()
        .map(|(i, t)| doc(t, &format!("/d{i}"), "Plain words", Some(vec!["shared", "shared"])))
        .collect();
    let index = build_index(docs).unwrap();
    let all: Vec<String> = search(&index, "shared", 10).unwrap().into_iter().map(|d| d.href).collect();
    assert_eq!(all, vec!["/d0", "/d1", "/d2", "/d3", "/d4"]);
    let two: Vec<String> = search(&index, "shared", 2).unwrap().into_iter().map(|d| d.href).collect();
    assert_eq!(two, vec!["/d0", "/d1"]);
    assert!(search(&index, "shared", 0).unwrap().is_empty());
}

#[test]
fn documents_sharing_an_href_are_found_as_the_last_of_them() {
    let docs = vec![
        doc("First", "/same", "Plain", Some(vec!["apple"])),
        doc("Second", "/same", "Plain", Some(vec!["banana"])),
    ];
    let index = build_index(docs).unwrap();
    let found = search(&index, "apple", 10).unwrap();
    assert_eq!(found.len(), 1);
    assert_eq!(found[0].title, "Second");
}

#[test]
fn body_budgets_limit_the_keywords_taken_from_the_body() {
    let docs = || vec![doc("Zebra", "/z", "quantum is entanglement", None)];
    let none = IndexConfig { single_word_budget: 0, multi_word_budget: 0 };
    let index = build_index_with_config(docs(), &none).unwrap();
    assert!(search(&index, "quantum", 10).unwrap().is_empty());
    assert_eq!(search(&index, "zebra", 10).unwrap().len(), 1);
    let index = build_index_with_config(docs(), &IndexConfig::new()).unwrap();
    assert_eq!(search(&index, "quantum", 10).unwrap().len(), 1);
    let default = IndexConfig::default();
    assert_eq!((default.single_word_budget, default.multi_word_budget), (5, 3));
}

#[test]
fn stop_words_are_not_keywords() {
    let lines: Vec<String> = vec!["# words to skip".to_string(), "".to_string(), "Zebra".to_string()];
    let stop = stop_word_list(&lines);
    assert_eq!(stop, vec!["zebra".to_string()]);
    let docs = vec![doc("Zebra Crossing", "/z", "Plain", None)];
    let index = build_index_with_stop_words(docs, &lines, &IndexConfig::new()).unwrap();
    assert!(search(&index, "zebra", 10).unwrap().is_empty());
    assert_eq!(search(&index, "crossing", 10).unwrap().len(), 1);
}

#[test]
fn english_stop_words_cover_common_words() {
    let stop = stop_word_list(&english_stop_word_lines());
    for w in ["the", "and", "of", "is", "a"] {
        assert!(stop.contains(&w.to_string()), "{w}");
    }
    assert!(!stop.contains(&"rust".to_string()));
}

#[test]
fn query_terms_are_normalised_words_then_the_whole_query() {
    assert_eq!(
        query_term_list("Hello, World! hello"),
        vec!["hello".to_string(), "world".to_string(), "hello, world! hello".to_string()]
    );
    assert_eq!(query_term_list(""), vec!["".to_string()]);
    assert_eq!(query_term_list("Rust"), vec!["rust".to_string()]);
    assert_eq!(query_term_list("  ...  "), vec!["  ...  ".to_string()]);
}

#[test]
fn size_checks_accept_ordinary_text() {
    assert!(text_fits(&["a", "bc", ""]));
    assert!(text_fits(&[]));
    assert!(documents_fit(&sample_documents()));
    assert!(documents_fit(&vec![]));
}

#[test]
fn escape_codes_must_be_followed_by_a_byte() {
    assert!(check_codes(&[]));
    assert!(check_codes(&[1, 2, 3]));
    assert!(check_codes(&[255, 7]));
    assert!(!check_codes(&[255]));
    assert!(!check_codes(&[3, 255]));
}

#[test]
fn string_vector_rebuilds_from_its_parts() {
    let v = FsstStrVec::from_strings(&["héllo wörld", "", "hello world again"]);
    let (syms, lens, offsets, data) = v.raw_parts();
    let back = FsstStrVec::from_raw_parts(syms.clone(), lens.clone(), offsets.clone(), data.clone()).unwrap();
    assert_eq!(back.len(), 3);
    assert_eq!(back.get(0), Some("héllo wörld".to_string()));
    assert_eq!(back.get(1), Some("".to_string()));
    assert_eq!(back.get(2), Some("hello world again".to_string()));
    assert!(FsstStrVec::from_raw_parts(vec![[0; 8]], vec![], vec![], vec![]).is_none());
    assert!(FsstStrVec::from_raw_parts(vec![[0; 8]], vec![9], vec![], vec![]).is_none());
    assert!(FsstStrVec::from_raw_parts(vec![], vec![], vec![2, 1], vec![65, 65]).is_none());
    let raw = FsstStrVec::from_raw_parts(vec![], vec![], vec![0, 2], vec![255, 65, 255, 66]).unwrap();
    assert_eq!(raw.get(0), Some("A".to_string()));
    assert_eq!(raw.get(1), Some("B".to_string()));
    assert_eq!(raw.get(2), None);
    assert!(FsstStrVec::from_raw_parts(vec![], vec![], vec![0, 1], vec![255, 65, 255, 66]).is_none());
}

#[test]
fn listed_and_title_keywords_share_one_normalised_key() {
    let docs = vec![Document {
        title: "Rust".to_string(),
        category: "".to_string(),
        href: "/r".to_string(),
        body: "".to_string(),
        keywords: Some(vec!["Rust".to_string(), "rust!".to_string()]),
    }];
    let index = build_index(docs).unwrap();
    assert_eq!(index.keyword_count(), 1);
    assert_eq!(index.document_strings().len(), 4);
    let found = search(&index, "RUST", 10).unwrap();
    assert_eq!(found.len(), 1);
    assert_eq!(found[0].href, "/r");
    assert!(!index.to_bytes().unwrap().is_empty());
}

#[test]
fn a_prefix_or_one_edit_finds_a_keyword() {
    let index = build_index(sample_documents()).unwrap();
    for query in ["progr", "pythom", "pyton", "pythons", "compil"] {
        assert!(!search(&index, query, 10).unwrap().is_empty(), "{query}");
    }
    assert!(search(&index, "pxthxn", 10).unwrap().is_empty());
}

#[test]
fn ascii_case_does_not_change_a_search() {
    let index = build_index(sample_documents()).unwrap();
    let hrefs = |q: &str| -> Vec<String> { search(&index, q, 10).unwrap().into_iter().map(|d| d.href).collect() };
    assert_eq!(hrefs("Rust, PYTHON!"), hrefs("rust, python!"));
    assert_eq!(hrefs("COMPILER notes"), hrefs("compiler NOTES"));
    assert!(!hrefs("PyThOn").is_empty());
    assert_eq!(query_term_list("Rust, PYTHON!"), query_term_list("rust, python!"));
}
