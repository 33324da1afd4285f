use rfsee::{combine_scores, search_index, NumMap, RfcEntry, TfIdf};

fn entry(number: i32, url: &str, title: &str, content: &str) -> RfcEntry {
    RfcEntry {
        number,
        url: url.to_string(),
        title: title.to_string(),
        content: Some(content.to_string()),
    }
}

#[test]
fn it_works() {
    assert_eq!(1, 1);
}

#[test]
fn test_index_single_file() {
    let mut tf_idf = TfIdf::default();
    let e = RfcEntry {
        content: Some("Hello world!".to_string()),
        title: "Test".to_string(),
        number: 1,
        url: "https://www.rfsee.com/1".to_string(),
    };
    tf_idf.add_rfc_entry(e);
    tf_idf.finish();

    assert_eq!(tf_idf.index.rfc_details.len(), 1);
    assert_eq!(tf_idf.index.term_scores.len(), 2);

    let hello = tf_idf.index.term_scores.get("Hello");
    assert!(hello.is_some());
    let hello_doc_score = hello.unwrap().get(1);
    assert!(hello_doc_score.is_some());
}

#[test]
fn test_index_single_file_dupe_words() {
    let mut tf_idf = TfIdf::default();
    let e = RfcEntry {
        content: Some("Hello hello!".to_string()),
        title: "Test".to_string(),
        number: 1,
        url: "https://www.rfsee.com/1".to_string(),
    };
    tf_idf.add_rfc_entry(e);
    tf_idf.finish();

    assert_eq!(tf_idf.index.rfc_details.len(), 1);
    assert_eq!(tf_idf.index.term_scores.len(), 2);

    let hello = tf_idf.index.term_scores.get("Hello");
    assert!(hello.is_some());
}

#[test]
fn single_document_search_returns_canonical_url_and_title() {
    let mut tf_idf = TfIdf::default();
    tf_idf.add_rfc_entry(entry(1, "https://rfsee.com/1", "Test 1", "Hello world!"));
    tf_idf.finish();

    assert_eq!(tf_idf.index.rfc_details.len(), 1);
    assert!(tf_idf.index.term_scores.get("Hello").is_some());
    assert!(tf_idf.index.term_scores.get("world").is_some());

    let results = search_index("Hello".to_string(), tf_idf.index);
    assert_eq!(results.len(), 1);
    assert_eq!(results[0].url, "https://www.rfc-editor.org/rfc/rfc1.txt");
    assert_eq!(results[0].title, "Test 1");
}

#[test]
fn duplicate_tokens_preserve_case_with_equal_frequencies() {
    let mut tf_idf = TfIdf::default();
    tf_idf.add_rfc_entry(entry(1, "https://rfsee.com/1", "Test", "Hello hello!"));

    let doc = tf_idf.processed.get("https://rfsee.com/1").unwrap();
    assert_eq!(doc.total, 2);
    assert_eq!(*doc.counts.get("Hello").unwrap(), 1);
    assert_eq!(*doc.counts.get("hello").unwrap(), 1);
    // Both case variants have relative frequency one half.
    let tf_upper = *doc.counts.get("Hello").unwrap() as f64 / doc.total as f64;
    let tf_lower = *doc.counts.get("hello").unwrap() as f64 / doc.total as f64;
    assert_eq!(tf_upper, 0.5);
    assert_eq!(tf_lower, 0.5);
}

#[test]
fn two_documents_disjoint_vocabularies() {
    let mut tf_idf = TfIdf::default();
    tf_idf.add_rfc_entry(entry(1, "https://rfsee.com/1", "One", "Hello world"));
    tf_idf.add_rfc_entry(entry(2, "https://rfsee.com/2", "Two", "Goodbye car"));
    tf_idf.finish();

    let hello_score = *tf_idf.index.term_scores.get("Hello").unwrap().get(1).unwrap();
    let car_score = *tf_idf.index.term_scores.get("car").unwrap().get(2).unwrap();

    let results = search_index("Hello car".to_string(), tf_idf.index);
    assert_eq!(results.len(), 2);
    let urls: Vec<&str> = results.iter().map(|r| r.url.as_str()).collect();
    assert!(urls.contains(&"https://www.rfc-editor.org/rfc/rfc1.txt"));
    assert!(urls.contains(&"https://www.rfc-editor.org/rfc/rfc2.txt"));
    // Each document's aggregate equals its sole contributing term's score.
    assert_eq!(hello_score, car_score);
}

#[test]
fn missing_term_returns_empty_result() {
    let mut tf_idf = TfIdf::default();
    tf_idf.add_rfc_entry(entry(1, "https://rfsee.com/1", "Test", "Hello world"));
    tf_idf.finish();

    let results = search_index("absent".to_string(), tf_idf.index);
    assert_eq!(results.len(), 0);
}

#[test]
fn tokenizer_strips_punctuation() {
    let mut tf_idf = TfIdf::default();
    tf_idf.add_rfc_entry(entry(1, "https://rfsee.com/1", "Test", "Hello world!"));
    tf_idf.finish();

    // The tokenizer must split on non-word characters: the raw body is not
    // a term, and the punctuation is gone.
    assert!(tf_idf.index.term_scores.get("Hello world!").is_none());
    assert!(tf_idf.index.term_scores.get("world!").is_none());
    assert!(tf_idf.index.term_scores.get("world").is_some());
}

#[test]
fn entry_without_body_is_ignored() {
    let mut tf_idf = TfIdf::default();
    tf_idf.add_rfc_entry(RfcEntry {
        number: 9,
        url: "https://rfsee.com/9".to_string(),
        title: "Empty".to_string(),
        content: None,
    });
    tf_idf.finish();
    assert_eq!(tf_idf.index.rfc_details.len(), 0);
    assert_eq!(tf_idf.index.term_scores.len(), 0);
}

#[test]
fn reingesting_a_url_overwrites_the_record() {
    let mut tf_idf = TfIdf::default();
    tf_idf.add_rfc_entry(entry(1, "https://rfsee.com/1", "Old", "alpha beta"));
    tf_idf.add_rfc_entry(entry(1, "https://rfsee.com/1", "New", "gamma"));
    tf_idf.finish();

    assert_eq!(tf_idf.index.rfc_details.len(), 1);
    assert_eq!(tf_idf.index.rfc_details.get(1).unwrap().title(), "New");
    assert!(tf_idf.index.term_scores.get("alpha").is_none());
    assert!(tf_idf.index.term_scores.get("gamma").is_some());
}

#[test]
fn combine_scores_orders_by_descending_aggregate() {
    let mut l1: NumMap<i32> = NumMap::new();
    l1.insert(1, 100);
    let mut l2: NumMap<i32> = NumMap::new();
    l2.insert(2, 50);
    l2.insert(3, 60);
    let ranked = combine_scores(vec![l1, l2]);
    assert_eq!(ranked, vec![1, 3, 2]);
}

#[test]
fn combine_scores_adds_scores_across_lists() {
    let mut l1: NumMap<i32> = NumMap::new();
    l1.insert(1, 10);
    l1.insert(2, 25);
    let mut l2: NumMap<i32> = NumMap::new();
    l2.insert(1, 7);
    let ranked = combine_scores(vec![l1, l2]);
    // Document 2 keeps its lone score 25; document 1 aggregates 17.
    assert_eq!(ranked, vec![2, 1]);
}

#[test]
fn every_posting_number_has_details() {
    let mut tf_idf = TfIdf::default();
    tf_idf.add_rfc_entry(entry(7, "https://rfsee.com/7", "Seven", "alpha beta alpha"));
    tf_idf.add_rfc_entry(entry(8, "https://rfsee.com/8", "Eight", "beta gamma"));
    tf_idf.finish();

    for term in ["alpha", "beta", "gamma"] {
        let pl = tf_idf.index.term_scores.get(term).unwrap();
        for i in 0..pl.len() {
            let (number, _) = *pl.entry_at(i);
            assert!(tf_idf.index.rfc_details.get(number).is_some());
        }
    }
}

#[test]
fn search_ranks_by_descending_aggregate_score() {
    let mut tf_idf = TfIdf::default();
    // "common" is everywhere; doc 3 mentions it most often.
    tf_idf.add_rfc_entry(entry(1, "https://rfsee.com/1", "One", "common alpha beta gamma"));
    tf_idf.add_rfc_entry(entry(2, "https://rfsee.com/2", "Two", "common common alpha beta"));
    tf_idf.add_rfc_entry(entry(3, "https://rfsee.com/3", "Three", "common common common alpha"));
    tf_idf.finish();

    let common = tf_idf.index.term_scores.get("common").unwrap();
    let s1 = *common.get(1).unwrap();
    let s2 = *common.get(2).unwrap();
    let s3 = *common.get(3).unwrap();

    let results = search_index("common".to_string(), tf_idf.index);
    assert_eq!(results.len(), 3);
    // The result order follows the stored scores, best first.
    let mut expected: Vec<(i32, i32)> = vec![(s1, 1), (s2, 2), (s3, 3)];
    expected.sort_by(|a, b| b.0.cmp(&a.0));
    for (i, (_, n)) in expected.iter().enumerate() {
        assert_eq!(
            results[i].url,
            format!("https://www.rfc-editor.org/rfc/rfc{n}.txt")
        );
    }
}
