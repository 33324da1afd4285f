use rfsee::score::{idf_fixed, score_for};
use rfsee::{RfcEntry, TfIdf};

const LOG_UNIT: f64 = 1099511627776.0;

fn idf_f64(n_docs: u64, df: u64) -> f64 {
    (n_docs as f64 / (df as f64 + 0.0001)).log10()
}

#[test]
fn fixed_point_idf_matches_the_formula() {
    for (n, df) in [(1u64, 1u64), (2, 1), (10, 3), (100, 100), (5000, 1), (7, 7)] {
        let fixed = idf_fixed(n, df) as f64 / LOG_UNIT;
        let float = idf_f64(n, df);
        assert!(
            (fixed - float).abs() < 1e-6,
            "idf({n}, {df}): fixed {fixed} vs float {float}"
        );
    }
}

#[test]
fn quantized_scores_match_the_formula() {
    for (c, t, n, df) in [
        (1u64, 2u64, 1u64, 1u64),
        (1, 1, 1, 1),
        (3, 7, 10, 4),
        (2, 5, 1000, 30),
        (1, 1000, 2, 1),
        (10, 10, 3, 3),
    ] {
        let stored = score_for(c, t, n, df);
        let exact = ((c as f64 / t as f64) * idf_f64(n, df) * 1_000_000_000.0).round();
        assert!(
            (stored as f64 - exact).abs() <= 1.0,
            "score({c},{t},{n},{df}): stored {stored} vs exact {exact}"
        );
    }
}

#[test]
fn single_token_document_scores_the_smoothed_idf() {
    // One document, one term occurring once among two tokens: the stored
    // score is round(0.5 * log10(1 / 1.0001) * 1e9) = -21714.
    assert_eq!(score_for(1, 2, 1, 1), -21714);
}

#[test]
fn term_frequencies_sum_to_one() {
    let mut tf_idf = TfIdf::default();
    tf_idf.add_rfc_entry(RfcEntry {
        number: 1,
        url: "https://rfsee.com/1".to_string(),
        title: "Test".to_string(),
        content: Some("alpha beta alpha gamma alpha beta".to_string()),
    });
    let doc = tf_idf.processed.get("https://rfsee.com/1").unwrap();
    let mut sum: f64 = 0.0;
    let mut count_sum: u64 = 0;
    for i in 0..doc.counts.len() {
        let (_, c) = doc.counts.entry_at(i);
        sum += *c as f64 / doc.total as f64;
        count_sum += *c as u64;
    }
    assert_eq!(count_sum, doc.total as u64);
    assert!((sum - 1.0).abs() < 1e-9);
}

#[test]
fn stored_scores_match_the_tf_idf_formula() {
    let mut tf_idf = TfIdf::default();
    tf_idf.add_rfc_entry(RfcEntry {
        number: 1,
        url: "https://rfsee.com/1".to_string(),
        title: "One".to_string(),
        content: Some("alpha beta alpha".to_string()),
    });
    tf_idf.add_rfc_entry(RfcEntry {
        number: 2,
        url: "https://rfsee.com/2".to_string(),
        title: "Two".to_string(),
        content: Some("beta gamma".to_string()),
    });
    tf_idf.finish();

    // alpha: count 2 of 3 tokens, df 1 of 2 docs.
    let alpha = *tf_idf.index.term_scores.get("alpha").unwrap().get(1).unwrap();
    let exact = (2.0f64 / 3.0 * idf_f64(2, 1) * 1e9).round();
    assert!((alpha as f64 - exact).abs() <= 1.0);

    // beta appears in both documents: df 2.
    let beta1 = *tf_idf.index.term_scores.get("beta").unwrap().get(1).unwrap();
    let exact1 = (1.0f64 / 3.0 * idf_f64(2, 2) * 1e9).round();
    assert!((beta1 as f64 - exact1).abs() <= 1.0);
}
