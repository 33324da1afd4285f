use rfsee::{
    build_rfc_entry, decode_index, encode_index, normalize_title, parse_rfc_details,
    parse_rfc_index, rfc_url, Index, NumMap, RFSeeError, RfcDetails, RfcEntry, TfIdf,
};

#[test]
fn index_parser_splits_header_stripped_form() {
    let text = "RFC INDEX\npreamble text\n\n0001 Host Software. S. Crocker.\n\n0002 Host software. B. Duvall.\n\n";
    let records = parse_rfc_index(text).unwrap();
    // Two separators follow the marker, so two splits plus one piece each:
    // the suffix has three pieces, the last one empty.
    assert_eq!(records.len(), 3);
    assert!(records[0].starts_with("0001 "));
    assert!(records[1].starts_with("0002 "));
    assert_eq!(records[2], "");
}

#[test]
fn index_parser_rejects_text_without_marker() {
    let e = parse_rfc_index("no records here").unwrap_err();
    assert!(matches!(e, RFSeeError::ParseError(_)));
}

#[test]
fn details_parser_reads_number_and_title() {
    let (number, title) = parse_rfc_details("0042 The Meaning of Bits").unwrap();
    assert_eq!(number, 42);
    assert_eq!(title, "The Meaning of Bits");
}

#[test]
fn details_parser_rejects_record_without_space() {
    let e = parse_rfc_details("0042").unwrap_err();
    assert!(matches!(e, RFSeeError::ParseError(_)));
}

#[test]
fn details_parser_rejects_non_numeric_prefix() {
    let e = parse_rfc_details("abc def").unwrap_err();
    assert!(matches!(e, RFSeeError::ParseError(_)));
}

#[test]
fn title_continuation_lines_fold_to_spaces() {
    assert_eq!(
        normalize_title("Host Software. S. Crocker.\n     April 1969."),
        "Host Software. S. Crocker. April 1969."
    );
    assert_eq!(normalize_title("plain"), "plain");
}

#[test]
fn entry_builder_assembles_number_url_and_title() {
    let e = build_rfc_entry("0001 Host Software.\n     April 1969.", "body".to_string()).unwrap();
    assert_eq!(e.number, 1);
    assert_eq!(e.url, "https://www.rfc-editor.org/rfc/rfc1.txt");
    assert_eq!(e.title, "Host Software. April 1969.");
    assert_eq!(e.content.as_deref(), Some("body"));
}

#[test]
fn canonical_url_prints_the_number() {
    assert_eq!(rfc_url(8124), "https://www.rfc-editor.org/rfc/rfc8124.txt");
}

fn sample_index() -> Index {
    let mut tf_idf = TfIdf::default();
    tf_idf.add_rfc_entry(RfcEntry {
        number: 1,
        url: "https://rfsee.com/1".to_string(),
        title: "Test 1".to_string(),
        content: Some("Hello world hello".to_string()),
    });
    tf_idf.add_rfc_entry(RfcEntry {
        number: 2,
        url: "https://rfsee.com/2".to_string(),
        title: "Second title, with punctuation!".to_string(),
        content: Some("Goodbye car world".to_string()),
    });
    tf_idf.finish();
    tf_idf.index
}

#[test]
fn codec_round_trips_a_built_artifact() {
    let ix = sample_index();
    let text = encode_index(&ix);
    let back = decode_index(&text).unwrap();

    assert_eq!(back.rfc_details.len(), ix.rfc_details.len());
    for i in 0..ix.rfc_details.len() {
        let (n, d) = ix.rfc_details.entry_at(i);
        let (n2, d2) = back.rfc_details.entry_at(i);
        assert_eq!(n, n2);
        assert_eq!(d.title(), d2.title());
    }
    assert_eq!(back.term_scores.len(), ix.term_scores.len());
    for i in 0..ix.term_scores.len() {
        let (t, pl) = ix.term_scores.entry_at(i);
        let (t2, pl2) = back.term_scores.entry_at(i);
        assert_eq!(t, t2);
        assert_eq!(pl.len(), pl2.len());
        for k in 0..pl.len() {
            assert_eq!(*pl.entry_at(k), *pl2.entry_at(k));
        }
    }
    // Writing the read-back artifact reproduces the document.
    assert_eq!(encode_index(&back), text);
}

#[test]
fn codec_round_trips_an_empty_artifact() {
    let ix = Index::new();
    let text = encode_index(&ix);
    let back = decode_index(&text).unwrap();
    assert_eq!(back.rfc_details.len(), 0);
    assert_eq!(back.term_scores.len(), 0);
}

#[test]
fn codec_round_trips_negative_scores_and_odd_titles() {
    let mut ix = Index::new();
    ix.rfc_details.insert(-3, RfcDetails::new("title with\nnewline and 7 spaces       ".to_string()));
    ix.rfc_details.insert(12, RfcDetails::new(String::new()));
    let mut pl: NumMap<i32> = NumMap::new();
    pl.insert(-3, -21714);
    pl.insert(12, i32::MAX);
    pl.insert(5, i32::MIN);
    ix.term_scores.insert("weird term \u{263a}".to_string(), pl);
    ix.term_scores.insert(String::new(), NumMap::new());

    let text = encode_index(&ix);
    let back = decode_index(&text).unwrap();
    assert_eq!(encode_index(&back), text);
    let pl2 = back.term_scores.get("weird term \u{263a}").unwrap();
    assert_eq!(*pl2.get(-3).unwrap(), -21714);
    assert_eq!(*pl2.get(12).unwrap(), i32::MAX);
    assert_eq!(*pl2.get(5).unwrap(), i32::MIN);
    assert_eq!(
        back.rfc_details.get(-3).unwrap().title(),
        "title with\nnewline and 7 spaces       "
    );
}

#[test]
fn codec_rejects_malformed_documents() {
    for bad in [
        "",
        "garbage",
        "rfsee1\n",
        "rfsee1\n1\n",
        "rfsee1\n0\n",
        "rfsee1\n0\n0",
        "rfsee1\n1\n1 4 abc\n0\n",
        "rfsee1\n1\n1 3 abc\n",
        "rfsee1\n0\n0\ntrailing",
        "rfsee1\n01\n0\n",
    ] {
        let e = decode_index(bad).unwrap_err();
        assert!(matches!(e, RFSeeError::ParseError(_)));
    }
}

#[test]
fn codec_rejects_duplicate_keys() {
    // Two entries for the same RFC number cannot come from the encoder.
    let text = "rfsee1\n2\n1 1 a\n1 1 b\n0\n";
    let e = decode_index(text).unwrap_err();
    assert!(matches!(e, RFSeeError::ParseError(_)));
}

#[test]
fn url_splitter_separates_host_and_path() {
    let (host, path) = rfsee::split_url("https://www.rfc-editor.org/rfc/rfc1.txt").unwrap();
    assert_eq!(host, "www.rfc-editor.org");
    assert_eq!(path, "rfc/rfc1.txt");

    let (host2, path2) = rfsee::split_url("https://www.rfc-editor.org/").unwrap();
    assert_eq!(host2, "www.rfc-editor.org");
    assert_eq!(path2, "");
}

#[test]
fn url_splitter_rejects_malformed_urls() {
    assert!(matches!(
        rfsee::split_url("no-scheme-here").unwrap_err(),
        RFSeeError::ParseError(_)
    ));
    assert!(matches!(
        rfsee::split_url("https://hostonly").unwrap_err(),
        RFSeeError::ParseError(_)
    ));
}
