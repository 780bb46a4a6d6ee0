use term_freqs::dict::TermDict;
use term_freqs::Error;

#[test]
fn test_term_dict() {
    let mut dict = TermDict::new();

    dict.insert("foo");
    dict.insert("bar");
    dict.insert("baz");
    dict.insert("foo");
    dict.insert("bar");
    dict.insert("foo");

    dict.commit().unwrap();

    dict.insert("foo");
    dict.insert("bar");
    dict.insert("baz");
    dict.insert("foo");
    dict.insert("bar");
    dict.insert("foo");

    dict.commit().unwrap();

    dict.merge_dicts().unwrap();

    assert_eq!(dict.stored_len(), 1);

    assert_eq!(dict.freq("foo"), Some(6));
    assert_eq!(dict.freq("bar"), Some(4));
    assert_eq!(dict.freq("baz"), Some(2));
}

#[test]
fn reopen() {
    let mut meta: Vec<u8> = TermDict::empty_meta();
    let mut files: Vec<Vec<u8>> = Vec::new();

    {
        let mut dict = TermDict::open(&meta, files.clone()).unwrap();

        dict.insert("foo");
        dict.insert("bar");
        dict.insert("baz");
        dict.insert("foo");
        dict.insert("bar");
        dict.insert("foo");

        let out = dict.commit().unwrap();
        meta = out.meta_data;
        files.push(out.segment_data);
    }

    {
        let mut dict = TermDict::open(&meta, files.clone()).unwrap();

        dict.insert("foo");
        dict.insert("bar");
        dict.insert("baz");
        dict.insert("foo");
        dict.insert("bar");
        dict.insert("foo");

        let out = dict.commit().unwrap();
        meta = out.meta_data;
        files.push(out.segment_data);
    }

    {
        let dict = TermDict::open(&meta, files.clone()).unwrap();

        assert_eq!(dict.stored_len(), 2);

        assert_eq!(dict.freq("foo"), Some(6));
        assert_eq!(dict.freq("bar"), Some(4));
        assert_eq!(dict.freq("baz"), Some(2));
    }
}

#[test]
fn filter_rejections() {
    let mut dict = TermDict::new();
    dict.insert("a"); // single byte: rejected
    dict.insert("hello world"); // space: rejected
    dict.insert("!!!a"); // punctuation fraction 0.75: rejected
    dict.insert("abc123def"); // non-alphabetic fraction 1/3: rejected
    dict.insert("caf\u{e9}"); // admitted
    dict.commit().unwrap();

    assert_eq!(dict.freq("caf\u{e9}"), Some(1));
    assert_eq!(dict.freq("a"), None);
    assert_eq!(dict.freq("hello world"), None);
    assert_eq!(dict.freq("!!!a"), None);
    assert_eq!(dict.freq("abc123def"), None);
    assert_eq!(dict.terms(), vec!["caf\u{e9}".to_string()]);
}

#[test]
fn empty_commit_is_noop() {
    let mut dict = TermDict::new();
    assert!(dict.commit().is_none());
    dict.insert("x"); // rejected: too short
    assert!(dict.commit().is_none());
    assert_eq!(dict.stored_len(), 0);
}

#[test]
fn fuzzy_search() {
    let mut dict = TermDict::new();
    for _ in 0..5 {
        dict.insert("knight");
    }
    for _ in 0..3 {
        dict.insert("night");
    }
    for _ in 0..2 {
        dict.insert("knights");
    }
    // "day" is admitted (3 bytes, alphabetic) but far from "night"
    dict.insert("day");
    dict.commit().unwrap();

    let found = dict.search("night", 1);
    assert!(found.iter().any(|t| t == "night"));
    assert!(found.iter().any(|t| t == "knight"));
    assert!(!found.iter().any(|t| t == "day"));
    assert!(!found.iter().any(|t| t == "knights"));
}

#[test]
fn distance_filter_keeps_order_and_only_matches() {
    let cands = vec![
        b"night".to_vec(),
        b"knights".to_vec(),
        b"knight".to_vec(),
        b"day".to_vec(),
        vec![0xff, 0xfe], // not UTF-8: passed over
    ];
    let kept = term_freqs::dict::matches_from_keys("night", &cands, 1);
    assert_eq!(kept, vec!["night".to_string(), "knight".to_string()]);
    let kept2 = term_freqs::dict::matches_from_keys("night", &cands, 2);
    assert_eq!(
        kept2,
        vec![
            "night".to_string(),
            "knights".to_string(),
            "knight".to_string()
        ]
    );
}

#[test]
fn prune_to_top_n() {
    let mut dict = TermDict::new();
    // one hundred distinct alphabetic terms with counts 1..=100
    for i in 0u8..100 {
        let term = format!(
            "term{}{}",
            (b'a' + i / 10) as char,
            (b'a' + i % 10) as char
        );
        for _ in 0..(i as usize + 1) {
            dict.insert(&term);
        }
    }
    dict.commit().unwrap();

    let out = dict.prune(10).unwrap();
    assert_eq!(out.threshold, 91);
    assert_eq!(dict.terms().len(), 10);
    // the heaviest term survives with its full count
    assert_eq!(dict.freq("termja"), Some(91));
    assert_eq!(dict.freq("termjj"), Some(100));
    // a term below the threshold is gone
    assert_eq!(dict.freq("termja"), Some(91));
    assert_eq!(dict.freq("termia"), None);
}

#[test]
fn prune_below_target_is_noop() {
    let mut dict = TermDict::new();
    dict.insert("foo");
    dict.insert("bar");
    dict.commit().unwrap();
    assert!(dict.prune(10).is_none());
    assert_eq!(dict.freq("foo"), Some(1));
}

#[test]
fn merge_in_unions_dictionaries() {
    let mut a = TermDict::new();
    for _ in 0..3 {
        a.insert("foo");
    }
    a.commit().unwrap();

    let mut b = TermDict::new();
    for _ in 0..2 {
        b.insert("foo");
    }
    b.insert("bar");
    b.commit().unwrap();

    let plan = a.merge(b);
    assert_eq!(plan.renames.len(), 1);
    assert_eq!(a.stored_len(), 2);

    a.merge_dicts().unwrap();
    assert_eq!(a.stored_len(), 1);
    assert_eq!(a.freq("foo"), Some(5));
    assert_eq!(a.freq("bar"), Some(1));
}

#[test]
fn gc_marks_exactly_the_orphans() {
    let mut dict = TermDict::new();
    dict.insert("foo");
    let out = dict.commit().unwrap();

    let live_stem = term_freqs::meta::format_id(&out.id);
    let orphan_id = term_freqs::meta::random_id();
    let orphan_stem = term_freqs::meta::format_id(&orphan_id);
    let junk_stem = b"not-an-identifier".to_vec();

    let del = dict.gc(&vec![live_stem, orphan_stem, junk_stem]);
    assert_eq!(del, vec![false, true, true]);
}

#[test]
fn open_rejects_corrupt_images() {
    let bad_meta = b"{\"wrong\":[]}".to_vec();
    assert_eq!(
        TermDict::open(&bad_meta, Vec::new()).err(),
        Some(Error::SerializationError)
    );

    let mut dict = TermDict::new();
    dict.insert("foo");
    let out = dict.commit().unwrap();

    // catalog lists one segment, none handed in
    assert_eq!(
        TermDict::open(&out.meta_data, Vec::new()).err(),
        Some(Error::FormatError)
    );

    // a segment that is not a valid transducer file
    assert_eq!(
        TermDict::open(&out.meta_data, vec![vec![1, 2, 3]]).err(),
        Some(Error::FormatError)
    );

    // the real image opens
    let reopened = TermDict::open(&out.meta_data, vec![out.segment_data]).unwrap();
    assert_eq!(reopened.freq("foo"), Some(1));
}

#[test]
fn commit_then_merge_preserves_aggregates() {
    // several groups, committed separately, then compacted
    let mut dict = TermDict::new();
    for group in 0..4 {
        for _ in 0..(group + 2) {
            dict.insert("alpha");
        }
        dict.insert("beta");
        dict.commit().unwrap();
    }
    assert_eq!(dict.stored_len(), 4);
    let before_alpha = dict.freq("alpha");
    let before_beta = dict.freq("beta");
    dict.merge_dicts().unwrap();
    assert_eq!(dict.stored_len(), 1);
    assert_eq!(dict.freq("alpha"), before_alpha);
    assert_eq!(dict.freq("alpha"), Some(2 + 3 + 4 + 5));
    assert_eq!(dict.freq("beta"), before_beta);
    assert_eq!(dict.freq("beta"), Some(4));
}
