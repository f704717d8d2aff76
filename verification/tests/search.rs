use excelgrag::expand::Hit;
use excelgrag::graph::NodeKind;
use excelgrag::search::{
    content_words, coverage, find_in, term_hits, AfterMeaning, AfterProbes, AfterWords, Fusion,
    Search, SearchError, TermHits, Verdict, PROBE_DEPTH,
};
use rustc_hash::FxHashSet;

fn hit(workbook: &str, node: u32) -> Hit {
    Hit {
        score: 1.0f32.to_bits(),
        workbook: workbook.to_string(),
        path: "book.xlsx".into(),
        node,
        kind: NodeKind::Column,
        sheet: None,
        label: "label".into(),
        a1: None,
    }
}

fn hits(pairs: &[(&str, u32)]) -> FxHashSet<(String, u32)> {
    pairs.iter().map(|(wb, n)| (wb.to_string(), *n)).collect()
}

#[test]
fn a_capped_probe_that_never_found_the_top_result_is_uncertain_not_a_miss() {
    // L14: at exactly the probe's depth cap, absence from the sample
    // proves nothing — the true match set may run deeper and include the
    // top result anyway.
    let terms = vec![TermHits { word: "debt".to_string(), hits: hits(&[("wbA", 1), ("wbA", 2)]), capped: true }];
    let (unmatched, matched, covered, uncertain) = coverage(&terms, Some(&hit("wbA", 99)));
    assert!(unmatched.is_empty());
    assert_eq!(matched, vec!["debt".to_string()]);
    assert!(covered.is_empty());
    assert_eq!(uncertain, vec!["debt".to_string()]);
}

#[test]
fn an_uncapped_probe_that_never_found_the_top_result_is_a_confirmed_miss() {
    // The whole match set fit under the cap, so its absence is certain —
    // must not be softened into `uncertain` just because some *other*
    // word in the same query happened to be capped.
    let terms = vec![TermHits { word: "debt".to_string(), hits: hits(&[("wbA", 1), ("wbA", 2)]), capped: false }];
    let (_, matched, covered, uncertain) = coverage(&terms, Some(&hit("wbA", 99)));
    assert_eq!(matched, vec!["debt".to_string()]);
    assert!(covered.is_empty());
    assert!(uncertain.is_empty());
}

#[test]
fn an_uncertain_word_does_not_turn_a_real_result_blind() {
    // Before L14 this configuration was `Blind`, wrongly asserting the
    // top result "carries none of" a word whose coverage was never
    // actually resolved.
    let search = Search {
        hits: vec![hit("wbA", 99)],
        matched: vec!["debt".to_string()],
        uncertain: vec!["debt".to_string()],
        ..Search::default()
    };
    assert_eq!(search.verdict(), Verdict::Partial);
}

#[test]
fn an_uncertain_word_does_not_block_a_full_verdict() {
    let search = Search {
        hits: vec![hit("wbA", 99)],
        matched: vec!["debt".to_string(), "aged".to_string()],
        covered: vec!["debt".to_string()],
        uncertain: vec!["aged".to_string()],
        ..Search::default()
    };
    assert_eq!(search.verdict(), Verdict::Full);
}

#[test]
fn a_confirmed_miss_alongside_an_uncertain_word_is_still_partial() {
    let search = Search {
        hits: vec![hit("wbA", 99)],
        matched: vec!["debt".to_string(), "aged".to_string(), "bucket".to_string()],
        covered: vec!["debt".to_string()],
        uncertain: vec!["aged".to_string()],
        ..Search::default()
    };
    // "bucket" is matched, not covered, not uncertain — a confirmed miss.
    assert_eq!(search.verdict(), Verdict::Partial);
}

#[test]
fn a_number_the_index_does_not_have_is_not_a_number_the_workbook_lacks() {
    // A corpus indexes a column's values only where its profile kept them,
    // so a figure out of a large numeric column is absent by construction.
    // Reported as "not in this corpus at all" it reads as "the workbook
    // does not contain 1612", which is the confident wrong answer this
    // whole module exists to prevent.
    let search = Search {
        hits: vec![hit("wbA", 99)],
        unmatched: vec!["1612".to_string()],
        ..Search::default()
    };
    assert_eq!(search.unindexable(), vec!["1612".to_string()]);
    let evidence = search.evidence();
    assert!(evidence.contains("indexed only where"), "{evidence}");
    assert!(evidence.contains("eg where"), "{evidence}");
    // And it must not claim the corpus was asked something it was not.
    assert!(
        !evidence.contains("not in this corpus at all"),
        "{evidence}"
    );

    let warning = search.warning().expect("blind, so a banner");
    assert!(warning.starts_with("BLIND MATCH:"), "{warning}");
    assert!(warning.contains("in no index"), "{warning}");
}

#[test]
fn a_word_that_is_not_a_number_earns_no_such_note() {
    // The note is about values, and every *name* in a workbook is indexed.
    // A caveat that appears on every miss is a caveat nobody reads.
    let search = Search {
        hits: vec![hit("wbA", 99)],
        unmatched: vec!["ferrous".to_string()],
        ..Search::default()
    };
    assert!(search.unindexable().is_empty());
    let evidence = search.evidence();
    assert!(!evidence.contains("eg where"), "{evidence}");
    assert!(
        evidence.contains("not in what this corpus indexes"),
        "{evidence}"
    );
}

#[test]
fn a_number_that_matched_nothing_at_all_still_says_why() {
    // The shape a bare number actually takes: the lexical half returns no
    // hit whatever, so the verdict is `Nothing` rather than `Blind`, and
    // an unqualified "NOTHING MATCHED" about a figure that is in a cell is
    // exactly the wrong answer.
    let search = Search {
        hits: Vec::new(),
        unmatched: vec!["1612".to_string()],
        ..Search::default()
    };
    assert_eq!(search.verdict(), Verdict::Nothing);
    let warning = search.warning().expect("nothing matched, so a banner");
    assert!(warning.starts_with("NOTHING MATCHED."), "{warning}");
    assert!(warning.contains("in no index"), "{warning}");
    assert!(
        search.evidence().contains("eg where"),
        "{}",
        search.evidence()
    );
}

#[test]
fn evidence_reports_an_uncertain_word_separately_from_a_confirmed_miss() {
    let search = Search {
        hits: vec![hit("wbA", 99)],
        matched: vec!["debt".to_string(), "aged".to_string()],
        covered: vec!["debt".to_string()],
        uncertain: vec!["aged".to_string()],
        ..Search::default()
    };
    let evidence = search.evidence();
    assert!(evidence.contains("could not be checked"), "{evidence}");
    assert!(
        !evidence.contains("matched elsewhere"),
        "an uncertain word is not a confirmed miss: {evidence}"
    );
}

#[test]
fn a_question_is_stripped_to_its_content_words() {
    let words: Vec<(String, String)> = content_words("How is the Debt-aged, DEBT 2024? \u{00c9}TAT")
        .into_iter()
        .map(|w| (w.word, w.lower))
        .collect();
    let expected: Vec<(String, String)> = [
        ("Debt", "debt"),
        ("aged", "aged"),
        ("2024", "2024"),
        ("\u{00c9}TAT", "\u{00e9}tat"),
    ]
    .iter()
    .map(|(a, b)| (a.to_string(), b.to_string()))
    .collect();
    assert_eq!(words, expected);
    assert!(content_words("show me all of it").is_empty());
}

fn probed(words: &[(&str, u32)]) -> Vec<Option<Vec<Hit>>> {
    words.iter().map(|(wb, n)| Some(vec![hit(wb, *n)])).collect()
}

#[test]
fn a_question_without_content_is_not_searched() {
    let probing = find_in("show me all");
    assert!(probing.words.is_empty());
    match probing.probed(&Vec::new(), true, 8, &Fusion::default()) {
        AfterProbes::Done(s) => {
            assert!(s.no_content_words && s.is_empty());
            assert_eq!(s.verdict(), Verdict::NoContentWords);
            assert!(s.warning().unwrap().contains("frame word"));
        }
        AfterProbes::Ask(_) => panic!("nothing to ask"),
    }
}

#[test]
fn a_failed_probe_leaves_its_word_out_and_says_so() {
    let probing = find_in("debt aged");
    assert_eq!(probing.words.len(), 2);
    let probes = vec![None, Some(vec![hit("wbA", 1)])];
    let (terms, incomplete) = term_hits(&probing.words, &probes);
    assert!(incomplete);
    assert_eq!(terms.len(), 1);
    assert_eq!(terms[0].word, "aged");
    assert!(!terms[0].capped);

    let by_word = match probing.probed(&vec![None, None], false, 8, &Fusion::default()) {
        AfterProbes::Ask(b) => b,
        AfterProbes::Done(_) => panic!("a failing index must surface in the search"),
    };
    assert_eq!(by_word.limit, 8);
    match by_word.ranked(Err("index closed".to_string())) {
        Err(SearchError::Query(e)) => assert_eq!(e, "index closed"),
        _ => panic!("the failure was lost"),
    }
}

#[test]
fn a_probe_as_deep_as_it_goes_is_capped() {
    let probing = find_in("debt");
    let deep: Vec<Hit> = (0..PROBE_DEPTH as u32).map(|n| hit("wbA", n)).collect();
    let (terms, _) = term_hits(&probing.words, &vec![Some(deep)]);
    assert!(terms[0].capped);
}

#[test]
fn both_halves_are_asked_deep_and_their_agreement_counted() {
    let probing = find_in("aged debt");
    let by_word =
        match probing.probed(&probed(&[("wbA", 1), ("wbA", 2)]), true, 8, &Fusion::default()) {
            AfterProbes::Ask(b) => b,
            AfterProbes::Done(_) => panic!("there is something to ask"),
        };
    assert_eq!((by_word.limit, by_word.wanted, by_word.both), (50, 8, true));
    let lexical = vec![hit("wbA", 1), hit("wbA", 2)];
    let by_meaning = match by_word.ranked(Ok(lexical)) {
        Ok(AfterWords::Ask(m)) => m,
        _ => panic!("the meaning is to be asked for"),
    };
    assert_eq!(by_meaning.limit, 50);
    let fusing = match by_meaning.ranked(vec![hit("wbA", 2), hit("wbB", 1)]) {
        AfterMeaning::Fuse(f) => f,
        AfterMeaning::Done(_) => panic!("both halves answered"),
    };
    let search = fusing.fused(vec![hit("wbA", 2), hit("wbA", 1), hit("wbB", 1)]);
    assert!(search.both_halves);
    assert_eq!(search.corroborated, 1);
    assert_eq!(search.matched, vec!["aged".to_string(), "debt".to_string()]);
    assert_eq!(search.covered, vec!["debt".to_string()]);
    assert_eq!(search.verdict(), Verdict::Partial);
    assert_eq!(
        search.evidence(),
        "the top result matches \"debt\" of 2; \"aged\" matched elsewhere; \
         1 of 3 results found by word and by meaning"
    );
}

#[test]
fn words_stand_alone_where_meaning_finds_nothing() {
    let probing = find_in("debt");
    let by_word = match probing.probed(&probed(&[("wbA", 1)]), true, 1, &Fusion::default()) {
        AfterProbes::Ask(b) => b,
        AfterProbes::Done(_) => panic!("there is something to ask"),
    };
    let by_meaning = match by_word.ranked(Ok(vec![hit("wbA", 1), hit("wbA", 2)])) {
        Ok(AfterWords::Ask(m)) => m,
        _ => panic!("the meaning is to be asked for"),
    };
    match by_meaning.ranked(Vec::new()) {
        AfterMeaning::Done(s) => {
            assert_eq!(s.hits.len(), 1, "cut to what was wanted");
            assert!(!s.both_halves);
            assert_eq!(s.verdict(), Verdict::Full);
            assert!(s.warning().is_none());
        }
        AfterMeaning::Fuse(_) => panic!("nothing to fuse"),
    }
    let lexical = Fusion::lexical();
    assert!(lexical.lexical_only);
    match find_in("debt").probed(&probed(&[("wbA", 1)]), true, 3, &lexical) {
        AfterProbes::Ask(b) => {
            assert!(!b.both);
            match b.ranked(Ok(vec![hit("wbA", 1)])) {
                Ok(AfterWords::Done(s)) => assert_eq!(s.covered, vec!["debt".to_string()]),
                _ => panic!("words alone end the search"),
            }
        }
        AfterProbes::Done(_) => panic!("there is something to ask"),
    }
}

#[test]
fn what_reads_as_a_number_is_what_a_float_parses() {
    let texts = [
        "1612", "1.5", ".5", "5.", ".", "", "+3", "-3", "--3", "1e5", "1e", "1e+5", "e5", "inf",
        "-Infinity", "NaN", "nano", "1_000", "0x10", "1.2.3", "1e5.0", "\u{0663}", "ferrous",
    ];
    for t in texts {
        let search = Search { unmatched: vec![t.to_string()], ..Search::default() };
        assert_eq!(
            search.unindexable().len() == 1,
            t.parse::<f64>().is_ok(),
            "{t:?} reads differently"
        );
    }
}

#[test]
fn a_blind_result_names_the_words_it_does_not_carry() {
    let search = Search {
        hits: vec![hit("wbA", 99)],
        matched: vec!["debt".to_string()],
        ..Search::default()
    };
    assert_eq!(search.verdict(), Verdict::Blind);
    assert_eq!(search.verdict().as_str(), "blind");
    assert!(search
        .warning()
        .unwrap()
        .starts_with("BLIND MATCH: the best result carries none of \"debt\""));
    assert_eq!(SearchError::Text("x".into()).message(), "could not open the lexical index: x");
}
