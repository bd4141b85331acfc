use keepass_dump_extractor::{
    format_leaks, leak_to_string, order_by_duplicates, Format, ReconstructError,
};

#[test]
fn format() {
    assert_eq!(leak_to_string((3, 'g')), "\u{25CF}\u{25CF}\u{25CF}g");
    assert_eq!(leak_to_string((1, 'g')), "\u{25CF}g");
}

#[test]
fn found_orders_by_position_then_confidence() {
    let leaks = vec![(1, 'c'), (0, 'a'), (0, 'b'), (0, 'b')];
    let lines = format_leaks(&leaks, Format::Found).unwrap();
    assert_eq!(
        lines,
        vec!["b".to_string(), "a".to_string(), "\u{25CF}c".to_string()]
    );
}

#[test]
fn found_is_idempotent() {
    let leaks = vec![(2, 'x'), (0, 'a'), (0, 'b'), (0, 'b'), (2, 'x')];
    let once = order_by_duplicates(&leaks);
    let twice = order_by_duplicates(&once);
    assert_eq!(once, twice);
}

#[test]
fn found_of_empty_set_prints_nothing() {
    let leaks: Vec<(usize, char)> = vec![];
    assert_eq!(format_leaks(&leaks, Format::Found), Ok(vec![]));
}

#[test]
fn gaps_renders_each_candidate_alone() {
    // Position 0 is ambiguous between 'a' and 'b'; position 1 is known.
    let leaks = vec![(0, 'a'), (0, 'b'), (1, 'k')];
    let lines = format_leaks(&leaks, Format::Gaps).unwrap();
    assert_eq!(lines, vec!["ak".to_string(), "bk".to_string()]);
}

#[test]
fn gaps_line_count_sums_candidate_sets() {
    // Position 0 has no observation, so it falls back to the 95 common
    // characters; position 1 is known.
    let leaks = vec![(1, 'q')];
    let lines = format_leaks(&leaks, Format::Gaps).unwrap();
    assert_eq!(lines.len(), 95);
    assert_eq!(lines[0], " q");
    assert_eq!(lines[('a' as usize) - 0x20], "aq");
}

#[test]
fn all_enumerates_the_product() {
    // Two ambiguous positions of sizes 2 and 3 give 2 * 3 = 6 lines.
    let leaks = vec![
        (0, 'a'),
        (0, 'b'),
        (1, 'k'),
        (2, 'x'),
        (2, 'y'),
        (2, 'z'),
    ];
    let lines = format_leaks(&leaks, Format::All).unwrap();
    assert_eq!(
        lines,
        vec![
            "akx".to_string(),
            "aky".to_string(),
            "akz".to_string(),
            "bkx".to_string(),
            "bky".to_string(),
            "bkz".to_string(),
        ]
    );
}

#[test]
fn all_with_no_unknown_positions_prints_the_password() {
    let leaks = vec![(0, 'a'), (1, 'b'), (0, 'a')];
    let lines = format_leaks(&leaks, Format::All).unwrap();
    assert_eq!(lines, vec!["ab".to_string()]);
}

#[test]
fn gaps_of_empty_set_fails() {
    let leaks: Vec<(usize, char)> = vec![];
    assert_eq!(
        format_leaks(&leaks, Format::Gaps),
        Err(ReconstructError::NoObservations)
    );
}

#[test]
fn all_of_empty_set_fails() {
    let leaks: Vec<(usize, char)> = vec![];
    assert_eq!(
        format_leaks(&leaks, Format::All),
        Err(ReconstructError::NoObservations)
    );
}

#[test]
fn raw_is_not_implemented() {
    let leaks = vec![(0, 'a')];
    assert_eq!(
        format_leaks(&leaks, Format::Raw),
        Err(ReconstructError::NotImplemented)
    );
}
