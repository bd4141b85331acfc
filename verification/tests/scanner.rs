use keepass_dump_extractor::find_leaks;

#[test]
fn simple_character() {
    let input: [u8; 30] = [
        0xCF, 0x25, 0x00, 0x00, 0x41, 0x41, 0x41, 0x41, 0x41, 0x41, 0x41, 0x41, 0xCF, 0x25, 0xCF,
        0x25, 0xCF, 0x25, 0x67, 0x00, 0x00, 0x00, 0x42, 0x42, 0x42, 0x42, 0x42, 0x42, 0x42, 0x42,
    ];

    assert_eq!(find_leaks(&input), vec![(3, 'g')]);

    let input: [u8; 28] = [
        0xCF, 0x25, 0xCF, 0x25, 0xCF, 0x25, 0xCF, 0x25, 0xCF, 0x25, 0xCF, 0x25, 0xCF, 0x25, 0xCF,
        0x25, 0xCF, 0x25, 0xCF, 0x25, 0xCF, 0x25, 0xCF, 0x25, 0x41, 0x00, 0x00, 0x00,
    ];
    assert_eq!(find_leaks(&input), vec![(12, 'A')]);
}

#[test]
fn non_ascii_character() {
    // Uses UTF-16-LE encoding
    let input: [u8; 12] = [
        0xCF, 0x25, 0xCF, 0x25, 0xCF, 0x25, 0xCF, 0x25, 0x53, 0x01, 0x00, 0x00,
    ];

    assert_eq!(find_leaks(&input), vec![(4, '\u{153}')]);
}

#[test]
fn empty_buffer() {
    let input: [u8; 0] = [];
    assert_eq!(find_leaks(&input), vec![]);
}

#[test]
fn buffer_without_markers() {
    let input: [u8; 10] = [0x41, 0x42, 0x43, 0x00, 0x00, 0x67, 0x00, 0x00, 0x00, 0x41];
    assert_eq!(find_leaks(&input), vec![]);
}

#[test]
fn control_character_rejected() {
    // Two markers, then the code unit 0x0005 and a terminator: the unit is
    // outside every accepted range, so nothing may be reported.
    let input: [u8; 8] = [0xCF, 0x25, 0xCF, 0x25, 0x05, 0x00, 0x00, 0x00];
    assert_eq!(find_leaks(&input), vec![]);
}

#[test]
fn out_of_range_character_rejected() {
    // Two markers, then the code unit 0x4E2D and a terminator: well formed,
    // but the character lies outside the accepted ranges.
    let input: [u8; 8] = [0xCF, 0x25, 0xCF, 0x25, 0x2D, 0x4E, 0x00, 0x00];
    assert_eq!(find_leaks(&input), vec![]);
}

#[test]
fn unterminated_candidate_rejected() {
    // Three markers and a valid character, but no null terminator.
    let input: [u8; 10] = [0xCF, 0x25, 0xCF, 0x25, 0xCF, 0x25, 0x67, 0x00, 0x41, 0x41];
    assert_eq!(find_leaks(&input), vec![]);
}

#[test]
fn truncated_candidate_rejected() {
    // A marker and a valid character, but the buffer ends before any
    // terminator could follow.
    let input: [u8; 4] = [0xCF, 0x25, 0x67, 0x00];
    assert_eq!(find_leaks(&input), vec![]);
}

#[test]
fn two_leaks_in_one_buffer() {
    let input: [u8; 14] = [
        0xCF, 0x25, 0x61, 0x00, 0x00, 0x00, 0xCF, 0x25, 0xCF, 0x25, 0x62, 0x00, 0x00, 0x00,
    ];
    assert_eq!(find_leaks(&input), vec![(1, 'a'), (2, 'b')]);
}
