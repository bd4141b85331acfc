//! The leak scanner: finds runs of mask markers followed by one revealed
//! character and a null terminator in a raw dump buffer.

use vstd::prelude::*;
use crate::chars::{spec_valid_unit, valid_char, is_valid_unit, unit_to_char};

verus! {

/// First byte of the little-endian UTF-16 encoding of the mask marker.
pub const MARKER_LO: u8 = 0xCF;

/// Second byte of the little-endian UTF-16 encoding of the mask marker.
pub const MARKER_HI: u8 = 0x25;

/// The two bytes at `i` spell the mask marker.
pub open spec fn marker_at(s: Seq<u8>, i: int) -> bool {
    s[i] == MARKER_LO && s[i + 1] == MARKER_HI
}

/// The UTF-16 code unit read little-endian from the two bytes at `i`.
pub open spec fn unit_at(s: Seq<u8>, i: int) -> int {
    s[i] + s[i + 1] * 256
}

/// The character denoted by an accepted code unit.
pub open spec fn unit_char(u: int) -> char {
    (u as u32) as char
}

/// The bytes at `i` carry an accepted code unit followed by the null
/// terminator, fitting inside the buffer.
pub open spec fn leak_at(s: Seq<u8>, i: int) -> bool {
    &&& spec_valid_unit(unit_at(s, i))
    &&& i + 4 <= s.len()
    &&& s[i + 2] == 0u8
    &&& s[i + 3] == 0u8
}

/// One step per cursor position of the scan: a marker extends the current
/// run; a run followed by an accepted character and the terminator emits an
/// observation and restarts after it; anything else resets the run and moves
/// one byte forward, so that misaligned patterns can still be found.
pub open spec fn scan_from(s: Seq<u8>, i: int, count: int) -> Seq<(usize, char)>
    decreases s.len() - i when 0 <= i
{
    if i < 0 || i + 1 >= s.len() {
        Seq::empty()
    } else if marker_at(s, i) {
        scan_from(s, i + 2, count + 1)
    } else if count > 0 && leak_at(s, i) {
        seq![(count as usize, unit_char(unit_at(s, i)))] + scan_from(s, i + 4, 0)
    } else {
        scan_from(s, i + 1, 0)
    }
}

/// The observation set of a whole buffer, in buffer order.
pub open spec fn spec_leaks(s: Seq<u8>) -> Seq<(usize, char)> {
    scan_from(s, 0, 0)
}

/// Scans a dump buffer and returns every observation in buffer order: each
/// is the length of a run of mask markers, paired with the accepted character
/// that followed the run right before a null terminator. Arbitrary input is
/// fine; a buffer without the artifact yields an empty set.
pub fn find_leaks(bytes: &[u8]) -> (r: Vec<(usize, char)>)
    ensures
        r@ == spec_leaks(bytes@),
        forall|k: int| 0 <= k < r@.len() ==> valid_char(#[trigger] r@[k].1),
{
    let n = bytes.len();
    let mut results: Vec<(usize, char)> = Vec::new();
    let mut count: usize = 0;
    let mut i: usize = 0;
    if n == 0 {
        return results;
    }
    while i < n - 1
        invariant
            n == bytes@.len(),
            n >= 1,
            i <= n,
            2 * count <= i,
            results@ + scan_from(bytes@, i as int, count as int) == spec_leaks(bytes@),
            forall|k: int| 0 <= k < results@.len() ==> valid_char(#[trigger] results@[k].1),
        decreases n - i,
    {
        if bytes[i] == MARKER_LO && bytes[i + 1] == MARKER_HI {
            count = count + 1;
            i = i + 2;
        } else {
            let mut matched = false;
            if count > 0 && n - i >= 4 {
                let u = bytes[i] as u16 + bytes[i + 1] as u16 * 256;
                if is_valid_unit(u) && bytes[i + 2] == 0 && bytes[i + 3] == 0 {
                    assert(u as int == unit_at(bytes@, i as int));
                    let c = unit_to_char(u);
                    proof {
                        vstd::utf8::char_u32_cast(c, u as u32);
                    }
                    results.push((count, c));
                    count = 0;
                    i = i + 4;
                    matched = true;
                }
            }
            if !matched {
                count = 0;
                i = i + 1;
            }
        }
    }
    results
}

proof fn lemma_scan_from_no_marker(s: Seq<u8>, i: int)
    requires
        0 <= i,
        forall|j: int| 0 <= j < s.len() - 1 ==> !marker_at(s, j),
    ensures
        scan_from(s, i, 0) == Seq::<(usize, char)>::empty(),
    decreases s.len() - i,
{
    if i + 1 < s.len() {
        lemma_scan_from_no_marker(s, i + 1);
    }
}

/// A buffer in which the mask marker never occurs yields no observation:
/// the scanner only reports characters that follow a marker run.
pub proof fn lemma_no_marker_scan_empty(s: Seq<u8>)
    requires
        forall|j: int| 0 <= j < s.len() - 1 ==> !marker_at(s, j),
    ensures
        spec_leaks(s) == Seq::<(usize, char)>::empty(),
{
    lemma_scan_from_no_marker(s, 0);
}

/// An accepted code unit never spells the marker itself: the marker's own
/// code unit lies outside every accepted range.
proof fn lemma_valid_unit_not_marker(s: Seq<u8>, i: int)
    requires
        0 <= i,
        i + 1 < s.len(),
        spec_valid_unit(unit_at(s, i)),
    ensures
        !marker_at(s, i),
{
    if marker_at(s, i) {
        assert(unit_at(s, i) == 0x25CF);
    }
}

proof fn lemma_scan_markers_then_leak(s: Seq<u8>, n: int, j: int)
    requires
        1 <= n,
        0 <= j <= n,
        s.len() == 2 * n + 4,
        forall|k: int| 0 <= k < n ==> #[trigger] marker_at(s, 2 * k),
        spec_valid_unit(unit_at(s, 2 * n)),
        s[2 * n + 2] == 0u8,
        s[2 * n + 3] == 0u8,
    ensures
        scan_from(s, 2 * j, j) == seq![(n as usize, unit_char(unit_at(s, 2 * n)))],
    decreases n - j,
{
    if j == n {
        lemma_valid_unit_not_marker(s, 2 * n);
        assert(scan_from(s, 2 * n + 4, 0) =~= Seq::<(usize, char)>::empty());
        assert(scan_from(s, 2 * n, n) =~= seq![(n as usize, unit_char(unit_at(s, 2 * n)))]);
    } else {
        assert(marker_at(s, 2 * j));
        lemma_scan_markers_then_leak(s, n, j + 1);
    }
}

/// A buffer holding exactly a run of `n` mask markers, one accepted code
/// unit, and the null terminator yields exactly the one observation
/// `(n, character)`.
pub proof fn lemma_single_leak(s: Seq<u8>, n: int)
    requires
        1 <= n,
        s.len() == 2 * n + 4,
        forall|k: int| 0 <= k < n ==> #[trigger] marker_at(s, 2 * k),
        spec_valid_unit(unit_at(s, 2 * n)),
        s[2 * n + 2] == 0u8,
        s[2 * n + 3] == 0u8,
    ensures
        spec_leaks(s) == seq![(n as usize, unit_char(unit_at(s, 2 * n)))],
{
    lemma_scan_markers_then_leak(s, n, 0);
}

proof fn lemma_scan_from_valid(s: Seq<u8>, i: int, count: int)
    requires
        0 <= i,
    ensures
        forall|k: int|
            0 <= k < scan_from(s, i, count).len() ==> crate::chars::valid_char(
                #[trigger] scan_from(s, i, count)[k].1,
            ),
    decreases s.len() - i,
{
    if i + 1 >= s.len() {
        assert(scan_from(s, i, count) =~= Seq::<(usize, char)>::empty());
    } else if marker_at(s, i) {
        lemma_scan_from_valid(s, i + 2, count + 1);
        assert(scan_from(s, i, count) == scan_from(s, i + 2, count + 1));
    } else if count > 0 && leak_at(s, i) {
        lemma_scan_from_valid(s, i + 4, 0);
        let u = unit_at(s, i);
        assert(0 <= u < 0xD800);
        assert(unit_char(u) as u32 == u as u32);
        let out = scan_from(s, i, count);
        assert forall|k: int| 0 <= k < out.len() implies crate::chars::valid_char(out[k].1) by {
            if k == 0 {
                assert(out[0].1 == unit_char(u));
            } else {
                assert(out[k] == scan_from(s, i + 4, 0)[k - 1]);
            }
        }
    } else {
        lemma_scan_from_valid(s, i + 1, 0);
        assert(scan_from(s, i, count) == scan_from(s, i + 1, 0));
    }
}

/// Every character in an observation lies in one of the accepted ranges,
/// whatever the buffer holds.
pub proof fn lemma_scan_observations_valid(s: Seq<u8>)
    ensures
        forall|k: int|
            0 <= k < spec_leaks(s).len() ==> crate::chars::valid_char(#[trigger] spec_leaks(s)[k].1),
{
    lemma_scan_from_valid(s, 0, 0);
}

/// Past the point where four bytes still fit, nothing can be emitted any
/// more, whatever run the scanner is in.
proof fn lemma_scan_near_end_empty(s: Seq<u8>, i: int, count: int)
    requires
        i >= s.len() - 3,
        0 <= i,
    ensures
        scan_from(s, i, count) == Seq::<(usize, char)>::empty(),
    decreases s.len() - i,
{
    if i + 1 < s.len() {
        if marker_at(s, i) {
            lemma_scan_near_end_empty(s, i + 2, count + 1);
        } else {
            lemma_scan_near_end_empty(s, i + 1, 0);
        }
    }
}

proof fn lemma_scan_markers_unterminated(s: Seq<u8>, n: int, j: int)
    requires
        1 <= n,
        0 <= j <= n,
        s.len() == 2 * n + 4,
        forall|k: int| 0 <= k < n ==> #[trigger] marker_at(s, 2 * k),
        spec_valid_unit(unit_at(s, 2 * n)),
        !(s[2 * n + 2] == 0u8 && s[2 * n + 3] == 0u8),
    ensures
        scan_from(s, 2 * j, j) == Seq::<(usize, char)>::empty(),
    decreases n - j,
{
    if j == n {
        lemma_valid_unit_not_marker(s, 2 * n);
        lemma_scan_near_end_empty(s, 2 * n + 1, 0);
    } else {
        assert(marker_at(s, 2 * j));
        lemma_scan_markers_unterminated(s, n, j + 1);
    }
}

/// A marker run followed by an accepted code unit that lacks the null
/// terminator yields no observation at all: the run is discarded, not
/// reported.
pub proof fn lemma_unterminated_candidate_rejected(s: Seq<u8>, n: int)
    requires
        1 <= n,
        s.len() == 2 * n + 4,
        forall|k: int| 0 <= k < n ==> #[trigger] marker_at(s, 2 * k),
        spec_valid_unit(unit_at(s, 2 * n)),
        !(s[2 * n + 2] == 0u8 && s[2 * n + 3] == 0u8),
    ensures
        spec_leaks(s) == Seq::<(usize, char)>::empty(),
{
    lemma_scan_markers_unterminated(s, n, 0);
}

} // verus!
