//! Which control characters a comment or a string may hold.

use crate::scan::{CH_CR, CH_DELETE, CH_LF, CH_TAB};
use vstd::prelude::*;
use vstd::string::StringSliceAdditionalSpecFns;

verus! {

/// Whether the byte `b` is a control character that may not stand in a comment or a string.
/// The tab may stand everywhere; line feed and carriage return only where `multi_line` is
/// set.
pub open spec fn is_disallowed(b: u8, multi_line: bool) -> bool {
    &&& b != CH_TAB
    &&& (b < 0x20 || b == CH_DELETE)
    &&& !(multi_line && (b == CH_LF || b == CH_CR))
}

/// The offsets below `n` at which `s` holds a disallowed byte, in ascending order.
pub open spec fn disallowed_offsets(s: Seq<u8>, n: int, multi_line: bool) -> Seq<usize>
    decreases n,
{
    if n <= 0 {
        Seq::empty()
    } else if n <= s.len() && is_disallowed(s[n - 1], multi_line) {
        disallowed_offsets(s, n - 1, multi_line).push((n - 1) as usize)
    } else {
        disallowed_offsets(s, n - 1, multi_line)
    }
}

/// The offsets are ascending and below `n`, and they are those of the disallowed bytes:
/// none is left out.
pub proof fn lemma_disallowed_offsets(s: Seq<u8>, n: int, multi_line: bool)
    requires
        0 <= n <= s.len(),
        s.len() <= usize::MAX,
    ensures
        forall|k: int|
            0 <= k < disallowed_offsets(s, n, multi_line).len() ==> {
                let at = #[trigger] disallowed_offsets(s, n, multi_line)[k];
                at < n && is_disallowed(s[at as int], multi_line)
            },
        forall|j: int, k: int|
            0 <= j < k < disallowed_offsets(s, n, multi_line).len() ==> disallowed_offsets(
                s,
                n,
                multi_line,
            )[j] < disallowed_offsets(s, n, multi_line)[k],
        forall|i: int|
            0 <= i < n && is_disallowed(#[trigger] s[i], multi_line) ==> disallowed_offsets(
                s,
                n,
                multi_line,
            ).contains(i as usize),
    decreases n,
{
    if n > 0 {
        lemma_disallowed_offsets(s, n - 1, multi_line);
        let before = disallowed_offsets(s, n - 1, multi_line);
        let all = disallowed_offsets(s, n, multi_line);
        if is_disallowed(s[n - 1], multi_line) {
            assert(all[before.len() as int] == (n - 1) as usize);
            assert forall|i: int| 0 <= i < n && is_disallowed(#[trigger] s[i], multi_line)
                implies all.contains(i as usize) by {
                if i < n - 1 {
                    let k = choose|k: int| 0 <= k < before.len() && before[k] == i as usize;
                    assert(all[k] == i as usize);
                } else {
                    assert(all[before.len() as int] == i as usize);
                }
            }
        }
    }
}

fn scan_disallowed(bytes: &[u8], multi_line: bool) -> (r: Result<(), Vec<usize>>)
    ensures
        r is Ok <==> disallowed_offsets(bytes@, bytes@.len() as int, multi_line).len() == 0,
        r matches Err(found) ==> found@ == disallowed_offsets(
            bytes@,
            bytes@.len() as int,
            multi_line,
        ),
{
    let mut err_indices: Vec<usize> = Vec::new();
    let mut i: usize = 0;
    while i < bytes.len()
        invariant
            i <= bytes@.len(),
            err_indices@ == disallowed_offsets(bytes@, i as int, multi_line),
        decreases bytes@.len() - i,
    {
        let b = bytes[i];
        if b != CH_TAB && (b < 0x20 || b == CH_DELETE) && !(multi_line && (b == CH_LF || b
            == CH_CR)) {
            err_indices.push(i);
        }
        i += 1;
    }
    if err_indices.len() == 0 {
        Ok(())
    } else {
        Err(err_indices)
    }
}

/// Checks a comment: `Ok` where it holds no disallowed control character, else the offsets
/// of all of them, in ascending order.
pub fn comment(s: &str) -> (r: Result<(), Vec<usize>>)
    ensures
        r is Ok <==> disallowed_offsets(s.spec_bytes(), s.spec_bytes().len() as int, false).len()
            == 0,
        r matches Err(found) ==> found@ == disallowed_offsets(
            s.spec_bytes(),
            s.spec_bytes().len() as int,
            false,
        ),
{
    scan_disallowed(s.as_bytes(), false)
}

/// Checks a basic string on one line: `Ok` where it holds no disallowed control character,
/// else the offsets of all of them, in ascending order.
pub fn string(s: &str) -> (r: Result<(), Vec<usize>>)
    ensures
        r is Ok <==> disallowed_offsets(s.spec_bytes(), s.spec_bytes().len() as int, false).len()
            == 0,
        r matches Err(found) ==> found@ == disallowed_offsets(
            s.spec_bytes(),
            s.spec_bytes().len() as int,
            false,
        ),
{
    scan_disallowed(s.as_bytes(), false)
}

/// Checks a multi-line basic string, in which line breaks are allowed: `Ok` where it holds
/// no disallowed control character, else the offsets of all of them, in ascending order.
pub fn multi_line_string(s: &str) -> (r: Result<(), Vec<usize>>)
    ensures
        r is Ok <==> disallowed_offsets(s.spec_bytes(), s.spec_bytes().len() as int, true).len()
            == 0,
        r matches Err(found) ==> found@ == disallowed_offsets(
            s.spec_bytes(),
            s.spec_bytes().len() as int,
            true,
        ),
{
    scan_disallowed(s.as_bytes(), true)
}

/// Checks a literal string on one line: `Ok` where it holds no disallowed control
/// character, else the offsets of all of them, in ascending order.
pub fn string_literal(s: &str) -> (r: Result<(), Vec<usize>>)
    ensures
        r is Ok <==> disallowed_offsets(s.spec_bytes(), s.spec_bytes().len() as int, false).len()
            == 0,
        r matches Err(found) ==> found@ == disallowed_offsets(
            s.spec_bytes(),
            s.spec_bytes().len() as int,
            false,
        ),
{
    scan_disallowed(s.as_bytes(), false)
}

/// Checks a multi-line literal string, in which line breaks are allowed: `Ok` where it
/// holds no disallowed control character, else the offsets of all of them, in ascending
/// order.
pub fn multi_line_string_literal(s: &str) -> (r: Result<(), Vec<usize>>)
    ensures
        r is Ok <==> disallowed_offsets(s.spec_bytes(), s.spec_bytes().len() as int, true).len()
            == 0,
        r matches Err(found) ==> found@ == disallowed_offsets(
            s.spec_bytes(),
            s.spec_bytes().len() as int,
            true,
        ),
{
    scan_disallowed(s.as_bytes(), true)
}

} // verus!
