//! The executable matcher.

use crate::laws::{lemma_last_star, lemma_second_star, lemma_star_on_empty};
use crate::model::{
    class_accepts, class_len, glob_matches, in_range, lower, member_len, members_accept,
    members_len, same_byte, Case, CARET, CLOSE, DASH, ESCAPE, OPEN, QUESTION, STAR,
};
use vstd::prelude::*;
use vstd::string::StringSliceAdditionalSpecFns;

verus! {

/// Folds an ASCII capital letter to its small letter and leaves every other
/// byte as it is.
fn to_lower(b: u8) -> (folded: u8)
    ensures
        folded == lower(b),
{
    if 0x41 <= b && b <= 0x5a {
        b + 0x20
    } else {
        b
    }
}

/// Compares a pattern byte with a subject byte.
fn bytes_agree(a: u8, c: u8, case: Case) -> (same: bool)
    ensures
        same == same_byte(a, c, case),
{
    match case {
        Case::Sensitive => a == c,
        Case::Insensitive => to_lower(a) == to_lower(c),
    }
}

/// Tests a subject byte against a range whose ends may come in either order.
fn byte_in_range(a: u8, b: u8, c: u8, case: Case) -> (inside: bool)
    ensures
        inside == in_range(a, b, c, case),
{
    let (low, high): (u8, u8) = if a <= b { (a, b) } else { (b, a) };
    match case {
        Case::Sensitive => low <= c && c <= high,
        Case::Insensitive => {
            let folded: u8 = to_lower(c);
            to_lower(low) <= folded && folded <= to_lower(high)
        },
    }
}

/// The bytes from index `n` on.
fn tail(bytes: &[u8], n: usize) -> (rest: &[u8])
    requires
        n <= bytes.len(),
    ensures
        rest@ == bytes@.skip(n as int),
{
    &bytes[n..bytes.len()]
}

/// Tests the subject byte `c` against the class that `p` starts with.
///
/// Returns whether the class accepts `c`, and how many bytes of `p` the class
/// takes. A class that is not closed runs to the end of the pattern.
fn match_class(p: &[u8], c: u8, case: Case) -> (found: (bool, usize))
    requires
        p@.len() > 0,
        p@[0] == OPEN,
    ensures
        found.0 == class_accepts(p@, c, case),
        found.1 == class_len(p@),
        1 <= found.1 <= p@.len(),
{
    let negated = p.len() >= 2 && p[1] == CARET;
    // The members start at `start`; `i` runs over them, one member a turn.
    let start: usize = if negated { 2 } else { 1 };
    let mut i: usize = start;
    let mut hit = false;
    loop
        invariant
            start <= i <= p.len(),
            members_len(p@.skip(start as int)) == (i - start) + members_len(p@.skip(i as int)),
            members_accept(p@.skip(start as int), c, case) == (hit || members_accept(
                p@.skip(i as int),
                c,
                case,
            )),
        ensures
            start <= i <= p.len(),
            members_len(p@.skip(start as int)) == i - start,
            members_accept(p@.skip(start as int), c, case) == hit,
            i < p.len() ==> p@[i as int] == CLOSE,
        decreases p.len() - i,
    {
        let ghost body = p@.skip(i as int);
        let left: usize = p.len() - i;
        if left == 0 {
            break ;
        }
        let first: u8 = p[i];
        if first == ESCAPE && left >= 2 {
            if bytes_agree(p[i + 1], c, case) {
                hit = true;
            }
            i += 2;
        } else if first == CLOSE {
            break ;
        } else if left >= 3 && p[i + 1] == DASH {
            if byte_in_range(first, p[i + 2], c, case) {
                hit = true;
            }
            i += 3;
        } else {
            if bytes_agree(first, c, case) {
                hit = true;
            }
            i += 1;
        }
        assert(body.skip(member_len(body) as int) =~= p@.skip(i as int));
    }
    // Skip the closing `]`, if the pattern has not ended before it.
    let end: usize = if i < p.len() { i + 1 } else { i };
    (i > start && hit != negated, end)
}

/// Decides whether `pattern` accepts the whole of `string`, byte by byte.
///
/// Every pair of byte strings gets an answer: a class that is not closed runs
/// to the end of the pattern, and an `\` at the end of the pattern stands for
/// itself.
pub fn stringmatch_bytes(pattern: &[u8], string: &[u8], case: Case) -> (matched: bool)
    ensures
        matched == glob_matches(pattern@, string@, case),
    decreases pattern@.len(),
{
    let mut p: &[u8] = pattern;
    let mut s: &[u8] = string;
    while p.len() > 0 && s.len() > 0
        invariant
            p@.len() <= pattern@.len(),
            glob_matches(pattern@, string@, case) == glob_matches(p@, s@, case),
        decreases p@.len(),
    {
        let head: u8 = p[0];
        if head == STAR {
            // A run of `*` is worth one `*`.
            while p.len() > 1 && p[1] == STAR
                invariant
                    1 <= p@.len() <= pattern@.len(),
                    p@[0] == STAR,
                    glob_matches(pattern@, string@, case) == glob_matches(p@, s@, case),
                decreases p@.len(),
            {
                proof {
                    lemma_second_star(p@, s@, case);
                }
                p = tail(p, 1);
            }
            // A `*` at the end takes all that is left of the subject.
            if p.len() == 1 {
                proof {
                    lemma_last_star(p@, s@, case);
                }
                return true;
            }
            // Otherwise the `*` takes the first `k` bytes, for each `k` from
            // none to all, until the rest of the pattern accepts what is left.
            let rest = tail(p, 1);
            let mut k: usize = 0;
            loop
                invariant
                    k <= s.len(),
                    rest@ == p@.skip(1),
                    1 <= p@.len() <= pattern@.len(),
                    p@[0] == STAR,
                    glob_matches(pattern@, string@, case) == glob_matches(p@, s@, case),
                    forall|j: int| 0 <= j < k ==> !glob_matches(rest@, #[trigger] s@.skip(j), case),
                decreases s.len() - k,
            {
                if stringmatch_bytes(rest, tail(s, k), case) {
                    return true;
                }
                if k == s.len() {
                    return false;
                }
                k += 1;
            }
        }
        // Every other token takes one byte of the subject and `step` bytes
        // of the pattern.
        let step: usize = if head == QUESTION {
            1
        } else if head == OPEN {
            let (accepted, n): (bool, usize) = match_class(p, s[0], case);
            if !accepted {
                return false;
            }
            n
        } else {
            let escaped = head == ESCAPE && p.len() >= 2;
            let literal: u8 = if escaped { p[1] } else { head };
            if !bytes_agree(literal, s[0], case) {
                return false;
            }
            if escaped { 2 } else { 1 }
        };
        p = tail(p, step);
        s = tail(s, 1);
    }
    // With the subject used up, only `*` may be left of the pattern.
    while p.len() > 0 && p[0] == STAR
        invariant
            p@.len() == 0 || s@.len() == 0,
            glob_matches(pattern@, string@, case) == glob_matches(p@, s@, case),
        decreases p@.len(),
    {
        proof {
            lemma_star_on_empty(p@, s@, case);
        }
        p = tail(p, 1);
    }
    p.len() == 0 && s.len() == 0
}

/// Decides whether `pattern` accepts the whole of `string`, with regard to
/// case. Both are taken as their UTF-8 bytes, so `?` and a class accept one
/// byte, not one character.
pub fn stringmatch(pattern: &str, string: &str) -> (matched: bool)
    ensures
        matched == glob_matches(pattern.spec_bytes(), string.spec_bytes(), Case::Sensitive),
{
    stringmatch_bytes(pattern.as_bytes(), string.as_bytes(), Case::Sensitive)
}

} // verus!
