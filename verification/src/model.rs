//! The mathematical meaning of a pattern.
//!
//! Patterns and subjects are sequences of bytes. [`glob_matches`] says which
//! subjects a pattern accepts; the executable matcher is proved against it.

use vstd::prelude::*;

verus! {

/// `*`: any run of bytes.
pub const STAR: u8 = 0x2a;

/// `?`: any single byte.
pub const QUESTION: u8 = 0x3f;

/// `[`: opens a class.
pub const OPEN: u8 = 0x5b;

/// `]`: closes a class.
pub const CLOSE: u8 = 0x5d;

/// `^`: directly behind `[`, negates the class.
pub const CARET: u8 = 0x5e;

/// `-`: between two bytes of a class, makes them a range.
pub const DASH: u8 = 0x2d;

/// `\`: takes the special meaning from the byte that follows.
pub const ESCAPE: u8 = 0x5c;

/// How letters are compared.
#[derive(Copy, Clone, Debug, PartialEq, Eq, Structural)]
pub enum Case {
    /// Bytes are equal only to themselves.
    Sensitive,
    /// The ASCII letters `A` to `Z` are equal to `a` to `z`.
    Insensitive,
}

/// The byte with an ASCII capital letter turned into its small letter.
pub open spec fn lower(b: u8) -> u8 {
    if 0x41 <= b <= 0x5a {
        (b + 0x20) as u8
    } else {
        b
    }
}

/// Whether pattern byte `a` and subject byte `c` count as the same byte.
pub open spec fn same_byte(a: u8, c: u8, case: Case) -> bool {
    match case {
        Case::Sensitive => a == c,
        Case::Insensitive => lower(a) == lower(c),
    }
}

/// Whether `c` lies in the inclusive range whose ends are `a` and `b`, in
/// either order. The ends are put in order by their byte values first; without
/// regard to case all three bytes are folded after that.
pub open spec fn in_range(a: u8, b: u8, c: u8, case: Case) -> bool {
    let low = if a <= b { a } else { b };
    let high = if a <= b { b } else { a };
    match case {
        Case::Sensitive => low <= c <= high,
        Case::Insensitive => lower(low) <= lower(c) <= lower(high),
    }
}

/// Number of bytes of the class member at the head of `body`: 2 for an escaped
/// byte, 3 for a range, 1 for a plain byte, and 0 where there is no member
/// because the body ends here, with `]` or with the pattern.
///
/// A `\` that is the last byte of the pattern is a plain member, and so is a
/// byte before a `-` that is the last byte of the pattern.
pub open spec fn member_len(body: Seq<u8>) -> nat {
    if body.len() == 0 {
        0
    } else if body[0] == ESCAPE && body.len() >= 2 {
        2
    } else if body[0] == CLOSE {
        0
    } else if body.len() >= 3 && body[1] == DASH {
        3
    } else {
        1
    }
}

/// Whether the class member at the head of `body` accepts the byte `c`.
///
/// An escaped byte is compared like a plain one, as `case` says; the escape
/// only keeps a `]`, a `-` or an `\` from being read as anything else.
pub open spec fn member_accepts(body: Seq<u8>, c: u8, case: Case) -> bool
    recommends
        member_len(body) > 0,
{
    if body[0] == ESCAPE && body.len() >= 2 {
        same_byte(body[1], c, case)
    } else if body.len() >= 3 && body[1] == DASH {
        in_range(body[0], body[2], c, case)
    } else {
        same_byte(body[0], c, case)
    }
}

/// Number of bytes that the members at the head of `body` take together, up to
/// the closing `]` or, where there is none, the end of the pattern.
pub open spec fn members_len(body: Seq<u8>) -> nat
    decreases body.len(),
{
    let n = member_len(body);
    if n == 0 {
        0
    } else {
        n + members_len(body.skip(n as int))
    }
}

/// Whether one of the members at the head of `body` accepts the byte `c`.
pub open spec fn members_accept(body: Seq<u8>, c: u8, case: Case) -> bool
    decreases body.len(),
{
    let n = member_len(body);
    n > 0 && (member_accepts(body, c, case) || members_accept(body.skip(n as int), c, case))
}

/// Whether the class that `p` starts with is negated: a `^` follows the `[`.
pub open spec fn class_negated(p: Seq<u8>) -> bool
    recommends
        p.len() > 0 && p[0] == OPEN,
{
    p.len() >= 2 && p[1] == CARET
}

/// What follows the `[`, or the `[^`, of the class that `p` starts with.
pub open spec fn class_body(p: Seq<u8>) -> Seq<u8>
    recommends
        p.len() > 0 && p[0] == OPEN,
{
    p.skip(if class_negated(p) { 2int } else { 1int })
}

/// Number of bytes of the class that `p` starts with: the `[`, the `^` if
/// there is one, the members, and the closing `]` unless the pattern ends
/// before it.
pub open spec fn class_len(p: Seq<u8>) -> nat
    recommends
        p.len() > 0 && p[0] == OPEN,
{
    let body = class_body(p);
    let n = members_len(body);
    ((p.len() - body.len()) + n + if n < body.len() { 1int } else { 0int }) as nat
}

/// Whether the class that `p` starts with accepts the byte `c`.
///
/// A class without members accepts nothing, negated or not. Any other class
/// accepts `c` if one of its members does, or, negated, if none does.
pub open spec fn class_accepts(p: Seq<u8>, c: u8, case: Case) -> bool
    recommends
        p.len() > 0 && p[0] == OPEN,
{
    let body = class_body(p);
    members_len(body) > 0 && (members_accept(body, c, case) != class_negated(p))
}

/// Number of pattern bytes of the token that `p` starts with.
pub open spec fn token_len(p: Seq<u8>) -> nat
    recommends
        p.len() > 0,
{
    if p[0] == OPEN {
        class_len(p)
    } else if p[0] == ESCAPE && p.len() >= 2 {
        2
    } else {
        1
    }
}

/// Whether the token that `p` starts with, which is not `*`, accepts the
/// single byte `c`.
///
/// An `\` that is the last byte of the pattern stands for itself.
pub open spec fn token_accepts(p: Seq<u8>, c: u8, case: Case) -> bool
    recommends
        p.len() > 0 && p[0] != STAR,
{
    if p[0] == QUESTION {
        true
    } else if p[0] == OPEN {
        class_accepts(p, c, case)
    } else if p[0] == ESCAPE && p.len() >= 2 {
        same_byte(p[1], c, case)
    } else {
        same_byte(p[0], c, case)
    }
}

/// Whether the pattern `p` accepts the whole of the subject `s`.
///
/// The empty pattern accepts the empty subject only. A `*` accepts any prefix
/// of the subject, the empty one included, and what is left of the pattern has
/// to accept what is left of the subject. Every other token accepts exactly
/// one byte.
pub open spec fn glob_matches(p: Seq<u8>, s: Seq<u8>, case: Case) -> bool
    decreases p.len(),
    via glob_matches_decreases
{
    if p.len() == 0 {
        s.len() == 0
    } else if p[0] == STAR {
        exists|k: int| 0 <= k <= s.len() && glob_matches(p.skip(1), #[trigger] s.skip(k), case)
    } else if s.len() == 0 {
        false
    } else {
        token_accepts(p, s[0], case) && glob_matches(p.skip(token_len(p) as int), s.skip(1), case)
    }
}

#[via_fn]
proof fn glob_matches_decreases(p: Seq<u8>, s: Seq<u8>, case: Case) {
    if p.len() > 0 {
        lemma_token_len_bounds(p);
    }
}

/// The members of a class body end within the body.
pub proof fn lemma_members_len_bound(body: Seq<u8>)
    ensures
        members_len(body) <= body.len(),
    decreases body.len(),
{
    let n = member_len(body);
    if n > 0 {
        lemma_members_len_bound(body.skip(n as int));
    }
}

/// A token takes at least one byte of its pattern and ends within it.
pub proof fn lemma_token_len_bounds(p: Seq<u8>)
    requires
        p.len() > 0,
    ensures
        1 <= token_len(p) <= p.len(),
{
    if p[0] == OPEN {
        lemma_members_len_bound(class_body(p));
    }
}

} // verus!
