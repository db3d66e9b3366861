//! What holds of every pattern and every subject.
//!
//! Each law is a proof function over [`glob_matches`], the meaning that the
//! executable matcher is proved to compute.

use crate::model::{
    class_accepts, class_body, class_len, glob_matches, in_range, lemma_members_len_bound,
    lemma_token_len_bounds, lower, member_len, members_accept, members_len, same_byte,
    token_accepts, token_len, Case, CARET, CLOSE, DASH, ESCAPE, OPEN, QUESTION, STAR,
};
use vstd::prelude::*;

verus! {

// ---------------------------------------------------------------------------
// `*`
// ---------------------------------------------------------------------------

/// A pattern that is a single `*` accepts every subject.
pub proof fn lemma_last_star(p: Seq<u8>, s: Seq<u8>, case: Case)
    requires
        p.len() == 1,
        p[0] == STAR,
    ensures
        glob_matches(p, s, case),
{
    // The `*` takes the whole subject.
    assert(glob_matches(p.skip(1), s.skip(s.len() as int), case));
}

/// The pattern `*` accepts every subject, the empty one included.
pub proof fn lemma_star_accepts_all(s: Seq<u8>, case: Case)
    ensures
        glob_matches(seq![STAR], s, case),
{
    lemma_last_star(seq![STAR], s, case);
}

/// The first of two `*` at the head of a pattern can be dropped.
pub proof fn lemma_second_star(p: Seq<u8>, s: Seq<u8>, case: Case)
    requires
        p.len() >= 2,
        p[0] == STAR,
        p[1] == STAR,
    ensures
        glob_matches(p, s, case) == glob_matches(p.skip(1), s, case),
{
    let q = p.skip(1);
    if glob_matches(p, s, case) {
        // What the two `*` take one after the other, the second takes alone.
        let k = choose|k: int| 0 <= k <= s.len() && glob_matches(q, #[trigger] s.skip(k), case);
        let j = choose|j: int|
            0 <= j <= s.skip(k).len() && glob_matches(
                q.skip(1),
                #[trigger] s.skip(k).skip(j),
                case,
            );
        assert(s.skip(k).skip(j) =~= s.skip(k + j));
    }
    if glob_matches(q, s, case) {
        // The first `*` takes nothing.
        assert(s.skip(0) =~= s);
    }
}

/// On the empty subject a `*` at the head of a pattern can be dropped.
pub proof fn lemma_star_on_empty(p: Seq<u8>, s: Seq<u8>, case: Case)
    requires
        p.len() >= 1,
        p[0] == STAR,
        s.len() == 0,
    ensures
        glob_matches(p, s, case) == glob_matches(p.skip(1), s, case),
{
    assert(s.skip(0) =~= s);
}

/// A run of `n` bytes `*`.
pub open spec fn stars(n: nat) -> Seq<u8> {
    Seq::new(n, |i: int| STAR)
}

/// At the head of a pattern a run of `*` accepts what a single `*` accepts.
pub proof fn lemma_star_run_at_head(n: nat, rest: Seq<u8>, s: Seq<u8>, case: Case)
    requires
        n >= 1,
    ensures
        glob_matches(stars(n) + rest, s, case) == glob_matches(seq![STAR] + rest, s, case),
    decreases n,
{
    if n == 1 {
        assert(stars(1) =~= seq![STAR]);
    } else {
        let p = stars(n) + rest;
        assert(p.skip(1) =~= stars((n - 1) as nat) + rest);
        lemma_second_star(p, s, case);
        lemma_star_run_at_head((n - 1) as nat, rest, s, case);
    }
}

/// Any run of `*` accepts what a single `*` accepts: behind complete tokens,
/// and before any rest of a pattern, the run can be replaced by one `*`.
///
/// The tokens in front have to be complete, because a `*` inside a class or
/// behind an `\` is no wildcard.
pub proof fn lemma_star_run(front: Seq<u8>, n: nat, rest: Seq<u8>, s: Seq<u8>, case: Case)
    requires
        is_complete(front),
        n >= 1,
    ensures
        glob_matches(front + (stars(n) + rest), s, case) == glob_matches(
            front + (seq![STAR] + rest),
            s,
            case,
        ),
{
    let run = stars(n) + rest;
    let one = seq![STAR] + rest;
    assert forall|t: Seq<u8>| glob_matches(run, t, case) == #[trigger] glob_matches(
        one,
        t,
        case,
    ) by {
        lemma_star_run_at_head(n, rest, t, case);
    }
    lemma_same_behind_complete(front, run, one, s, case);
}

// ---------------------------------------------------------------------------
// Tokens one after the other
// ---------------------------------------------------------------------------

/// Whether the token that `p` starts with is complete, so that no byte put
/// behind `p` can become part of it: a class has its closing `]`, and an `\`
/// has a byte behind it.
pub open spec fn head_complete(p: Seq<u8>) -> bool
    recommends
        p.len() > 0,
{
    if p[0] == OPEN {
        members_len(class_body(p)) < class_body(p).len()
    } else if p[0] == ESCAPE {
        p.len() >= 2
    } else {
        true
    }
}

/// Whether every token of `p` is complete, so that a pattern put behind `p`
/// starts with a token of its own.
pub open spec fn is_complete(p: Seq<u8>) -> bool
    decreases p.len(),
    via is_complete_decreases
{
    p.len() == 0 || (head_complete(p) && is_complete(p.skip(token_len(p) as int)))
}

#[via_fn]
proof fn is_complete_decreases(p: Seq<u8>) {
    if p.len() > 0 {
        lemma_token_len_bounds(p);
    }
}

/// The members of a class that is closed stay what they are when bytes are
/// put behind the pattern.
pub proof fn lemma_closed_members(body: Seq<u8>, more: Seq<u8>, c: u8, case: Case)
    requires
        members_len(body) < body.len(),
    ensures
        members_len(body + more) == members_len(body),
        members_accept(body + more, c, case) == members_accept(body, c, case),
    decreases body.len(),
{
    let n = member_len(body);
    if n > 0 {
        // The closing `]` comes behind this member, so every byte that
        // decides what kind of member it is belongs to `body`.
        let left = body.skip(n as int);
        lemma_members_len_bound(left);
        assert((body + more).skip(n as int) =~= left + more);
        lemma_closed_members(left, more, c, case);
    }
}

/// A complete token at the head of a pattern stays what it is when bytes are
/// put behind the pattern.
pub proof fn lemma_complete_head(p: Seq<u8>, more: Seq<u8>, c: u8, case: Case)
    requires
        p.len() > 0,
        head_complete(p),
    ensures
        token_len(p + more) == token_len(p),
        token_accepts(p + more, c, case) == token_accepts(p, c, case),
        (p + more).skip(token_len(p) as int) == p.skip(token_len(p) as int) + more,
{
    lemma_token_len_bounds(p);
    if p[0] == OPEN {
        let body = class_body(p);
        lemma_members_len_bound(body);
        assert(class_body(p + more) =~= body + more);
        lemma_closed_members(body, more, c, case);
    }
}

/// Behind a pattern of complete tokens, two patterns that accept the same
/// subjects can stand for one another.
pub proof fn lemma_same_behind_complete(
    front: Seq<u8>,
    q1: Seq<u8>,
    q2: Seq<u8>,
    s: Seq<u8>,
    case: Case,
)
    requires
        is_complete(front),
        forall|t: Seq<u8>| glob_matches(q1, t, case) == #[trigger] glob_matches(q2, t, case),
    ensures
        glob_matches(front + q1, s, case) == glob_matches(front + q2, s, case),
    decreases front.len(),
{
    if front.len() == 0 {
        assert(front + q1 =~= q1);
        assert(front + q2 =~= q2);
    } else {
        let left = front.skip(token_len(front) as int);
        lemma_token_len_bounds(front);
        if front[0] == STAR {
            assert((front + q1).skip(1) =~= left + q1);
            assert((front + q2).skip(1) =~= left + q2);
            assert forall|k: int| 0 <= k <= s.len() implies glob_matches(
                left + q1,
                #[trigger] s.skip(k),
                case,
            ) == glob_matches(left + q2, s.skip(k), case) by {
                lemma_same_behind_complete(left, q1, q2, s.skip(k), case);
            }
        } else if s.len() > 0 {
            lemma_complete_head(front, q1, s[0], case);
            lemma_complete_head(front, q2, s[0], case);
            lemma_same_behind_complete(left, q1, q2, s.skip(1), case);
        }
    }
}

// ---------------------------------------------------------------------------
// `?` and `\`
// ---------------------------------------------------------------------------

/// The pattern `?` accepts the subjects of exactly one byte, and no others.
pub proof fn lemma_question_accepts_one_byte(s: Seq<u8>, case: Case)
    ensures
        glob_matches(seq![QUESTION], s, case) <==> s.len() == 1,
{
    let p = seq![QUESTION];
    if s.len() > 0 {
        assert(glob_matches(p.skip(1), s.skip(1), case) <==> s.skip(1).len() == 0);
    }
}

/// An escaped byte at the head of a pattern accepts that byte and nothing
/// else, whatever the byte means when it is not escaped.
pub proof fn lemma_escaped_byte(c: u8, rest: Seq<u8>, s: Seq<u8>, case: Case)
    ensures
        glob_matches(seq![ESCAPE, c] + rest, s, case) <==> s.len() > 0 && same_byte(c, s[0], case)
            && glob_matches(rest, s.skip(1), case),
{
    let p = seq![ESCAPE, c] + rest;
    assert(p.skip(2) =~= rest);
}

// ---------------------------------------------------------------------------
// Patterns of plain bytes
// ---------------------------------------------------------------------------

/// Whether a byte starts a wildcard or a class.
pub open spec fn is_wildcard(b: u8) -> bool {
    b == STAR || b == QUESTION || b == OPEN
}

/// Whether every token of a pattern is a plain byte: the pattern holds no
/// `*`, `?` or `[`, and no `\` but as its last byte, where it stands for
/// itself.
pub open spec fn is_literal(p: Seq<u8>) -> bool {
    forall|i: int|
        0 <= i < p.len() ==> !is_wildcard(#[trigger] p[i]) && (p[i] == ESCAPE ==> i == p.len() - 1)
}

/// Whether two byte strings have the same length and the same byte at each
/// index, letters being compared as `case` says.
pub open spec fn same_bytes(p: Seq<u8>, s: Seq<u8>, case: Case) -> bool {
    &&& p.len() == s.len()
    &&& forall|i: int| 0 <= i < p.len() ==> same_byte(#[trigger] p[i], s[i], case)
}

/// A pattern of plain bytes accepts the subjects that are equal to it byte by
/// byte, and no others.
pub proof fn lemma_literal_pattern(p: Seq<u8>, s: Seq<u8>, case: Case)
    requires
        is_literal(p),
    ensures
        glob_matches(p, s, case) <==> same_bytes(p, s, case),
    decreases p.len(),
{
    if p.len() > 0 {
        // The first token is the first byte.
        assert(!is_wildcard(p[0]) && (p[0] == ESCAPE ==> p.len() == 1));
    }
    if p.len() > 0 && s.len() > 0 {
        let q = p.skip(1);
        let t = s.skip(1);
        assert forall|i: int| 0 <= i < q.len() implies !is_wildcard(#[trigger] q[i]) && (q[i]
            == ESCAPE ==> i == q.len() - 1) by {
            assert(q[i] == p[i + 1]);
        }
        lemma_literal_pattern(q, t, case);
        if same_bytes(q, t, case) && same_byte(p[0], s[0], case) {
            assert forall|i: int| 0 <= i < p.len() implies same_byte(
                #[trigger] p[i],
                s[i],
                case,
            ) by {
                if i > 0 {
                    assert(q[i - 1] == p[i]);
                }
            }
        }
        if same_bytes(p, s, case) {
            assert forall|i: int| 0 <= i < q.len() implies same_byte(
                #[trigger] q[i],
                t[i],
                case,
            ) by {
                assert(q[i] == p[i + 1]);
            }
        }
    }
}

/// With regard to case, a pattern of plain bytes accepts itself and nothing
/// else.
pub proof fn lemma_literal_pattern_sensitive(p: Seq<u8>, s: Seq<u8>)
    requires
        is_literal(p),
    ensures
        glob_matches(p, s, Case::Sensitive) <==> p == s,
{
    lemma_literal_pattern(p, s, Case::Sensitive);
    if same_bytes(p, s, Case::Sensitive) {
        assert(p =~= s);
    }
}

/// A pattern of plain bytes accepts itself, and it accepts no subject that is
/// itself with more bytes behind it.
pub proof fn lemma_identity(p: Seq<u8>, more: Seq<u8>, case: Case)
    requires
        is_literal(p),
    ensures
        glob_matches(p, p, case),
        more.len() > 0 ==> !glob_matches(p, p + more, case),
{
    lemma_literal_pattern(p, p, case);
    lemma_literal_pattern(p, p + more, case);
}

// ---------------------------------------------------------------------------
// Classes
// ---------------------------------------------------------------------------

/// A class whose body starts with `]` has no members and accepts no byte.
pub proof fn lemma_memberless_class(p: Seq<u8>, c: u8, case: Case)
    requires
        p.len() > 0,
        p[0] == OPEN,
        class_body(p).len() > 0,
        class_body(p)[0] == CLOSE,
    ensures
        !class_accepts(p, c, case),
{
    assert(member_len(class_body(p)) == 0);
}

/// A class without members accepts nothing, negated or not: the patterns `[]`
/// and `[^]` accept no subject, and neither does a pattern that starts with
/// one of them.
pub proof fn lemma_empty_class(rest: Seq<u8>, s: Seq<u8>, case: Case)
    ensures
        !glob_matches(seq![OPEN, CLOSE], s, case),
        !glob_matches(seq![OPEN, CARET, CLOSE], s, case),
        !glob_matches(seq![OPEN, CLOSE] + rest, s, case),
        !glob_matches(seq![OPEN, CARET, CLOSE] + rest, s, case),
{
    if s.len() > 0 {
        lemma_memberless_class(seq![OPEN, CLOSE], s[0], case);
        lemma_memberless_class(seq![OPEN, CARET, CLOSE], s[0], case);
        lemma_memberless_class(seq![OPEN, CLOSE] + rest, s[0], case);
        lemma_memberless_class(seq![OPEN, CARET, CLOSE] + rest, s[0], case);
    }
}

/// A negated class that has a member accepts the bytes that the class without
/// the `^` does not accept, and takes one byte more of the pattern.
pub proof fn lemma_negated_class(body: Seq<u8>, c: u8, case: Case)
    requires
        body.len() > 0,
        body[0] != CARET,
        members_len(body) > 0,
    ensures
        class_accepts(seq![OPEN, CARET] + body, c, case) == !class_accepts(
            seq![OPEN] + body,
            c,
            case,
        ),
        class_len(seq![OPEN, CARET] + body) == class_len(seq![OPEN] + body) + 1,
{
    let plain = seq![OPEN] + body;
    let negated = seq![OPEN, CARET] + body;
    assert(plain[1] == body[0]);
    assert(class_body(plain) =~= body);
    assert(class_body(negated) =~= body);
}

/// The two ends of a range may come in either order.
pub proof fn lemma_range_ends_swap(a: u8, b: u8, c: u8, case: Case)
    ensures
        in_range(a, b, c, case) == in_range(b, a, c, case),
{
}

/// Whether a byte that stands first in a class is a member, or the first end
/// of a range: it is none of `^`, `\` and `]`.
pub open spec fn starts_member(b: u8) -> bool {
    b != CARET && b != ESCAPE && b != CLOSE
}

/// A class of one range is the range: it accepts the bytes between the two
/// ends, in whichever order they are written.
pub proof fn lemma_range_class(a: u8, b: u8, rest: Seq<u8>, s: Seq<u8>, case: Case)
    requires
        starts_member(a),
    ensures
        glob_matches(seq![OPEN, a, DASH, b, CLOSE] + rest, s, case) <==> s.len() > 0 && in_range(
            a,
            b,
            s[0],
            case,
        ) && glob_matches(rest, s.skip(1), case),
{
    let p = seq![OPEN, a, DASH, b, CLOSE] + rest;
    let body = class_body(p);
    assert(body =~= seq![a, DASH, b, CLOSE] + rest);
    // The range is the only member: the `]` comes right behind it.
    let end = body.skip(3);
    assert(member_len(body) == 3);
    assert(member_len(end) == 0);
    assert(members_len(end) == 0);
    assert(p.skip(5) =~= rest);
    if s.len() > 0 {
        assert(!members_accept(end, s[0], case));
    }
}

/// A class of one range accepts the same subjects with its ends swapped.
pub proof fn lemma_reversed_range(a: u8, b: u8, rest: Seq<u8>, s: Seq<u8>, case: Case)
    requires
        starts_member(a),
        starts_member(b),
    ensures
        glob_matches(seq![OPEN, a, DASH, b, CLOSE] + rest, s, case) == glob_matches(
            seq![OPEN, b, DASH, a, CLOSE] + rest,
            s,
            case,
        ),
{
    lemma_range_class(a, b, rest, s, case);
    lemma_range_class(b, a, rest, s, case);
}

/// A class that is not closed is the last token of its pattern: the pattern
/// accepts the subjects of one byte that the members seen up to the end of
/// the pattern accept, and no others.
pub proof fn lemma_unclosed_class(p: Seq<u8>, s: Seq<u8>, case: Case)
    requires
        p.len() > 0,
        p[0] == OPEN,
        members_len(class_body(p)) == class_body(p).len(),
    ensures
        glob_matches(p, s, case) <==> s.len() == 1 && class_accepts(p, s[0], case),
{
    if s.len() > 0 {
        assert(class_len(p) == p.len());
        assert(glob_matches(p.skip(p.len() as int), s.skip(1), case) <==> s.skip(1).len() == 0);
    }
}

// ---------------------------------------------------------------------------
// Case
// ---------------------------------------------------------------------------

/// The subject with every ASCII capital letter turned into its small letter.
pub open spec fn folded(s: Seq<u8>) -> Seq<u8> {
    Seq::new(s.len(), |i: int| lower(s[i]))
}

/// Without regard to case, the members of a class accept a byte if and only
/// if they accept the folded byte.
pub proof fn lemma_insensitive_members(body: Seq<u8>, c: u8)
    ensures
        members_accept(body, c, Case::Insensitive) == members_accept(
            body,
            lower(c),
            Case::Insensitive,
        ),
    decreases body.len(),
{
    let n = member_len(body);
    if n > 0 {
        lemma_insensitive_members(body.skip(n as int), c);
    }
}

/// Without regard to case, the case of the subject's letters makes no
/// difference: a pattern accepts a subject if and only if it accepts the
/// folded subject.
pub proof fn lemma_insensitive_subject(p: Seq<u8>, s: Seq<u8>)
    ensures
        glob_matches(p, s, Case::Insensitive) == glob_matches(p, folded(s), Case::Insensitive),
    decreases p.len(),
{
    let case = Case::Insensitive;
    let t = folded(s);
    if p.len() > 0 {
        lemma_token_len_bounds(p);
        if p[0] == STAR {
            assert forall|k: int| 0 <= k <= s.len() implies glob_matches(
                p.skip(1),
                #[trigger] s.skip(k),
                case,
            ) == glob_matches(p.skip(1), t.skip(k), case) by {
                assert(t.skip(k) =~= folded(s.skip(k)));
                lemma_insensitive_subject(p.skip(1), s.skip(k));
            }
            if glob_matches(p, s, case) {
                let k = choose|k: int|
                    0 <= k <= s.len() && glob_matches(p.skip(1), #[trigger] s.skip(k), case);
                assert(glob_matches(p.skip(1), t.skip(k), case));
            }
            if glob_matches(p, t, case) {
                let k = choose|k: int|
                    0 <= k <= t.len() && glob_matches(p.skip(1), #[trigger] t.skip(k), case);
                assert(glob_matches(p.skip(1), s.skip(k), case));
            }
        } else if s.len() > 0 {
            assert(t.skip(1) =~= folded(s.skip(1)));
            lemma_insensitive_subject(p.skip(token_len(p) as int), s.skip(1));
            if p[0] == OPEN {
                lemma_insensitive_members(class_body(p), s[0]);
            }
        }
    }
}

} // verus!
