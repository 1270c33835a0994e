//! The precedence order of semantic versions, as `semver` orders its
//! `Version` values, and the proof that it is a total order.
//!
//! A version is ordered by major, minor and patch number, then by its
//! pre-release (a release ranks above any of its pre-releases; pre-release
//! identifiers are compared one by one: numeric ones by value, others in
//! ASCII order, numeric below non-numeric, a longer list above its prefix),
//! then by its build metadata (the same scheme, where numeric identifiers
//! compare by value and then by length, so `0 < 00 < 1`).

use vstd::prelude::*;
use crate::text::{three_way, lex_order, lemma_lex_order_antisymmetric, lemma_lex_order_equal,
    lemma_lex_order_transitive};

verus! {

/// An ASCII digit.
pub open spec fn is_digit(c: char) -> bool {
    '0' <= c && c <= '9'
}

/// Every character is an ASCII digit (true of the empty sequence).
pub open spec fn all_digits(s: Seq<char>) -> bool {
    forall|i: int| 0 <= i < s.len() ==> is_digit(s[i])
}

/// Index of the first '.' in `s`, or its length when there is none.
pub open spec fn dot_pos(s: Seq<char>) -> nat
    decreases s.len(),
{
    if s.len() == 0 {
        0
    } else if s[0] == '.' {
        0
    } else {
        1 + dot_pos(s.drop_first())
    }
}

/// The part of `s` before its first '.'.
pub open spec fn first_segment(s: Seq<char>) -> Seq<char> {
    s.take(dot_pos(s) as int)
}

/// `s` holds a '.'.
pub open spec fn has_dot(s: Seq<char>) -> bool {
    dot_pos(s) < s.len()
}

/// The part of `s` after its first '.'.
pub open spec fn after_dot(s: Seq<char>) -> Seq<char> {
    s.skip(dot_pos(s) as int + 1)
}

/// `s` splits at its first '.' into the segment before it and the rest after it.
pub proof fn lemma_dot_pos(s: Seq<char>)
    ensures
        dot_pos(s) <= s.len(),
        forall|i: int| 0 <= i < dot_pos(s) ==> s[i] != '.',
        has_dot(s) ==> s[dot_pos(s) as int] == '.',
        has_dot(s) ==> s =~= first_segment(s) + seq!['.'] + after_dot(s),
        has_dot(s) ==> after_dot(s).len() < s.len(),
        !has_dot(s) ==> first_segment(s) =~= s,
    decreases s.len(),
{
    if s.len() > 0 && s[0] != '.' {
        lemma_dot_pos(s.drop_first());
        assert forall|i: int| 0 <= i < dot_pos(s) implies s[i] != '.' by {
            if i > 0 {
                assert(s[i] == s.drop_first()[i - 1]);
            }
        }
    }
}

/// `s` without its leading '0' characters.
pub open spec fn trim_zeros(s: Seq<char>) -> Seq<char>
    decreases s.len(),
{
    if s.len() > 0 && s[0] == '0' {
        trim_zeros(s.drop_first())
    } else {
        s
    }
}

/// Trimming leading zeros removes a prefix made of '0' characters only.
pub proof fn lemma_trim_zeros(s: Seq<char>)
    ensures
        trim_zeros(s).len() <= s.len(),
        trim_zeros(s) =~= s.skip(s.len() - trim_zeros(s).len()),
        forall|i: int| 0 <= i < s.len() - trim_zeros(s).len() ==> s[i] == '0',
    decreases s.len(),
{
    if s.len() > 0 && s[0] == '0' {
        lemma_trim_zeros(s.drop_first());
        assert forall|i: int| 0 <= i < s.len() - trim_zeros(s).len() implies s[i] == '0' by {
            if i > 0 {
                assert(s[i] == s.drop_first()[i - 1]);
            }
        }
    }
}

/// Order of two all-digit pre-release identifiers: by length, then by text.
pub open spec fn numeric_order(a: Seq<char>, b: Seq<char>) -> int {
    if a.len() != b.len() {
        three_way(a.len() as int, b.len() as int)
    } else {
        lex_order(a, b)
    }
}

/// Order of two all-digit build identifiers: by value (length and text with
/// leading zeros removed), then by full length.
pub open spec fn build_numeric_order(a: Seq<char>, b: Seq<char>) -> int {
    let ta = trim_zeros(a);
    let tb = trim_zeros(b);
    if ta.len() != tb.len() {
        three_way(ta.len() as int, tb.len() as int)
    } else if lex_order(ta, tb) != 0 {
        lex_order(ta, tb)
    } else {
        three_way(a.len() as int, b.len() as int)
    }
}

/// Order of two single identifiers (no '.'), of build metadata when `build`
/// holds and of a pre-release otherwise.
pub open spec fn ident_order(a: Seq<char>, b: Seq<char>, build: bool) -> int {
    if all_digits(a) && all_digits(b) {
        if build {
            build_numeric_order(a, b)
        } else {
            numeric_order(a, b)
        }
    } else if all_digits(a) {
        -1
    } else if all_digits(b) {
        1
    } else {
        lex_order(a, b)
    }
}

/// Order of two dot-separated identifier lists, identifier by identifier; a
/// list that is a proper prefix of the other is smaller.
pub open spec fn dotted_order(a: Seq<char>, b: Seq<char>, build: bool) -> int
    decreases a.len(),
{
    let c = ident_order(first_segment(a), first_segment(b), build);
    if c != 0 {
        c
    } else if !has_dot(a) {
        if has_dot(b) {
            -1
        } else {
            0
        }
    } else if !has_dot(b) {
        1
    } else {
        proof {
            lemma_dot_pos(a);
        }
        dotted_order(after_dot(a), after_dot(b), build)
    }
}

/// Order of two pre-release strings: the empty one (a release) is greatest.
pub open spec fn prerelease_order(a: Seq<char>, b: Seq<char>) -> int {
    if a.len() == 0 && b.len() == 0 {
        0
    } else if a.len() == 0 {
        1
    } else if b.len() == 0 {
        -1
    } else {
        dotted_order(a, b, false)
    }
}

/// Order of two build metadata strings.
pub open spec fn build_order(a: Seq<char>, b: Seq<char>) -> int {
    dotted_order(a, b, true)
}

/// The order of identifiers is antisymmetric, three-valued, zero exactly on
/// equal identifiers, and transitive.
pub proof fn lemma_ident_order(a: Seq<char>, b: Seq<char>, c: Seq<char>, build: bool)
    ensures
        ident_order(a, b, build) == -ident_order(b, a, build),
        -1 <= ident_order(a, b, build) <= 1,
        ident_order(a, b, build) == 0 <==> a == b,
        ident_order(a, b, build) <= 0 && ident_order(b, c, build) <= 0 ==> ident_order(a, c, build)
            <= 0,
{
    lemma_lex_order_antisymmetric(a, b);
    lemma_lex_order_equal(a, b);
    lemma_lex_order_equal(b, c);
    lemma_lex_order_equal(a, c);
    let ta = trim_zeros(a);
    let tb = trim_zeros(b);
    let tc = trim_zeros(c);
    lemma_lex_order_antisymmetric(ta, tb);
    lemma_lex_order_equal(ta, tb);
    lemma_lex_order_equal(tb, tc);
    lemma_lex_order_equal(ta, tc);
    lemma_trim_zeros(a);
    lemma_trim_zeros(b);
    lemma_trim_zeros(c);
    if ta == tb && a.len() == b.len() {
        assert(a =~= b) by {
            assert forall|i: int| 0 <= i < a.len() implies a[i] == b[i] by {
                if i >= a.len() - ta.len() {
                    assert(a[i] == ta[i - (a.len() - ta.len())]);
                    assert(b[i] == tb[i - (b.len() - tb.len())]);
                }
            }
        }
    }
    if lex_order(a, b) <= 0 && lex_order(b, c) <= 0 {
        lemma_lex_order_transitive(a, b, c);
    }
    if lex_order(ta, tb) <= 0 && lex_order(tb, tc) <= 0 {
        lemma_lex_order_transitive(ta, tb, tc);
    }
}

/// The order of identifier lists is antisymmetric, three-valued, zero exactly
/// on equal lists, and transitive.
pub proof fn lemma_dotted_order(a: Seq<char>, b: Seq<char>, c: Seq<char>, build: bool)
    ensures
        dotted_order(a, b, build) == -dotted_order(b, a, build),
        -1 <= dotted_order(a, b, build) <= 1,
        dotted_order(a, b, build) == 0 <==> a == b,
        dotted_order(a, b, build) <= 0 && dotted_order(b, c, build) <= 0 ==> dotted_order(
            a,
            c,
            build,
        ) <= 0,
    decreases a.len(),
{
    lemma_dot_pos(a);
    lemma_dot_pos(b);
    lemma_dot_pos(c);
    let sa = first_segment(a);
    let sb = first_segment(b);
    let sc = first_segment(c);
    lemma_ident_order(sa, sb, sc, build);
    lemma_ident_order(sb, sa, sc, build);
    lemma_ident_order(sa, sc, sb, build);
    lemma_ident_order(sb, sc, sa, build);
    if has_dot(a) && has_dot(b) && has_dot(c) {
        lemma_dotted_order(after_dot(a), after_dot(b), after_dot(c), build);
    } else if has_dot(a) && has_dot(b) {
        lemma_dotted_order(after_dot(a), after_dot(b), after_dot(b), build);
    }
    if a == b {
        assert(sa == sb);
    }
    if sa == sb && !has_dot(a) && !has_dot(b) {
        assert(a =~= b);
    }
}

/// The pre-release order is a total order.
pub proof fn lemma_prerelease_order(a: Seq<char>, b: Seq<char>, c: Seq<char>)
    ensures
        prerelease_order(a, b) == -prerelease_order(b, a),
        -1 <= prerelease_order(a, b) <= 1,
        prerelease_order(a, b) == 0 <==> a == b,
        prerelease_order(a, b) <= 0 && prerelease_order(b, c) <= 0 ==> prerelease_order(a, c)
            <= 0,
{
    lemma_dotted_order(a, b, c, false);
    if a.len() == 0 && b.len() == 0 {
        assert(a =~= b);
    }
}

/// The build metadata order is a total order.
pub proof fn lemma_build_order(a: Seq<char>, b: Seq<char>, c: Seq<char>)
    ensures
        build_order(a, b) == -build_order(b, a),
        -1 <= build_order(a, b) <= 1,
        build_order(a, b) == 0 <==> a == b,
        build_order(a, b) <= 0 && build_order(b, c) <= 0 ==> build_order(a, c) <= 0,
{
    lemma_dotted_order(a, b, c, true);
}

} // verus!
