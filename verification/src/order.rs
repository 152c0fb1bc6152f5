//! Lexicographic order on character sequences and on optional strings.
//!
//! Geocoded locations are arranged by (state, country) in descending
//! order before adjacent duplicates are collapsed, so the ordering
//! relation and its algebraic laws (totality, transitivity, and the
//! fact that mutual order means equality) are the foundation of the
//! deduplication proof.

use vstd::prelude::*;

verus! {

/// `a` is at most `b` in lexicographic order on the characters'
/// scalar values.
pub open spec fn lex_le(a: Seq<char>, b: Seq<char>) -> bool
    decreases a.len(),
{
    if a.len() == 0 {
        true
    } else if b.len() == 0 {
        false
    } else if a[0] == b[0] {
        lex_le(a.drop_first(), b.drop_first())
    } else {
        (a[0] as u32) < (b[0] as u32)
    }
}

/// Distinct characters have distinct scalar values.
proof fn lemma_char_cast_injective(x: char, y: char)
    ensures
        x != y ==> (x as u32) != (y as u32),
{
}

/// Every sequence is at most itself.
pub proof fn lemma_lex_le_reflexive(a: Seq<char>)
    ensures
        lex_le(a, a),
    decreases a.len(),
{
    if a.len() > 0 {
        lemma_lex_le_reflexive(a.drop_first());
    }
}

/// Any two sequences are comparable.
pub proof fn lemma_lex_le_total(a: Seq<char>, b: Seq<char>)
    ensures
        lex_le(a, b) || lex_le(b, a),
    decreases a.len(),
{
    if a.len() == 0 {
        assert(lex_le(a, b));
    } else if b.len() == 0 {
        assert(lex_le(b, a));
    } else if a[0] == b[0] {
        lemma_lex_le_total(a.drop_first(), b.drop_first());
        assert(lex_le(a, b) == lex_le(a.drop_first(), b.drop_first()));
        assert(lex_le(b, a) == lex_le(b.drop_first(), a.drop_first()));
    } else {
        lemma_char_cast_injective(a[0], b[0]);
        assert((a[0] as u32) < (b[0] as u32) ==> lex_le(a, b));
        assert((b[0] as u32) < (a[0] as u32) ==> lex_le(b, a));
    }
}

/// Sequences that are each at most the other are equal.
pub proof fn lemma_lex_le_antisymmetric(a: Seq<char>, b: Seq<char>)
    requires
        lex_le(a, b),
        lex_le(b, a),
    ensures
        a == b,
    decreases a.len(),
{
    if a.len() == 0 {
        assert(b.len() == 0);
        assert(a =~= b);
    } else {
        assert(b.len() > 0);
        assert(a[0] == b[0]);
        lemma_lex_le_antisymmetric(a.drop_first(), b.drop_first());
        assert(Seq::empty().push(a.first()).add(a.drop_first()) =~= a);
        assert(Seq::empty().push(b.first()).add(b.drop_first()) =~= b);
    }
}

/// The order is transitive.
pub proof fn lemma_lex_le_transitive(a: Seq<char>, b: Seq<char>, c: Seq<char>)
    requires
        lex_le(a, b),
        lex_le(b, c),
    ensures
        lex_le(a, c),
    decreases a.len(),
{
    if a.len() > 0 && b.len() > 0 && c.len() > 0 && a[0] == b[0] && b[0] == c[0] {
        lemma_lex_le_transitive(a.drop_first(), b.drop_first(), c.drop_first());
    }
}

/// Lift of `lex_le` to optional strings: an absent value comes before
/// every present one, as in the standard library's order on options.
pub open spec fn opt_lex_le(a: Option<Seq<char>>, b: Option<Seq<char>>) -> bool {
    match (a, b) {
        (Option::None, _) => true,
        (Option::Some(_), Option::None) => false,
        (Option::Some(x), Option::Some(y)) => lex_le(x, y),
    }
}

pub proof fn lemma_opt_lex_le_total(a: Option<Seq<char>>, b: Option<Seq<char>>)
    ensures
        opt_lex_le(a, b) || opt_lex_le(b, a),
{
    if a is Some && b is Some {
        lemma_lex_le_total(a->0, b->0);
    }
}

pub proof fn lemma_opt_lex_le_antisymmetric(a: Option<Seq<char>>, b: Option<Seq<char>>)
    requires
        opt_lex_le(a, b),
        opt_lex_le(b, a),
    ensures
        a == b,
{
    if a is Some && b is Some {
        lemma_lex_le_antisymmetric(a->0, b->0);
    }
}

pub proof fn lemma_opt_lex_le_transitive(
    a: Option<Seq<char>>,
    b: Option<Seq<char>>,
    c: Option<Seq<char>>,
)
    requires
        opt_lex_le(a, b),
        opt_lex_le(b, c),
    ensures
        opt_lex_le(a, c),
{
    if a is Some && b is Some && c is Some {
        lemma_lex_le_transitive(a->0, b->0, c->0);
    }
}

/// Decide `lex_le` on string slices, one character at a time.
pub fn lex_le_exec(a: &str, b: &str) -> (r: bool)
    ensures
        r == lex_le(a@, b@),
    decreases a@.len(),
{
    let a_len = a.unicode_len();
    let b_len = b.unicode_len();
    if a_len == 0 {
        true
    } else if b_len == 0 {
        false
    } else {
        let ca = a.get_char(0);
        let cb = b.get_char(0);
        if ca == cb {
            let a_rest = a.substring_char(1, a_len);
            let b_rest = b.substring_char(1, b_len);
            proof {
                assert(a_rest@ =~= a@.drop_first());
                assert(b_rest@ =~= b@.drop_first());
            }
            lex_le_exec(a_rest, b_rest)
        } else {
            (ca as u32) < (cb as u32)
        }
    }
}

/// The view of an optional string.
pub open spec fn opt_str_view(s: Option<String>) -> Option<Seq<char>> {
    match s {
        Option::Some(x) => Option::Some(x@),
        Option::None => Option::None,
    }
}

/// Decide `opt_lex_le` on optional strings.
pub fn opt_str_le_exec(a: &Option<String>, b: &Option<String>) -> (r: bool)
    ensures
        r == opt_lex_le(opt_str_view(*a), opt_str_view(*b)),
{
    match (a, b) {
        (Option::None, _) => true,
        (Option::Some(_), Option::None) => false,
        (Option::Some(x), Option::Some(y)) => lex_le_exec(x.as_str(), y.as_str()),
    }
}

/// Decide equality of optional strings by their character sequences.
pub fn opt_str_eq_exec(a: &Option<String>, b: &Option<String>) -> (r: bool)
    ensures
        r == (opt_str_view(*a) == opt_str_view(*b)),
{
    match (a, b) {
        (Option::None, Option::None) => true,
        (Option::Some(x), Option::Some(y)) => x.eq(y),
        _ => false,
    }
}

} // verus!
