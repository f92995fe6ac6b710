//! Ordinal (code-point) lexicographic order on character sequences.
//!
//! Canonical XML sorts namespace declarations and attributes by a byte-wise
//! comparison of UTF-8 strings; since UTF-8 preserves code-point order, the
//! order on `Seq<char>` by code point is the same order.

use vstd::prelude::*;

verus! {

/// Strict lexicographic order on character sequences by code point.
pub open spec fn lex_lt(a: Seq<char>, b: Seq<char>) -> bool
    decreases a.len(),
{
    if b.len() == 0 {
        false
    } else if a.len() == 0 {
        true
    } else if (a[0] as u32) < (b[0] as u32) {
        true
    } else if a[0] != b[0] {
        false
    } else {
        lex_lt(a.drop_first(), b.drop_first())
    }
}

/// Reflexive closure of `lex_lt`.
pub open spec fn lex_leq(a: Seq<char>, b: Seq<char>) -> bool {
    lex_lt(a, b) || a == b
}

pub proof fn lemma_lex_lt_irreflexive(a: Seq<char>)
    ensures
        !lex_lt(a, a),
    decreases a.len(),
{
    if a.len() > 0 {
        lemma_lex_lt_irreflexive(a.drop_first());
    }
}

pub proof fn lemma_lex_lt_asymmetric(a: Seq<char>, b: Seq<char>)
    ensures
        !(lex_lt(a, b) && lex_lt(b, a)),
    decreases a.len(),
{
    if a.len() > 0 && b.len() > 0 && a[0] == b[0] {
        lemma_lex_lt_asymmetric(a.drop_first(), b.drop_first());
    }
}

pub proof fn lemma_lex_lt_connected(a: Seq<char>, b: Seq<char>)
    ensures
        a != b ==> lex_lt(a, b) || lex_lt(b, a),
    decreases a.len(),
{
    if a.len() == 0 && b.len() == 0 {
        assert(a =~= b);
    }
    if a.len() > 0 && b.len() > 0 && a[0] != b[0] {
        vstd::utf8::char_u32_cast(a[0], a[0] as u32);
        vstd::utf8::char_u32_cast(b[0], b[0] as u32);
        assert((a[0] as u32) != (b[0] as u32));
    }
    if a.len() > 0 && b.len() > 0 && a[0] == b[0] {
        lemma_lex_lt_connected(a.drop_first(), b.drop_first());
        if a.drop_first() == b.drop_first() {
            assert forall|i: int| 0 <= i < a.len() implies a[i] == b[i] by {
                if i > 0 {
                    assert(a[i] == a.drop_first()[i - 1]);
                    assert(b[i] == b.drop_first()[i - 1]);
                }
            }
            assert(a =~= b);
        }
    }
}

pub proof fn lemma_lex_lt_transitive(a: Seq<char>, b: Seq<char>, c: Seq<char>)
    ensures
        lex_lt(a, b) && lex_lt(b, c) ==> lex_lt(a, c),
    decreases a.len(),
{
    if a.len() > 0 && b.len() > 0 && c.len() > 0 && a[0] == b[0] && b[0] == c[0] {
        lemma_lex_lt_transitive(a.drop_first(), b.drop_first(), c.drop_first());
    }
}

/// All the order facts at once, quantified, for use by sorting proofs.
pub proof fn lemma_lex_lt_facts()
    ensures
        forall|a: Seq<char>| !#[trigger] lex_lt(a, a),
        forall|a: Seq<char>, b: Seq<char>| !(#[trigger] lex_lt(a, b) && #[trigger] lex_lt(b, a)),
        forall|a: Seq<char>, b: Seq<char>|
            a != b ==> #[trigger] lex_lt(a, b) || #[trigger] lex_lt(b, a),
        forall|a: Seq<char>, b: Seq<char>, c: Seq<char>|
            #[trigger] lex_lt(a, b) && #[trigger] lex_lt(b, c) ==> lex_lt(a, c),
{
    assert forall|a: Seq<char>| !#[trigger] lex_lt(a, a) by {
        lemma_lex_lt_irreflexive(a);
    }
    assert forall|a: Seq<char>, b: Seq<char>|
        !(#[trigger] lex_lt(a, b) && #[trigger] lex_lt(b, a)) by {
        lemma_lex_lt_asymmetric(a, b);
    }
    assert forall|a: Seq<char>, b: Seq<char>| a != b implies #[trigger] lex_lt(a, b)
        || #[trigger] lex_lt(b, a) by {
        lemma_lex_lt_connected(a, b);
    }
    assert forall|a: Seq<char>, b: Seq<char>, c: Seq<char>|
        #[trigger] lex_lt(a, b) && #[trigger] lex_lt(b, c) implies lex_lt(a, c) by {
        lemma_lex_lt_transitive(a, b, c);
    }
}

/// Executable strict lexicographic comparison of two character vectors.
pub fn lex_lt_exec(a: &Vec<char>, b: &Vec<char>) -> (r: bool)
    ensures
        r == lex_lt(a@, b@),
{
    let mut i: usize = 0;
    proof {
        assert(a@.subrange(0, a@.len() as int) =~= a@);
        assert(b@.subrange(0, b@.len() as int) =~= b@);
    }
    loop
        invariant
            i <= a.len(),
            i <= b.len(),
            a@.subrange(0, i as int) =~= b@.subrange(0, i as int),
            lex_lt(a@, b@) == lex_lt(a@.subrange(i as int, a@.len() as int),
                b@.subrange(i as int, b@.len() as int)),
        decreases a@.len() - i,
    {
        let ghost ar = a@.subrange(i as int, a@.len() as int);
        let ghost br = b@.subrange(i as int, b@.len() as int);
        if i >= b.len() {
            assert(br.len() == 0);
            return false;
        }
        if i >= a.len() {
            assert(ar.len() == 0 && br.len() > 0);
            return true;
        }
        let ca = a[i];
        let cb = b[i];
        assert(ar[0] == a@[i as int] && br[0] == b@[i as int]);
        if (ca as u32) < (cb as u32) {
            return true;
        }
        if ca != cb {
            return false;
        }
        proof {
            assert(ar.drop_first() =~= a@.subrange(i + 1, a@.len() as int));
            assert(br.drop_first() =~= b@.subrange(i + 1, b@.len() as int));
            assert(a@.subrange(0, i + 1) =~= b@.subrange(0, i + 1));
        }
        i = i + 1;
    }
}

/// Executable equality test of two character vectors.
pub fn chars_eq(a: &Vec<char>, b: &Vec<char>) -> (r: bool)
    ensures
        r == (a@ == b@),
{
    if a.len() != b.len() {
        return false;
    }
    let mut i: usize = 0;
    while i < a.len()
        invariant
            i <= a.len(),
            a@.len() == b@.len(),
            a@.subrange(0, i as int) =~= b@.subrange(0, i as int),
        decreases a@.len() - i,
    {
        if a[i] != b[i] {
            return false;
        }
        proof {
            assert(a@.subrange(0, i + 1) =~= b@.subrange(0, i + 1));
        }
        i = i + 1;
    }
    proof {
        assert(a@.subrange(0, i as int) =~= a@);
        assert(b@.subrange(0, i as int) =~= b@);
    }
    true
}

} // verus!
