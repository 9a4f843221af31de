//! Lexicographic order of strings, as `String`'s `Ord` orders them: UTF-8
//! bytes compare as code points do, so comparing characters by code point
//! gives the same order.
use vstd::prelude::*;

verus! {

/// `a` sorts strictly before `b`.
pub open spec fn lex_lt(a: Seq<char>, b: Seq<char>) -> bool
    decreases a.len(),
{
    if a.len() == 0 {
        b.len() > 0
    } else if b.len() == 0 {
        false
    } else if a[0] != b[0] {
        (a[0] as int) < (b[0] as int)
    } else {
        lex_lt(a.drop_first(), b.drop_first())
    }
}

pub proof fn lemma_lex_irreflexive(a: Seq<char>)
    ensures
        !lex_lt(a, a),
    decreases a.len(),
{
    if a.len() > 0 {
        lemma_lex_irreflexive(a.drop_first());
    }
}

pub proof fn lemma_lex_asymmetric(a: Seq<char>, b: Seq<char>)
    ensures
        lex_lt(a, b) ==> !lex_lt(b, a),
    decreases a.len(),
{
    if a.len() > 0 && b.len() > 0 && a[0] == b[0] {
        lemma_lex_asymmetric(a.drop_first(), b.drop_first());
    }
}

pub proof fn lemma_lex_transitive(a: Seq<char>, b: Seq<char>, c: Seq<char>)
    requires
        lex_lt(a, b),
        lex_lt(b, c),
    ensures
        lex_lt(a, c),
    decreases a.len(),
{
    if a.len() > 0 && b.len() > 0 && c.len() > 0 && a[0] == b[0] && b[0] == c[0] {
        lemma_lex_transitive(a.drop_first(), b.drop_first(), c.drop_first());
    }
}

pub proof fn lemma_lex_total(a: Seq<char>, b: Seq<char>)
    ensures
        a != b ==> lex_lt(a, b) || lex_lt(b, a),
    decreases a.len(),
{
    if a.len() > 0 && b.len() > 0 && a[0] == b[0] {
        lemma_lex_total(a.drop_first(), b.drop_first());
        if a.drop_first() == b.drop_first() {
            assert(a =~= seq![a[0]] + a.drop_first());
            assert(b =~= seq![b[0]] + b.drop_first());
        }
    }
    if a.len() == 0 && b.len() == 0 {
        assert(a =~= b);
    }
}

/// Result of comparing two strings.
#[derive(Debug, Clone, Copy, PartialEq, Eq, Structural)]
pub enum LexOrder {
    Before,
    Same,
    After,
}

/// Compares `a` and `b` lexicographically.
pub fn lex_compare(a: &Vec<char>, b: &Vec<char>) -> (r: LexOrder)
    ensures
        (r == LexOrder::Before) == lex_lt(a@, b@),
        (r == LexOrder::Same) == (a@ == b@),
        (r == LexOrder::After) == lex_lt(b@, a@),
{
    proof {
        lemma_lex_total(a@, b@);
        lemma_lex_asymmetric(a@, b@);
        lemma_lex_irreflexive(a@);
    }
    let mut i: usize = 0;
    assert(a@.skip(0) =~= a@);
    assert(b@.skip(0) =~= b@);
    while i < a.len() && i < b.len()
        invariant
            i <= a@.len(),
            i <= b@.len(),
            a@.take(i as int) == b@.take(i as int),
            lex_lt(a@, b@) == lex_lt(a@.skip(i as int), b@.skip(i as int)),
            lex_lt(b@, a@) == lex_lt(b@.skip(i as int), a@.skip(i as int)),
        decreases a.len() - i,
    {
        assert(a@.skip(i as int)[0] == a@[i as int]);
        assert(b@.skip(i as int)[0] == b@[i as int]);
        if a[i] != b[i] {
            if a[i] < b[i] {
                return LexOrder::Before;
            } else {
                return LexOrder::After;
            }
        }
        assert(a@.skip(i as int).drop_first() =~= a@.skip(i as int + 1));
        assert(b@.skip(i as int).drop_first() =~= b@.skip(i as int + 1));
        assert(a@.take(i as int + 1) =~= a@.take(i as int).push(a@[i as int]));
        assert(b@.take(i as int + 1) =~= b@.take(i as int).push(b@[i as int]));
        i += 1;
    }
    if a.len() == b.len() {
        assert(a@ =~= a@.take(i as int));
        assert(b@ =~= b@.take(i as int));
        LexOrder::Same
    } else if i == a.len() {
        assert(a@.skip(i as int).len() == 0);
        LexOrder::Before
    } else {
        assert(b@.skip(i as int).len() == 0);
        LexOrder::After
    }
}

/// Order of sort keys made of a text and a number: by text, then by number.
pub open spec fn key_lt(a: (Seq<char>, nat), b: (Seq<char>, nat)) -> bool {
    lex_lt(a.0, b.0) || (a.0 == b.0 && a.1 < b.1)
}

pub proof fn lemma_key_irreflexive(a: (Seq<char>, nat))
    ensures
        !key_lt(a, a),
{
    lemma_lex_irreflexive(a.0);
}

pub proof fn lemma_key_asymmetric(a: (Seq<char>, nat), b: (Seq<char>, nat))
    ensures
        key_lt(a, b) ==> !key_lt(b, a),
{
    lemma_lex_asymmetric(a.0, b.0);
    lemma_lex_irreflexive(a.0);
}

pub proof fn lemma_key_transitive(a: (Seq<char>, nat), b: (Seq<char>, nat), c: (Seq<char>, nat))
    requires
        key_lt(a, b),
        key_lt(b, c),
    ensures
        key_lt(a, c),
{
    if lex_lt(a.0, b.0) && lex_lt(b.0, c.0) {
        lemma_lex_transitive(a.0, b.0, c.0);
    }
}

/// `a < b` and `b <= c` give `a < c`.
pub proof fn lemma_key_lt_le(a: (Seq<char>, nat), b: (Seq<char>, nat), c: (Seq<char>, nat))
    requires
        key_lt(a, b),
        !key_lt(c, b),
    ensures
        key_lt(a, c),
{
    lemma_lex_total(b.0, c.0);
    if b.0 != c.0 {
        if lex_lt(a.0, b.0) {
            lemma_lex_transitive(a.0, b.0, c.0);
        }
    } else if b.1 != c.1 {
        if lex_lt(a.0, b.0) {
        }
    } else {
        assert(b == c);
    }
}

/// Compares two keys.
pub fn key_compare(ta: &Vec<char>, na: u64, tb: &Vec<char>, nb: u64) -> (r: LexOrder)
    ensures
        (r == LexOrder::Before) == key_lt((ta@, na as nat), (tb@, nb as nat)),
        (r == LexOrder::Same) == ((ta@, na as nat) == (tb@, nb as nat)),
        (r == LexOrder::After) == key_lt((tb@, nb as nat), (ta@, na as nat)),
{
    proof {
        lemma_lex_irreflexive(ta@);
    }
    match lex_compare(ta, tb) {
        LexOrder::Before => LexOrder::Before,
        LexOrder::After => LexOrder::After,
        LexOrder::Same => if na < nb {
            LexOrder::Before
        } else if na == nb {
            LexOrder::Same
        } else {
            LexOrder::After
        },
    }
}

} // verus!
