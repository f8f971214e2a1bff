//! Big-endian digit expansions of natural numbers.
//!
//! Every encoding this crate deals in (canonical base-32 text, hexadecimal
//! text, raw bytes) is the fixed-width, most-significant-digit-first expansion
//! of a 128-bit value in some base.  This module defines that expansion once,
//! over `nat`, and proves the facts the codec needs: the expansion and its
//! evaluation are mutually inverse, and lexicographic order of equal-width
//! digit strings agrees with numeric order of the values they denote.

use vstd::arithmetic::div_mod::{
    lemma_div_denominator, lemma_fundamental_div_mod, lemma_fundamental_div_mod_converse,
    lemma_multiply_divide_lt,
};
use vstd::prelude::*;

verus! {

/// `base` raised to the power `e`.
pub open spec fn pow_of(base: nat, e: nat) -> nat
    decreases e,
{
    if e == 0 {
        1
    } else {
        base * pow_of(base, (e - 1) as nat)
    }
}

/// Every entry of `s` is a digit of base `base`.
pub open spec fn all_below(base: nat, s: Seq<nat>) -> bool {
    forall|i: int| 0 <= i < s.len() ==> s[i] < base
}

/// The value written by the digit string `s` in base `base`, most significant
/// digit first.
pub open spec fn be_val(base: nat, s: Seq<nat>) -> nat
    decreases s.len(),
{
    if s.len() == 0 {
        0
    } else {
        be_val(base, s.drop_last()) * base + s.last()
    }
}

/// The `len`-digit string of `x` in base `base`, most significant digit first.
pub open spec fn be_digits(base: nat, x: nat, len: nat) -> Seq<nat>
    decreases len,
{
    if len == 0 {
        Seq::empty()
    } else {
        be_digits(base, x / base, (len - 1) as nat).push(x % base)
    }
}

/// Strict lexicographic order on digit strings of equal length.
pub open spec fn lex_lt(a: Seq<nat>, b: Seq<nat>) -> bool
    decreases a.len(),
{
    if a.len() == 0 || b.len() == 0 {
        false
    } else if a[0] < b[0] {
        true
    } else if a[0] == b[0] {
        lex_lt(a.drop_first(), b.drop_first())
    } else {
        false
    }
}

/// Powers of a positive base are positive.
pub proof fn lemma_pow_of_pos(base: nat, e: nat)
    requires
        base >= 1,
    ensures
        pow_of(base, e) >= 1,
    decreases e,
{
    if e > 0 {
        lemma_pow_of_pos(base, (e - 1) as nat);
        assert(base * pow_of(base, (e - 1) as nat) >= 1) by (nonlinear_arith)
            requires
                base >= 1,
                pow_of(base, (e - 1) as nat) >= 1,
        ;
    }
}

/// Powers of a base grow with the exponent.
pub proof fn lemma_pow_of_increases(base: nat, e1: nat, e2: nat)
    requires
        base >= 1,
        e1 <= e2,
    ensures
        pow_of(base, e1) <= pow_of(base, e2),
    decreases e2,
{
    if e1 < e2 {
        lemma_pow_of_increases(base, e1, (e2 - 1) as nat);
        lemma_pow_of_pos(base, (e2 - 1) as nat);
        assert(base * pow_of(base, (e2 - 1) as nat) >= pow_of(base, (e2 - 1) as nat))
            by (nonlinear_arith)
            requires
                base >= 1,
                pow_of(base, (e2 - 1) as nat) >= 0,
        ;
    }
}

/// The expansion has the requested width and all its entries are digits.
pub proof fn lemma_be_digits_props(base: nat, x: nat, len: nat)
    requires
        base >= 2,
    ensures
        be_digits(base, x, len).len() == len,
        all_below(base, be_digits(base, x, len)),
    decreases len,
{
    if len > 0 {
        lemma_be_digits_props(base, x / base, (len - 1) as nat);
    }
}

/// Evaluating the `len`-digit expansion of `x` gives `x` back, for any `x`
/// that fits in `len` digits.
pub proof fn lemma_be_digits_val(base: nat, x: nat, len: nat)
    requires
        base >= 2,
        x < pow_of(base, len),
    ensures
        be_val(base, be_digits(base, x, len)) == x,
    decreases len,
{
    if len == 0 {
        assert(x == 0);
    } else {
        assert(x < base * pow_of(base, (len - 1) as nat));
        lemma_multiply_divide_lt(x as int, base as int, pow_of(base, (len - 1) as nat) as int);
        lemma_be_digits_val(base, x / base, (len - 1) as nat);
        let s = be_digits(base, x, len);
        assert(s.drop_last() =~= be_digits(base, x / base, (len - 1) as nat));
        lemma_fundamental_div_mod(x as int, base as int);
        assert((x / base) * base + x % base == x) by (nonlinear_arith)
            requires
                x == base * (x / base) + x % base,
        ;
    }
}

/// A digit string's value fits in as many digits as the string has.
pub proof fn lemma_be_val_bound(base: nat, s: Seq<nat>)
    requires
        base >= 2,
        all_below(base, s),
    ensures
        be_val(base, s) < pow_of(base, s.len()),
    decreases s.len(),
{
    if s.len() > 0 {
        lemma_be_val_bound(base, s.drop_last());
        let v = be_val(base, s.drop_last());
        let p = pow_of(base, (s.len() - 1) as nat);
        assert(s.last() < base);
        assert(v * base + s.last() < p * base) by (nonlinear_arith)
            requires
                v < p,
                s.last() < base,
                base >= 2,
        ;
        assert(pow_of(base, s.len()) == base * p);
        assert(p * base == base * p) by (nonlinear_arith);
    }
}

/// Splitting off the most significant digit.
pub proof fn lemma_be_val_head(base: nat, s: Seq<nat>)
    requires
        s.len() > 0,
    ensures
        be_val(base, s) == s[0] * pow_of(base, (s.len() - 1) as nat) + be_val(
            base,
            s.drop_first(),
        ),
    decreases s.len(),
{
    if s.len() == 1 {
        assert(s.drop_last() =~= Seq::<nat>::empty());
        assert(s.drop_first() =~= Seq::<nat>::empty());
        assert(s.last() == s[0]);
        assert(be_val(base, Seq::<nat>::empty()) == 0);
        assert(pow_of(base, 0) == 1);
        assert(be_val(base, s) == be_val(base, s.drop_last()) * base + s.last());
        assert(s[0] * 1 == s[0]) by (nonlinear_arith);
        assert(be_val(base, s) == s[0] * pow_of(base, (s.len() - 1) as nat) + be_val(
            base,
            s.drop_first(),
        ));
    } else {
        lemma_be_val_head(base, s.drop_last());
        let p = pow_of(base, (s.len() - 2) as nat);
        let t = s.drop_first();
        assert(s.drop_last().drop_first() =~= t.drop_last());
        assert(s.drop_last()[0] == s[0]);
        assert(s.last() == t.last());
        assert(be_val(base, s) == (s[0] * p + be_val(base, t.drop_last())) * base + t.last());
        assert((s[0] * p + be_val(base, t.drop_last())) * base + t.last() == s[0] * (p * base)
            + (be_val(base, t.drop_last()) * base + t.last())) by (nonlinear_arith);
        assert(be_val(base, t) == be_val(base, t.drop_last()) * base + t.last());
        let q = pow_of(base, (s.len() - 1) as nat);
        assert(q == base * p);
        assert(s[0] * (p * base) == s[0] * q) by (nonlinear_arith)
            requires
                q == base * p,
        ;
        assert(be_val(base, s) == s[0] * q + be_val(base, t));
    }
}

/// The digit `k` places above the least significant one.
pub proof fn lemma_be_digits_index(base: nat, x: nat, len: nat, k: nat)
    requires
        base >= 2,
        k < len,
    ensures
        be_digits(base, x, len)[len - 1 - k] == (x / pow_of(base, k)) % base,
    decreases len,
{
    lemma_be_digits_props(base, x, len);
    lemma_be_digits_props(base, x / base, (len - 1) as nat);
    if k == 0 {
        assert(pow_of(base, 0) == 1);
        assert(x / 1 == x);
        assert(be_digits(base, x, len)[len - 1] == x % base);
    } else {
        lemma_be_digits_index(base, x / base, (len - 1) as nat, (k - 1) as nat);
        assert(be_digits(base, x, len)[len - 1 - k] == be_digits(base, x / base, (len - 1) as nat)[
            len - 1 - k]);
        lemma_pow_of_pos(base, (k - 1) as nat);
        lemma_div_denominator(x as int, base as int, pow_of(base, (k - 1) as nat) as int);
        assert(base * pow_of(base, (k - 1) as nat) == pow_of(base, k));
    }
}

/// For equal-width digit strings, lexicographic order is numeric order of the
/// denoted values.
pub proof fn lemma_lex_lt_iff_val_lt(base: nat, a: Seq<nat>, b: Seq<nat>)
    requires
        base >= 2,
        all_below(base, a),
        all_below(base, b),
        a.len() == b.len(),
    ensures
        lex_lt(a, b) <==> be_val(base, a) < be_val(base, b),
    decreases a.len(),
{
    if a.len() > 0 {
        lemma_be_val_head(base, a);
        lemma_be_val_head(base, b);
        assert(all_below(base, a.drop_first()));
        assert(all_below(base, b.drop_first()));
        lemma_lex_lt_iff_val_lt(base, a.drop_first(), b.drop_first());
        lemma_be_val_bound(base, a.drop_first());
        lemma_be_val_bound(base, b.drop_first());
        let p = pow_of(base, (a.len() - 1) as nat);
        let ra = be_val(base, a.drop_first());
        let rb = be_val(base, b.drop_first());
        if a[0] < b[0] {
            assert(a[0] * p + ra < b[0] * p + rb) by (nonlinear_arith)
                requires
                    a[0] < b[0],
                    ra < p,
                    rb >= 0,
            ;
        } else if a[0] == b[0] {
            assert(a[0] * p + ra < b[0] * p + rb <==> ra < rb) by (nonlinear_arith)
                requires
                    a[0] == b[0],
            ;
        } else {
            assert(b[0] * p + rb < a[0] * p + ra) by (nonlinear_arith)
                requires
                    b[0] < a[0],
                    rb < p,
                    ra >= 0,
            ;
        }
    }
}

} // verus!
