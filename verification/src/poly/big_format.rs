//! Text of polynomials over a `BigGaloisField`, and of either kind of polynomial.

use vstd::prelude::*;
use crate::field::bignum::{BigValue, limbs_to_decimal};
use crate::poly::big_poly::{BigPoly, bp_is_zero, values_of};
use crate::poly::field_poly::{gp_is_zero, terms_text_desc};
use crate::poly::integer::{term_text, lemma_term_text_nonempty};
use crate::poly::poly_kind::FieldPoly;
use crate::text::{decimal, push_char, push_decimal, push_str, push_string};

verus! {

/// The text of the first `n` terms of descending coefficients, joined by `" + "`.
pub open spec fn big_terms_text_desc(s: Seq<nat>, n: int, var: Seq<char>) -> Seq<char>
    decreases n,
{
    if n <= 0 {
        Seq::empty()
    } else {
        let prev = big_terms_text_desc(s, n - 1, var);
        let c = s[n - 1];
        let t = term_text(c, (s.len() - n) as nat, var);
        if c == 0 {
            prev
        } else if prev.len() == 0 {
            t
        } else {
            prev + seq![' ', '+', ' '] + t
        }
    }
}

/// Appends the text of one term with a coefficient of any size.
fn push_big_term(out: &mut String, c: &BigValue, power: u64, var: &str)
    ensures
        final(out)@ == old(out)@ + term_text(c.value(), power as nat, var@),
{
    let ghost start = out@;
    let one = BigValue::from_u64(1);
    let is_one = c.same_value(&one);
    if !(is_one && power > 0) {
        let d = limbs_to_decimal(c);
        push_string(out, &d);
    }
    if power == 1 {
        push_str(out, var);
    } else if power > 1 {
        push_str(out, var);
        push_char(out, '^');
        push_decimal(out, power);
    }
    proof {
        let cv = c.value();
        let cs = if cv == 1 && power > 0 { Seq::<char>::empty() } else { decimal(cv) };
        let vs = if power == 0 {
            Seq::<char>::empty()
        } else if power == 1 {
            var@
        } else {
            var@ + seq!['^'] + decimal(power as nat)
        };
        if !(cv == 1 && power > 0) {
            assert(decimal(cv).len() > 0) by {
                reveal_with_fuel(decimal, 2);
            }
        }
        assert(out@ =~= start + cs + vs);
        if cs.len() == 0 && vs.len() == 0 {
            assert(power > 0);
            assert(var@.len() == 0);
        }
    }
    if is_one && power == 1 && var.unicode_len() == 0 {
        push_char(out, '1');
        assert(out@ =~= start + seq!['1']);
    }
}

impl BigPoly {
    /// Text of the polynomial in descending order, e.g. `"x^3 + x + 1"`; `"0"` for zero.
    pub fn format_poly(&self, var: &str) -> (r: String)
        requires
            self.wf(),
        ensures
            bp_is_zero(self.coeffs_view()) ==> r@ == seq!['0'],
            !bp_is_zero(self.coeffs_view()) ==> r@ == big_terms_text_desc(self.coeffs_view(),
                self.coeffs_view().len() as int, var@),
    {
        if self.is_zero() {
            let mut z = String::new();
            push_char(&mut z, '0');
            assert(z@ =~= seq!['0']);
            return z;
        }
        let coeffs = self.coeffs();
        let ghost a = self.coeffs_view();
        let mut out = String::new();
        let mut started = false;
        let n = coeffs.len();
        let mut i: usize = 0;
        while i < n
            invariant
                a == values_of(coeffs@),
                n == coeffs@.len(),
                i <= n,
                out@ == big_terms_text_desc(a, i as int, var@),
                started == (out@.len() > 0),
            decreases n - i,
        {
            let c = &coeffs[i];
            assert(c.value() == a[i as int]);
            let ghost prev = out@;
            if !c.is_zero() {
                if started {
                    push_str(&mut out, " + ");
                    proof { reveal_strlit(" + "); }
                }
                push_big_term(&mut out, c, (n - 1 - i) as u64, var);
                proof {
                    reveal_strlit(" + ");
                    if prev.len() > 0 {
                        assert(out@ =~= prev + seq![' ', '+', ' '] + term_text(c.value(), (n - 1 - i) as nat, var@));
                    } else {
                        assert(out@ =~= term_text(c.value(), (n - 1 - i) as nat, var@));
                    }
                    lemma_term_text_nonempty(c.value(), (n - 1 - i) as nat, var@);
                }
                started = true;
            }
            i = i + 1;
        }
        out
    }
}

impl FieldPoly {
    /// Text of either kind of polynomial in descending order; `"0"` for zero.
    pub fn format_poly(&self, var: &str) -> (r: String)
        requires
            self.wf(),
        ensures
            self matches FieldPoly::Small(p) ==> (gp_is_zero(p.coeffs_view()) ==> r@ == seq!['0'])
                && (!gp_is_zero(p.coeffs_view()) ==> r@ == terms_text_desc(p.coeffs_view(), p.coeffs_view().len() as int, var@)),
            self matches FieldPoly::Big(p) ==> (bp_is_zero(p.coeffs_view()) ==> r@ == seq!['0'])
                && (!bp_is_zero(p.coeffs_view()) ==> r@ == big_terms_text_desc(p.coeffs_view(),
                    p.coeffs_view().len() as int, var@)),
    {
        match self {
            FieldPoly::Small(p) => p.format_poly(var),
            FieldPoly::Big(p) => p.format_poly(var),
        }
    }
}

} // verus!
