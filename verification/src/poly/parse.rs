//! Polynomials written as text, such as `x^3 + 2x + 1`.

use vstd::prelude::*;
use vstd::string::StrSliceExecFns;
use crate::error::{GaloisError, Result};
use crate::field::factory::GaloisField;
use crate::poly::field_poly::{Poly, strip_leading};
use crate::poly::integer::strip_trailing;
use crate::field::big_field::FieldKind;
use crate::poly::poly_kind::FieldPoly;
use crate::text::push_char;

verus! {

/// The text without its spaces.
pub open spec fn remove_spaces(s: Seq<char>) -> Seq<char>
    decreases s.len(),
{
    if s.len() == 0 {
        s
    } else if s.last() == ' ' {
        remove_spaces(s.drop_last())
    } else {
        remove_spaces(s.drop_last()).push(s.last())
    }
}

/// Reading `s` from the left: the complete nonempty pieces between `+` signs, and the piece
/// being read.
pub open spec fn split_state(s: Seq<char>) -> (Seq<Seq<char>>, Seq<char>)
    decreases s.len(),
{
    if s.len() == 0 {
        (Seq::empty(), Seq::empty())
    } else {
        let (ts, cur) = split_state(s.drop_last());
        if s.last() == '+' {
            (if cur.len() > 0 { ts.push(cur) } else { ts }, Seq::empty())
        } else {
            (ts, cur.push(s.last()))
        }
    }
}

/// The nonempty pieces of `s` between `+` signs, in order.
pub open spec fn split_terms(s: Seq<char>) -> Seq<Seq<char>> {
    let (ts, cur) = split_state(s);
    if cur.len() > 0 { ts.push(cur) } else { ts }
}

pub open spec fn is_digit(c: char) -> bool {
    '0' as int <= c as int <= '9' as int
}

/// The value of a string of decimal digits.
pub open spec fn digits_value(d: Seq<char>) -> nat
    decreases d.len(),
{
    if d.len() == 0 { 0 } else { digits_value(d.drop_last()) * 10 + (d.last() as int - '0' as int) as nat }
}

/// One or more decimal digits.
pub open spec fn all_digits(d: Seq<char>) -> bool {
    d.len() >= 1 && forall|i: int| 0 <= i < d.len() ==> #[trigger] is_digit(d[i])
}

/// A signed 64-bit integer as Rust reads one: an optional sign, then decimal digits.
pub open spec fn parse_i64_spec(t: Seq<char>) -> Option<int> {
    if t.len() >= 1 && t[0] == '-' {
        let d = t.drop_first();
        if all_digits(d) && digits_value(d) <= 0x8000_0000_0000_0000 { Some(-(digits_value(d) as int)) } else { None }
    } else {
        let d = if t.len() >= 1 && t[0] == '+' { t.drop_first() } else { t };
        if all_digits(d) && digits_value(d) <= 0x7fff_ffff_ffff_ffff { Some(digits_value(d) as int) } else { None }
    }
}

/// An unsigned machine-size integer as Rust reads one: an optional `+`, then decimal digits.
pub open spec fn parse_usize_spec(t: Seq<char>) -> Option<nat> {
    let d = if t.len() >= 1 && t[0] == '+' { t.drop_first() } else { t };
    if all_digits(d) && digits_value(d) <= usize::MAX { Some(digits_value(d)) } else { None }
}

/// The first position of `x` from `i` on, or the length.
pub open spec fn find_x(t: Seq<char>, i: int) -> int
    decreases t.len() - i,
{
    if i >= t.len() || i < 0 { t.len() as int } else if t[i] == 'x' { i } else { find_x(t, i + 1) }
}

/// A term `c`, `cx` or `cx^e` with its coefficient and power; the coefficient may be empty
/// (one) or a lone `-` (minus one).
pub open spec fn parse_term_spec(t: Seq<char>) -> Option<(int, nat)> {
    if t == seq!['1'] {
        Some((1, 0))
    } else if t == seq!['-', '1'] {
        Some((-1, 0))
    } else {
        let k = find_x(t, 0);
        let cp = t.subrange(0, k);
        let pp = t.subrange(k, t.len() as int);
        let coeff: Option<int> = if cp.len() == 0 || cp == seq!['+'] {
            Some(1)
        } else if cp == seq!['-'] {
            Some(-1)
        } else {
            parse_i64_spec(cp)
        };
        let power: Option<nat> = if pp.len() == 0 {
            Some(0)
        } else if pp == seq!['x'] {
            Some(1)
        } else if pp.len() >= 2 && pp[0] == 'x' && pp[1] == '^' {
            parse_usize_spec(pp.subrange(2, pp.len() as int))
        } else {
            None
        };
        if coeff is Some && power is Some { Some((coeff->0, power->0)) } else { None }
    }
}

/// The element a written coefficient stands for: a nonnegative one read modulo the field
/// order `q` (so over a prime field modulo `p`), a negative one as the negation of its
/// magnitude modulo `p`.
pub open spec fn coeff_value(c: int, p: nat, q: nat) -> int {
    if c >= 0 { c % (q as int) } else { c % (p as int) }
}

/// Sums of the coefficients of the terms by power, modulo `q`, up to the highest power.
pub open spec fn accumulate(ts: Seq<Seq<char>>, p: nat, q: nat) -> Seq<u64>
    decreases ts.len(),
{
    if ts.len() == 0 {
        Seq::empty()
    } else {
        let prev = accumulate(ts.drop_last(), p, q);
        let (c, e) = parse_term_spec(ts.last())->0;
        let grown = if prev.len() < e + 1 { prev + Seq::new((e + 1 - prev.len()) as nat, |i: int| 0u64) } else { prev };
        grown.update(e as int, ((grown[e as int] as int + coeff_value(c, p, q)) % (q as int)) as u64)
    }
}

/// The first term that does not parse.
pub open spec fn first_bad_term(ts: Seq<Seq<char>>) -> int {
    choose|i: int| 0 <= i < ts.len() && parse_term_spec(ts[i]) is None
        && forall|j: int| 0 <= j < i ==> parse_term_spec(ts[j]) is Some
}

/// The coefficients, lowest degree first, of a polynomial written as text over a field of
/// characteristic `p` and order `q`, or the first term that does not parse.
pub open spec fn parse_coeffs_spec(s: Seq<char>, p: nat, q: nat) -> std::result::Result<Seq<u64>, Seq<char>> {
    let t = remove_spaces(s);
    if t.len() == 0 || t == seq!['0'] {
        Ok(seq![0u64])
    } else {
        let ts = split_terms(t);
        if exists|i: int| 0 <= i < ts.len() && parse_term_spec(ts[i]) is None {
            Err(ts[first_bad_term(ts)])
        } else {
            Ok(strip_trailing(accumulate(ts, p, q)))
        }
    }
}

/// Every term that parses has a power below `isize::MAX`.
pub open spec fn powers_fit(s: Seq<char>) -> bool {
    let ts = split_terms(remove_spaces(s));
    forall|i: int| 0 <= i < ts.len() ==> (#[trigger] parse_term_spec(ts[i]) matches Some((c, e)) ==> e < isize::MAX)
}

fn chars_of(s: &str) -> (r: Vec<char>)
    ensures
        r@ == s@,
{
    let n = s.unicode_len();
    let mut out: Vec<char> = Vec::new();
    let mut i: usize = 0;
    while i < n
        invariant
            n == s@.len(),
            i <= n,
            out@ =~= s@.subrange(0, i as int),
        decreases n - i,
    {
        out.push(s.get_char(i));
        i = i + 1;
    }
    out
}

fn without_spaces(s: &Vec<char>) -> (r: Vec<char>)
    ensures
        r@ == remove_spaces(s@),
{
    let mut out: Vec<char> = Vec::new();
    let mut i: usize = 0;
    while i < s.len()
        invariant
            i <= s@.len(),
            out@ == remove_spaces(s@.subrange(0, i as int)),
        decreases s@.len() - i,
    {
        assert(s@.subrange(0, i + 1).drop_last() =~= s@.subrange(0, i as int));
        if s[i] != ' ' {
            out.push(s[i]);
        }
        i = i + 1;
    }
    assert(s@.subrange(0, s@.len() as int) =~= s@);
    out
}

fn split_on_plus(s: &Vec<char>) -> (r: Vec<Vec<char>>)
    ensures
        r@.len() == split_terms(s@).len(),
        forall|i: int| 0 <= i < r@.len() ==> (#[trigger] r@[i])@ == split_terms(s@)[i],
{
    let mut terms: Vec<Vec<char>> = Vec::new();
    let mut cur: Vec<char> = Vec::new();
    let mut i: usize = 0;
    while i < s.len()
        invariant
            i <= s@.len(),
            terms@.len() == split_state(s@.subrange(0, i as int)).0.len(),
            forall|k: int| 0 <= k < terms@.len() ==> (#[trigger] terms@[k])@ == split_state(s@.subrange(0, i as int)).0[k],
            cur@ == split_state(s@.subrange(0, i as int)).1,
        decreases s@.len() - i,
    {
        assert(s@.subrange(0, i + 1).drop_last() =~= s@.subrange(0, i as int));
        if s[i] == '+' {
            if cur.len() > 0 {
                terms.push(cur);
            }
            cur = Vec::new();
        } else {
            cur.push(s[i]);
        }
        i = i + 1;
    }
    assert(s@.subrange(0, s@.len() as int) =~= s@);
    if cur.len() > 0 {
        terms.push(cur);
    }
    terms
}

/// `digits_value` of a prefix is at most that of the whole.
proof fn lemma_digits_prefix(d: Seq<char>, i: int)
    requires
        0 <= i <= d.len(),
        forall|k: int| 0 <= k < d.len() ==> #[trigger] is_digit(d[k]),
    ensures
        digits_value(d.subrange(0, i)) <= digits_value(d),
    decreases d.len() - i,
{
    if i < d.len() {
        lemma_digits_prefix(d, i + 1);
        assert(d.subrange(0, i + 1).drop_last() =~= d.subrange(0, i));
    } else {
        assert(d.subrange(0, i) =~= d);
    }
}

/// The remainder of a signed integer, computed from its magnitude.
pub proof fn lemma_mod_of_signed(c: int, p: nat)
    requires
        p >= 1,
    ensures
        c >= 0 ==> c % (p as int) == (c as nat) % p,
        c < 0 ==> c % (p as int) == (if ((-c) as nat) % p == 0 { 0 } else { p - ((-c) as nat) % p }),
{
    if c < 0 {
        let a = (-c) as nat;
        let q0 = a / p;
        let r = a % p;
        vstd::arithmetic::div_mod::lemma_fundamental_div_mod(a as int, p as int);
        if r == 0 {
            assert(c == (p as int) * (-(q0 as int))) by (nonlinear_arith) requires a == p * q0 + r, r == 0, c == -a;
            vstd::arithmetic::div_mod::lemma_mod_multiples_basic(-(q0 as int), p as int);
            assert((-(q0 as int)) * (p as int) == (p as int) * (-(q0 as int))) by (nonlinear_arith);
        } else {
            assert(c == (p as int) * (-(q0 as int) - 1) + (p - r)) by (nonlinear_arith) requires a == p * q0 + r, c == -a;
            vstd::arithmetic::div_mod::lemma_mod_multiples_vanish(-(q0 as int) - 1, (p - r) as int, p as int);
            vstd::arithmetic::div_mod::lemma_small_mod((p - r) as nat, p);
        }
    }
}

/// The value of `d` when it is one or more digits worth at most `limit`.
fn parse_digits(d: &[char], limit: u128) -> (r: Option<u128>)
    ensures
        (all_digits(d@) && digits_value(d@) <= limit) ==> r == Some(digits_value(d@) as u128),
        !(all_digits(d@) && digits_value(d@) <= limit) ==> r is None,
{
    if d.len() == 0 {
        return None;
    }
    let mut val: u128 = 0;
    let mut i: usize = 0;
    while i < d.len()
        invariant
            i <= d@.len(),
            d@.len() >= 1,
            forall|k: int| 0 <= k < i ==> #[trigger] is_digit(d@[k]),
            val == digits_value(d@.subrange(0, i as int)),
            val <= limit,
        decreases d@.len() - i,
    {
        let c = d[i];
        if !('0' <= c && c <= '9') {
            assert(!is_digit(d@[i as int]));
            return None;
        }
        assert(d@.subrange(0, i + 1).drop_last() =~= d@.subrange(0, i as int));
        let dv: u128 = (c as u32 - '0' as u32) as u128;
        if dv > limit || val > (limit - dv) / 10 {
            proof {
                assert(val * 10 + dv > limit) by (nonlinear_arith)
                    requires val > (limit - dv) / 10, dv <= limit || dv > limit, val >= 0, dv >= 0, limit >= 0;
                if forall|k: int| 0 <= k < d@.len() ==> #[trigger] is_digit(d@[k]) {
                    lemma_digits_prefix(d@, i + 1);
                }
            }
            return None;
        }
        val = val * 10 + dv;
        i = i + 1;
    }
    assert(d@.subrange(0, d@.len() as int) =~= d@);
    Some(val)
}

fn slice_from(v: &Vec<char>, start: usize) -> (r: Vec<char>)
    requires
        start <= v@.len(),
    ensures
        r@ == v@.subrange(start as int, v@.len() as int),
{
    let mut out: Vec<char> = Vec::new();
    let mut i: usize = start;
    while i < v.len()
        invariant
            start <= i <= v@.len(),
            out@ =~= v@.subrange(start as int, i as int),
        decreases v@.len() - i,
    {
        out.push(v[i]);
        i = i + 1;
    }
    out
}

fn slice_to(v: &Vec<char>, end: usize) -> (r: Vec<char>)
    requires
        end <= v@.len(),
    ensures
        r@ == v@.subrange(0, end as int),
{
    let mut out: Vec<char> = Vec::new();
    let mut i: usize = 0;
    while i < end
        invariant
            i <= end <= v@.len(),
            out@ =~= v@.subrange(0, i as int),
        decreases end - i,
    {
        out.push(v[i]);
        i = i + 1;
    }
    out
}

fn parse_i64_chars(t: &Vec<char>) -> (r: Option<i128>)
    ensures
        r matches Some(v) ==> parse_i64_spec(t@) == Some(v as int),
        r is None ==> parse_i64_spec(t@) is None,
{
    if t.len() >= 1 && t[0] == '-' {
        let d = slice_from(t, 1);
        assert(d@ =~= t@.drop_first());
        match parse_digits(d.as_slice(), 0x8000_0000_0000_0000u128) {
            Some(v) => Some(-(v as i128)),
            None => None,
        }
    } else {
        let d = if t.len() >= 1 && t[0] == '+' { slice_from(t, 1) } else { slice_from(t, 0) };
        assert(d@ =~= (if t@.len() >= 1 && t@[0] == '+' { t@.drop_first() } else { t@ }));
        match parse_digits(d.as_slice(), 0x7fff_ffff_ffff_ffffu128) {
            Some(v) => Some(v as i128),
            None => None,
        }
    }
}

fn parse_usize_chars(t: &Vec<char>) -> (r: Option<usize>)
    ensures
        r matches Some(v) ==> parse_usize_spec(t@) == Some(v as nat),
        r is None ==> parse_usize_spec(t@) is None,
{
    let d = if t.len() >= 1 && t[0] == '+' { slice_from(t, 1) } else { slice_from(t, 0) };
    assert(d@ =~= (if t@.len() >= 1 && t@[0] == '+' { t@.drop_first() } else { t@ }));
    match parse_digits(d.as_slice(), usize::MAX as u128) {
        Some(v) => Some(v as usize),
        None => None,
    }
}

fn find_x_exec(t: &Vec<char>) -> (r: usize)
    ensures
        r == find_x(t@, 0),
        r <= t@.len(),
{
    let mut i: usize = 0;
    while i < t.len()
        invariant
            i <= t@.len(),
            find_x(t@, i as int) == find_x(t@, 0),
        decreases t@.len() - i,
    {
        if t[i] == 'x' {
            return i;
        }
        i = i + 1;
    }
    i
}

fn is_word(t: &Vec<char>, w: &[char]) -> (r: bool)
    ensures
        r == (t@ == w@),
{
    if t.len() != w.len() {
        return false;
    }
    let mut i: usize = 0;
    while i < t.len()
        invariant
            t@.len() == w@.len(),
            i <= t@.len(),
            forall|k: int| 0 <= k < i ==> t@[k] == w@[k],
        decreases t@.len() - i,
    {
        if t[i] != w[i] {
            return false;
        }
        i = i + 1;
    }
    assert(t@ =~= w@);
    true
}

fn parse_term(t: &Vec<char>) -> (r: Option<(i128, usize)>)
    ensures
        r matches Some((c, e)) ==> parse_term_spec(t@) == Some((c as int, e as nat)),
        r is None ==> parse_term_spec(t@) is None,
{
    if is_word(t, &['1']) {
        assert(seq!['1'] =~= ['1']@);
        return Some((1, 0));
    }
    proof { assert(['1']@ =~= seq!['1']); }
    if is_word(t, &['-', '1']) {
        assert(seq!['-', '1'] =~= ['-', '1']@);
        return Some((-1, 0));
    }
    proof { assert(['-', '1']@ =~= seq!['-', '1']); }
    let k = find_x_exec(t);
    let cp = slice_to(t, k);
    let pp = slice_from(t, k);
    proof {
        assert(['+']@ =~= seq!['+']);
        assert(['-']@ =~= seq!['-']);
        assert(['x']@ =~= seq!['x']);
    }
    let coeff: Option<i128> = if cp.len() == 0 || is_word(&cp, &['+']) {
        Some(1)
    } else if is_word(&cp, &['-']) {
        Some(-1)
    } else {
        parse_i64_chars(&cp)
    };
    let power: Option<usize> = if pp.len() == 0 {
        Some(0)
    } else if is_word(&pp, &['x']) {
        Some(1)
    } else if pp.len() >= 2 && pp[0] == 'x' && pp[1] == '^' {
        let ep = slice_from(&pp, 2);
        parse_usize_chars(&ep)
    } else {
        None
    };
    match (coeff, power) {
        (Some(c), Some(e)) => Some((c, e)),
        _ => None,
    }
}

fn string_of(t: &Vec<char>) -> (r: String)
    ensures
        r@ == t@,
{
    let mut out = String::new();
    let mut i: usize = 0;
    while i < t.len()
        invariant
            i <= t@.len(),
            out@ =~= t@.subrange(0, i as int),
        decreases t@.len() - i,
    {
        push_char(&mut out, t[i]);
        i = i + 1;
    }
    out
}

/// The coefficients, lowest degree first, of a polynomial written as text over GF(p);
/// `InvalidPolynomialString` with the first term that does not parse.
fn parse_coeffs_asc(s: &str, p: u64, q: u128) -> (r: Result<Vec<u64>>)
    requires
        1 <= p <= q <= 0x1_0000_0000_0000_0000,
        powers_fit(s@),
    ensures
        parse_coeffs_spec(s@, p as nat, q as nat) matches Ok(c) ==> (r matches Ok(v) && v@ == c
            && v@.len() <= isize::MAX && forall|k: int| 0 <= k < c.len() ==> (#[trigger] c[k]) < q),
        parse_coeffs_spec(s@, p as nat, q as nat) matches Err(t) ==> (r matches Err(GaloisError::InvalidPolynomialString(e)) && e@ == t),
{
    let chars = chars_of(s);
    let t = without_spaces(&chars);
    proof { assert(['0']@ =~= seq!['0']); }
    if t.len() == 0 || is_word(&t, &['0']) {
        return Ok(vec![0]);
    }
    let terms = split_on_plus(&t);
    let ghost ts = split_terms(t@);
    let mut acc: Vec<u64> = Vec::new();
    let mut i: usize = 0;
    while i < terms.len()
        invariant
            1 <= p <= q <= 0x1_0000_0000_0000_0000,
            t@ == remove_spaces(s@),
            !(t@.len() == 0 || t@ == seq!['0']),
            ts == split_terms(t@),
            terms@.len() == ts.len(),
            forall|k: int| 0 <= k < terms@.len() ==> (#[trigger] terms@[k])@ == ts[k],
            forall|k: int| 0 <= k < ts.len() ==> (#[trigger] parse_term_spec(ts[k]) matches Some((c, e)) ==> e < isize::MAX),
            i <= terms@.len(),
            forall|k: int| 0 <= k < i ==> (#[trigger] parse_term_spec(ts[k])) is Some,
            acc@ == accumulate(ts.subrange(0, i as int), p as nat, q as nat),
            forall|k: int| 0 <= k < acc@.len() ==> (#[trigger] acc@[k]) < q,
            acc@.len() <= isize::MAX,
        decreases terms@.len() - i,
    {
        let term = &terms[i];
        match parse_term(term) {
            None => {
                proof {
                    let k = first_bad_term(ts);
                    assert(0 <= i < ts.len() && parse_term_spec(ts[i as int]) is None
                        && forall|j: int| 0 <= j < i ==> parse_term_spec(ts[j]) is Some);
                    if k != i {
                        assert(k < i || k > i);
                    }
                    assert(t@ == remove_spaces(s@));
                    assert(!(t@.len() == 0 || t@ == seq!['0']));
                    assert(parse_coeffs_spec(s@, p as nat, q as nat) == Err::<Seq<u64>, Seq<char>>(ts[i as int]));
                }
                return Err(GaloisError::InvalidPolynomialString(string_of(term)));
            },
            Some((c, e)) => {
                assert(ts.subrange(0, i + 1).drop_last() =~= ts.subrange(0, i as int));
                assert(terms@[i as int]@ == ts[i as int]);
                assert(e < isize::MAX);
                let ghost prev = acc@;
                while acc.len() < e + 1
                    invariant
                        1 <= p <= q <= 0x1_0000_0000_0000_0000,
                        e < isize::MAX,
                        prev.len() <= acc@.len(),
                        acc@.len() <= isize::MAX,
                        acc@.len() <= prev.len() || acc@.len() <= e + 1,
                        acc@ == prev + Seq::new((acc@.len() - prev.len()) as nat, |k: int| 0u64),
                        forall|k: int| 0 <= k < acc@.len() ==> (#[trigger] acc@[k]) < q,
                    decreases e + 1 - acc@.len(),
                {
                    let ghost before = acc@;
                    acc.push(0);
                    assert(acc@ =~= prev + Seq::new((acc@.len() - prev.len()) as nat, |k: int| 0u64));
                }
                proof {
                    let grown = if prev.len() < e + 1 { prev + Seq::new((e + 1 - prev.len()) as nat, |k: int| 0u64) } else { prev };
                    if prev.len() < e + 1 {
                        assert(acc@ =~= grown);
                    } else {
                        assert(acc@ =~= grown);
                    }
                }
                let pp = p as u128;
                let cm: u128 = if c >= 0 {
                    (c as u128) % q
                } else {
                    let a: u128 = ((-c) as u128) % pp;
                    if a == 0 { 0 } else { pp - a }
                };
                proof {
                    lemma_mod_of_signed(c as int, p as nat);
                    lemma_mod_of_signed(c as int, q as nat);
                    assert(cm as int == coeff_value(c as int, p as nat, q as nat));
                }
                let x = acc[e] as u128;
                let v: u64 = ((x + cm) % q) as u64;
                proof {
                    vstd::arithmetic::div_mod::lemma_small_mod(x as nat, q as nat);
                }
                acc.set(e, v);
                i = i + 1;
            },
        }
    }
    assert(ts.subrange(0, ts.len() as int) =~= ts);
    let mut asc = acc;
    while asc.len() > 1 && asc[asc.len() - 1] == 0
        invariant
            strip_trailing(asc@) == strip_trailing(accumulate(ts, p as nat, q as nat)),
            forall|k: int| 0 <= k < asc@.len() ==> (#[trigger] asc@[k]) < q,
            asc@.len() <= isize::MAX,
        decreases asc@.len(),
    {
        asc.pop();
    }
    if asc.len() == 0 {
        asc.push(0);
        assert(asc@ =~= seq![0u64]);
    }
    proof {
        assert(!(exists|k: int| 0 <= k < ts.len() && parse_term_spec(ts[k]) is None));
        assert(strip_trailing(asc@) == asc@);
        assert(t@ == remove_spaces(s@));
        assert(!(t@.len() == 0 || t@ == seq!['0']));
        assert(parse_coeffs_spec(s@, p as nat, q as nat) == Ok::<Seq<u64>, Seq<char>>(asc@));
    }
    Ok(asc)
}

/// Parses a polynomial over `field` written as text, such as `"x^3 + 2x + 1"` or
/// `"x + 1"`: spaces are ignored, terms are separated by `+`, and each coefficient is read
/// as a field element (a nonnegative one modulo the field order, a negative one as the
/// negation of its magnitude modulo the characteristic), so that the text of
/// `Poly::format_poly` reads back as the same polynomial; `InvalidPolynomialString` with
/// the first term that does not parse.
pub fn parse_poly(s: &str, field: GaloisField) -> (r: Result<Poly>)
    requires
        field.wf(),
        powers_fit(s@),
    ensures
        parse_coeffs_spec(s@, field.p(), field.q()) matches Err(t) ==>
            (r matches Err(GaloisError::InvalidPolynomialString(e)) && e@ == t),
        parse_coeffs_spec(s@, field.p(), field.q()) matches Ok(c) ==> (r matches Ok(x) && x.wf()
            && x.field_view() == field && x.coeffs_view() == strip_leading(c.reverse())),
{
    proof {
        field.lemma_q_ge_2();
        crate::arith::lemma_npow_ge_base(field.p(), field.m());
    }
    let coeffs = match parse_coeffs_asc(s, field.characteristic(), field.order() as u128) {
        Ok(c) => c,
        Err(e) => { return Err(e); },
    };
    Poly::new_asc(coeffs, field)
}

impl Poly {
    /// Parses a polynomial over `field` written as text (see `parse_poly`).
    pub fn from_str(s: &str, field: GaloisField) -> (r: Result<Self>)
        requires
            field.wf(),
            powers_fit(s@),
        ensures
            parse_coeffs_spec(s@, field.p(), field.q()) matches Err(t) ==>
                (r matches Err(GaloisError::InvalidPolynomialString(e)) && e@ == t),
            parse_coeffs_spec(s@, field.p(), field.q()) matches Ok(c) ==> (r matches Ok(x) && x.wf()
                && x.field_view() == field && x.coeffs_view() == strip_leading(c.reverse())),
    {
        parse_poly(s, field)
    }
}


/// The order up to which coefficients are read as they are: the field order, or `2^64` for
/// a larger field.
pub open spec fn read_order(q: nat) -> nat {
    if q > u64::MAX { 0x1_0000_0000_0000_0000 } else { q }
}

/// Parses a polynomial written as text (see `parse_poly`) over either kind of field.
pub fn parse_field_poly(s: &str, field: &FieldKind) -> (r: Result<FieldPoly>)
    requires
        field.wf(),
        powers_fit(s@),
    ensures
        parse_coeffs_spec(s@, field.p(), read_order(field.q())) matches Err(t) ==>
            (r matches Err(GaloisError::InvalidPolynomialString(e)) && e@ == t),
        parse_coeffs_spec(s@, field.p(), read_order(field.q())) matches Ok(c) ==> (r matches Ok(x) && x.wf()
            && (field matches FieldKind::Small(f) ==> (x matches FieldPoly::Small(y) && y.field_view().equiv(f)
                && y.coeffs_view() == strip_leading(c.reverse())))
            && (field matches FieldKind::Big(f) ==> (x matches FieldPoly::Big(y)
                && crate::poly::big_poly::big_equiv(y.field_view(), *f)
                && y.coeffs_view() == crate::poly::big_poly::bp_strip(c.reverse().map_values(|v: u64| v as nat))))),
{
    proof {
        match field {
            FieldKind::Small(f) => {
                f.lemma_q_ge_2();
                crate::arith::lemma_npow_ge_base(f.p(), f.m());
            },
            FieldKind::Big(f) => {
                f.lemma_wf_params();
                f.lemma_q_ge_2();
                crate::arith::lemma_npow_ge_base(f.p(), f.m());
            },
        }
    }
    let q: u128 = match field.order_u64() {
        Some(q) => q as u128,
        None => 0x1_0000_0000_0000_0000u128,
    };
    let coeffs = match parse_coeffs_asc(s, field.characteristic(), q) {
        Ok(c) => c,
        Err(e) => { return Err(e); },
    };
    FieldPoly::from_u64_asc(field, coeffs)
}

} // verus!
