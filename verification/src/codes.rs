//! Forward error correction: Reed-Solomon and BCH codes over GF(q), with syndrome decoding
//! by Berlekamp-Massey, Chien search and Forney's formula.

use vstd::prelude::*;
use crate::error::{GaloisError, Result};
use crate::field::array::{FieldArray, all_below};
use crate::field::factory::GaloisField;
use crate::lfsr::berlekamp_massey;
use crate::poly::field_poly::{Poly, first_invalid, gp_divmod, gp_from_roots, gp_is_zero, strip_leading, poly_from_roots, horner, gp_mul, gp_degree};

verus! {

/// `alpha^1, ..., alpha^count` for the primitive element `alpha` of the field.
pub open spec fn consecutive_powers(f: GaloisField, count: nat) -> Seq<u64> {
    Seq::new(count, |i: int| f.pow_spec(f.g(), (i + 1) as nat) as u64)
}

/// `sum_{j < upto} r_j alpha^(i j)`, accumulated from the left: syndrome `i` of the word `r`.
pub open spec fn syndrome_at(f: GaloisField, r: Seq<u64>, i: nat, upto: nat) -> nat
    decreases upto,
{
    if upto == 0 {
        0
    } else {
        f.add_spec(syndrome_at(f, r, i, (upto - 1) as nat),
            f.mul_spec(r[upto - 1] as nat, f.pow_spec(f.g(), i * ((upto - 1) as nat))))
    }
}

/// `c` is a codeword of length `n` with `n - k` check symbols: its syndromes `1..=n-k`
/// are zero.
pub open spec fn is_codeword(f: GaloisField, c: Seq<u64>, n: nat, k: nat) -> bool {
    &&& c.len() == n
    &&& all_below(c, f.q())
    &&& forall|i: int| 1 <= i <= n - k ==> #[trigger] syndrome_at(f, c, i as nat, n) == 0
}

/// `m` is the message carried by some codeword: its last `k` symbols.
pub open spec fn is_decoding(f: GaloisField, m: Seq<u64>, n: nat, k: nat) -> bool {
    exists|c: Seq<u64>| #[trigger] is_codeword(f, c, n, k) && m == c.subrange(n - k, n as int)
}

/// The message placed in the last `k` of `n` positions, zeros before it.
pub open spec fn message_word(msg: Seq<u64>, n: nat, k: nat) -> Seq<u64> {
    Seq::new(n, |i: int| if i < n - k { 0u64 } else { msg[i - (n - k)] })
}

/// The remainder of the message word by the generator, lowest degree first.
pub open spec fn parity(f: GaloisField, msg: Seq<u64>, n: nat, k: nat, gen: Seq<u64>) -> Seq<u64> {
    gp_divmod(strip_leading(message_word(msg, n, k).reverse()), gen, f.model()).1.reverse()
}

/// The systematic codeword of a message: the message in the last `k` positions and the
/// negated remainder in the first `n - k`.
pub open spec fn encoded(f: GaloisField, msg: Seq<u64>, n: nat, k: nat, gen: Seq<u64>) -> Seq<u64> {
    let par = parity(f, msg, n, k, gen);
    Seq::new(n, |i: int| if i < n - k && i < par.len() { f.sub_spec(0, par[i] as nat) as u64 } else { message_word(msg, n, k)[i] })
}

/// `r` is what accepting the word `w` gives: the message, its last `k` symbols, exactly
/// when `w` is a codeword.
pub open spec fn accepted(f: GaloisField, w: Seq<u64>, n: nat, k: nat, r: Option<FieldArray>) -> bool {
    &&& (r is Some <==> is_codeword(f, w, n, k))
    &&& r matches Some(m) ==> m.wf() && m.field_view().equiv(&f) && m.values_view() == w.subrange(n - k, n as int)
}

/// The word `w` after subtracting `values[i]` at `positions[i]` for each `i < count`, in
/// order.
pub open spec fn corrected_word(f: GaloisField, w: Seq<u64>, positions: Seq<usize>, values: Seq<u64>, count: nat) -> Seq<u64>
    decreases count,
{
    if count == 0 {
        w
    } else {
        let prev = corrected_word(f, w, positions, values, (count - 1) as nat);
        let pos = positions[count - 1] as int;
        prev.update(pos, f.sub_spec(prev[pos] as nat, values[count - 1] as nat) as u64)
    }
}

/// Reed-Solomon code of length `n` and dimension `k` over GF(q), with generator
/// `prod_{i=1}^{n-k} (x - alpha^i)`.
#[derive(Debug)]
pub struct ReedSolomon {
    field: GaloisField,
    n: usize,
    k: usize,
    generator: Poly,
}

impl ReedSolomon {
    pub closed spec fn field_view(&self) -> GaloisField {
        self.field
    }

    pub closed spec fn n_view(&self) -> nat {
        self.n as nat
    }

    pub closed spec fn k_view(&self) -> nat {
        self.k as nat
    }

    pub closed spec fn generator_view(&self) -> Seq<u64> {
        self.generator.coeffs_view()
    }

    /// A well-formed field, a generator polynomial over it, and `k < n < isize::MAX`.
    pub open spec fn wf(&self) -> bool {
        &&& self.field_view().wf()
        &&& self.k_view() < self.n_view() < isize::MAX
        &&& self.generator_inv()
    }

    pub closed spec fn generator_inv(&self) -> bool {
        self.generator.wf() && self.generator.field_view().equiv(&self.field)
    }

    /// The code RS(n, k) over `field`; `InvalidDegree(k)` unless `k < n`.
    pub fn new(field: GaloisField, n: usize, k: usize) -> (r: Result<Self>)
        requires
            field.wf(),
            n < isize::MAX,
        ensures
            k >= n ==> r == Err::<Self, GaloisError>(GaloisError::InvalidDegree(k as u64)),
            k < n ==> (r matches Ok(rs) && rs.wf() && rs.field_view() == field
                && rs.n_view() == n && rs.k_view() == k
                && rs.generator_view() == gp_from_roots(consecutive_powers(field, (n - k) as nat), (n - k) as int, field.model())),
    {
        if k >= n {
            return Err(GaloisError::InvalidDegree(k as u64));
        }
        let generator = match generator_poly(&field, n - k) {
            Ok(g) => g,
            Err(e) => { return Err(e); },
        };
        Ok(ReedSolomon { field, n, k, generator })
    }

    pub fn n(&self) -> (r: usize)
        ensures
            r == self.n_view(),
    {
        self.n
    }

    pub fn k(&self) -> (r: usize)
        ensures
            r == self.k_view(),
    {
        self.k
    }

    /// Systematic encoding: `LengthMismatch` unless the message has `k` symbols; the
    /// codeword holds the message in its last `k` positions and the negated remainder of the
    /// message word by the generator in its first `n - k`.
    pub fn encode(&self, message: &FieldArray) -> (r: Result<FieldArray>)
        requires
            self.wf(),
            message.wf(),
        ensures
            message.values_view().len() != self.k_view() ==> r == Err::<FieldArray, GaloisError>(GaloisError::LengthMismatch),
            message.values_view().len() == self.k_view() && all_below(message.values_view(), self.field_view().q())
                && !gp_is_zero(self.generator_view()) ==> (r matches Ok(c) && c.wf() && c.field_view().equiv(&self.field_view())
                && c.values_view() == encoded(self.field_view(), message.values_view(), self.n_view(), self.k_view(), self.generator_view())),
            message.values_view().len() == self.k_view() && !all_below(message.values_view(), self.field_view().q()) ==> r is Err,
            r is Ok ==> message.values_view().len() == self.k_view() && all_below(message.values_view(), self.field_view().q()),
    {
        if message.len() != self.k {
            return Err(GaloisError::LengthMismatch);
        }
        let n = self.n;
        let k = self.k;
        let msg = message.values();
        let ghost word = message_word(msg@, n as nat, k as nat);
        let mut codeword: Vec<u64> = Vec::new();
        let mut i: usize = 0;
        while i < n
            invariant
                k < n,
                msg@.len() == k,
                word == message_word(msg@, n as nat, k as nat),
                i <= n,
                codeword@ =~= word.subrange(0, i as int),
            decreases n - i,
        {
            let v: u64 = if i < n - k { 0 } else { msg[i - (n - k)] };
            codeword.push(v);
            i = i + 1;
        }
        assert(codeword@ =~= word);
        let f = self.field.clone();
        proof { f.lemma_equiv_wf(&self.field); }
        let msg_poly = match Poly::new_asc(codeword.clone(), f) {
            Ok(p) => p,
            Err(e) => {
                proof {
                    if all_below(msg@, self.field.q()) {
                        assert forall|j: int| 0 <= j < codeword@.len() implies codeword@[j] < self.field.q() by {
                            if j >= n - k {
                                assert(codeword@[j] == msg@[j - (n - k)]);
                            } else {
                                self.field.lemma_q_ge_2();
                            }
                        }
                    }
                }
                return Err(e);
            },
        };
        assert(codeword@ =~= word);
        proof {
            if !all_below(msg@, self.field.q()) {
                let j = choose|j: int| 0 <= j < msg@.len() && !(msg@[j] < self.field.q());
                assert(codeword@[j + (n - k)] == msg@[j]);
            }
        }
        let remainder = match msg_poly.rem(&self.generator) {
            Ok(rm) => rm,
            Err(e) => { return Err(e); },
        };
        let rem_asc = remainder.coeffs_asc();
        let ghost par = parity(self.field, msg@, n as nat, k as nat, self.generator.coeffs_view());
        assert(rem_asc@ == par);
        let mut out: Vec<u64> = Vec::new();
        let mut i: usize = 0;
        while i < n
            invariant
                self.wf(),
                k == self.k_view(),
                n == self.n_view(),
                codeword@ == word,
                word == message_word(msg@, n as nat, k as nat),
                msg@.len() == k,
                k < n,
                all_below(msg@, self.field.q()),
                rem_asc@ == par,
                par == parity(self.field, msg@, n as nat, k as nat, self.generator.coeffs_view()),
                i <= n,
                all_below(out@, self.field.q()),
                out@ =~= encoded(self.field, msg@, n as nat, k as nat, self.generator.coeffs_view()).subrange(0, i as int),
            decreases n - i,
        {
            let v: u64 = if i < n - k && i < rem_asc.len() {
                self.field.sub(0, rem_asc[i])
            } else {
                codeword[i]
            };
            proof {
                self.field.lemma_q_ge_2();
                let e = encoded(self.field, msg@, n as nat, k as nat, self.generator.coeffs_view());
                assert(par == parity(self.field, msg@, n as nat, k as nat, self.generator.coeffs_view()));
                if i < n - k && i < rem_asc@.len() {
                    assert(v == self.field.sub_spec(0, par[i as int] as nat));
                    assert(e[i as int] == self.field.sub_spec(0, par[i as int] as nat) as u64);
                } else {
                    assert(e[i as int] == word[i as int]);
                }
                assert(v == e[i as int]);
                if !(i < n - k && i < rem_asc@.len()) && i >= n - k {
                    assert(word[i as int] == msg@[i - (n - k)]);
                }
                assert(v < self.field.q());
            }
            out.push(v);
            i = i + 1;
        }
        proof {
            let e = encoded(self.field, msg@, n as nat, k as nat, self.generator.coeffs_view());
            assert(out@ =~= e);
        }
        let f = self.field.clone();
        proof { f.lemma_equiv_wf(&self.field); }
        Ok(FieldArray::new(f, out))
    }
}

/// `prod_{i=1}^{count} (x - alpha^i)`.
fn generator_poly(field: &GaloisField, count: usize) -> (r: Result<Poly>)
    requires
        field.wf(),
        count < isize::MAX,
    ensures
        r matches Ok(g) && g.wf() && g.field_view().equiv(field)
            && g.coeffs_view() == gp_from_roots(consecutive_powers(*field, count as nat), count as int, field.model()),
{
    let alpha = field.primitive_element();
    let mut roots: Vec<u64> = Vec::new();
    let mut i: usize = 1;
    while i <= count
        invariant
            field.wf(),
            alpha == field.g(),
            alpha < field.q(),
            count < isize::MAX,
            1 <= i <= count + 1,
            roots@ =~= consecutive_powers(*field, count as nat).subrange(0, (i - 1) as int),
            all_below(roots@, field.q()),
        decreases count + 1 - i,
    {
        roots.push(field.pow(alpha, i as u64));
        i = i + 1;
    }
    assert(roots@ =~= consecutive_powers(*field, count as nat));
    let f = field.clone();
    proof { f.lemma_equiv_wf(field); }
    let g = poly_from_roots(roots.as_slice(), f);
    proof {
        if g is Ok {
            assert(g->Ok_0.field_view().equiv(field));
        }
    }
    g
}

/// Whether every entry is zero.
fn all_zero(s: &Vec<u64>) -> (r: bool)
    ensures
        r == forall|i: int| 0 <= i < s@.len() ==> #[trigger] s@[i] == 0,
{
    let mut i: usize = 0;
    while i < s.len()
        invariant
            i <= s@.len(),
            forall|j: int| 0 <= j < i ==> #[trigger] s@[j] == 0,
        decreases s@.len() - i,
    {
        if s[i] != 0 {
            return false;
        }
        i = i + 1;
    }
    true
}

fn copy_u64(s: &[u64]) -> (r: Vec<u64>)
    ensures
        r@ == s@,
{
    let mut out: Vec<u64> = Vec::new();
    let mut i: usize = 0;
    while i < s.len()
        invariant
            i <= s@.len(),
            out@ =~= s@.subrange(0, i as int),
        decreases s@.len() - i,
    {
        out.push(s[i]);
        i = i + 1;
    }
    out
}

impl ReedSolomon {
    /// Syndromes `1..=n-k` of a word of length `n`.
    fn syndromes(&self, r: &[u64]) -> (s: Vec<u64>)
        requires
            self.wf(),
            r@.len() == self.n_view(),
            all_below(r@, self.field_view().q()),
            self.n_view() <= 0x3fff_ffff,
        ensures
            s@.len() == self.n_view() - self.k_view(),
            all_below(s@, self.field_view().q()),
            forall|i: int| 0 <= i < s@.len() ==> #[trigger] s@[i] == syndrome_at(self.field_view(), r@, (i + 1) as nat, self.n_view()),
    {
        let field = &self.field;
        let alpha = field.primitive_element();
        let n = self.n;
        let count = self.n - self.k;
        let mut out: Vec<u64> = Vec::new();
        let mut i: usize = 1;
        while i <= count
            invariant
                field.wf(),
                *field == self.field_view(),
                alpha == field.g(),
                alpha < field.q(),
                n == self.n_view(),
                count == self.n_view() - self.k_view(),
                n <= 0x3fff_ffff,
                r@.len() == n,
                all_below(r@, field.q()),
                1 <= i <= count + 1,
                out@.len() == i - 1,
                all_below(out@, field.q()),
                forall|t: int| 0 <= t < out@.len() ==> #[trigger] out@[t] == syndrome_at(*field, r@, (t + 1) as nat, n as nat),
            decreases count + 1 - i,
        {
            let mut sum: u64 = 0;
            let mut j: usize = 0;
            while j < n
                invariant
                    field.wf(),
                    alpha == field.g(),
                    alpha < field.q(),
                    n <= 0x3fff_ffff,
                    r@.len() == n,
                    all_below(r@, field.q()),
                    1 <= i <= count,
                    count <= n,
                    j <= n,
                    sum < field.q(),
                    sum == syndrome_at(*field, r@, i as nat, j as nat),
                decreases n - j,
            {
                proof {
                    assert((i as int) * (j as int) <= 0xffff_ffffint * 0xffff_ffffint) by (nonlinear_arith)
                        requires i <= 0xffff_ffffint, j <= 0xffff_ffffint, i >= 0, j >= 0;
                }
                let e: u64 = (i as u64) * (j as u64);
                let x = field.pow(alpha, e);
                let term = field.mul(r[j], x);
                sum = field.add(sum, term);
                j = j + 1;
            }
            out.push(sum);
            i = i + 1;
        }
        out
    }

    /// The message of `word` when all its syndromes vanish.
    fn accept(&self, word: &Vec<u64>) -> (r: Option<FieldArray>)
        requires
            self.wf(),
            word@.len() == self.n_view(),
            all_below(word@, self.field_view().q()),
            self.n_view() <= 0x3fff_ffff,
        ensures
            accepted(self.field_view(), word@, self.n_view(), self.k_view(), r),
            r matches Some(m) ==> is_decoding(self.field_view(), m.values_view(), self.n_view(), self.k_view()),
    {
        let s = self.syndromes(word.as_slice());
        if !all_zero(&s) {
            proof {
                let i = choose|i: int| 0 <= i < s@.len() && s@[i] != 0;
                assert(syndrome_at(self.field, word@, (i + 1) as nat, self.n as nat) != 0);
            }
            return None;
        }
        let n = self.n;
        let k = self.k;
        let mut msg: Vec<u64> = Vec::new();
        let mut i: usize = n - k;
        while i < n
            invariant
                word@.len() == n,
                k < n,
                n - k <= i <= n,
                msg@ =~= word@.subrange(n - k, i as int),
                all_below(word@, self.field.q()),
            decreases n - i,
        {
            msg.push(word[i]);
            i = i + 1;
        }
        proof {
            assert forall|t: int| 1 <= t <= n - k implies #[trigger] syndrome_at(self.field, word@, t as nat, n as nat) == 0 by {
                assert(s@[t - 1] == 0);
            }
            assert(is_codeword(self.field, word@, n as nat, k as nat));
            assert(all_below(msg@, self.field.q()));
        }
        let f = self.field.clone();
        proof { f.lemma_equiv_wf(&self.field); }
        Some(FieldArray::new(f, msg))
    }

    /// Subtracts `values[i]` at `positions[i]` and accepts the result if it is a codeword.
    fn try_correction(&self, received: &[u64], positions: &Vec<usize>, values: &Vec<u64>) -> (r: Option<FieldArray>)
        requires
            self.wf(),
            received@.len() == self.n_view(),
            all_below(received@, self.field_view().q()),
            self.n_view() <= 0x3fff_ffff,
            forall|i: int| 0 <= i < positions@.len() ==> #[trigger] positions@[i] < self.n_view(),
            all_below(values@, self.field_view().q()),
        ensures
            accepted(self.field_view(), corrected_word(self.field_view(), received@, positions@, values@,
                if positions@.len() <= values@.len() { positions@.len() } else { values@.len() }),
                self.n_view(), self.k_view(), r),
            r matches Some(m) ==> is_decoding(self.field_view(), m.values_view(), self.n_view(), self.k_view()),
    {
        let mut corrected = copy_u64(received);
        let count = if positions.len() <= values.len() { positions.len() } else { values.len() };
        let mut i: usize = 0;
        while i < count
            invariant
                self.wf(),
                corrected@.len() == self.n_view(),
                all_below(corrected@, self.field.q()),
                count <= positions@.len(),
                count <= values@.len(),
                forall|t: int| 0 <= t < positions@.len() ==> #[trigger] positions@[t] < self.n_view(),
                all_below(values@, self.field.q()),
                i <= count,
                corrected@ == corrected_word(self.field, received@, positions@, values@, i as nat),
            decreases count - i,
        {
            let pos = positions[i];
            let v = self.field.sub(corrected[pos], values[i]);
            corrected.set(pos, v);
            i = i + 1;
        }
        self.accept(&corrected)
    }

    /// Decodes a received word: its message when all syndromes vanish, otherwise the
    /// message of a corrected word whose syndromes vanish; `LengthMismatch` when the word
    /// does not have `n` symbols or no correction was found.
    pub fn decode(&self, received: &FieldArray) -> (r: Result<FieldArray>)
        requires
            self.wf(),
            received.wf(),
            all_below(received.values_view(), self.field_view().q()),
            self.n_view() <= 0x3fff_ffff,
        ensures
            received.values_view().len() != self.n_view() ==> r == Err::<FieldArray, GaloisError>(GaloisError::LengthMismatch),
            is_codeword(self.field_view(), received.values_view(), self.n_view(), self.k_view()) ==> (r matches Ok(m)
                && m.values_view() == received.values_view().subrange(self.n_view() - self.k_view(), self.n_view() as int)),
            r matches Ok(m) ==> m.wf() && m.field_view().equiv(&self.field_view())
                && is_decoding(self.field_view(), m.values_view(), self.n_view(), self.k_view()),
    {
        if received.len() != self.n {
            return Err(GaloisError::LengthMismatch);
        }
        let r = received.values();
        let syn = self.syndromes(r);
        if all_zero(&syn) {
            let word = copy_u64(r);
            match self.accept(&word) {
                Some(m) => { return Ok(m); },
                None => {},
            }
        }
        let t = (self.n - self.k) / 2;
        if t == 1 {
            match decode_single_error(self, r, &syn) {
                Ok(Some(m)) => { return Ok(m); },
                Ok(None) => {},
                Err(e) => { return Err(e); },
            }
        }
        if t == 2 && syn.len() >= 4 {
            match decode_two_errors(self, r, &syn) {
                Ok(Some(m)) => { return Ok(m); },
                Ok(None) => {},
                Err(e) => { return Err(e); },
            }
        }
        let f = self.field.clone();
        proof { f.lemma_equiv_wf(&self.field); }
        let syndrome_array = FieldArray::new(f, copy_u64(syn.as_slice()));
        let locator = match berlekamp_massey(&syndrome_array) {
            Ok(l) => l,
            Err(e) => { return Err(e); },
        };
        proof { locator.field_view().lemma_equiv_wf(&self.field); }
        let deg = locator.degree();
        if deg < 0 || deg as usize > t {
            return Err(GaloisError::LengthMismatch);
        }
        let positions = match chien_search(&locator, self.n) {
            Ok(p) => p,
            Err(e) => { return Err(e); },
        };
        if positions.len() != deg as usize {
            return Err(GaloisError::LengthMismatch);
        }
        let values = match forney_errors(&syn, &locator, &positions) {
            Ok(v) => v,
            Err(e) => { return Err(e); },
        };
        match self.try_correction(r, &positions, &values) {
            Some(m) => { return Ok(m); },
            None => {},
        }
        let mut negated: Vec<u64> = Vec::new();
        let mut i: usize = 0;
        while i < values.len()
            invariant
                self.wf(),
                all_below(values@, self.field.q()),
                all_below(negated@, self.field.q()),
                i <= values@.len(),
            decreases values@.len() - i,
        {
            negated.push(self.field.neg(values[i]));
            i = i + 1;
        }
        match self.try_correction(r, &positions, &negated) {
            Some(m) => Ok(m),
            None => Err(GaloisError::LengthMismatch),
        }
    }
}

/// `alpha^(-i)`: one divided by the `i`-th power of the primitive element.
pub open spec fn inv_power(f: GaloisField, i: nat) -> nat {
    f.div_spec(1, f.pow_spec(f.g(), i))
}

/// The positions `i < k`, ascending, where the polynomial `a` vanishes at `alpha^(-i)`.
pub open spec fn chien_below(a: Seq<u64>, f: GaloisField, k: nat) -> Seq<usize>
    decreases k,
{
    if k == 0 {
        Seq::empty()
    } else {
        let prev = chien_below(a, f, (k - 1) as nat);
        if horner(a, inv_power(f, (k - 1) as nat), a.len() as int, f.model()) == 0 { prev.push((k - 1) as usize) } else { prev }
    }
}

/// Every power `alpha^i` with `i < n` is nonzero, so each can be inverted.
pub open spec fn powers_invertible(f: GaloisField, n: nat) -> bool {
    forall|i: nat| i < n ==> #[trigger] f.pow_spec(f.g(), i) != 0
}

/// Positions `i < n` where the locator vanishes at `alpha^(-i)`.
fn chien_search(locator: &Poly, n: usize) -> (r: Result<Vec<usize>>)
    requires
        locator.wf(),
    ensures
        powers_invertible(locator.field_view(), n as nat) ==> (r matches Ok(v)
            && v@ == chien_below(locator.coeffs_view(), locator.field_view(), n as nat)),
        !powers_invertible(locator.field_view(), n as nat) ==> r == Err::<Vec<usize>, GaloisError>(GaloisError::DivisionByZero {
            characteristic: locator.field_view().p() as u64, degree: locator.field_view().m() as u32 }),
        r matches Ok(v) ==> forall|i: int| 0 <= i < v@.len() ==> #[trigger] v@[i] < n,
{
    let field = locator.field();
    proof { field.lemma_q_ge_2(); }
    let alpha = field.primitive_element();
    let mut positions: Vec<usize> = Vec::new();
    let mut i: usize = 0;
    while i < n
        invariant
            locator.wf(),
            *field == locator.field_view(),
            field.wf(),
            field.q() >= 2,
            alpha == field.g(),
            alpha < field.q(),
            i <= n,
            forall|t: int| 0 <= t < positions@.len() ==> #[trigger] positions@[t] < n,
            positions@ == chien_below(locator.coeffs_view(), *field, i as nat),
            powers_invertible(*field, i as nat),
        decreases n - i,
    {
        let x = field.pow(alpha, i as u64);
        let x_inv = match field.div(1, x) {
            Ok(v) => v,
            Err(e) => {
                proof {
                    assert(field.pow_spec(field.g(), i as nat) == 0);
                    assert(!powers_invertible(*field, n as nat));
                }
                return Err(e);
            },
        };
        let v = match locator.evaluate(x_inv) {
            Ok(v) => v,
            Err(e) => { return Err(e); },
        };
        if v == 0 {
            positions.push(i);
        }
        proof {
            assert forall|t: nat| t < i + 1 implies #[trigger] field.pow_spec(field.g(), t) != 0 by {
                if t < i {
                    assert(powers_invertible(*field, i as nat));
                }
            }
        }
        i = i + 1;
    }
    Ok(positions)
}

/// The descending coefficients of `x^len`.
pub open spec fn x_power(len: nat) -> Seq<u64> {
    Seq::new(len + 1, |i: int| if i == 0 { 1u64 } else { 0u64 })
}

/// `x^len` over the field.
fn omega_modulus(field: &GaloisField, syndrome_len: usize) -> (r: Result<Poly>)
    requires
        field.wf(),
        syndrome_len < isize::MAX,
    ensures
        r matches Ok(m) && m.wf() && m.field_view().equiv(field) && m.coeffs_view() == x_power(syndrome_len as nat),
{
    let mut coeffs: Vec<u64> = Vec::new();
    let mut i: usize = 0;
    while i <= syndrome_len
        invariant
            i <= syndrome_len + 1,
            syndrome_len < isize::MAX,
            coeffs@.len() == i,
            forall|t: int| 0 <= t < i ==> #[trigger] coeffs@[t] == (if t == 0 { 1u64 } else { 0u64 }),
        decreases syndrome_len + 1 - i,
    {
        coeffs.push(if i == 0 { 1 } else { 0 });
        i = i + 1;
    }
    assert(coeffs@ =~= x_power(syndrome_len as nat));
    proof { field.lemma_q_ge_2(); }
    let f = field.clone();
    proof { f.lemma_equiv_wf(field); }
    Poly::new(coeffs, f)
}

/// `sum c_t ((d - t) mod p) x^(d - t - 1)` over the first `i` descending coefficients
/// `c_t` of a polynomial of degree `d`, skipping the constant term.
pub open spec fn deriv_sum(f: GaloisField, a: Seq<u64>, x: nat, d: int, i: int) -> nat
    decreases i,
{
    if i <= 0 {
        0
    } else {
        let prev = deriv_sum(f, a, x, d, i - 1);
        let t = i - 1;
        if t <= d && d - t != 0 {
            f.add_spec(prev, f.mul_spec(f.mul_spec(a[t] as nat, ((d - t) % (f.p() as int)) as nat),
                f.pow_spec(x, (d - t - 1) as nat)))
        } else {
            prev
        }
    }
}

/// The formal derivative of the polynomial `a` at `x`; zero for a constant.
pub open spec fn deriv_at(f: GaloisField, a: Seq<u64>, x: nat) -> nat {
    if gp_degree(a) <= 0 { 0 } else { deriv_sum(f, a, x, gp_degree(a), a.len() as int) }
}

/// The formal derivative of the locator at `x`: `sum c_i (e_i mod p) x^(e_i - 1)` over the
/// terms `c_i x^(e_i)` with `e_i >= 1`.
fn locator_derivative_at(locator: &Poly, x: u64) -> (r: u64)
    requires
        locator.wf(),
        x < locator.field_view().q(),
    ensures
        r < locator.field_view().q(),
        r == deriv_at(locator.field_view(), locator.coeffs_view(), x as nat),
{
    let field = locator.field();
    proof { field.lemma_q_ge_2(); }
    let deg = locator.degree();
    if deg <= 0 {
        return 0;
    }
    let coeffs = locator.coeffs();
    let d = deg as usize;
    let p = field.characteristic();
    let mut result: u64 = 0;
    let mut i: usize = 0;
    while i < coeffs.len()
        invariant
            field.wf(),
            *field == locator.field_view(),
            locator.wf(),
            coeffs@ == locator.coeffs_view(),
            x < field.q(),
            p == field.p(),
            p < field.q() || p == field.q(),
            result < field.q(),
            d == gp_degree(locator.coeffs_view()),
            i <= coeffs@.len(),
            result == deriv_sum(*field, coeffs@, x as nat, d as int, i as int),
        decreases coeffs@.len() - i,
    {
        if i <= d && d - i != 0 {
            let power = d - i;
            let k = (power as u64) % p;
            proof { crate::arith::lemma_npow_ge_base(field.p(), field.m()); }
            let scaled = field.mul(coeffs[i], k);
            let xp = field.pow(x, (power - 1) as u64);
            let term = field.mul(scaled, xp);
            result = field.add(result, term);
        }
        i = i + 1;
    }
    result
}

/// The error evaluator: the syndrome polynomial (first syndrome the constant term) times
/// the locator, modulo `x^len`.
pub open spec fn omega_of(f: GaloisField, syndromes: Seq<u64>, locator: Seq<u64>) -> Seq<u64> {
    gp_divmod(gp_mul(strip_leading(syndromes.reverse()), locator, f.model()), x_power(syndromes.len()), f.model()).1
}

/// Forney's formula can be applied at `pos`: `alpha^pos` and the locator's derivative at
/// its inverse are nonzero.
pub open spec fn forney_ok(f: GaloisField, locator: Seq<u64>, pos: nat) -> bool {
    f.pow_spec(f.g(), pos) != 0 && deriv_at(f, locator, inv_power(f, pos)) != 0
}

/// The error magnitude at `pos`: `-omega(x) / locator'(x)` at `x = alpha^(-pos)`.
pub open spec fn forney_value(f: GaloisField, omega: Seq<u64>, locator: Seq<u64>, pos: nat) -> nat {
    let x = inv_power(f, pos);
    f.neg_spec(f.div_spec(horner(omega, x, omega.len() as int, f.model()), deriv_at(f, locator, x)))
}

/// Error magnitudes at the given positions by Forney's formula.
fn forney_errors(syndromes: &Vec<u64>, locator: &Poly, positions: &Vec<usize>) -> (r: Result<Vec<u64>>)
    requires
        locator.wf(),
        all_below(syndromes@, locator.field_view().q()),
        syndromes@.len() <= 0x3fff_ffff,
        locator.coeffs_view().len() <= syndromes@.len() + 1,
    ensures
        (forall|k: int| 0 <= k < positions@.len() ==> #[trigger] forney_ok(locator.field_view(), locator.coeffs_view(),
            positions@[k] as nat)) ==> (r matches Ok(v) && v@.len() == positions@.len()
            && forall|k: int| 0 <= k < positions@.len() ==> #[trigger] v@[k] == forney_value(locator.field_view(),
                omega_of(locator.field_view(), syndromes@, locator.coeffs_view()), locator.coeffs_view(), positions@[k] as nat)),
        !(forall|k: int| 0 <= k < positions@.len() ==> #[trigger] forney_ok(locator.field_view(), locator.coeffs_view(),
            positions@[k] as nat)) ==> r == Err::<Vec<u64>, GaloisError>(GaloisError::DivisionByZero {
                characteristic: locator.field_view().p() as u64, degree: locator.field_view().m() as u32 }),
        r matches Ok(v) ==> v@.len() == positions@.len() && all_below(v@, locator.field_view().q()),
{
    let field = locator.field();
    proof { field.lemma_q_ge_2(); }
    let alpha = field.primitive_element();
    let mut rev: Vec<u64> = Vec::new();
    let mut i: usize = syndromes.len();
    while i > 0
        invariant
            i <= syndromes@.len(),
            syndromes@.len() <= 0x3fff_ffff,
            rev@.len() == syndromes@.len() - i,
            rev@ == syndromes@.reverse().subrange(0, (syndromes@.len() - i) as int),
            all_below(syndromes@, field.q()),
            all_below(rev@, field.q()),
        decreases i,
    {
        rev.push(syndromes[i - 1]);
        i = i - 1;
    }
    let f = field.clone();
    proof { f.lemma_equiv_wf(field); }
    assert(rev@ =~= syndromes@.reverse());
    let ghost rv = rev@;
    proof { crate::poly::field_poly::lemma_strip_leading(rv); }
    let s_poly = match Poly::new(rev, f) {
        Ok(p) => p,
        Err(e) => { return Err(e); },
    };
    assert(s_poly.coeffs_view().len() <= syndromes@.len() + 1);
    let modulus = match omega_modulus(field, syndromes.len()) {
        Ok(m) => m,
        Err(e) => { return Err(e); },
    };
    let prod = match s_poly.mul(locator) {
        Ok(p) => p,
        Err(e) => { return Err(e); },
    };
    let omega = match prod.rem(&modulus) {
        Ok(o) => o,
        Err(e) => { return Err(e); },
    };
    proof {
        omega.field_view().lemma_equiv_wf(field);
        s_poly.field_view().lemma_equiv_wf(field);
        prod.field_view().lemma_equiv_wf(field);
        assert(omega.coeffs_view() == omega_of(*field, syndromes@, locator.coeffs_view()));
    }
    let ghost om = omega_of(*field, syndromes@, locator.coeffs_view());
    let mut values: Vec<u64> = Vec::new();
    let mut k: usize = 0;
    while k < positions.len()
        invariant
            field.wf(),
            *field == locator.field_view(),
            locator.wf(),
            omega.wf(),
            omega.field_view().equiv(field),
            omega.field_view().model() == field.model(),
            omega.coeffs_view() == om,
            field.q() >= 2,
            alpha == field.g(),
            alpha < field.q(),
            k <= positions@.len(),
            values@.len() == k,
            all_below(values@, field.q()),
            forall|t: int| 0 <= t < k ==> #[trigger] forney_ok(*field, locator.coeffs_view(), positions@[t] as nat),
            forall|t: int| 0 <= t < k ==> #[trigger] values@[t] == forney_value(*field, om, locator.coeffs_view(), positions@[t] as nat),
        decreases positions@.len() - k,
    {
        let x = field.pow(alpha, positions[k] as u64);
        let x_inv = match field.div(1, x) {
            Ok(v) => v,
            Err(e) => {
                proof { assert(!forney_ok(*field, locator.coeffs_view(), positions@[k as int] as nat)); }
                return Err(e);
            },
        };
        let num = match omega.evaluate(x_inv) {
            Ok(v) => v,
            Err(e) => { return Err(e); },
        };
        let denom = locator_derivative_at(locator, x_inv);
        if denom == 0 {
            proof { assert(!forney_ok(*field, locator.coeffs_view(), positions@[k as int] as nat)); }
            return Err(GaloisError::DivisionByZero { characteristic: field.characteristic(), degree: field.degree() });
        }
        let quot = match field.div(num, denom) {
            Ok(v) => v,
            Err(e) => { return Err(e); },
        };
        let ghost before = values@;
        values.push(field.neg(quot));
        proof {
            assert(forney_ok(*field, locator.coeffs_view(), positions@[k as int] as nat));
            assert forall|t: int| 0 <= t < k + 1 implies #[trigger] values@[t]
                == forney_value(*field, om, locator.coeffs_view(), positions@[t] as nat) by {
                if t < k {
                    assert(values@[t] == before[t]);
                }
            }
        }
        k = k + 1;
    }
    Ok(values)
}

/// The first `i` from `from` on, below `n`, where `alpha^i` is zero or `alpha^(-i)` equals
/// `ratio`; `n` when there is none.
pub open spec fn first_hit(f: GaloisField, ratio: nat, n: nat, from: nat) -> nat
    decreases n - from,
{
    if from >= n {
        n
    } else if f.pow_spec(f.g(), from) == 0 || inv_power(f, from) == ratio {
        from
    } else {
        first_hit(f, ratio, n, from + 1)
    }
}

/// The received word with the single error of magnitude `s0 alpha^(-pos)` at `pos` removed.
pub open spec fn single_corrected(f: GaloisField, w: Seq<u64>, s0: nat, pos: nat) -> Seq<u64> {
    w.update(pos as int, f.sub_spec(w[pos as int] as nat, f.mul_spec(s0, inv_power(f, pos))) as u64)
}

/// The single-error decoder: the error position from the ratio of the first two syndromes.
fn decode_single_error(rs: &ReedSolomon, received: &[u64], syndromes: &Vec<u64>) -> (r: Result<Option<FieldArray>>)
    requires
        rs.wf(),
        received@.len() == rs.n_view(),
        all_below(received@, rs.field_view().q()),
        all_below(syndromes@, rs.field_view().q()),
        rs.n_view() <= 0x3fff_ffff,
    ensures
        (syndromes@.len() < 2 || syndromes@[1] == 0) ==> r == Ok::<Option<FieldArray>, GaloisError>(None),
        !(syndromes@.len() < 2 || syndromes@[1] == 0) ==> {
            let f = rs.field_view();
            let h = first_hit(f, f.div_spec(syndromes@[0] as nat, syndromes@[1] as nat), rs.n_view(), 0);
            &&& h == rs.n_view() ==> r == Ok::<Option<FieldArray>, GaloisError>(None)
            &&& h < rs.n_view() && f.pow_spec(f.g(), h) == 0 ==> r == Err::<Option<FieldArray>, GaloisError>(
                GaloisError::DivisionByZero { characteristic: f.p() as u64, degree: f.m() as u32 })
            &&& h < rs.n_view() && f.pow_spec(f.g(), h) != 0 ==> (r matches Ok(o)
                && accepted(f, single_corrected(f, received@, syndromes@[0] as nat, h), rs.n_view(), rs.k_view(), o))
        },
        r matches Ok(Some(m)) ==> m.wf() && m.field_view().equiv(&rs.field_view())
            && is_decoding(rs.field_view(), m.values_view(), rs.n_view(), rs.k_view()),
{
    if syndromes.len() < 2 || syndromes[1] == 0 {
        return Ok(None);
    }
    let field = &rs.field;
    proof { field.lemma_q_ge_2(); }
    let alpha = field.primitive_element();
    let ratio = match field.div(syndromes[0], syndromes[1]) {
        Ok(v) => v,
        Err(e) => { return Err(e); },
    };
    let n = rs.n;
    let ghost h = first_hit(*field, ratio as nat, n as nat, 0);
    let mut position: usize = n;
    let mut i: usize = 0;
    while i < n
        invariant_except_break
            position == n,
        invariant
            field.wf(),
            field.q() >= 2,
            alpha == field.g(),
            alpha < field.q(),
            i <= n,
            *field == rs.field_view(),
            n == rs.n_view(),
            syndromes@.len() >= 2,
            syndromes@[1] != 0,
            ratio == field.div_spec(syndromes@[0] as nat, syndromes@[1] as nat),
            h == first_hit(*field, ratio as nat, n as nat, 0),
            h == first_hit(*field, ratio as nat, n as nat, i as nat),
        ensures
            position == n ==> h == n,
            position < n ==> position == h && field.pow_spec(field.g(), h) != 0,
            position <= n,
        decreases n - i,
    {
        let x = field.pow(alpha, i as u64);
        let x_inv = match field.div(1, x) {
            Ok(v) => v,
            Err(e) => { return Err(e); },
        };
        if ratio == x_inv {
            position = i;
            break;
        }
        i = i + 1;
    }
    if position >= n {
        return Ok(None);
    }
    assert(position == h);
    let x = field.pow(alpha, position as u64);
    let x_inv = match field.div(1, x) {
        Ok(v) => v,
        Err(e) => { return Err(e); },
    };
    let magnitude = field.mul(syndromes[0], x_inv);
    let mut corrected = copy_u64(received);
    let v = field.sub(corrected[position], magnitude);
    corrected.set(position, v);
    Ok(rs.accept(&corrected))
}

/// The syndrome `j + 1` of errors `e1` at `alpha^p = xp` and `e2` at `alpha^q = xq` matches
/// the received one.
pub open spec fn pair_matches(f: GaloisField, s: Seq<u64>, xp: nat, xq: nat, e1: nat, e2: nat, j: int) -> bool {
    f.add_spec(f.mul_spec(e1, f.pow_spec(xp, (j + 1) as nat)), f.mul_spec(e2, f.pow_spec(xq, (j + 1) as nat))) == s[j] as nat
}

/// The corrected word for errors at positions `p < q`, solved from the first two
/// syndromes: `None` when the system is singular, when the first four syndromes do not
/// match, or when the corrected word is not a codeword of length `n` with `k` message
/// symbols.
pub open spec fn pair_word(f: GaloisField, w: Seq<u64>, s: Seq<u64>, n: nat, k: nat, p: nat, q: nat) -> Option<Seq<u64>> {
    let xp = f.pow_spec(f.g(), p);
    let xq = f.pow_spec(f.g(), q);
    let x2p = f.mul_spec(xp, xp);
    let x2q = f.mul_spec(xq, xq);
    let det = f.sub_spec(f.mul_spec(xp, x2q), f.mul_spec(xq, x2p));
    let (s0, s1) = (s[0] as nat, s[1] as nat);
    let e1 = f.div_spec(f.sub_spec(f.mul_spec(s0, x2q), f.mul_spec(s1, xq)), det);
    let e2 = f.div_spec(f.sub_spec(f.mul_spec(s1, xp), f.mul_spec(s0, x2p)), det);
    let cw = w.update(p as int, f.sub_spec(w[p as int] as nat, e1) as u64).update(q as int, f.sub_spec(w[q as int] as nat, e2) as u64);
    if det == 0 {
        None
    } else if !(forall|j: int| 0 <= j < 4 ==> #[trigger] pair_matches(f, s, xp, xq, e1, e2, j)) {
        None
    } else if !is_codeword(f, cw, n, k) {
        None
    } else {
        Some(cw)
    }
}

/// The two-error decoder: tries every pair of positions.
fn decode_two_errors(rs: &ReedSolomon, received: &[u64], syndromes: &Vec<u64>) -> (r: Result<Option<FieldArray>>)
    requires
        rs.wf(),
        received@.len() == rs.n_view(),
        all_below(received@, rs.field_view().q()),
        all_below(syndromes@, rs.field_view().q()),
        syndromes@.len() >= 4,
        rs.n_view() <= 0x3fff_ffff,
    ensures
        r matches Ok(o) && {
            let (f, n, k) = (rs.field_view(), rs.n_view(), rs.k_view());
            &&& (o is None <==> forall|p: nat, q: nat| p < q < n ==> #[trigger] pair_word(f, received@, syndromes@, n, k, p, q) is None)
            &&& o matches Some(m) ==> exists|p: nat, q: nat| p < q < n
                && (#[trigger] pair_word(f, received@, syndromes@, n, k, p, q)) is Some
                && m.values_view() == pair_word(f, received@, syndromes@, n, k, p, q)->Some_0.subrange(n - k, n as int)
                && forall|p2: nat, q2: nat| p2 < q2 < n && (p2 < p || (p2 == p && q2 < q))
                    ==> #[trigger] pair_word(f, received@, syndromes@, n, k, p2, q2) is None
        },
        r matches Ok(Some(m)) ==> m.wf() && m.field_view().equiv(&rs.field_view())
            && is_decoding(rs.field_view(), m.values_view(), rs.n_view(), rs.k_view()),
{
    let field = &rs.field;
    proof { field.lemma_q_ge_2(); }
    let alpha = field.primitive_element();
    let n = rs.n;
    let s0 = syndromes[0];
    let s1 = syndromes[1];
    let ghost (f, k) = (rs.field_view(), rs.k_view());
    let ghost (w, sy) = (received@, syndromes@);
    let mut p: usize = 0;
    while p < n
        invariant
            rs.wf(),
            *field == rs.field_view(),
            field.q() >= 2,
            alpha == field.g(),
            alpha < field.q(),
            n == rs.n_view(),
            n <= 0x3fff_ffff,
            received@.len() == n,
            all_below(received@, field.q()),
            all_below(syndromes@, field.q()),
            syndromes@.len() >= 4,
            s0 < field.q(),
            s1 < field.q(),
            p <= n,
            f == rs.field_view(),
            k == rs.k_view(),
            w == received@,
            sy == syndromes@,
            s0 == sy[0],
            s1 == sy[1],
            forall|p2: nat, q2: nat| p2 < q2 < n && p2 < p ==> #[trigger] pair_word(f, w, sy, n as nat, k, p2, q2) is None,
        decreases n - p,
    {
        let mut q: usize = p + 1;
        while q < n
            invariant
                rs.wf(),
                *field == rs.field_view(),
                field.q() >= 2,
                alpha == field.g(),
                alpha < field.q(),
                n == rs.n_view(),
                n <= 0x3fff_ffff,
                received@.len() == n,
                all_below(received@, field.q()),
                all_below(syndromes@, field.q()),
                syndromes@.len() >= 4,
                s0 < field.q(),
                s1 < field.q(),
                p < n,
                p < q,
                f == rs.field_view(),
                k == rs.k_view(),
                w == received@,
                sy == syndromes@,
                s0 == sy[0],
                s1 == sy[1],
                forall|p2: nat, q2: nat| p2 < q2 < n && (p2 < p || (p2 == p && q2 < q))
                    ==> #[trigger] pair_word(f, w, sy, n as nat, k, p2, q2) is None,
            decreases n - q,
        {
            let xp = field.pow(alpha, p as u64);
            let xq = field.pow(alpha, q as u64);
            let x2p = field.mul(xp, xp);
            let x2q = field.mul(xq, xq);
            let det = field.sub(field.mul(xp, x2q), field.mul(xq, x2p));
            if det == 0 {
                proof {
                    assert(pair_word(f, w, sy, n as nat, k, p as nat, q as nat) is None);
                    assert forall|p2: nat, q2: nat| p2 < q2 < n && (p2 < p || (p2 == p && q2 < q + 1))
                        implies #[trigger] pair_word(f, w, sy, n as nat, k, p2, q2) is None by {
                        if p2 == p && q2 == q {
                        }
                    }
                }
                q = q + 1;
                continue;
            }
            let e1 = match field.div(field.sub(field.mul(s0, x2q), field.mul(s1, xq)), det) {
                Ok(v) => v,
                Err(e) => { return Err(e); },
            };
            let e2 = match field.div(field.sub(field.mul(s1, xp), field.mul(s0, x2p)), det) {
                Ok(v) => v,
                Err(e) => { return Err(e); },
            };
            let mut ok = true;
            let mut j: usize = 0;
            while j < 4
                invariant_except_break
                    ok,
                invariant
                    field.wf(),
                    *field == f,
                    sy == syndromes@,
                    syndromes@.len() >= 4,
                    xp < field.q(),
                    xq < field.q(),
                    e1 < field.q(),
                    e2 < field.q(),
                    j <= 4,
                    forall|j2: int| 0 <= j2 < j ==> #[trigger] pair_matches(f, sy, xp as nat, xq as nat, e1 as nat, e2 as nat, j2),
                ensures
                    ok <==> forall|j2: int| 0 <= j2 < 4 ==> #[trigger] pair_matches(f, sy, xp as nat, xq as nat, e1 as nat, e2 as nat, j2),
                decreases 4 - j,
            {
                let power = (j + 1) as u64;
                let term = field.add(field.mul(e1, field.pow(xp, power)), field.mul(e2, field.pow(xq, power)));
                if term != syndromes[j] {
                    assert(!pair_matches(f, sy, xp as nat, xq as nat, e1 as nat, e2 as nat, j as int));
                    ok = false;
                    break;
                }
                j = j + 1;
            }
            if !ok {
                proof {
                    assert(pair_word(f, w, sy, n as nat, k, p as nat, q as nat) is None);
                    assert forall|p2: nat, q2: nat| p2 < q2 < n && (p2 < p || (p2 == p && q2 < q + 1))
                        implies #[trigger] pair_word(f, w, sy, n as nat, k, p2, q2) is None by {
                        if p2 == p && q2 == q {
                        }
                    }
                }
                q = q + 1;
                continue;
            }
            let mut corrected = copy_u64(received);
            let vp = field.sub(corrected[p], e1);
            corrected.set(p, vp);
            let vq = field.sub(corrected[q], e2);
            corrected.set(q, vq);
            let ghost cw = corrected@;
            assert(cw == w.update(p as int, f.sub_spec(w[p as int] as nat, e1 as nat) as u64)
                .update(q as int, f.sub_spec(w[q as int] as nat, e2 as nat) as u64));
            match rs.accept(&corrected) {
                Some(m) => {
                    proof {
                        assert(pair_word(f, w, sy, n as nat, k, p as nat, q as nat) == Some(cw));
                    }
                    return Ok(Some(m));
                },
                None => {},
            }
            proof {
                assert(pair_word(f, w, sy, n as nat, k, p as nat, q as nat) is None);
                assert forall|p2: nat, q2: nat| p2 < q2 < n && (p2 < p || (p2 == p && q2 < q + 1))
                    implies #[trigger] pair_word(f, w, sy, n as nat, k, p2, q2) is None by {
                    if p2 == p && q2 == q {
                    }
                }
            }
            q = q + 1;
        }
        proof {
            assert forall|p2: nat, q2: nat| p2 < q2 < n && p2 < p + 1
                implies #[trigger] pair_word(f, w, sy, n as nat, k, p2, q2) is None by {
                if p2 == p {
                    assert(p2 == p && q2 < q);
                }
            }
        }
        p = p + 1;
    }
    Ok(None)
}

/// The polynomial with the syndromes as coefficients, the first syndrome the constant term.
pub fn syndrome_poly(syndromes: &[u64], field: GaloisField) -> (r: Result<Poly>)
    requires
        field.wf(),
        syndromes@.len() <= isize::MAX,
    ensures
        !all_below(syndromes@, field.q()) ==> r is Err,
        all_below(syndromes@, field.q()) ==> (r matches Ok(x) && x.wf() && x.field_view() == field
            && x.coeffs_view() == strip_leading(syndromes@.reverse())),
{
    let mut rev: Vec<u64> = Vec::new();
    let mut i: usize = syndromes.len();
    while i > 0
        invariant
            i <= syndromes@.len(),
            rev@ =~= syndromes@.reverse().subrange(0, (syndromes@.len() - i) as int),
        decreases i,
    {
        rev.push(syndromes[i - 1]);
        i = i - 1;
    }
    assert(rev@ =~= syndromes@.reverse());
    proof {
        if !all_below(syndromes@, field.q()) {
            let j = choose|j: int| 0 <= j < syndromes@.len() && !(syndromes@[j] < field.q());
            assert(rev@[syndromes@.len() - 1 - j] == syndromes@[j]);
        }
    }
    Poly::new(rev, field)
}

/// BCH code of length `n` and dimension `k` with designed distance `2t + 1`: generator
/// `prod_{i=1}^{2t} (x - alpha^i)`.
#[derive(Debug)]
pub struct Bch {
    field: GaloisField,
    n: usize,
    k: usize,
    t: usize,
    generator: Poly,
}

impl Bch {
    pub closed spec fn field_view(&self) -> GaloisField {
        self.field
    }

    pub closed spec fn n_view(&self) -> nat {
        self.n as nat
    }

    pub closed spec fn k_view(&self) -> nat {
        self.k as nat
    }

    pub closed spec fn t_view(&self) -> nat {
        self.t as nat
    }

    pub closed spec fn generator_view(&self) -> Seq<u64> {
        self.generator.coeffs_view()
    }

    /// A well-formed field, a generator over it, and `n < isize::MAX`.
    pub open spec fn wf(&self) -> bool {
        &&& self.field_view().wf()
        &&& self.n_view() < isize::MAX
        &&& self.generator_inv()
    }

    pub closed spec fn generator_inv(&self) -> bool {
        self.generator.wf() && self.generator.field_view().equiv(&self.field)
    }

    /// The BCH code over `field` with designed distance `2t + 1`.
    pub fn new(field: GaloisField, n: usize, k: usize, t: usize) -> (r: Result<Self>)
        requires
            field.wf(),
            n < isize::MAX,
            2 * t < isize::MAX,
        ensures
            r matches Ok(b) && b.wf() && b.field_view() == field && b.n_view() == n && b.k_view() == k
                && b.t_view() == t
                && b.generator_view() == gp_from_roots(consecutive_powers(field, (2 * t) as nat), (2 * t) as int, field.model()),
    {
        let generator = match generator_poly(&field, 2 * t) {
            Ok(g) => g,
            Err(e) => { return Err(e); },
        };
        Ok(Bch { field, n, k, t, generator })
    }

    pub fn t(&self) -> (r: usize)
        ensures
            r == self.t_view(),
    {
        self.t
    }

    /// The Reed-Solomon code with this code's field, length, dimension and generator.
    fn as_rs(&self) -> (r: ReedSolomon)
        requires
            self.wf(),
            self.k_view() < self.n_view(),
        ensures
            r.wf(),
            r.field_view().equiv(&self.field_view()),
            r.n_view() == self.n_view(),
            r.k_view() == self.k_view(),
            r.generator_view() == self.generator_view(),
    {
        let field = self.field.clone();
        proof { field.lemma_equiv_wf(&self.field); }
        let generator = self.generator.clone();
        proof { generator.field_view().lemma_equiv_wf(&self.field); }
        ReedSolomon { field, n: self.n, k: self.k, generator }
    }

    /// Systematic encoding as for Reed-Solomon codes, with this code's generator.
    pub fn encode(&self, message: &FieldArray) -> (r: Result<FieldArray>)
        requires
            self.wf(),
            self.k_view() < self.n_view(),
            message.wf(),
        ensures
            message.values_view().len() != self.k_view() ==> r == Err::<FieldArray, GaloisError>(GaloisError::LengthMismatch),
            message.values_view().len() == self.k_view() && all_below(message.values_view(), self.field_view().q())
                && !gp_is_zero(self.generator_view()) ==> (r matches Ok(c) && c.wf() && c.field_view().equiv(&self.field_view())
                && c.values_view() == encoded(self.field_view(), message.values_view(), self.n_view(), self.k_view(), self.generator_view())),
            message.values_view().len() == self.k_view() && !all_below(message.values_view(), self.field_view().q()) ==> r is Err,
    {
        if message.len() != self.k {
            return Err(GaloisError::LengthMismatch);
        }
        let rs = self.as_rs();
        proof { lemma_encoded_equiv(rs.field_view(), self.field_view(), message.values_view(), self.n_view(), self.k_view(), self.generator_view()); }
        rs.encode(message)
    }

    /// Decodes as for Reed-Solomon codes.
    pub fn decode(&self, received: &FieldArray) -> (r: Result<FieldArray>)
        requires
            self.wf(),
            self.k_view() < self.n_view(),
            received.wf(),
            all_below(received.values_view(), self.field_view().q()),
            self.n_view() <= 0x3fff_ffff,
        ensures
            received.values_view().len() != self.n_view() ==> r == Err::<FieldArray, GaloisError>(GaloisError::LengthMismatch),
            is_codeword(self.field_view(), received.values_view(), self.n_view(), self.k_view()) ==> (r matches Ok(m)
                && m.values_view() == received.values_view().subrange(self.n_view() - self.k_view(), self.n_view() as int)),
            r matches Ok(m) ==> m.wf() && m.field_view().equiv(&self.field_view())
                && is_decoding(self.field_view(), m.values_view(), self.n_view(), self.k_view()),
    {
        let rs = self.as_rs();
        proof {
            let c = received.values_view();
            let (n, k) = (self.n_view(), self.k_view());
            if is_codeword(self.field_view(), c, n, k) {
                assert forall|i: int| 1 <= i <= n - k implies #[trigger] syndrome_at(rs.field_view(), c, i as nat, n) == 0 by {
                    lemma_syndrome_equiv(self.field_view(), rs.field_view(), c, i as nat, n);
                }
                assert(is_codeword(rs.field_view(), c, n, k));
            }
        }
        let r = rs.decode(received);
        proof {
            if r is Ok {
                lemma_decoding_equiv(rs.field_view(), self.field_view(), r->Ok_0.values_view(), self.n_view(), self.k_view());
            }
        }
        r
    }
}

/// Encoding does not depend on which of two equivalent fields it is read over.
proof fn lemma_encoded_equiv(f1: GaloisField, f2: GaloisField, msg: Seq<u64>, n: nat, k: nat, gen: Seq<u64>)
    requires
        f1.equiv(&f2),
    ensures
        encoded(f1, msg, n, k, gen) == encoded(f2, msg, n, k, gen),
{
    f1.lemma_equiv_wf(&f2);
    assert(encoded(f1, msg, n, k, gen) =~= encoded(f2, msg, n, k, gen));
}

/// Syndromes do not depend on which of two equivalent fields they are read over.
proof fn lemma_syndrome_equiv(f1: GaloisField, f2: GaloisField, c: Seq<u64>, i: nat, upto: nat)
    requires
        f1.equiv(&f2),
    ensures
        syndrome_at(f1, c, i, upto) == syndrome_at(f2, c, i, upto),
    decreases upto,
{
    f1.lemma_equiv_wf(&f2);
    if upto > 0 {
        lemma_syndrome_equiv(f1, f2, c, i, (upto - 1) as nat);
    }
}

/// Decodings do not depend on which of two equivalent fields they are read over.
proof fn lemma_decoding_equiv(f1: GaloisField, f2: GaloisField, m: Seq<u64>, n: nat, k: nat)
    requires
        f1.equiv(&f2),
        is_decoding(f1, m, n, k),
    ensures
        is_decoding(f2, m, n, k),
{
    let c = choose|c: Seq<u64>| #[trigger] is_codeword(f1, c, n, k) && m == c.subrange(n - k, n as int);
    assert forall|i: int| 1 <= i <= n - k implies #[trigger] syndrome_at(f2, c, i as nat, n) == 0 by {
        lemma_syndrome_equiv(f1, f2, c, i as nat, n);
    }
    assert(is_codeword(f2, c, n, k));
}

} // verus!
