//! The radix-4 transform: zero padding, the butterfly network and the
//! digit-reversal reordering of its output.
use vstd::prelude::*;

use vstd::arithmetic::div_mod::lemma_fundamental_div_mod_converse;

use crate::digits::{
    is_padded_exponent, lemma_log4_ceil_is_padded_exponent, lemma_padded_exponent_unique,
    lemma_pow4_add, lemma_pow4_positive, lemma_rev4_involution, log4_ceil, padded_exponent,
    padded_len_of, pow4, pow4_exec, rev4, reverse_digits,
};

verus! {

/// A value that the transform can run on: a complex number in some encoding.
///
/// The transform needs an additive zero, addition, the two rotations by a
/// quarter and a half turn, and the twiddle rotation by `-2π·k/n`. Each
/// operation is a function of its arguments, named by a spec function of the
/// implementing type.
pub trait FourierValue: Copy + Sized {
    /// The additive zero.
    spec fn spec_zero() -> Self;

    /// The sum of `self` and `rhs`.
    spec fn spec_plus(self, rhs: Self) -> Self;

    /// `self` times `-1`.
    spec fn spec_toggle_sign(self) -> Self;

    /// `self` times the imaginary unit.
    spec fn spec_prod_i(self) -> Self;

    /// `self` times `exp(-2πi·k/n)`.
    spec fn spec_rotate(self, k: usize, n: usize) -> Self;

    /// The additive zero, used to pad the input.
    fn zero() -> (r: Self)
        ensures
            r == Self::spec_zero(),
    ;

    /// The sum of `self` and `rhs`.
    fn plus(self, rhs: Self) -> (r: Self)
        ensures
            r == self.spec_plus(rhs),
    ;

    /// `self` times `-1`.
    fn toggle_sign(self) -> (r: Self)
        ensures
            r == self.spec_toggle_sign(),
    ;

    /// `self` times the imaginary unit.
    fn prod_i(self) -> (r: Self)
        ensures
            r == self.spec_prod_i(),
    ;

    /// `self` times `exp(-2πi·k/n)`.
    fn rotate(self, k: usize, n: usize) -> (r: Self)
        ensures
            r == self.spec_rotate(k, n),
    ;
}

/// `x` followed by copies of `zero` up to length `len`.
pub open spec fn pad_spec<T>(x: Seq<T>, zero: T, len: nat) -> Seq<T> {
    Seq::new(len, |i: int| if i < x.len() { x[i] } else { zero })
}

/// `x` after the 4-point butterfly on the entries `base + m·step`
/// (`m < 4`), with the twiddle factors of offset `p` in a group of `4·step`.
pub open spec fn butterfly_spec<T: FourierValue>(x: Seq<T>, base: int, step: int, p: int) -> Seq<T> {
    let a = x[base];
    let b = x[base + step];
    let c = x[base + 2 * step];
    let d = x[base + 3 * step];
    let quad = (4 * step) as usize;
    let w1 = a.spec_plus(b).spec_plus(c).spec_plus(d);
    let w2 = a.spec_plus(b.spec_toggle_sign().spec_prod_i()).spec_plus(c.spec_toggle_sign()).spec_plus(
        d.spec_prod_i(),
    );
    let w3 = a.spec_plus(b.spec_toggle_sign()).spec_plus(c).spec_plus(d.spec_toggle_sign());
    let w4 = a.spec_plus(b.spec_prod_i()).spec_plus(c.spec_toggle_sign()).spec_plus(
        d.spec_toggle_sign().spec_prod_i(),
    );
    x.update(base, w1).update(base + step, w2.spec_rotate(p as usize, quad)).update(
        base + 2 * step,
        w3.spec_rotate((2 * p) as usize, quad),
    ).update(base + 3 * step, w4.spec_rotate((3 * p) as usize, quad))
}

/// `x` after the first `t` butterflies of a stage with stride `large_p`,
/// taken group by group and, within a group, by offset.
pub open spec fn stage_prefix<T: FourierValue>(x: Seq<T>, large_p: nat, t: nat) -> Seq<T>
    decreases t,
{
    if t == 0 || large_p == 0 {
        x
    } else {
        let j = (t - 1) / (large_p as int);
        let p = (t - 1) % (large_p as int);
        butterfly_spec(stage_prefix(x, large_p, (t - 1) as nat), j * 4 * large_p + p, large_p as int, p)
    }
}

/// `x` after a whole stage with stride `large_p`: one butterfly for each
/// offset below `large_p` in each group of `4·large_p` entries.
pub open spec fn stage_spec<T: FourierValue>(x: Seq<T>, large_p: nat) -> Seq<T> {
    stage_prefix(x, large_p, x.len() / 4)
}

/// `x`, of length `4^e`, after the first `s` stages of the network; stage
/// `s` has stride `4^(e-s)`.
pub open spec fn stages_spec<T: FourierValue>(x: Seq<T>, e: nat, s: nat) -> Seq<T>
    decreases s,
{
    if s == 0 {
        x
    } else {
        stage_spec(stages_spec(x, e, (s - 1) as nat), pow4((e - s) as nat))
    }
}

/// `x`, of length `4^e`, reordered by base-4 digit reversal.
pub open spec fn reorder_spec<T>(x: Seq<T>, e: nat) -> Seq<T> {
    Seq::new(x.len(), |k: int| x[rev4(k as nat, e) as int])
}

/// The spectrum of `x`: padded with the zero to `4^e` for the smallest such
/// `e`, run through the `e` stages, and reordered.
pub open spec fn spectrum_spec<T: FourierValue>(x: Seq<T>) -> Seq<T> {
    let e = log4_ceil(x.len());
    reorder_spec(stages_spec(pad_spec(x, T::spec_zero(), pow4(e)), e, e), e)
}

/// `data` followed by copies of `zero` up to length `len`.
pub fn zero_pad<T: Copy>(data: &Vec<T>, zero: T, len: usize) -> (r: Vec<T>)
    requires
        data.len() <= len,
    ensures
        r.len() == len,
        forall|i: int| 0 <= i < data.len() ==> r[i] == data[i],
        forall|i: int| data.len() <= i < len ==> r[i] == zero,
        r@ == pad_spec(data@, zero, len as nat),
{
    let mut r: Vec<T> = Vec::with_capacity(len);
    let mut i: usize = 0;
    while i < len
        invariant
            i <= len,
            data.len() <= len,
            r.len() == i,
            forall|k: int| 0 <= k < i && k < data.len() ==> r[k] == data[k],
            forall|k: int| data.len() <= k < i ==> r[k] == zero,
        decreases len - i,
    {
        if i < data.len() {
            r.push(data[i]);
        } else {
            r.push(zero);
        }
        i = i + 1;
    }
    assert(r@ =~= pad_spec(data@, zero, len as nat));
    r
}

/// Reorders `data`, of length `4^e`, by base-4 digit reversal: entry `k` of
/// the result is entry `rev4(k, e)` of `data`, and entry `j` of `data` lands
/// at `rev4(j, e)`.
pub fn digit_reversal<T: Copy>(data: &Vec<T>, e: u32) -> (r: Vec<T>)
    requires
        data.len() == pow4(e as nat),
    ensures
        r.len() == data.len(),
        forall|k: int| 0 <= k < r.len() ==> r[k] == data[rev4(k as nat, e as nat) as int],
        forall|j: int| 0 <= j < data.len() ==> r[rev4(j as nat, e as nat) as int] == data[j],
        r@ == reorder_spec(data@, e as nat),
{
    let len = data.len();
    let mut r: Vec<T> = Vec::with_capacity(len);
    let mut k: usize = 0;
    while k < len
        invariant
            k <= len,
            len == data.len(),
            len == pow4(e as nat),
            r.len() == k,
            forall|j: int| 0 <= j < k ==> r[j] == data[rev4(j as nat, e as nat) as int],
        decreases len - k,
    {
        let src = reverse_digits(k, e);
        r.push(data[src]);
        k = k + 1;
    }
    assert forall|j: int| 0 <= j < data.len() implies r[rev4(j as nat, e as nat) as int]
        == data[j] by {
        lemma_rev4_involution(j as nat, e as nat);
    }
    assert(r@ =~= reorder_spec(data@, e as nat));
    r
}

/// One 4-point butterfly on the entries `base`, `base + step`,
/// `base + 2·step` and `base + 3·step`, with the twiddle factors of offset
/// `p` in a group of `quad == 4·step`.
fn butterfly<T: FourierValue>(data: &mut Vec<T>, base: usize, step: usize, p: usize, quad: usize)
    requires
        base + 3 * step < old(data).len(),
        p < step,
        quad == 4 * step,
    ensures
        final(data)@ == butterfly_spec(old(data)@, base as int, step as int, p as int),
{
    let a = data[base];
    let b = data[base + step];
    let c = data[base + 2 * step];
    let d = data[base + 3 * step];

    let w1 = a.plus(b).plus(c).plus(d);
    let w2 = a.plus(b.toggle_sign().prod_i()).plus(c.toggle_sign()).plus(d.prod_i());
    let w3 = a.plus(b.toggle_sign()).plus(c).plus(d.toggle_sign());
    let w4 = a.plus(b.prod_i()).plus(c.toggle_sign()).plus(d.toggle_sign().prod_i());

    data.set(base, w1);
    data.set(base + step, w2.rotate(p, quad));
    data.set(base + 2 * step, w3.rotate(2 * p, quad));
    data.set(base + 3 * step, w4.rotate(3 * p, quad));
    assert(data@ =~= butterfly_spec(old(data)@, base as int, step as int, p as int));
}

/// One stage of the network: `blocks` groups of `4·large_p` entries, each
/// group transformed by `large_p` butterflies.
fn butterfly_stage<T: FourierValue>(data: &mut Vec<T>, blocks: usize, large_p: usize)
    requires
        blocks >= 1,
        old(data).len() == blocks * (4 * large_p),
    ensures
        final(data).len() == old(data).len(),
        final(data)@ == stage_spec(old(data)@, large_p as nat),
{
    assert(4 * large_p <= blocks * (4 * large_p)) by (nonlinear_arith)
        requires
            blocks >= 1,
    ;
    let ghost x0 = data@;
    let quad = 4 * large_p;
    let mut j: usize = 0;
    while j < blocks
        invariant
            j <= blocks,
            quad == 4 * large_p,
            data.len() == blocks * quad,
            data@ == stage_prefix(x0, large_p as nat, (j * large_p) as nat),
        decreases blocks - j,
    {
        assert(j * quad + quad <= blocks * quad) by (nonlinear_arith)
            requires
                j < blocks,
        ;
        let shift = j * quad;
        let mut p: usize = 0;
        while p < large_p
            invariant
                p <= large_p,
                j < blocks,
                quad == 4 * large_p,
                shift == j * quad,
                shift + quad <= blocks * quad,
                data.len() == blocks * quad,
                data@ == stage_prefix(x0, large_p as nat, (j * large_p + p) as nat),
            decreases large_p - p,
        {
            proof {
                let t = j * large_p + p;
                lemma_fundamental_div_mod_converse(t, large_p as int, j as int, p as int);
                assert(j * 4 * large_p == j * (4 * large_p)) by (nonlinear_arith);
                assert((t + 1) as nat - 1 == t);
            }
            butterfly(data, shift + p, large_p, p, quad);
            p = p + 1;
        }
        assert(j * large_p + large_p == (j + 1) * large_p) by (nonlinear_arith);
        j = j + 1;
    }
    assert(x0.len() / 4 == blocks * large_p) by (nonlinear_arith)
        requires
            x0.len() == blocks * (4 * large_p),
    ;
}

/// The discrete Fourier transform of `input`, zero-padded to the smallest
/// power of four at least as long, in natural frequency order and without
/// normalisation.
pub fn fft<T: FourierValue>(input: &Vec<T>) -> (r: Vec<T>)
    requires
        padded_len_of(input.len() as nat) <= usize::MAX,
    ensures
        r@ == spectrum_spec(input@),
        r.len() == padded_len_of(input.len() as nat),
        r.len() >= input.len(),
        input.len() >= 1 ==> r.len() < 4 * input.len(),
        input.len() == 0 ==> r@ == seq![T::spec_zero()],
        input.len() == 1 ==> r@ == input@,
{
    let e = padded_exponent(input.len());
    let length = pow4_exec(e);
    let data0 = zero_pad(input, T::zero(), length);
    let ghost padded = data0@;
    let mut data = data0;

    let mut blocks: usize = 1;
    let mut large_p: usize = length / 4;
    let ghost mut s: nat = 0;
    proof {
        if e > 0 {
            assert(pow4(e as nat) == 4 * pow4((e - 1) as nat));
        }
    }
    while large_p > 0
        invariant
            data.len() == length,
            length == pow4(e as nat),
            s <= e,
            blocks == pow4(s),
            s < e ==> large_p == pow4((e - s - 1) as nat),
            s == e ==> large_p == 0,
            data@ == stages_spec(padded, e as nat, s),
        decreases large_p,
    {
        proof {
            lemma_pow4_add(s + 1, (e - s - 1) as nat);
            assert(pow4(s + 1) == 4 * pow4(s));
            assert(pow4(s) * (4 * pow4((e - s - 1) as nat)) == (4 * pow4(s)) * pow4(
                (e - s - 1) as nat,
            )) by (nonlinear_arith);
            lemma_pow4_positive((e - s - 1) as nat);
            lemma_pow4_positive(s);
            assert(pow4(s + 1) <= pow4(e as nat)) by (nonlinear_arith)
                requires
                    pow4(e as nat) == pow4(s + 1) * pow4((e - s - 1) as nat),
                    pow4((e - s - 1) as nat) >= 1,
            ;
            if s + 1 < e {
                assert(pow4((e - s - 1) as nat) == 4 * pow4((e - s - 2) as nat));
            } else {
                assert(pow4(0) == 1);
            }
            assert((e - (s + 1)) as nat == (e - s - 1) as nat);
        }
        butterfly_stage(&mut data, blocks, large_p);
        blocks = blocks * 4;
        large_p = large_p / 4;
        proof {
            s = s + 1;
        }
    }

    proof {
        if s < e {
            lemma_pow4_positive((e - s - 1) as nat);
        }
        assert(data@ == stages_spec(padded, e as nat, e as nat));
    }
    let r = digit_reversal(&data, e);
    proof {
        let n = input.len() as nat;
        lemma_log4_ceil_is_padded_exponent(n);
        if n >= 1 && e > 0 {
            assert(pow4(e as nat) == 4 * pow4((e - 1) as nat));
        }
        if n <= 1 {
            assert(e == 0);
            assert(rev4(0, 0) == 0);
            assert(pow4(0) == 1);
            if n == 1 {
                assert(r@ =~= input@);
            } else {
                assert(r@ =~= seq![T::spec_zero()]);
            }
        }
    }
    r
}

/// Padding the input with zeros up to the transform length first leaves the
/// spectrum as it is.
pub proof fn lemma_spectrum_of_zero_padded<T: FourierValue>(x: Seq<T>)
    ensures
        spectrum_spec(pad_spec(x, T::spec_zero(), padded_len_of(x.len()))) == spectrum_spec(x),
{
    let n = x.len();
    let e = log4_ceil(n);
    let len = pow4(e);
    let y = pad_spec(x, T::spec_zero(), len);
    lemma_log4_ceil_is_padded_exponent(n);
    lemma_log4_ceil_is_padded_exponent(len);
    if e > 0 {
        assert(pow4(e) == 4 * pow4((e - 1) as nat));
        lemma_pow4_positive((e - 1) as nat);
    }
    assert(is_padded_exponent(len, e));
    lemma_padded_exponent_unique(len, e, log4_ceil(len));
    assert(pad_spec(y, T::spec_zero(), len) =~= y);
}

} // verus!
