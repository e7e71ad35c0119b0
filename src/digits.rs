//! Powers of four, the padded transform length and base-4 digit reversal.
use vstd::arithmetic::div_mod::{lemma_fundamental_div_mod, lemma_fundamental_div_mod_converse};
use vstd::prelude::*;

verus! {

/// Four to the power `e`.
pub open spec fn pow4(e: nat) -> nat
    decreases e,
{
    if e == 0 {
        1
    } else {
        4 * pow4((e - 1) as nat)
    }
}

/// `e` is the smallest exponent with `4^e >= n`.
pub open spec fn is_padded_exponent(n: nat, e: nat) -> bool {
    &&& pow4(e) >= n
    &&& (e == 0 || pow4((e - 1) as nat) < n)
}

/// The base-4 logarithm of `n`, rounded up (zero for `n <= 1`).
pub open spec fn log4_ceil(n: nat) -> nat
    decreases n,
{
    if n <= 1 {
        0
    } else {
        1 + log4_ceil(((n + 3) / 4) as nat)
    }
}

/// The length to which an input of length `n` is padded: `4^⌈log4 n⌉`.
pub open spec fn padded_len_of(n: nat) -> nat {
    pow4(log4_ceil(n))
}

pub proof fn lemma_pow4_positive(e: nat)
    ensures
        pow4(e) >= 1,
    decreases e,
{
    if e > 0 {
        lemma_pow4_positive((e - 1) as nat);
    }
}

pub proof fn lemma_pow4_monotonic(a: nat, b: nat)
    requires
        a <= b,
    ensures
        pow4(a) <= pow4(b),
    decreases b,
{
    if a < b {
        lemma_pow4_monotonic(a, (b - 1) as nat);
        lemma_pow4_positive((b - 1) as nat);
    }
}

/// `pow4(a + b) == pow4(a) * pow4(b)`.
pub proof fn lemma_pow4_add(a: nat, b: nat)
    ensures
        pow4(a + b) == pow4(a) * pow4(b),
    decreases b,
{
    if b > 0 {
        lemma_pow4_add(a, (b - 1) as nat);
        assert(pow4(a + b) == 4 * pow4((a + b - 1) as nat));
        assert(pow4(a) * pow4(b) == pow4(a) * (4 * pow4((b - 1) as nat)));
        assert(pow4(a) * (4 * pow4((b - 1) as nat)) == 4 * (pow4(a) * pow4((b - 1) as nat)))
            by (nonlinear_arith);
    } else {
        assert(pow4(0) == 1);
        assert(a + b == a);
    }
}

proof fn lemma_pow4_32()
    ensures
        pow4(32) == 0x1_0000_0000_0000_0000,
{
    reveal_with_fuel(pow4, 9);
    assert(pow4(8) == 0x1_0000);
    lemma_pow4_add(8, 8);
    assert(pow4(16) == 0x1_0000 * 0x1_0000);
    lemma_pow4_add(16, 16);
    assert(pow4(32) == 0x1_0000_0000 * 0x1_0000_0000);
}

/// The rounded-up logarithm is the smallest exponent whose power covers `n`.
pub proof fn lemma_log4_ceil_is_padded_exponent(n: nat)
    ensures
        is_padded_exponent(n, log4_ceil(n)),
    decreases n,
{
    if n > 1 {
        let m = ((n + 3) / 4) as nat;
        lemma_log4_ceil_is_padded_exponent(m);
        let l = log4_ceil(m);
        assert(pow4(l + 1) == 4 * pow4(l));
        if l > 0 {
            assert(pow4(l) == 4 * pow4((l - 1) as nat));
        }
    }
}

/// Only one exponent is the padded exponent of a given length.
pub proof fn lemma_padded_exponent_unique(n: nat, a: nat, b: nat)
    requires
        is_padded_exponent(n, a),
        is_padded_exponent(n, b),
    ensures
        a == b,
{
    if a < b {
        lemma_pow4_monotonic(a, (b - 1) as nat);
    } else if b < a {
        lemma_pow4_monotonic(b, (a - 1) as nat);
    }
}

/// The exponent of the smallest power of four that is at least `n`
/// (zero for `n <= 1`).
pub fn padded_exponent(n: usize) -> (e: u32)
    requires
        padded_len_of(n as nat) <= usize::MAX,
    ensures
        e == log4_ceil(n as nat),
        is_padded_exponent(n as nat, e as nat),
{
    proof {
        lemma_log4_ceil_is_padded_exponent(n as nat);
    }
    let mut e: u32 = 0;
    let mut len: usize = 1;
    while len < n
        invariant
            padded_len_of(n as nat) <= usize::MAX,
            is_padded_exponent(n as nat, log4_ceil(n as nat)),
            len == pow4(e as nat),
            e <= log4_ceil(n as nat),
            e == 0 || pow4((e - 1) as nat) < n,
        decreases log4_ceil(n as nat) - e,
    {
        proof {
            if e == log4_ceil(n as nat) {
                assert(false);
            }
            lemma_pow4_monotonic(e as nat + 1, log4_ceil(n as nat));
            if log4_ceil(n as nat) >= 32 {
                lemma_pow4_monotonic(32, log4_ceil(n as nat));
                lemma_pow4_32();
            }
        }
        len = len * 4;
        e = e + 1;
    }
    proof {
        lemma_padded_exponent_unique(n as nat, e as nat, log4_ceil(n as nat));
    }
    e
}

/// The length to which the transform pads an input of length `n`: the
/// smallest power of four that is at least `n`.
pub fn padded_len(n: usize) -> (r: usize)
    requires
        padded_len_of(n as nat) <= usize::MAX,
    ensures
        r == padded_len_of(n as nat),
        r >= n,
        r >= 1,
{
    let e = padded_exponent(n);
    let r = pow4_exec(e);
    proof {
        lemma_pow4_positive(e as nat);
    }
    r
}

/// The padded length of `n`, or `None` when it does not fit a `usize`.
pub fn checked_padded_len(n: usize) -> (r: Option<usize>)
    ensures
        r matches Some(l) ==> l == padded_len_of(n as nat),
        r is None <==> padded_len_of(n as nat) > usize::MAX,
{
    proof {
        lemma_log4_ceil_is_padded_exponent(n as nat);
    }
    let ghost mut e: nat = 0;
    let mut len: usize = 1;
    while len < n
        invariant
            is_padded_exponent(n as nat, log4_ceil(n as nat)),
            len == pow4(e),
            len >= 1,
            e == 0 || pow4((e - 1) as nat) < n,
        decreases usize::MAX - len,
    {
        proof {
            if log4_ceil(n as nat) <= e {
                lemma_pow4_monotonic(log4_ceil(n as nat), e);
            }
            lemma_pow4_monotonic(e + 1, log4_ceil(n as nat));
        }
        if len > usize::MAX / 4 {
            return None;
        }
        len = len * 4;
        proof {
            e = e + 1;
        }
    }
    proof {
        lemma_padded_exponent_unique(n as nat, e, log4_ceil(n as nat));
    }
    Some(len)
}

/// Four to the power `e`, where that fits a `usize`.
pub fn pow4_exec(e: u32) -> (r: usize)
    requires
        pow4(e as nat) <= usize::MAX,
    ensures
        r == pow4(e as nat),
{
    let mut r: usize = 1;
    let mut k: u32 = 0;
    while k < e
        invariant
            k <= e,
            r == pow4(k as nat),
            pow4(e as nat) <= usize::MAX,
        decreases e - k,
    {
        proof {
            lemma_pow4_monotonic(k as nat + 1, e as nat);
        }
        r = r * 4;
        k = k + 1;
    }
    r
}

/// The lowest `d` base-4 digits of `i` read from the least significant one
/// up, appended below the digits already in `acc`.
pub open spec fn rev4_from(i: nat, d: nat, acc: nat) -> nat
    decreases d,
{
    if d == 0 {
        acc
    } else {
        rev4_from(i / 4, (d - 1) as nat, acc * 4 + i % 4)
    }
}

/// `i` with its lowest `d` base-4 digits written in reverse order.
pub open spec fn rev4(i: nat, d: nat) -> nat {
    rev4_from(i, d, 0)
}

/// Reverses the lowest `d` base-4 digits of `i`.
pub fn reverse_digits(i: usize, d: u32) -> (r: usize)
    requires
        pow4(d as nat) <= usize::MAX,
    ensures
        r == rev4(i as nat, d as nat),
        r < pow4(d as nat),
{
    let mut org: usize = i;
    let mut rev: usize = 0;
    let mut k: u32 = 0;
    while k < d
        invariant
            k <= d,
            pow4(d as nat) <= usize::MAX,
            rev4_from(org as nat, (d - k) as nat, rev as nat) == rev4(i as nat, d as nat),
            rev < pow4(k as nat),
        decreases d - k,
    {
        proof {
            lemma_pow4_monotonic(k as nat + 1, d as nat);
        }
        rev = rev * 4 + org % 4;
        org = org / 4;
        k = k + 1;
    }
    rev
}

/// Digits already read stay above the ones still to come.
proof fn lemma_rev4_from(i: nat, d: nat, acc: nat)
    ensures
        rev4_from(i, d, acc) == acc * pow4(d) + rev4(i, d),
    decreases d,
{
    if d > 0 {
        let e = (d - 1) as nat;
        lemma_rev4_from(i / 4, e, acc * 4 + i % 4);
        lemma_rev4_from(i / 4, e, i % 4);
        assert(rev4_from(i, d, acc) == rev4_from(i / 4, e, acc * 4 + i % 4));
        assert(rev4(i, d) == rev4_from(i / 4, e, i % 4));
        assert(pow4(d) == 4 * pow4(e));
        assert((acc * 4 + i % 4) * pow4(e) == acc * (4 * pow4(e)) + (i % 4) * pow4(e))
            by (nonlinear_arith);
    } else {
        assert(pow4(0) == 1);
        assert(rev4(i, 0) == 0);
    }
}

/// The lowest digit of `i` becomes the highest of its reversal.
proof fn lemma_rev4_step(i: nat, d: nat)
    ensures
        rev4(i, d + 1) == (i % 4) * pow4(d) + rev4(i / 4, d),
        rev4(i, d) < pow4(d),
    decreases d,
{
    lemma_rev4_from(i / 4, d, i % 4);
    assert(rev4(i, d + 1) == rev4_from(i / 4, d, i % 4));
    if d == 0 {
        assert(rev4(i, 0) == 0);
    } else {
        let e = (d - 1) as nat;
        lemma_rev4_step(i, e);
        lemma_rev4_step(i / 4, e);
        assert(rev4(i, e + 1) == rev4(i, d));
        assert((i % 4) * pow4(e) + pow4(e) <= 4 * pow4(e)) by (nonlinear_arith)
            requires
                i % 4 < 4,
        ;
    }
}

/// The highest digit of `i` becomes the lowest of its reversal.
proof fn lemma_rev4_top(i: nat, d: nat)
    requires
        i < pow4(d + 1),
    ensures
        rev4(i, d + 1) == rev4(i % pow4(d), d) * 4 + i / pow4(d),
    decreases d,
{
    lemma_rev4_step(i, d);
    if d == 0 {
        let pd = pow4(d);
        assert(pow4(d + 1) == 4 * pd && pd == 1);
        assert(rev4(i % pd, d) == 0 && rev4(i / 4, d) == 0);
        assert((i % 4) * pd == i && i / pd == i) by (nonlinear_arith)
            requires
                pd == 1,
                i < 4,
        ;
    } else {
        let e = (d - 1) as nat;
        let p = pow4(e);
        let q = i / 4;
        let a = i % 4;
        lemma_pow4_positive(e);
        assert(pow4(d) == 4 * p);
        assert(q < pow4(d)) by {
            assert(pow4(d + 1) == 4 * pow4(d));
        };
        lemma_rev4_top(q, e);
        lemma_fundamental_div_mod(q as int, p as int);
        lemma_fundamental_div_mod(i as int, 4);
        let qq: int = (q / p) as int;
        let qr: int = (q % p) as int;
        assert(i == qq * (4 * p) + (4 * qr + a)) by (nonlinear_arith)
            requires
                i == 4 * q + a,
                q == p * qq + qr,
        ;
        assert(0 <= qr < p);
        lemma_fundamental_div_mod_converse(
            i as int,
            (4 * p) as int,
            (q / p) as int,
            (4 * (q % p) + a) as int,
        );
        let m = i % pow4(d);
        assert(m == 4 * (q % p) + a);
        lemma_fundamental_div_mod_converse(m as int, 4, (q % p) as int, a as int);
        lemma_rev4_step(m, e);
        assert(rev4(m, e + 1) == rev4(m, d));
        assert(rev4(m, d) * 4 + i / pow4(d) == (a * p + rev4(q % p, e)) * 4 + q / p);
        let r: int = rev4(q % p, e) as int;
        assert((a * p + r) * 4 == a * (4 * p) + r * 4) by (nonlinear_arith);
        assert(rev4(q, e + 1) == rev4(q, d));
        assert(a * pow4(d) == a * (4 * p));
    }
}

/// Reversing the lowest `d` base-4 digits twice gives back every index below
/// `4^d`: the reversal is a permutation of `0..4^d` and its own inverse.
pub proof fn lemma_rev4_involution(i: nat, d: nat)
    requires
        i < pow4(d),
    ensures
        rev4(i, d) < pow4(d),
        rev4(rev4(i, d), d) == i,
    decreases d,
{
    lemma_rev4_step(i, d);
    if d == 0 {
        assert(i == 0);
        assert(rev4(0, 0) == 0);
        assert(rev4(i, d + 1) == (i % 4) * pow4(d) + rev4(i / 4, d));
        assert(i % pow4(d) == 0);
        assert(i / pow4(d) == i);
        assert(rev4(i % pow4(d), d) == 0);
        assert(rev4(i / 4, d) == 0);
        let pd = pow4(d);
        assert((i % 4) * pd == i) by (nonlinear_arith)
            requires
                pd == 1,
                i % 4 == i,
        ;
    } else {
        let e = (d - 1) as nat;
        let q = i / 4;
        let a = i % 4;
        assert(pow4(d) == 4 * pow4(e));
        lemma_rev4_step(i, e);
        assert(rev4(i, e + 1) == rev4(i, d));
        lemma_rev4_involution(q, e);
        let j = rev4(i, d);
        assert(j == a * pow4(e) + rev4(q, e));
        lemma_rev4_top(j, e);
        lemma_fundamental_div_mod_converse(j as int, pow4(e) as int, a as int, rev4(q, e) as int);
        assert(rev4(j, e + 1) == rev4(j, d));
    }
}

/// The reversal of `e >= 2` digits, split as the transform's reordering reads
/// it: the index `i·4 + start·4^(e-1) + end` with `i < 4^(e-2)` and `start`,
/// `end < 4` goes to `rev4(i, e-2)·4 + start + end·4^(e-1)`. The two lowest
/// and the highest digit form a 4×4 transposition, and the digits between
/// them are reversed.
pub proof fn lemma_rev4_split(i: nat, start: nat, end: nat, e: nat)
    requires
        e >= 2,
        i < pow4((e - 2) as nat),
        start < 4,
        end < 4,
    ensures
        rev4(i * 4 + start * pow4((e - 1) as nat) + end, e) == rev4(i, (e - 2) as nat) * 4 + start
            + end * pow4((e - 1) as nat),
{
    let d = (e - 2) as nat;
    let p = pow4(d);
    let m = pow4((e - 1) as nat);
    assert(m == 4 * p);
    assert(pow4(d + 1) == 4 * p);
    lemma_pow4_positive(d);
    let x = i * 4 + start * m + end;
    let y = i + start * p;
    assert(x == y * 4 + end) by (nonlinear_arith)
        requires
            x == i * 4 + start * m + end,
            y == i + start * p,
            m == 4 * p,
    ;
    assert(y < 4 * p) by (nonlinear_arith)
        requires
            y == i + start * p,
            i < p,
            start < 4,
    ;
    lemma_fundamental_div_mod_converse(x as int, 4, y as int, end as int);
    lemma_rev4_step(x, (e - 1) as nat);
    assert(rev4(x, (e - 1) as nat + 1) == rev4(x, e));
    lemma_fundamental_div_mod_converse(y as int, p as int, start as int, i as int);
    lemma_rev4_top(y, d);
    assert(rev4(y, d + 1) == rev4(y, (e - 1) as nat));
}

} // verus!
