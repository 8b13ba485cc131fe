//! Powers of two and the bit-reversal permutation.
use vstd::prelude::*;
use vstd::arithmetic::div_mod::{
    lemma_fundamental_div_mod_converse,
    lemma_div_denominator,
    lemma_mod_breakdown,
};

verus! {

/// `2^k`.
pub open spec fn pow_two(k: nat) -> nat
    decreases k,
{
    if k == 0 {
        1
    } else {
        2 * pow_two((k - 1) as nat)
    }
}

/// The `k`-bit reversal of `x`: bit `t` of `x` becomes bit `k - 1 - t`.
pub open spec fn rev_bits(x: nat, k: nat) -> nat
    decreases k,
{
    if k == 0 {
        0
    } else {
        (x % 2) * pow_two((k - 1) as nat) + rev_bits(x / 2, (k - 1) as nat)
    }
}

/// The sequence `s` reordered so that position `i` holds `s[rev_bits(i, k)]`.
pub open spec fn bit_reversed<T>(s: Seq<T>, k: nat) -> Seq<T> {
    Seq::new(s.len(), |i: int| s[rev_bits(i as nat, k) as int])
}

pub proof fn lemma_pow_two_pos(k: nat)
    ensures
        pow_two(k) >= 1,
    decreases k,
{
    if k > 0 {
        lemma_pow_two_pos((k - 1) as nat);
    }
}

pub proof fn lemma_pow_two_mono(a: nat, b: nat)
    requires
        a <= b,
    ensures
        pow_two(a) <= pow_two(b),
    decreases b,
{
    if a < b {
        lemma_pow_two_mono(a, (b - 1) as nat);
        lemma_pow_two_pos((b - 1) as nat);
    }
}

pub proof fn lemma_pow_two_add(a: nat, b: nat)
    ensures
        pow_two(a + b) == pow_two(a) * pow_two(b),
    decreases b,
{
    if b > 0 {
        let b1 = (b - 1) as nat;
        lemma_pow_two_add(a, b1);
        assert(a + b1 == (a + b - 1) as nat);
        assert(pow_two(a + b) == 2 * pow_two(a + b1));
        assert(pow_two(a) * pow_two(b) == 2 * (pow_two(a) * pow_two((b - 1) as nat)))
            by (nonlinear_arith)
            requires
                pow_two(b) == 2 * pow_two((b - 1) as nat),
        ;
    } else {
        assert(pow_two(0) == 1);
        assert(pow_two(a) * 1 == pow_two(a));
    }
}

/// A `k`-bit reversal has at most `k` bits.
pub proof fn lemma_rev_bits_bound(x: nat, k: nat)
    ensures
        rev_bits(x, k) < pow_two(k),
    decreases k,
{
    if k > 0 {
        let p = pow_two((k - 1) as nat);
        lemma_rev_bits_bound(x / 2, (k - 1) as nat);
        if x % 2 == 0 {
            assert((x % 2) * p == 0);
        } else {
            assert((x % 2) * p == p);
        }
    }
}

/// Reversal peels the top bit of `x` into the bottom bit of the result.
proof fn lemma_rev_bits_top(x: nat, k: nat)
    requires
        x < pow_two(k + 1),
    ensures
        rev_bits(x, k + 1) == 2 * rev_bits(x % pow_two(k), k) + x / pow_two(k),
    decreases k,
{
    lemma_pow_two_pos(k);
    if k == 0 {
        assert(x % 2 == x);
        assert(rev_bits(x, 1) == (x % 2) * 1 + rev_bits(x / 2, 0));
    } else {
        let k1 = (k - 1) as nat;
        let p1 = pow_two(k1);
        let p = pow_two(k);
        lemma_pow_two_pos(k1);
        assert(p == 2 * p1);
        let h = x / 2;
        assert(h < p);
        lemma_rev_bits_top(h, k1);
        // x % p == 2 * ((x / 2) % p1) + x % 2
        lemma_mod_breakdown(x as int, 2, p1 as int);
        let y = x % p;
        let q = h % p1;
        assert(y == 2 * q + x % 2);
        lemma_fundamental_div_mod_converse(y as int, 2, q as int, (x % 2) as int);
        assert(y % 2 == x % 2);
        assert(y / 2 == q);
        lemma_div_denominator(x as int, 2, p1 as int);
        assert(h / p1 == x / p);
        assert(rev_bits(y, k) == (y % 2) * p1 + rev_bits(y / 2, k1));
        assert(rev_bits(x, k + 1) == (x % 2) * p + rev_bits(h, k));
        assert((x % 2) * p == 2 * ((x % 2) * p1)) by (nonlinear_arith)
            requires
                p == 2 * p1,
        ;
    }
}

/// Reversing twice gives back the index.
pub proof fn lemma_rev_bits_involution(x: nat, k: nat)
    requires
        x < pow_two(k),
    ensures
        rev_bits(rev_bits(x, k), k) == x,
    decreases k,
{
    if k > 0 {
        let k1 = (k - 1) as nat;
        let p1 = pow_two(k1);
        lemma_pow_two_pos(k1);
        let r = rev_bits(x / 2, k1);
        lemma_rev_bits_bound(x / 2, k1);
        let y = rev_bits(x, k);
        assert(y == (x % 2) * p1 + r);
        lemma_rev_bits_bound(x, k);
        lemma_rev_bits_top(y, k1);
        lemma_fundamental_div_mod_converse(y as int, p1 as int, (x % 2) as int, r as int);
        lemma_rev_bits_involution(x / 2, k1);
    }
}

/// The bit-reversal permutation undoes itself: applying it twice restores
/// every sequence whose length is `2^k`.
pub proof fn lemma_bit_reversed_twice<T>(s: Seq<T>, k: nat)
    requires
        s.len() == pow_two(k),
    ensures
        bit_reversed(bit_reversed(s, k), k) == s,
{
    let t = bit_reversed(s, k);
    assert forall|i: int| 0 <= i < s.len() implies #[trigger] bit_reversed(t, k)[i] == s[i] by {
        lemma_rev_bits_bound(i as nat, k);
        lemma_rev_bits_involution(i as nat, k);
    }
    assert(bit_reversed(t, k) =~= s);
}

/// Computes `rev_bits(x, log)` by moving the bits of `x` one at a time.
pub fn reverse_bits(x: usize, log: u32) -> (r: usize)
    requires
        pow_two(log as nat) <= usize::MAX,
    ensures
        r == rev_bits(x as nat, log as nat),
{
    let mut r: usize = 0;
    let mut y: usize = x;
    let mut t: u32 = 0;
    while t < log
        invariant
            t <= log,
            pow_two(log as nat) <= usize::MAX,
            r < pow_two(t as nat),
            rev_bits(x as nat, log as nat) == r * pow_two((log - t) as nat) + rev_bits(
                y as nat,
                (log - t) as nat,
            ),
        decreases log - t,
    {
        proof {
            let l = (log - t) as nat;
            let l1 = (l - 1) as nat;
            assert(pow_two(l) == 2 * pow_two(l1));
            assert(r * pow_two(l) == (2 * r) * pow_two(l1)) by (nonlinear_arith)
                requires
                    pow_two(l) == 2 * pow_two(l1),
            ;
            assert(((2 * r + y % 2) as nat) * pow_two(l1) == (2 * r) * pow_two(l1) + (y % 2)
                * pow_two(l1)) by (nonlinear_arith);
            lemma_pow_two_mono((t + 1) as nat, log as nat);
        }
        r = 2 * r + y % 2;
        y = y / 2;
        t = t + 1;
    }
    assert(t == log);
    assert(pow_two(0) == 1 && rev_bits(y as nat, 0) == 0);
    assert(r * pow_two(0) == r);
    r
}

/// Reorders `input` in place by the `log`-bit reversal of each index,
/// swapping positions `i` and `rev(i)` once for each pair with `i < rev(i)`.
pub fn shuffle_coeffs<T: Copy>(input: &mut Vec<T>, n: usize, log: u32)
    requires
        old(input).len() == n,
        n == pow_two(log as nat),
    ensures
        final(input)@ == bit_reversed(old(input)@, log as nat),
{
    let ghost orig = input@;
    let mut i: usize = 0;
    while i < n
        invariant
            input.len() == n,
            orig.len() == n,
            n == pow_two(log as nat),
            i <= n,
            forall|p: int|
                0 <= p < n ==> #[trigger] input@[p] == if p < i || rev_bits(p as nat, log as nat)
                    < i {
                    orig[rev_bits(p as nat, log as nat) as int]
                } else {
                    orig[p]
                },
        decreases n - i,
    {
        let j = reverse_bits(i, log);
        proof {
            lemma_rev_bits_bound(i as nat, log as nat);
            lemma_rev_bits_involution(i as nat, log as nat);
            assert forall|p: int| 0 <= p < n implies #[trigger] rev_bits(p as nat, log as nat) < n
                && rev_bits(rev_bits(p as nat, log as nat), log as nat) == p by {
                lemma_rev_bits_bound(p as nat, log as nat);
                lemma_rev_bits_involution(p as nat, log as nat);
            }
        }
        if i < j {
            let a = input[i];
            let b = input[j];
            input[i] = b;
            input[j] = a;
        }
        i = i + 1;
    }
    assert(input@ =~= bit_reversed(orig, log as nat));
}

} // verus!
