//! The iterative transform: bit-reversal permutation followed by butterfly
//! passes of doubling width. The arithmetic on samples is supplied by the
//! caller: `bf(a, b, w)` returns the pair `(a + w * b, a - w * b)`.
use vstd::prelude::*;
use crate::bits::{
    pow_two,
    bit_reversed,
    shuffle_coeffs,
    lemma_pow_two_pos,
    lemma_pow_two_add,
    lemma_rev_bits_bound,
};
use vstd::arithmetic::div_mod::lemma_fundamental_div_mod;

verus! {

/// The butterfly of block `blk`, offset `j`, in a pass of half-width `h` took
/// its inputs from `pre` and left its outputs in `post`.
pub open spec fn butterfly_done<T, B: Fn(T, T, T) -> (T, T)>(
    bf: B,
    tw: Seq<T>,
    h: nat,
    pre: Seq<T>,
    post: Seq<T>,
    blk: int,
    j: int,
) -> bool {
    let p = blk * (2 * h) + j;
    call_ensures(bf, (pre[p], pre[p + h], tw[j]), (post[p], post[p + h]))
}

/// `post` is `pre` after one pass of half-width `h` with twiddle factors `tw`:
/// in each block of `2h` samples, positions `j` and `j + h` (for `j < h`)
/// are combined by one butterfly with factor `tw[j]`.
pub open spec fn pass_result<T, B: Fn(T, T, T) -> (T, T)>(
    bf: B,
    tw: Seq<T>,
    h: nat,
    pre: Seq<T>,
    post: Seq<T>,
) -> bool {
    &&& post.len() == pre.len()
    &&& forall|blk: int, j: int|
        0 <= blk < pre.len() / (2 * h) && 0 <= j < h ==> #[trigger] butterfly_done(
            bf,
            tw,
            h,
            pre,
            post,
            blk,
            j,
        )
}

/// `out` is the transform of `input` (of length `2^log`): the bit-reversed
/// input, then pass `k` of half-width `2^k` with factors `tws[k]`, for each
/// `k < log` in turn.
pub open spec fn is_transform_of<T, B: Fn(T, T, T) -> (T, T)>(
    bf: B,
    tws: Seq<Vec<T>>,
    log: nat,
    input: Seq<T>,
    out: Seq<T>,
) -> bool {
    exists|st: Seq<Seq<T>>|
        {
            &&& st.len() == log + 1
            &&& st[0] == bit_reversed(input, log)
            &&& st[log as int] == out
            &&& forall|k: int|
                0 <= k < log ==> #[trigger] pass_result(
                    bf,
                    tws[k]@,
                    pow_two(k as nat),
                    st[k],
                    st[k + 1],
                )
        }
}

/// The factor tables for a transform of length `2^log`: table `k` holds
/// `2^k` factors.
pub open spec fn tables_fit<T>(tws: Seq<Vec<T>>, log: nat) -> bool {
    &&& tws.len() == log
    &&& forall|k: int| 0 <= k < log ==> (#[trigger] tws[k]).len() == pow_two(k as nat)
}

/// `bf` can be called on any three samples.
pub open spec fn total3<T, B: Fn(T, T, T) -> (T, T)>(bf: B) -> bool {
    forall|a: T, b: T, w: T| #[trigger] call_requires(bf, (a, b, w))
}

proof fn lemma_block_before(b1: int, b2: int, s: int)
    requires
        0 <= b1 < b2,
        s > 0,
    ensures
        b1 * s + s <= b2 * s,
{
    assert(b1 * s + s <= b2 * s) by (nonlinear_arith)
        requires
            0 <= b1 < b2,
            s > 0,
    ;
}

/// One butterfly pass of half-width `half` over `buf`, in place.
pub fn butterfly_pass<T: Copy, B: Fn(T, T, T) -> (T, T)>(
    buf: &mut Vec<T>,
    tw: &Vec<T>,
    half: usize,
    bf: &B,
)
    requires
        half >= 1,
        old(buf).len() >= 2 * half,
        old(buf).len() as int % (2 * half as int) == 0,
        tw.len() == half,
        total3(*bf),
    ensures
        pass_result(*bf, tw@, half as nat, old(buf)@, final(buf)@),
{
    let ghost pre = buf@;
    let ghost h = half as nat;
    let n = buf.len();
    let step = 2 * half;
    let mut i: usize = 0;
    let ghost mut blk: int = 0;
    let ghost nblk: int = n as int / step as int;
    proof {
        assert(n == nblk * step) by (nonlinear_arith)
            requires
                n as int % (step as int) == 0,
                nblk == n as int / step as int,
                step > 0,
        ;
    }
    while i < n
        invariant
            buf.len() == n,
            pre.len() == n,
            h == half,
            step == 2 * half,
            half >= 1,
            tw.len() == half,
            total3(*bf),
            n == nblk * step,
            nblk == n as int / step as int,
            i == blk * step,
            0 <= blk <= nblk,
            forall|b1: int, j1: int|
                0 <= b1 < blk && 0 <= j1 < h ==> #[trigger] butterfly_done(
                    *bf,
                    tw@,
                    h,
                    pre,
                    buf@,
                    b1,
                    j1,
                ),
            forall|p: int| i <= p < n ==> #[trigger] buf@[p] == pre[p],
        decreases n - i,
    {
        proof {
            assert(blk < nblk) by (nonlinear_arith)
                requires
                    i == blk * step,
                    i < n,
                    n == nblk * step,
                    step > 0,
            ;
            assert(i + step <= n) by (nonlinear_arith)
                requires
                    i == blk * step,
                    blk < nblk,
                    n == nblk * step,
            ;
        }
        let mut j: usize = 0;
        while j < half
            invariant
                buf.len() == n,
                pre.len() == n,
                h == half,
                step == 2 * half,
                tw.len() == half,
                total3(*bf),
                i == blk * step,
                i + step <= n,
                0 <= blk,
                j <= half,
                forall|b1: int, j1: int|
                    (0 <= b1 < blk && 0 <= j1 < h) || (b1 == blk && 0 <= j1 < j)
                        ==> #[trigger] butterfly_done(*bf, tw@, h, pre, buf@, b1, j1),
                forall|p: int|
                    (i + j <= p < i + half || i + half + j <= p < n) ==> #[trigger] buf@[p]
                        == pre[p],
            decreases half - j,
        {
            let q1 = i + j;
            let q2 = i + j + half;
            let a = buf[q1];
            let b = buf[q2];
            let (x, y) = bf(a, b, tw[j]);
            let ghost mid = buf@;
            buf[q1] = x;
            buf[q2] = y;
            proof {
                assert forall|b1: int, j1: int|
                    (0 <= b1 < blk && 0 <= j1 < h) || (b1 == blk && 0 <= j1 < j + 1)
                        implies #[trigger] butterfly_done(*bf, tw@, h, pre, buf@, b1, j1) by {
                    if b1 < blk {
                        lemma_block_before(b1, blk, step as int);
                        assert(butterfly_done(*bf, tw@, h, pre, mid, b1, j1));
                    } else if j1 < j {
                        assert(butterfly_done(*bf, tw@, h, pre, mid, b1, j1));
                    }
                }
            }
            j = j + 1;
        }
        i = i + step;
        proof {
            blk = blk + 1;
            assert(i == blk * step) by (nonlinear_arith)
                requires
                    i == (blk - 1) * step + step,
            ;
        }
    }
    proof {
        assert(blk == nblk) by (nonlinear_arith)
            requires
                i == blk * step,
                i >= n,
                blk <= nblk,
                n == nblk * step,
                step > 0,
        ;
        assert(buf@.len() == pre.len());
    }
}

/// The transform of `input`, whose length is `2^log`, with the factor tables
/// `tws` and the butterfly `bf`. `input` itself is left as it is: the work is
/// done on a copy.
pub fn evaluate<T: Copy, B: Fn(T, T, T) -> (T, T)>(
    input: &Vec<T>,
    log: u32,
    tws: &Vec<Vec<T>>,
    bf: &B,
) -> (r: Vec<T>)
    requires
        input.len() == pow_two(log as nat),
        tables_fit(tws@, log as nat),
        total3(*bf),
    ensures
        r.len() == input.len(),
        is_transform_of(*bf, tws@, log as nat, input@, r@),
{
    let n = input.len();
    let mut ret: Vec<T> = Vec::with_capacity(n);
    let mut i: usize = 0;
    while i < n
        invariant
            n == input.len(),
            i <= n,
            ret@ == input@.subrange(0, i as int),
        decreases n - i,
    {
        ret.push(input[i]);
        i = i + 1;
        assert(ret@ =~= input@.subrange(0, i as int));
    }
    assert(ret@ =~= input@);
    shuffle_coeffs(&mut ret, n, log);
    let ghost mut st: Seq<Seq<T>> = seq![ret@];
    let mut k: u32 = 0;
    let mut half: usize = 1;
    while k < log
        invariant
            k <= log,
            n == pow_two(log as nat),
            tables_fit(tws@, log as nat),
            total3(*bf),
            half == pow_two(k as nat),
            ret.len() == n,
            st.len() == k + 1,
            st[0] == bit_reversed(input@, log as nat),
            st[k as int] == ret@,
            forall|kk: int|
                0 <= kk < k ==> #[trigger] pass_result(
                    *bf,
                    tws@[kk]@,
                    pow_two(kk as nat),
                    st[kk],
                    st[kk + 1],
                ),
        decreases log - k,
    {
        proof {
            let rest = (log - k - 1) as nat;
            lemma_pow_two_add((k + 1) as nat, rest);
            assert((k + 1) as nat + rest == log as nat);
            lemma_pow_two_pos(rest);
            lemma_pow_two_pos(k as nat);
            assert(n as int % (2 * half as int) == 0 && n >= 2 * half) by (nonlinear_arith)
                requires
                    n == (2 * half) * pow_two(rest),
                    pow_two(rest) >= 1,
                    half >= 1,
            ;
        }
        butterfly_pass(&mut ret, &tws[k as usize], half, bf);
        proof {
            st = st.push(ret@);
        }
        half = 2 * half;
        k = k + 1;
    }
    assert(st[0] == bit_reversed(input@, log as nat));
    assert(st[log as int] == ret@);
    ret
}

/// `s` holds `zero` at every position.
pub open spec fn all_equal<T>(s: Seq<T>, zero: T) -> bool {
    forall|i: int| 0 <= i < s.len() ==> #[trigger] s[i] == zero
}

/// A butterfly of two `zero`s gives two `zero`s, whatever the factor.
pub open spec fn keeps_zero3<T, B: Fn(T, T, T) -> (T, T)>(bf: B, zero: T) -> bool {
    forall|w: T, out: (T, T)| #[trigger] call_ensures(bf, (zero, zero, w), out) ==> out == (zero, zero)
}

proof fn lemma_pass_of_zeros<T, B: Fn(T, T, T) -> (T, T)>(
    bf: B,
    tw: Seq<T>,
    k: nat,
    log: nat,
    pre: Seq<T>,
    post: Seq<T>,
    zero: T,
)
    requires
        k < log,
        pre.len() == pow_two(log),
        pass_result(bf, tw, pow_two(k), pre, post),
        all_equal(pre, zero),
        keeps_zero3(bf, zero),
    ensures
        post.len() == pre.len(),
        all_equal(post, zero),
{
    let h = pow_two(k);
    let s = 2 * h;
    let n = pre.len();
    let rest = (log - k - 1) as nat;
    lemma_pow_two_add(k + 1, rest);
    assert(k + 1 + rest == log);
    lemma_pow_two_pos(rest);
    lemma_pow_two_pos(k);
    let q = pow_two(rest);
    assert(n == s * q);
    assert(n as int / s as int == q) by (nonlinear_arith)
        requires
            n == s * q,
            s > 0,
    ;
    assert forall|p: int| 0 <= p < n implies #[trigger] post[p] == zero by {
        lemma_fundamental_div_mod(p, s as int);
        let blk = p / (s as int);
        let r = p % (s as int);
        assert(0 <= blk < q) by (nonlinear_arith)
            requires
                p == s * blk + r,
                0 <= r < s,
                0 <= p < n,
                n == s * q,
        ;
        assert(blk * s + s <= n) by (nonlinear_arith)
            requires
                blk < q,
                n == s * q,
                s > 0,
        ;
        assert(blk * (2 * h) == s * blk);
        if r < h {
            assert(butterfly_done(bf, tw, h, pre, post, blk, r));
            assert(pre[p] == zero && pre[p + h] == zero);
        } else {
            assert(butterfly_done(bf, tw, h, pre, post, blk, r - h));
            assert(pre[p - h] == zero && pre[p] == zero);
        }
    }
}

/// The transform of an all-`zero` input is all `zero` wherever a butterfly of
/// two `zero`s gives two `zero`s.
pub proof fn lemma_transform_of_zeros<T, B: Fn(T, T, T) -> (T, T)>(
    bf: B,
    tws: Seq<Vec<T>>,
    log: nat,
    input: Seq<T>,
    out: Seq<T>,
    zero: T,
)
    requires
        input.len() == pow_two(log),
        is_transform_of(bf, tws, log, input, out),
        all_equal(input, zero),
        keeps_zero3(bf, zero),
    ensures
        out.len() == input.len(),
        all_equal(out, zero),
{
    let st = choose|st: Seq<Seq<T>>|
        {
            &&& st.len() == log + 1
            &&& st[0] == bit_reversed(input, log)
            &&& st[log as int] == out
            &&& forall|k: int|
                0 <= k < log ==> #[trigger] pass_result(
                    bf,
                    tws[k]@,
                    pow_two(k as nat),
                    st[k],
                    st[k + 1],
                )
        };
    assert forall|i: int| 0 <= i < input.len() implies #[trigger] st[0][i] == zero by {
        lemma_rev_bits_bound(i as nat, log);
    }
    lemma_stages_of_zeros(bf, tws, log, st, zero, log);
}

proof fn lemma_stages_of_zeros<T, B: Fn(T, T, T) -> (T, T)>(
    bf: B,
    tws: Seq<Vec<T>>,
    log: nat,
    st: Seq<Seq<T>>,
    zero: T,
    k: nat,
)
    requires
        k <= log,
        st.len() == log + 1,
        st[0].len() == pow_two(log),
        all_equal(st[0], zero),
        forall|kk: int|
            0 <= kk < log ==> #[trigger] pass_result(
                bf,
                tws[kk]@,
                pow_two(kk as nat),
                st[kk],
                st[kk + 1],
            ),
        keeps_zero3(bf, zero),
    ensures
        st[k as int].len() == pow_two(log),
        all_equal(st[k as int], zero),
    decreases k,
{
    if k > 0 {
        let k1 = (k - 1) as nat;
        lemma_stages_of_zeros(bf, tws, log, st, zero, k1);
        let kk = k1 as int;
        assert(pass_result(bf, tws[kk]@, pow_two(kk as nat), st[kk], st[kk + 1]));
        lemma_pass_of_zeros(bf, tws[kk]@, k1, log, st[kk], st[kk + 1], zero);
    }
}

} // verus!
