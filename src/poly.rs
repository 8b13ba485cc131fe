//! Polynomial multiplication through the transform: pad both coefficient
//! sequences to a common power-of-two length, transform both, multiply
//! point by point, transform back, scale and cut to the product's length.
use vstd::prelude::*;
use crate::bits::{pow_two, lemma_pow_two_mono};
use crate::size::{aligned_size, exact_log2, is_pow_two};
use crate::transform::{
    evaluate,
    is_transform_of,
    tables_fit,
    total3,
    all_equal,
    keeps_zero3,
    lemma_transform_of_zeros,
};

verus! {

/// `s` is `one, one*root, one*root*root, ...`, each step one call of `times`.
pub open spec fn is_powers_of<T, M: Fn(T, T) -> T>(times: M, one: T, root: T, s: Seq<T>) -> bool {
    &&& s.len() > 0 ==> s[0] == one
    &&& forall|j: int| 0 <= j < s.len() - 1 ==> call_ensures(times, (s[j], root), #[trigger] s[j + 1])
}

/// Table `k` of `tws` holds the first `2^k` powers of the root that `root`
/// gives for the step `2^(k+1)` in the direction `inverse`.
pub open spec fn tables_from<T, M: Fn(T, T) -> T, R: Fn(usize, bool) -> T>(
    times: M,
    root: R,
    one: T,
    inverse: bool,
    log: nat,
    tws: Seq<Vec<T>>,
) -> bool {
    &&& tables_fit(tws, log)
    &&& forall|k: int|
        0 <= k < log ==> table_from(times, root, one, inverse, k as nat, #[trigger] tws[k]@)
}

/// `t` holds powers of the root that `root` gives for the step `2^(k+1)`.
pub open spec fn table_from<T, M: Fn(T, T) -> T, R: Fn(usize, bool) -> T>(
    times: M,
    root: R,
    one: T,
    inverse: bool,
    k: nat,
    t: Seq<T>,
) -> bool {
    exists|w: T|
        #[trigger] call_ensures(root, (pow_two(k + 1) as usize, inverse), w) && is_powers_of(
            times,
            one,
            w,
            t,
        )
}

/// `s` followed by `zero`s up to length `len`.
pub open spec fn padded<T>(s: Seq<T>, zero: T, len: nat) -> Seq<T> {
    Seq::new(len, |i: int| if i < s.len() { s[i] } else { zero })
}

/// `times` can be called on any two samples.
pub open spec fn total2<T, M: Fn(T, T) -> T>(times: M) -> bool {
    forall|x: T, y: T| #[trigger] call_requires(times, (x, y))
}

/// `root` can be called on any step and direction.
pub open spec fn total_root<T, R: Fn(usize, bool) -> T>(root: R) -> bool {
    forall|s: usize, inv: bool| #[trigger] call_requires(root, (s, inv))
}

/// `scale` can be called on any sample and length.
pub open spec fn total_scale<T, S: Fn(T, usize) -> T>(scale: S) -> bool {
    forall|x: T, n: usize| #[trigger] call_requires(scale, (x, n))
}

/// The first `count` powers of `root`, starting from `one`.
pub fn powers<T: Copy, M: Fn(T, T) -> T>(one: T, root: T, count: usize, times: &M) -> (r: Vec<T>)
    requires
        total2(*times),
    ensures
        r.len() == count,
        is_powers_of(*times, one, root, r@),
{
    let mut r: Vec<T> = Vec::with_capacity(count);
    if count == 0 {
        return r;
    }
    r.push(one);
    let mut cur = one;
    while r.len() < count
        invariant
            total2(*times),
            1 <= r.len() <= count,
            r@[0] == one,
            cur == r@[r.len() - 1],
            forall|j: int| 0 <= j < r.len() - 1 ==> call_ensures(*times, (r@[j], root), #[trigger] r@[j + 1]),
        decreases count - r.len(),
    {
        cur = times(cur, root);
        r.push(cur);
    }
    r
}

/// The factor tables of a transform of length `2^log` in the direction
/// `inverse`: table `k` holds `2^k` powers of `root(2^(k+1), inverse)`.
pub fn twiddle_tables<T: Copy, M: Fn(T, T) -> T, R: Fn(usize, bool) -> T>(
    one: T,
    log: u32,
    inverse: bool,
    root: &R,
    times: &M,
) -> (r: Vec<Vec<T>>)
    requires
        pow_two(log as nat) <= usize::MAX,
        total2(*times),
        total_root(*root),
    ensures
        tables_from(*times, *root, one, inverse, log as nat, r@),
{
    let mut r: Vec<Vec<T>> = Vec::with_capacity(log as usize);
    let mut k: u32 = 0;
    let mut half: usize = 1;
    while k < log
        invariant
            k <= log,
            r.len() == k,
            half == pow_two(k as nat),
            pow_two(log as nat) <= usize::MAX,
            total2(*times),
            total_root(*root),
            forall|kk: int| 0 <= kk < k ==> (#[trigger] r@[kk]).len() == pow_two(kk as nat),
            forall|kk: int|
                0 <= kk < k ==> table_from(*times, *root, one, inverse, kk as nat, #[trigger] r@[kk]@),
        decreases log - k,
    {
        proof {
            lemma_pow_two_mono((k + 1) as nat, log as nat);
        }
        let w = root(2 * half, inverse);
        let t = powers(one, w, half, times);
        let ghost old_r = r@;
        r.push(t);
        proof {
            assert(call_ensures(*root, (pow_two((k + 1) as nat) as usize, inverse), w));
            assert(table_from(*times, *root, one, inverse, k as nat, t@));
            assert forall|kk: int| 0 <= kk < k + 1 implies table_from(
                *times,
                *root,
                one,
                inverse,
                kk as nat,
                #[trigger] r@[kk]@,
            ) by {
                if kk < k {
                    assert(r@[kk] == old_r[kk]);
                }
            }
        }
        half = 2 * half;
        k = k + 1;
    }
    r
}

/// A copy of `v` followed by `zero`s up to length `len`.
pub fn pad<T: Copy>(v: &Vec<T>, zero: T, len: usize) -> (r: Vec<T>)
    requires
        v.len() <= len,
    ensures
        r@ == padded(v@, zero, len as nat),
{
    let mut r: Vec<T> = Vec::with_capacity(len);
    let mut i: usize = 0;
    while i < len
        invariant
            v.len() <= len,
            i <= len,
            r@ == padded(v@, zero, len as nat).subrange(0, i as int),
        decreases len - i,
    {
        if i < v.len() {
            r.push(v[i]);
        } else {
            r.push(zero);
        }
        i = i + 1;
        assert(r@ =~= padded(v@, zero, len as nat).subrange(0, i as int));
    }
    assert(r@ =~= padded(v@, zero, len as nat));
    r
}

/// `pr[i]` is `times(fa[i], fb[i])` for each `i`.
pub open spec fn is_pointwise<T, M: Fn(T, T) -> T>(times: M, fa: Seq<T>, fb: Seq<T>, pr: Seq<T>) -> bool {
    &&& fb.len() == fa.len()
    &&& pr.len() == fa.len()
    &&& forall|i: int| 0 <= i < pr.len() ==> call_ensures(times, (fa[i], fb[i]), #[trigger] pr[i])
}

/// The point-by-point product of `x` and `y`.
pub fn pointwise<T: Copy, M: Fn(T, T) -> T>(x: &Vec<T>, y: &Vec<T>, times: &M) -> (r: Vec<T>)
    requires
        x.len() == y.len(),
        total2(*times),
    ensures
        is_pointwise(*times, x@, y@, r@),
{
    let n = x.len();
    let mut r: Vec<T> = Vec::with_capacity(n);
    let mut i: usize = 0;
    while i < n
        invariant
            n == x.len(),
            n == y.len(),
            total2(*times),
            i <= n,
            r.len() == i,
            forall|j: int| 0 <= j < i ==> call_ensures(*times, (x@[j], y@[j]), #[trigger] r@[j]),
        decreases n - i,
    {
        let v = times(x[i], y[i]);
        r.push(v);
        i = i + 1;
    }
    r
}

/// `r` is the first `len` entries of `bk`, each passed through `scale` with `n`.
pub open spec fn is_scaled_prefix<T, S: Fn(T, usize) -> T>(
    scale: S,
    bk: Seq<T>,
    n: usize,
    len: nat,
    r: Seq<T>,
) -> bool {
    &&& len <= bk.len()
    &&& r.len() == len
    &&& forall|i: int| 0 <= i < len ==> call_ensures(scale, (bk[i], n), #[trigger] r[i])
}

/// The first `len` entries of `bk`, each divided through `scale` by `n`.
pub fn scaled_prefix<T: Copy, S: Fn(T, usize) -> T>(bk: &Vec<T>, n: usize, len: usize, scale: &S) -> (r: Vec<T>)
    requires
        len <= bk.len(),
        total_scale(*scale),
    ensures
        is_scaled_prefix(*scale, bk@, n, len as nat, r@),
{
    let mut r: Vec<T> = Vec::with_capacity(len);
    let mut i: usize = 0;
    while i < len
        invariant
            len <= bk.len(),
            total_scale(*scale),
            i <= len,
            r.len() == i,
            forall|j: int| 0 <= j < i ==> call_ensures(*scale, (bk@[j], n), #[trigger] r@[j]),
        decreases len - i,
    {
        let v = scale(bk[i], n);
        r.push(v);
        i = i + 1;
    }
    r
}

/// Every step from the operands `a`, `b` to the product `r`, with the padded
/// length `2^log`, the factor tables, both forward transforms, their
/// point-by-point product and its inverse transform.
pub open spec fn product_chain<
    T,
    B: Fn(T, T, T) -> (T, T),
    M: Fn(T, T) -> T,
    R: Fn(usize, bool) -> T,
    S: Fn(T, usize) -> T,
>(
    bf: B,
    times: M,
    root: R,
    scale: S,
    one: T,
    zero: T,
    a: Seq<T>,
    b: Seq<T>,
    r: Seq<T>,
    log: nat,
    fwd: Seq<Vec<T>>,
    inv: Seq<Vec<T>>,
    fa: Seq<T>,
    fb: Seq<T>,
    pr: Seq<T>,
    bk: Seq<T>,
) -> bool {
    let t = (a.len() + b.len() - 1) as nat;
    let n = pow_two(log);
    &&& n >= t
    &&& (log == 0 || pow_two((log - 1) as nat) < t)
    &&& tables_from(times, root, one, false, log, fwd)
    &&& tables_from(times, root, one, true, log, inv)
    &&& is_transform_of(bf, fwd, log, padded(a, zero, n), fa)
    &&& is_transform_of(bf, fwd, log, padded(b, zero, n), fb)
    &&& is_pointwise(times, fa, fb, pr)
    &&& is_transform_of(bf, inv, log, pr, bk)
    &&& is_scaled_prefix(scale, bk, n as usize, t, r)
}

/// `r` is the product of `a` and `b` computed through the transform with
/// the given arithmetic.
pub open spec fn is_product_of<
    T,
    B: Fn(T, T, T) -> (T, T),
    M: Fn(T, T) -> T,
    R: Fn(usize, bool) -> T,
    S: Fn(T, usize) -> T,
>(bf: B, times: M, root: R, scale: S, one: T, zero: T, a: Seq<T>, b: Seq<T>, r: Seq<T>) -> bool {
    exists|
        log: nat,
        fwd: Seq<Vec<T>>,
        inv: Seq<Vec<T>>,
        fa: Seq<T>,
        fb: Seq<T>,
        pr: Seq<T>,
        bk: Seq<T>,
    |
        #[trigger] product_chain(
            bf,
            times,
            root,
            scale,
            one,
            zero,
            a,
            b,
            r,
            log,
            fwd,
            inv,
            fa,
            fb,
            pr,
            bk,
        )
}

/// The product of the polynomials with coefficients `a` and `b` (lowest
/// degree first), with `a.len() + b.len() - 1` coefficients; empty where
/// either operand is empty. `one` and `zero` are the unit and the zero
/// sample, `bf` the butterfly, `times` the product of two samples, `root`
/// the principal root of unity of a step in a direction, and `scale` the
/// division of a sample by the transform's length.
pub fn multiply<
    T: Copy,
    B: Fn(T, T, T) -> (T, T),
    M: Fn(T, T) -> T,
    R: Fn(usize, bool) -> T,
    S: Fn(T, usize) -> T,
>(
    a: &Vec<T>,
    b: &Vec<T>,
    one: T,
    zero: T,
    bf: &B,
    times: &M,
    root: &R,
    scale: &S,
) -> (r: Vec<T>)
    requires
        a.len() + b.len() <= usize::MAX / 2 + 2,
        total3(*bf),
        total2(*times),
        total_root(*root),
        total_scale(*scale),
    ensures
        a.len() == 0 || b.len() == 0 ==> r.len() == 0,
        a.len() > 0 && b.len() > 0 ==> r.len() == a.len() + b.len() - 1 && is_product_of(
            *bf,
            *times,
            *root,
            *scale,
            one,
            zero,
            a@,
            b@,
            r@,
        ),
{
    if a.len() == 0 || b.len() == 0 {
        return Vec::new();
    }
    let new_size = a.len() + b.len() - 1;
    let (n, log) = aligned_size(new_size);
    let fwd = twiddle_tables(one, log, false, root, times);
    let inv = twiddle_tables(one, log, true, root, times);
    let pa = pad(a, zero, n);
    let pb = pad(b, zero, n);
    let fa = evaluate(&pa, log, &fwd, bf);
    let fb = evaluate(&pb, log, &fwd, bf);
    let pr = pointwise(&fa, &fb, times);
    let bk = evaluate(&pr, log, &inv, bf);
    let r = scaled_prefix(&bk, n, new_size, scale);
    assert(product_chain(
        *bf,
        *times,
        *root,
        *scale,
        one,
        zero,
        a@,
        b@,
        r@,
        log as nat,
        fwd@,
        inv@,
        fa@,
        fb@,
        pr@,
        bk@,
    ));
    r
}

/// `out` is the transform of `input` in the direction `inverse`, with the
/// factor tables built from `root` and `times`.
pub open spec fn transform_chain<T, B: Fn(T, T, T) -> (T, T), M: Fn(T, T) -> T, R: Fn(usize, bool) -> T>(
    bf: B,
    times: M,
    root: R,
    one: T,
    inverse: bool,
    input: Seq<T>,
    out: Seq<T>,
    log: nat,
    tws: Seq<Vec<T>>,
) -> bool {
    &&& input.len() == pow_two(log)
    &&& tables_from(times, root, one, inverse, log, tws)
    &&& is_transform_of(bf, tws, log, input, out)
}

/// `out` is the transform of `input` in the direction `inverse`.
pub open spec fn is_transformed<T, B: Fn(T, T, T) -> (T, T), M: Fn(T, T) -> T, R: Fn(usize, bool) -> T>(
    bf: B,
    times: M,
    root: R,
    one: T,
    inverse: bool,
    input: Seq<T>,
    out: Seq<T>,
) -> bool {
    exists|log: nat, tws: Seq<Vec<T>>|
        #[trigger] transform_chain(bf, times, root, one, inverse, input, out, log, tws)
}

/// The transform of `input` (whose length is a power of two) in the
/// direction `inverse`, without scaling.
fn transform_dir<T: Copy, B: Fn(T, T, T) -> (T, T), M: Fn(T, T) -> T, R: Fn(usize, bool) -> T>(
    input: &Vec<T>,
    one: T,
    inverse: bool,
    bf: &B,
    times: &M,
    root: &R,
) -> (r: Vec<T>)
    requires
        is_pow_two(input.len() as nat),
        total3(*bf),
        total2(*times),
        total_root(*root),
    ensures
        r.len() == input.len(),
        is_transformed(*bf, *times, *root, one, inverse, input@, r@),
{
    match exact_log2(input.len()) {
        Some(log) => {
            let tws = twiddle_tables(one, log, inverse, root, times);
            let r = evaluate(input, log, &tws, bf);
            assert(transform_chain(*bf, *times, *root, one, inverse, input@, r@, log as nat, tws@));
            r
        },
        None => {
            // unreachable: the length is a power of two
            assert(false);
            Vec::new()
        },
    }
}

/// The forward transform: `input`, whose length is a power of two, evaluated
/// at the roots of unity in increasing order.
pub fn forward<T: Copy, B: Fn(T, T, T) -> (T, T), M: Fn(T, T) -> T, R: Fn(usize, bool) -> T>(
    input: &Vec<T>,
    one: T,
    bf: &B,
    times: &M,
    root: &R,
) -> (r: Vec<T>)
    requires
        is_pow_two(input.len() as nat),
        total3(*bf),
        total2(*times),
        total_root(*root),
    ensures
        r.len() == input.len(),
        is_transformed(*bf, *times, *root, one, false, input@, r@),
{
    transform_dir(input, one, false, bf, times, root)
}

/// The inverse transform: the transform in the inverse direction, each
/// sample then divided through `scale` by the length.
pub fn inverse<
    T: Copy,
    B: Fn(T, T, T) -> (T, T),
    M: Fn(T, T) -> T,
    R: Fn(usize, bool) -> T,
    S: Fn(T, usize) -> T,
>(input: &Vec<T>, one: T, bf: &B, times: &M, root: &R, scale: &S) -> (r: Vec<T>)
    requires
        is_pow_two(input.len() as nat),
        total3(*bf),
        total2(*times),
        total_root(*root),
        total_scale(*scale),
    ensures
        r.len() == input.len(),
        exists|bk: Seq<T>|
            is_transformed(*bf, *times, *root, one, true, input@, bk) && #[trigger] is_scaled_prefix(
                *scale,
                bk,
                input.len(),
                input.len() as nat,
                r@,
            ),
{
    let bk = transform_dir(input, one, true, bf, times, root);
    let r = scaled_prefix(&bk, input.len(), input.len(), scale);
    assert(is_scaled_prefix(*scale, bk@, input.len(), input.len() as nat, r@));
    r
}

/// A product of any sample with `zero` is `zero`.
pub open spec fn zero_absorbs<T, M: Fn(T, T) -> T>(times: M, zero: T) -> bool {
    forall|x: T, y: T| #[trigger] call_ensures(times, (x, zero), y) ==> y == zero
}

/// `zero` scaled by any length stays `zero`.
pub open spec fn scale_keeps_zero<T, S: Fn(T, usize) -> T>(scale: S, zero: T) -> bool {
    forall|n: usize, y: T| #[trigger] call_ensures(scale, (zero, n), y) ==> y == zero
}

/// Multiplying any polynomial by an all-zero polynomial of length `k` gives
/// an all-zero polynomial of length `n + k - 1`, for an arithmetic in which
/// zero absorbs: a butterfly of two zeros gives two zeros, a product with
/// zero is zero, and zero scaled stays zero.
pub proof fn lemma_product_with_zero<
    T,
    B: Fn(T, T, T) -> (T, T),
    M: Fn(T, T) -> T,
    R: Fn(usize, bool) -> T,
    S: Fn(T, usize) -> T,
>(bf: B, times: M, root: R, scale: S, one: T, zero: T, a: Seq<T>, b: Seq<T>, r: Seq<T>)
    requires
        a.len() > 0,
        b.len() > 0,
        is_product_of(bf, times, root, scale, one, zero, a, b, r),
        all_equal(b, zero),
        keeps_zero3(bf, zero),
        zero_absorbs(times, zero),
        scale_keeps_zero(scale, zero),
    ensures
        r.len() == a.len() + b.len() - 1,
        all_equal(r, zero),
{
    let (log, fwd, inv, fa, fb, pr, bk) = choose|
        log: nat,
        fwd: Seq<Vec<T>>,
        inv: Seq<Vec<T>>,
        fa: Seq<T>,
        fb: Seq<T>,
        pr: Seq<T>,
        bk: Seq<T>,
    |
        #[trigger] product_chain(
            bf,
            times,
            root,
            scale,
            one,
            zero,
            a,
            b,
            r,
            log,
            fwd,
            inv,
            fa,
            fb,
            pr,
            bk,
        );
    let n = pow_two(log);
    let pb = padded(b, zero, n);
    assert(all_equal(pb, zero));
    lemma_transform_of_zeros(bf, fwd, log, pb, fb, zero);
    assert(all_equal(pr, zero)) by {
        assert forall|i: int| 0 <= i < pr.len() implies #[trigger] pr[i] == zero by {
            assert(fb[i] == zero);
            assert(call_ensures(times, (fa[i], fb[i]), pr[i]));
        }
    }
    lemma_transform_of_zeros(bf, inv, log, pr, bk, zero);
    assert forall|i: int| 0 <= i < r.len() implies #[trigger] r[i] == zero by {
        assert(bk[i] == zero);
        assert(call_ensures(scale, (bk[i], n as usize), r[i]));
    }
}

} // verus!
