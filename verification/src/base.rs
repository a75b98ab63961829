//! Pure numeral-base conversion between an integer and a digit sequence,
//! most-significant digit first.

use vstd::prelude::*;

verus! {

use vstd::arithmetic::div_mod::lemma_div_is_strictly_smaller;
use vstd::arithmetic::div_mod::lemma_div_pos_is_pos;
use vstd::arithmetic::div_mod::lemma_fundamental_div_mod;

/// The digits of `v` written in radix `base`, most significant first.
/// `expand(base, 0)` is the single digit `[0]`; the result is never empty.
pub open spec fn expand(base: int, v: int) -> Seq<int>
    recommends
        base >= 2,
        v >= 0,
    decreases v,
    via expand_decreases
{
    if base < 2 || v < base {
        seq![v]
    } else {
        expand(base, v / base).push(v % base)
    }
}

#[via_fn]
proof fn expand_decreases(base: int, v: int) {
    if !(base < 2 || v < base) {
        lemma_div_is_strictly_smaller(v, base);
        lemma_div_pos_is_pos(v, base);
    }
}

/// The value of `ds` read as a most-significant-first positional numeral
/// in radix `base`.
pub open spec fn compress(base: int, ds: Seq<int>) -> int
    decreases ds.len(),
{
    if ds.len() == 0 {
        0
    } else {
        compress(base, ds.drop_last()) * base + ds.last()
    }
}

/// Every digit produced by `expand` lies in `[0, base)`, and the digit
/// sequence is non-empty.
pub proof fn lemma_expand_digits(base: int, v: int)
    requires
        base >= 2,
        v >= 0,
    ensures
        expand(base, v).len() >= 1,
        forall|i: int| 0 <= i < expand(base, v).len() ==> 0 <= #[trigger] expand(base, v)[i] < base,
    decreases v,
{
    if v < base {
        assert(expand(base, v) == seq![v]);
    } else {
        lemma_div_is_strictly_smaller(v, base);
        lemma_div_pos_is_pos(v, base);
        lemma_fundamental_div_mod(v, base);
        lemma_expand_digits(base, v / base);
        let pre = expand(base, v / base);
        assert(expand(base, v) == pre.push(v % base));
        assert(forall|i: int| 0 <= i < pre.len() ==> 0 <= #[trigger] pre[i] < base);
        assert(forall|i: int|
            0 <= i < pre.len() ==> expand(base, v)[i] == #[trigger] pre[i]);
    }
}

/// Base conversion is an inverse pair: compressing the expansion of `v`
/// gives back `v`, for every `v >= 0` and every radix `base >= 2`; and the
/// expansion of zero is the single digit `[0]`.
pub proof fn lemma_compress_expand(base: int, v: int)
    requires
        base >= 2,
        v >= 0,
    ensures
        compress(base, expand(base, v)) == v,
        expand(base, 0) == seq![0int],
    decreases v,
{
    assert(expand(base, 0) == seq![0int]);
    if v < base {
        assert(expand(base, v) == seq![v]);
        assert(compress(base, seq![v]) == compress(base, seq![v].drop_last()) * base + v);
        assert(seq![v].drop_last() == Seq::<int>::empty());
    } else {
        lemma_div_is_strictly_smaller(v, base);
        lemma_div_pos_is_pos(v, base);
        lemma_compress_expand(base, v / base);
        let pre = expand(base, v / base);
        assert(expand(base, v) == pre.push(v % base));
        assert(pre.push(v % base).drop_last() == pre);
        assert(pre.push(v % base).last() == v % base);
        assert(compress(base, expand(base, v)) == v / base * base + v % base);
        lemma_fundamental_div_mod(v, base);
    }
}

/// `compress` of a sequence of non-negative digits is non-negative, for a
/// non-negative radix.
pub proof fn lemma_compress_nonneg(base: int, ds: Seq<int>)
    requires
        base >= 0,
        forall|i: int| 0 <= i < ds.len() ==> #[trigger] ds[i] >= 0,
    ensures
        compress(base, ds) >= 0,
    decreases ds.len(),
{
    if ds.len() > 0 {
        lemma_compress_nonneg(base, ds.drop_last());
        vstd::arithmetic::mul::lemma_mul_nonnegative(compress(base, ds.drop_last()), base);
    }
}

/// Reading one more digit multiplies the value so far by the radix and
/// adds that digit: `compress(base, ds.take(i + 1))` expressed over
/// `compress(base, ds.take(i))`.
pub proof fn lemma_compress_take_step(base: int, ds: Seq<int>, i: int)
    requires
        0 <= i < ds.len(),
    ensures
        compress(base, ds.take(i + 1)) == compress(base, ds.take(i)) * base + ds[i],
{
    let t = ds.take(i + 1);
    assert(t.drop_last() =~= ds.take(i));
    assert(t.last() == ds[i]);
}

/// A prefix of a non-negative digit sequence never compresses to more than
/// the whole sequence, for a radix of at least 1.
pub proof fn lemma_compress_prefix_le(base: int, ds: Seq<int>, i: int)
    requires
        base >= 1,
        forall|j: int| 0 <= j < ds.len() ==> #[trigger] ds[j] >= 0,
        0 <= i <= ds.len(),
    ensures
        compress(base, ds.take(i)) <= compress(base, ds),
    decreases ds.len() - i,
{
    if i == ds.len() {
        assert(ds.take(i) =~= ds);
    } else {
        lemma_compress_take_step(base, ds, i);
        let c = compress(base, ds.take(i));
        assert(forall|j: int| 0 <= j < ds.take(i).len() ==> #[trigger] ds.take(i)[j] >= 0);
        lemma_compress_nonneg(base, ds.take(i));
        assert(c * base >= c) by (nonlinear_arith)
            requires
                c >= 0,
                base >= 1,
        ;
        lemma_compress_prefix_le(base, ds, i + 1);
    }
}

/// The digits of a `usize` sequence, as mathematical integers.
pub open spec fn digit_seq(v: Seq<usize>) -> Seq<int> {
    v.map_values(|d: usize| d as int)
}

/// Positive remainder of `i` modulo `n`, as Euclidean (ghost-code) `%`
/// defines it for a positive `n`.
pub fn modulo(i: i32, n: i32) -> (r: i32)
    requires
        1 <= n <= 0x3fff_ffff,
    ensures
        r == i as int % n as int,
{
    let rem = i % n;
    proof {
        if i < 0 {
            let x = i as int;
            let d = n as int;
            let e = x % d;
            let f = (-x) % d;
            lemma_fundamental_div_mod(x, d);
            lemma_fundamental_div_mod(-x, d);
            vstd::arithmetic::div_mod::lemma_mod_bound(x, d);
            vstd::arithmetic::div_mod::lemma_mod_bound(-x, d);
            let q = x / d + (-x) / d;
            assert(d * q + e + f == 0) by (nonlinear_arith)
                requires
                    x == d * (x / d) + e,
                    -x == d * ((-x) / d) + f,
                    q == x / d + (-x) / d,
            ;
            assert(e + f == d * (-q)) by (nonlinear_arith)
                requires
                    d * q + e + f == 0,
            ;
            assert(e + f == 0 || e + f == d) by (nonlinear_arith)
                requires
                    e + f == d * (-q),
                    0 <= e < d,
                    0 <= f < d,
            ;
        }
    }
    if rem < 0 {
        rem + n
    } else {
        rem
    }
}

/// The digits of `i` in radix `to_base`, most significant first, as
/// `expand` describes them.
pub fn expand_base(to_base: usize, i: usize) -> (r: Vec<usize>)
    requires
        to_base >= 2,
    ensures
        digit_seq(r@) == expand(to_base as int, i as int),
    decreases i,
{
    if i < to_base {
        let mut v: Vec<usize> = Vec::new();
        v.push(i);
        proof {
            assert(digit_seq(v@) =~= seq![i as int]);
        }
        v
    } else {
        proof {
            lemma_div_is_strictly_smaller(i as int, to_base as int);
            lemma_div_pos_is_pos(i as int, to_base as int);
        }
        let mut v = expand_base(to_base, i / to_base);
        v.push(i % to_base);
        proof {
            assert(digit_seq(v@) =~= digit_seq(v@.drop_last()).push((i % to_base) as int));
            assert(digit_seq(v@) =~= expand(to_base as int, i as int));
        }
        v
    }
}

/// The value of the digit vector `i` read most-significant-first in radix
/// `from_base`, as `compress` describes it.
pub fn compress_base(from_base: usize, i: Vec<usize>) -> (r: usize)
    requires
        from_base >= 2,
        compress(from_base as int, digit_seq(i@)) <= usize::MAX,
    ensures
        r == compress(from_base as int, digit_seq(i@)),
{
    let ghost ds = digit_seq(i@);
    let mut acc: usize = 0;
    let mut j: usize = 0;
    proof {
        assert(ds.take(0) =~= Seq::<int>::empty());
    }
    while j < i.len()
        invariant
            from_base >= 2,
            j <= i.len(),
            ds == digit_seq(i@),
            compress(from_base as int, ds) <= usize::MAX,
            acc == compress(from_base as int, ds.take(j as int)),
        decreases i.len() - j,
    {
        proof {
            assert(forall|t: int| 0 <= t < ds.len() ==> #[trigger] ds[t] >= 0);
            lemma_compress_take_step(from_base as int, ds, j as int);
            lemma_compress_prefix_le(from_base as int, ds, j as int + 1);
            assert(ds[j as int] == i@[j as int] as int);
        }
        acc = acc * from_base + i[j];
        j += 1;
    }
    proof {
        assert(ds.take(i.len() as int) =~= ds);
    }
    acc
}

} // verus!
