//! Bit strings, most significant bit first: the value of a bit
//! string, the fixed-width encoding of a value, and the grouping of a
//! bit string into fixed-width groups. The mnemonic codec reads
//! entropy bytes as 8-bit groups and word indices as 11-bit groups of
//! one bit string.

use vstd::prelude::*;
use vstd::arithmetic::power2::{pow2, lemma_pow2_unfold, lemma2_to64};

verus! {

/// The `n` low bits of `v`, most significant first.
pub open spec fn num_bits(v: int, n: nat) -> Seq<bool>
    decreases n,
{
    if n == 0 {
        Seq::empty()
    } else {
        num_bits(v / 2, (n - 1) as nat).push(v % 2 == 1)
    }
}

/// The value of a bit string, read most significant bit first.
pub open spec fn bits_val(bs: Seq<bool>) -> int
    decreases bs.len(),
{
    if bs.len() == 0 {
        0
    } else {
        2 * bits_val(bs.drop_last()) + (if bs.last() {
            1int
        } else {
            0int
        })
    }
}

/// The concatenation of the `w`-bit encodings of `vals`, in order.
pub open spec fn group_bits(vals: Seq<int>, w: nat) -> Seq<bool>
    decreases vals.len(),
{
    if vals.len() == 0 {
        Seq::empty()
    } else {
        group_bits(vals.drop_last(), w) + num_bits(vals.last(), w)
    }
}

/// The values of the consecutive `w`-bit groups of `bs`.
pub open spec fn bit_groups(bs: Seq<bool>, w: nat) -> Seq<int>
    recommends
        w > 0,
{
    Seq::new(bs.len() / w, |i: int| bits_val(bs.subrange(w * i, w * i + w)))
}

pub proof fn lemma_num_bits_len(v: int, n: nat)
    ensures
        num_bits(v, n).len() == n,
    decreases n,
{
    if n > 0 {
        lemma_num_bits_len(v / 2, (n - 1) as nat);
    }
}

pub proof fn lemma_bits_val_bound(bs: Seq<bool>)
    ensures
        0 <= bits_val(bs) < pow2(bs.len()),
    decreases bs.len(),
{
    if bs.len() == 0 {
        lemma2_to64();
    } else {
        lemma_bits_val_bound(bs.drop_last());
        lemma_pow2_unfold(bs.len());
    }
}

pub proof fn lemma_num_bits_val(v: int, n: nat)
    requires
        0 <= v < pow2(n),
    ensures
        bits_val(num_bits(v, n)) == v,
    decreases n,
{
    lemma_num_bits_len(v, n);
    if n == 0 {
        lemma2_to64();
    } else {
        lemma_pow2_unfold(n);
        lemma_num_bits_val(v / 2, (n - 1) as nat);
        let s = num_bits(v, n);
        assert(s =~= num_bits(v / 2, (n - 1) as nat).push(v % 2 == 1));
        assert(s.drop_last() =~= num_bits(v / 2, (n - 1) as nat));
    }
}

pub proof fn lemma_bits_num(bs: Seq<bool>)
    ensures
        num_bits(bits_val(bs), bs.len()) == bs,
    decreases bs.len(),
{
    if bs.len() == 0 {
        assert(num_bits(bits_val(bs), bs.len()) =~= bs);
    } else {
        lemma_bits_num(bs.drop_last());
        let v = bits_val(bs);
        let c: int = if bs.last() {
            1int
        } else {
            0int
        };
        assert(v == 2 * bits_val(bs.drop_last()) + c);
        assert(v / 2 == bits_val(bs.drop_last()));
        assert(v % 2 == c);
        assert(num_bits(v, bs.len()) =~= bs);
    }
}

pub proof fn lemma_group_bits_push(vals: Seq<int>, w: nat, v: int)
    ensures
        group_bits(vals.push(v), w) == group_bits(vals, w) + num_bits(v, w),
{
    assert(vals.push(v).drop_last() =~= vals);
    assert(vals.push(v).last() == v);
}

pub proof fn lemma_group_bits_len(vals: Seq<int>, w: nat)
    ensures
        group_bits(vals, w).len() == vals.len() * w,
    decreases vals.len(),
{
    if vals.len() > 0 {
        lemma_group_bits_len(vals.drop_last(), w);
        lemma_num_bits_len(vals.last(), w);
        assert((vals.len() - 1) * w + w == vals.len() * w) by (nonlinear_arith);
    }
}

pub proof fn lemma_group_bits_chunk(vals: Seq<int>, w: nat, i: int)
    requires
        w > 0,
        0 <= i < vals.len(),
    ensures
        group_bits(vals, w).subrange(w * i, w * i + w) == num_bits(vals[i], w),
    decreases vals.len(),
{
    lemma_group_bits_len(vals, w);
    lemma_group_bits_len(vals.drop_last(), w);
    lemma_num_bits_len(vals.last(), w);
    if i == vals.len() - 1 {
        assert(w * i == (vals.len() - 1) * w) by (nonlinear_arith)
            requires
                i == vals.len() - 1,
        ;
        assert(group_bits(vals, w).subrange(w * i, w * i + w) =~= num_bits(vals.last(), w));
    } else {
        lemma_group_bits_chunk(vals.drop_last(), w, i);
        assert(w * i + w <= (vals.len() - 1) * w) by (nonlinear_arith)
            requires
                w > 0 && 0 <= i < vals.len() - 1,
        ;
        assert(group_bits(vals, w).subrange(w * i, w * i + w) =~= group_bits(
            vals.drop_last(),
            w,
        ).subrange(w * i, w * i + w));
    }
}

pub proof fn lemma_bit_groups_of_group_bits(vals: Seq<int>, w: nat)
    requires
        w > 0,
        forall|i: int| 0 <= i < vals.len() ==> 0 <= #[trigger] vals[i] < pow2(w),
    ensures
        bit_groups(group_bits(vals, w), w) == vals,
{
    lemma_group_bits_len(vals, w);
    assert(vals.len() * w / w == vals.len()) by (nonlinear_arith)
        requires
            w > 0,
    ;
    assert forall|i: int| 0 <= i < vals.len() implies bit_groups(group_bits(vals, w), w)[i]
        == vals[i] by {
        lemma_group_bits_chunk(vals, w, i);
        lemma_num_bits_val(vals[i], w);
    }
    assert(bit_groups(group_bits(vals, w), w) =~= vals);
}

pub proof fn lemma_group_bits_of_bit_groups(bs: Seq<bool>, w: nat)
    requires
        w > 0,
        bs.len() % w == 0,
    ensures
        group_bits(bit_groups(bs, w), w) == bs,
    decreases bs.len(),
{
    let n = bs.len() / w;
    vstd::arithmetic::div_mod::lemma_fundamental_div_mod(bs.len() as int, w as int);
    if bs.len() == 0 {
        assert(group_bits(bit_groups(bs, w), w) =~= bs);
    } else {
        assert(n >= 1 && bs.len() >= w) by (nonlinear_arith)
            requires
                w > 0 && bs.len() > 0 && bs.len() == w * n + (bs.len() % w) && bs.len() % w == 0
                    && n == bs.len() / w,
        ;
        let prefix = bs.take(bs.len() - w);
        let tail = bs.subrange(bs.len() - w, bs.len() as int);
        assert(prefix.len() % w == 0 && prefix.len() / w == n - 1) by (nonlinear_arith)
            requires
                w > 0 && bs.len() % w == 0 && bs.len() >= w && n == bs.len() / w && prefix.len()
                    == bs.len() - w,
        ;
        lemma_group_bits_of_bit_groups(prefix, w);
        lemma_bits_num(tail);
        let groups = bit_groups(bs, w);
        assert forall|i: int| 0 <= i < n - 1 implies groups[i] == bit_groups(prefix, w)[i] by {
            assert(w * i + w <= w * (n - 1)) by (nonlinear_arith)
                requires
                    w > 0 && 0 <= i < n - 1,
            ;
            assert(w * (n - 1) == bs.len() - w) by (nonlinear_arith)
                requires
                    w > 0 && bs.len() % w == 0 && n == bs.len() / w && bs.len() > 0,
            ;
            assert(bs.subrange(w * i, w * i + w) =~= prefix.subrange(w * i, w * i + w));
        }
        assert(w * (n - 1) == bs.len() - w) by (nonlinear_arith)
            requires
                w > 0 && bs.len() % w == 0 && n == bs.len() / w && bs.len() > 0,
        ;
        assert(groups[n - 1] == bits_val(tail));
        assert(groups.drop_last() =~= bit_groups(prefix, w));
        assert(groups.last() == bits_val(tail));
        assert(group_bits(groups, w) == group_bits(bit_groups(prefix, w), w) + num_bits(
            bits_val(tail),
            w,
        ));
        assert(group_bits(groups, w) =~= bs);
    }
}

/// Builds the `n`-bit encoding of `v`, most significant bit first.
pub fn num_to_bits(v: u16, n: usize) -> (r: Vec<bool>)
    ensures
        r@ == num_bits(v as int, n as nat),
    decreases n,
{
    if n == 0 {
        let r: Vec<bool> = Vec::new();
        assert(r@ =~= num_bits(v as int, 0));
        r
    } else {
        let mut r = num_to_bits(v / 2, n - 1);
        r.push(v % 2 == 1);
        r
    }
}

/// Reads the value of the `n` bits of `bits` that start at `start`.
pub fn bits_range_val(bits: &Vec<bool>, start: usize, n: usize) -> (r: u16)
    requires
        n <= 16,
        start + n <= bits@.len(),
    ensures
        r as int == bits_val(bits@.subrange(start as int, start as int + n as int)),
{
    let blen: usize = bits.len();
    let mut r: u16 = 0;
    let mut i: usize = 0;
    proof {
        assert(bits@.subrange(start as int, start as int) =~= Seq::empty());
        lemma2_to64();
    }
    while i < n
        invariant
            i <= n <= 16,
            start + n <= blen,
            blen == bits@.len(),
            r as int == bits_val(bits@.subrange(start as int, start as int + i as int)),
            r < pow2(i as nat),
        decreases n - i,
    {
        let sub = Ghost(bits@.subrange(start as int, start as int + i as int + 1));
        proof {
            assert(sub@.drop_last() =~= bits@.subrange(start as int, start as int + i as int));
            assert(sub@.last() == bits@[start as int + i as int]);
            lemma_pow2_unfold((i + 1) as nat);
            lemma2_to64();
            assert(pow2((i + 1) as nat) <= pow2(16)) by {
                if i + 1 < 16 {
                    vstd::arithmetic::power2::lemma_pow2_strictly_increases(
                        (i + 1) as nat,
                        16,
                    );
                }
            }
        }
        let b: u16 = if bits[start + i] {
            1
        } else {
            0
        };
        r = 2 * r + b;
        i = i + 1;
    }
    r
}

} // verus!
