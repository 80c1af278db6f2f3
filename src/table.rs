//! Learned permutation tables over k-bit patterns, and the conversions between
//! bit patterns and their numbers (first bit most significant).

use vstd::prelude::*;
use crate::bits::{bits_of, bv_get, bv_len, bv_new, bv_push, bv_set};
use vstd::arithmetic::div_mod::lemma_div_denominator;

verus! {

/// `2^k`.
pub open spec fn two_pow(k: nat) -> nat
    decreases k,
{
    if k == 0 {
        1
    } else {
        2 * two_pow((k - 1) as nat)
    }
}

/// The number that a bit pattern spells, first bit most significant.
pub open spec fn bits_value(b: Seq<bool>) -> nat
    decreases b.len(),
{
    if b.len() == 0 {
        0
    } else {
        2 * bits_value(b.drop_last()) + (if b.last() { 1nat } else { 0nat })
    }
}

/// The low `k` bits of `n`, most significant first.
pub open spec fn num_bits(n: nat, k: nat) -> Seq<bool>
    decreases k,
{
    if k == 0 {
        Seq::empty()
    } else {
        seq![(n / two_pow((k - 1) as nat)) % 2 == 1] + num_bits(n, (k - 1) as nat)
    }
}

/// Each value in `[0, s.len())` occurs exactly once.
pub open spec fn is_permutation(s: Seq<usize>) -> bool {
    &&& forall|i: int| 0 <= i < s.len() ==> s[i] < s.len()
    &&& forall|i: int, j: int| 0 <= i < j < s.len() ==> s[i] != s[j]
}

pub proof fn lemma_two_pow_pos(k: nat)
    ensures
        two_pow(k) >= 1,
    decreases k,
{
    if k > 0 {
        lemma_two_pow_pos((k - 1) as nat);
    }
}

pub proof fn lemma_two_pow_mono(a: nat, b: nat)
    requires
        a <= b,
    ensures
        two_pow(a) <= two_pow(b),
    decreases b,
{
    if a < b {
        lemma_two_pow_mono(a, (b - 1) as nat);
    }
}

proof fn lemma_two_pow_31()
    ensures
        two_pow(31) == 0x8000_0000,
{
    reveal_with_fuel(two_pow, 32);
}

pub proof fn lemma_bits_value_bound(b: Seq<bool>)
    ensures
        bits_value(b) < two_pow(b.len()),
    decreases b.len(),
{
    if b.len() > 0 {
        lemma_bits_value_bound(b.drop_last());
    }
}

/// `2^k` for a `k` below 32.
pub fn two_pow_exec(k: usize) -> (r: usize)
    requires
        k < 32,
    ensures
        r == two_pow(k as nat),
{
    let mut r: usize = 1;
    let mut i: usize = 0;
    while i < k
        invariant
            i <= k < 32,
            r == two_pow(i as nat),
            r <= 0x8000_0000,
        decreases k - i,
    {
        proof {
            lemma_two_pow_mono((i + 1) as nat, 31);
            lemma_two_pow_31();
        }
        r = r * 2;
        i = i + 1;
    }
    r
}

/// The number spelt by a bit pattern of at most 31 bits.
pub fn bitvec_to_num(bitvec: &bit_vec::BitVec) -> (r: usize)
    requires
        bits_of(*bitvec).len() < 32,
    ensures
        r == bits_value(bits_of(*bitvec)),
{
    let n = bv_len(bitvec);
    let mut v: usize = 0;
    let mut i: usize = 0;
    while i < n
        invariant
            n == bits_of(*bitvec).len() < 32,
            i <= n,
            v == bits_value(bits_of(*bitvec).subrange(0, i as int)),
        decreases n - i,
    {
        let ghost pre = bits_of(*bitvec).subrange(0, i as int);
        let ghost next = bits_of(*bitvec).subrange(0, i + 1);
        proof {
            assert(next.drop_last() =~= pre);
            lemma_bits_value_bound(pre);
            lemma_two_pow_mono(i as nat, 31);
            lemma_two_pow_31();
        }
        let b = bv_get(bitvec, i);
        v = 2 * v + if b { 1 } else { 0 };
        i = i + 1;
    }
    assert(bits_of(*bitvec).subrange(0, n as int) =~= bits_of(*bitvec));
    v
}

/// The low `k` bits of `n`, most significant first.
pub fn num_to_bitvec(n: usize, k: usize) -> (r: bit_vec::BitVec)
    ensures
        bits_of(r) == num_bits(n as nat, k as nat),
{
    let mut r = bv_new();
    let mut i: usize = 0;
    while i < k
        invariant
            i <= k,
            bits_of(r).len() == i,
        decreases k - i,
    {
        bv_push(&mut r, false);
        i = i + 1;
    }
    let mut m: usize = n;
    let mut j: usize = 0;
    assert(two_pow(0) == 1);
    assert(bits_of(r).subrange(k as int, k as int) =~= num_bits(n as nat, 0));
    while j < k
        invariant
            j <= k,
            bits_of(r).len() == k,
            m == n as nat / two_pow(j as nat),
            bits_of(r).subrange(k - j, k as int) == num_bits(n as nat, j as nat),
        decreases k - j,
    {
        let ghost before = bits_of(r);
        bv_set(&mut r, k - 1 - j, m % 2 == 1);
        proof {
            lemma_two_pow_pos(j as nat);
            lemma_div_denominator(n as int, two_pow(j as nat) as int, 2);
            assert(two_pow((j + 1) as nat) == two_pow(j as nat) * 2);
            assert(bits_of(r).subrange(k - (j + 1), k as int) =~= seq![m % 2 == 1] + before.subrange(
                k - j,
                k as int,
            ));
        }
        m = m / 2;
        j = j + 1;
    }
    assert(bits_of(r).subrange(0, k as int) =~= bits_of(r));
    r
}

/// Relies on `rand::Rng::random_range` over the thread-local generator: an index below `n`.
#[verifier::external_body]
fn random_index(n: usize) -> (r: usize)
    requires
        n > 0,
    ensures
        r < n,
{
    rand::Rng::random_range(&mut rand::rng(), 0..n)
}

/// The table with entries `a` and `b` exchanged.
pub open spec fn swap_pair(t: Seq<usize>, a: int, b: int) -> Seq<usize> {
    t.update(a, t[b]).update(b, t[a])
}

/// The table after exchanging the entries of each pair in turn.
pub open spec fn swapped(t: Seq<usize>, pairs: Seq<(usize, usize)>) -> Seq<usize>
    decreases pairs.len(),
{
    if pairs.len() == 0 {
        t
    } else {
        let p = pairs.last();
        swap_pair(swapped(t, pairs.drop_last()), p.0 as int, p.1 as int)
    }
}

/// A bijection on the patterns of `inp_size` bits, held as the output number
/// for each input number.
#[derive(Clone, Debug)]
pub struct SBox {
    pub inp_size: usize,
    pub shuffles: Vec<usize>,
}

impl SBox {
    /// Pattern width.
    pub open spec fn width(&self) -> nat {
        self.inp_size as nat
    }

    /// The table: output number by input number.
    pub open spec fn table(&self) -> Seq<usize> {
        self.shuffles@
    }

    /// `2^k` entries forming a permutation, with `k` below 32.
    pub open spec fn wf(&self) -> bool {
        &&& self.inp_size < 32
        &&& self.shuffles@.len() == two_pow(self.inp_size as nat)
        &&& is_permutation(self.shuffles@)
    }

    /// The identity permutation over patterns of `inp_size` bits.
    pub fn new(inp_size: usize) -> (r: Self)
        requires
            inp_size < 32,
        ensures
            r.wf(),
            r.width() == inp_size,
            forall|i: int| 0 <= i < r.table().len() ==> r.table()[i] == i,
    {
        let n = two_pow_exec(inp_size);
        let mut shuffles: Vec<usize> = Vec::new();
        let mut i: usize = 0;
        while i < n
            invariant
                i <= n,
                shuffles@.len() == i,
                forall|j: int| 0 <= j < i ==> shuffles@[j] == j,
            decreases n - i,
        {
            shuffles.push(i);
            i = i + 1;
        }
        SBox { inp_size, shuffles }
    }

    /// An equal table.
    pub fn copy(&self) -> (r: Self)
        ensures
            r.width() == self.width(),
            r.table() == self.table(),
    {
        SBox { inp_size: self.inp_size, shuffles: self.shuffles.clone() }
    }

    /// The output pattern for an input pattern of at most `k` bits (a shorter
    /// one reads as if padded with zeros at its most significant end).
    pub fn forward(&self, input: bit_vec::BitVec) -> (r: bit_vec::BitVec)
        requires
            self.wf(),
            bits_of(input).len() <= self.width(),
        ensures
            bits_of(r) == num_bits(
                self.table()[bits_value(bits_of(input)) as int] as nat,
                self.width(),
            ),
    {
        proof {
            lemma_bits_value_bound(bits_of(input));
            lemma_two_pow_mono(bits_of(input).len(), self.inp_size as nat);
        }
        let x = bitvec_to_num(&input);
        num_to_bitvec(self.shuffles[x], self.inp_size)
    }

    /// The table with entries `a` and `b` exchanged.
    pub fn swap_entries(&self, a: usize, b: usize) -> (r: Self)
        requires
            self.wf(),
            a < self.table().len(),
            b < self.table().len(),
        ensures
            r.wf(),
            r.width() == self.width(),
            r.table() == self.table().update(a as int, self.table()[b as int]).update(
                b as int,
                self.table()[a as int],
            ),
    {
        let mut shuffles = self.shuffles.clone();
        let x = shuffles[a];
        let y = shuffles[b];
        shuffles.set(a, y);
        shuffles.set(b, x);
        let r = SBox { inp_size: self.inp_size, shuffles };
        assert(is_permutation(r.shuffles@)) by {
            assert forall|i: int, j: int| 0 <= i < j < r.shuffles@.len() implies r.shuffles@[i]
                != r.shuffles@[j] by {
                let oi = if i == a { b as int } else if i == b { a as int } else { i };
                let oj = if j == a { b as int } else if j == b { a as int } else { j };
                assert(r.shuffles@[i] == self.shuffles@[oi]);
                assert(r.shuffles@[j] == self.shuffles@[oj]);
            }
        }
        r
    }

    /// The table after exchanging the entries of each pair in turn.
    pub fn apply_swaps(&self, pairs: &Vec<(usize, usize)>) -> (r: Self)
        requires
            self.wf(),
            forall|i: int| 0 <= i < pairs@.len() ==> (#[trigger] pairs@[i]).0 < self.table().len()
                && pairs@[i].1 < self.table().len(),
        ensures
            r.wf(),
            r.width() == self.width(),
            r.table() == swapped(self.table(), pairs@),
    {
        let mut new = self.copy();
        let mut i: usize = 0;
        while i < pairs.len()
            invariant
                self.wf(),
                new.wf(),
                new.width() == self.width(),
                new.table().len() == self.table().len(),
                i <= pairs@.len(),
                forall|j: int| 0 <= j < pairs@.len() ==> (#[trigger] pairs@[j]).0 < self.table().len()
                    && pairs@[j].1 < self.table().len(),
                new.table() == swapped(self.table(), pairs@.subrange(0, i as int)),
            decreases pairs@.len() - i,
        {
            let (a, b) = pairs[i];
            new = new.swap_entries(a, b);
            proof {
                assert(pairs@.subrange(0, i + 1).drop_last() =~= pairs@.subrange(0, i as int));
            }
            i = i + 1;
        }
        assert(pairs@.subrange(0, pairs@.len() as int) =~= pairs@);
        new
    }

    /// The table after `n_swaps` exchanges of two entries drawn at random;
    /// it stays a permutation of the same patterns.
    pub fn mutation(&self, n_swaps: u64) -> (r: Self)
        requires
            self.wf(),
        ensures
            r.wf(),
            r.width() == self.width(),
            exists|pairs: Seq<(usize, usize)>|
                pairs.len() == n_swaps && #[trigger] swapped(self.table(), pairs) == r.table(),
    {
        let len = self.shuffles.len();
        proof {
            lemma_two_pow_pos(self.inp_size as nat);
        }
        let mut pairs: Vec<(usize, usize)> = Vec::new();
        let mut i: u64 = 0;
        while i < n_swaps
            invariant
                len == self.table().len(),
                len > 0,
                i <= n_swaps,
                pairs@.len() == i,
                forall|j: int| 0 <= j < pairs@.len() ==> (#[trigger] pairs@[j]).0 < len && pairs@[j].1 < len,
            decreases n_swaps - i,
        {
            let a = random_index(len);
            let b = random_index(len);
            pairs.push((a, b));
            i = i + 1;
        }
        self.apply_swaps(&pairs)
    }
}

} // verus!
