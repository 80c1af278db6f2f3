//! Scoring of any forward transform: how many zeros its output has at both
//! ends, against the input's length.

use vstd::prelude::*;
use crate::bits::{bits_of, bv_clone, bv_get, bv_len};

verus! {

/// Number of `false` bits at the start of `s`.
pub open spec fn zeros_at_start(s: Seq<bool>) -> int
    decreases s.len(),
{
    if s.len() == 0 || s[0] {
        0
    } else {
        1 + zeros_at_start(s.drop_first())
    }
}

/// Number of `false` bits at the end of `s`.
pub open spec fn zeros_at_end(s: Seq<bool>) -> int
    decreases s.len(),
{
    if s.len() == 0 || s.last() {
        0
    } else {
        1 + zeros_at_end(s.drop_last())
    }
}

/// Output bits in the zero runs at the start and at the end; an all-zero
/// output counts each bit once.
pub open spec fn edge_zeros(res: Seq<bool>) -> int {
    if zeros_at_start(res) == res.len() {
        res.len() as int
    } else {
        zeros_at_start(res) + zeros_at_end(res)
    }
}

/// Score of an output for an input of `n` bits: `n` less the output bits that
/// are not part of its zero runs at the start and at the end.
pub open spec fn edge_score(res: Seq<bool>, n: int) -> int {
    n - (res.len() - edge_zeros(res))
}

/// Sum of a sequence of integers.
pub open spec fn seq_sum(s: Seq<int>) -> int
    decreases s.len(),
{
    if s.len() == 0 {
        0
    } else {
        seq_sum(s.drop_last()) + s.last()
    }
}

/// `score` is what `forward` gives for some copy of `input`.
pub open spec fn scored<F: Fn(bit_vec::BitVec) -> bit_vec::BitVec>(
    forward: F,
    input: bit_vec::BitVec,
    score: int,
) -> bool {
    exists|c: bit_vec::BitVec, o: bit_vec::BitVec|
        bits_of(c) == bits_of(input) && #[trigger] forward.ensures((c,), o) && score == edge_score(
            bits_of(o),
            bits_of(input).len() as int,
        )
}

/// `forward` takes every copy of `input`, which is at most `limit` bits long,
/// and gives at most `limit` bits for it; the score then lies in `[-limit, limit]`.
pub open spec fn accepts<F: Fn(bit_vec::BitVec) -> bit_vec::BitVec>(
    forward: F,
    input: bit_vec::BitVec,
    limit: int,
) -> bool {
    &&& bits_of(input).len() <= limit
    &&& forall|b: bit_vec::BitVec| bits_of(b) == bits_of(input) ==> #[trigger] forward.requires((b,))
    &&& forall|b: bit_vec::BitVec, o: bit_vec::BitVec|
        bits_of(b) == bits_of(input) && #[trigger] forward.ensures((b,), o) ==> bits_of(o).len() <= limit
}

proof fn lemma_start_bounds(s: Seq<bool>)
    ensures
        0 <= zeros_at_start(s) <= s.len(),
    decreases s.len(),
{
    if s.len() > 0 {
        lemma_start_bounds(s.drop_first());
    }
}

proof fn lemma_end_bounds(s: Seq<bool>)
    ensures
        0 <= zeros_at_end(s) <= s.len(),
    decreases s.len(),
{
    if s.len() > 0 {
        lemma_end_bounds(s.drop_last());
    }
}

/// The zeros at the start of `s`, counted from index `i`, where `s[0..i]` are all zero.
proof fn lemma_start_step(s: Seq<bool>, i: int)
    requires
        0 <= i < s.len(),
        forall|j: int| 0 <= j < i ==> !s[j],
    ensures
        zeros_at_start(s) == i + zeros_at_start(s.subrange(i, s.len() as int)),
    decreases i,
{
    if i > 0 {
        lemma_start_step(s.drop_first(), i - 1);
        assert(s.drop_first().subrange(i - 1, s.len() - 1) =~= s.subrange(i, s.len() as int));
    } else {
        assert(s.subrange(0, s.len() as int) =~= s);
    }
}

/// Zeros at the start of a bit-vector.
fn count_start(res: &bit_vec::BitVec) -> (r: usize)
    ensures
        r == zeros_at_start(bits_of(*res)),
{
    let n = bv_len(res);
    let ghost s = bits_of(*res);
    let mut i: usize = 0;
    while i < n && !bv_get(res, i)
        invariant
            n == s.len(),
            s == bits_of(*res),
            i <= n,
            forall|j: int| 0 <= j < i ==> !s[j],
        decreases n - i,
    {
        i = i + 1;
    }
    proof {
        if i < n {
            lemma_start_step(s, i as int);
        } else {
            lemma_all_zero_start(s);
        }
    }
    i
}

proof fn lemma_all_zero_start(s: Seq<bool>)
    requires
        forall|j: int| 0 <= j < s.len() ==> !s[j],
    ensures
        zeros_at_start(s) == s.len(),
    decreases s.len(),
{
    if s.len() > 0 {
        lemma_all_zero_start(s.drop_first());
    }
}

proof fn lemma_end_step(s: Seq<bool>, i: int)
    requires
        0 <= i <= s.len(),
        forall|j: int| s.len() - i <= j < s.len() ==> !s[j],
    ensures
        zeros_at_end(s) == i + zeros_at_end(s.subrange(0, s.len() - i)),
    decreases i,
{
    if i > 0 {
        lemma_end_step(s.drop_last(), i - 1);
        assert(s.drop_last().subrange(0, s.len() - i) =~= s.subrange(0, s.len() - i));
    } else {
        assert(s.subrange(0, s.len() as int) =~= s);
    }
}

/// Zeros at the end of a bit-vector.
fn count_end(res: &bit_vec::BitVec) -> (r: usize)
    ensures
        r == zeros_at_end(bits_of(*res)),
{
    let n = bv_len(res);
    let ghost s = bits_of(*res);
    let mut i: usize = 0;
    while i < n && !bv_get(res, n - 1 - i)
        invariant
            n == s.len(),
            s == bits_of(*res),
            i <= n,
            forall|j: int| n - i <= j < n ==> !s[j],
        decreases n - i,
    {
        i = i + 1;
    }
    proof {
        lemma_end_step(s, i as int);
        assert(zeros_at_end(s.subrange(0, n - i)) == 0) by {
            if i < n {
                assert(s.subrange(0, n - i).last() == s[n - 1 - i]);
            }
        }
    }
    i
}

proof fn lemma_edge_zeros_bounds(res: Seq<bool>)
    ensures
        0 <= edge_zeros(res) <= res.len(),
{
    lemma_start_bounds(res);
    lemma_end_bounds(res);
    if zeros_at_start(res) < res.len() {
        lemma_start_end_disjoint(res);
    }
}

/// Where the output holds a set bit, the zero runs at its two ends do not overlap.
proof fn lemma_start_end_disjoint(s: Seq<bool>)
    requires
        zeros_at_start(s) < s.len(),
    ensures
        zeros_at_start(s) + zeros_at_end(s) <= s.len(),
    decreases s.len(),
{
    lemma_start_bounds(s);
    lemma_end_bounds(s);
    if s.len() > 0 && !s[0] {
        let t = s.drop_first();
        lemma_start_end_disjoint(t);
        lemma_end_tail(s);
    } else {
        lemma_end_bounds(s);
        if s.len() > 0 && s[0] {
            lemma_end_below_one(s);
        }
    }
}

/// Dropping a leading zero keeps the zeros at the end, unless all bits are zero.
proof fn lemma_end_tail(s: Seq<bool>)
    requires
        s.len() > 0,
        !s[0],
        zeros_at_start(s) < s.len(),
    ensures
        zeros_at_end(s) == zeros_at_end(s.drop_first()),
    decreases s.len(),
{
    if s.len() == 1 {
        assert(s.drop_first().len() == 0);
        assert(zeros_at_start(s) == 1 + zeros_at_start(s.drop_first()));
    } else if !s.last() {
        assert(s.drop_first().last() == s.last());
        assert(s.drop_last()[0] == s[0]);
        lemma_start_prefix(s);
        lemma_end_tail(s.drop_last());
        assert(s.drop_first().drop_last() =~= s.drop_last().drop_first());
    } else {
        assert(s.drop_first().last() == s.last());
    }
}

/// Where the last bit is zero and some bit is set, some bit before the last is set.
proof fn lemma_start_prefix(s: Seq<bool>)
    requires
        s.len() > 1,
        !s.last(),
        zeros_at_start(s) < s.len(),
    ensures
        zeros_at_start(s.drop_last()) < s.len() - 1,
    decreases s.len(),
{
    if !s[0] {
        if s.len() == 2 {
            let t = s.drop_first();
            assert(t[0] == s[1]);
            assert(t.drop_first().len() == 0);
            assert(zeros_at_start(t) == 1 + zeros_at_start(t.drop_first()));
        } else {
            lemma_start_prefix(s.drop_first());
            assert(s.drop_first().drop_last() =~= s.drop_last().drop_first());
        }
    }
}

/// Where the first bit is set, the zeros at the end stop before it.
proof fn lemma_end_below_one(s: Seq<bool>)
    requires
        s.len() > 0,
        s[0],
    ensures
        zeros_at_end(s) < s.len(),
    decreases s.len(),
{
    if s.len() > 1 && !s.last() {
        lemma_end_below_one(s.drop_last());
    }
}

/// A score that `forward` gives within a length limit lies within that limit.
pub proof fn lemma_scored_bounds<F: Fn(bit_vec::BitVec) -> bit_vec::BitVec>(
    forward: F,
    input: bit_vec::BitVec,
    score: int,
    limit: int,
)
    requires
        scored(forward, input, score),
        accepts(forward, input, limit),
    ensures
        -limit <= score <= limit,
{
    let (c, o) = choose|c: bit_vec::BitVec, o: bit_vec::BitVec|
        bits_of(c) == bits_of(input) && #[trigger] forward.ensures((c,), o) && score == edge_score(
            bits_of(o),
            bits_of(input).len() as int,
        );
    lemma_edge_zeros_bounds(bits_of(o));
}

/// The score of one input under `forward`.
pub fn eval<F: Fn(bit_vec::BitVec) -> bit_vec::BitVec>(forward: F, input: &bit_vec::BitVec) -> (r: i64)
    requires
        accepts(forward, *input, i64::MAX as int),
    ensures
        scored(forward, *input, r as int),
{
    let c = bv_clone(input);
    let res = forward(c);
    let lead = count_start(&res);
    let n = bv_len(input);
    let len = bv_len(&res);
    let zeros = if lead == len {
        len
    } else {
        let trail = count_end(&res);
        proof {
            lemma_edge_zeros_bounds(bits_of(res));
        }
        lead + trail
    };
    proof {
        lemma_edge_zeros_bounds(bits_of(res));
    }
    let r = n as i64 - (len as i64 - zeros as i64);
    assert(scored(forward, *input, r as int));
    r
}

/// Sum of the scores of the inputs under `forward`; each input and each
/// output is at most `i64::MAX / inputs.len()` bits long, so the sum fits.
pub fn eval_many<F: Fn(bit_vec::BitVec) -> bit_vec::BitVec + Copy>(
    forward: F,
    inputs: &Vec<bit_vec::BitVec>,
) -> (r: i64)
    requires
        forall|i: int| 0 <= i < inputs@.len() ==> accepts(
            forward,
            #[trigger] inputs@[i],
            i64::MAX as int / inputs@.len() as int,
        ),
    ensures
        exists|scores: Seq<int>|
            #![trigger seq_sum(scores)]
            scores.len() == inputs@.len() && (forall|i: int| 0 <= i < scores.len() ==> scored(forward, inputs@[i], #[trigger] scores[i]))
                && r == seq_sum(scores),
{
    let n = inputs.len();
    let mut total: i64 = 0;
    let ghost mut scores: Seq<int> = Seq::empty();
    let ghost limit: int = if n == 0 { 0 } else { i64::MAX as int / n as int };
    proof {
        if n > 0 {
            assert(n * limit <= i64::MAX) by (nonlinear_arith)
                requires
                    n > 0,
                    limit == i64::MAX as int / n as int,
            {
                vstd::arithmetic::div_mod::lemma_fundamental_div_mod(i64::MAX as int, n as int);
            }
            assert(limit <= i64::MAX) by (nonlinear_arith)
                requires
                    n > 0,
                    n * limit <= i64::MAX,
                    limit >= 0,
            ;
        }
    }
    let mut i: usize = 0;
    while i < n
        invariant
            n == inputs@.len(),
            n > 0 ==> limit == i64::MAX as int / n as int,
            0 <= limit <= i64::MAX,
            n * limit <= i64::MAX,
            forall|j: int| 0 <= j < inputs@.len() ==> accepts(forward, #[trigger] inputs@[j], i64::MAX as int / inputs@.len() as int),
            i <= n,
            scores.len() == i,
            forall|j: int| 0 <= j < i ==> scored(forward, inputs@[j], #[trigger] scores[j]),
            total == seq_sum(scores),
            -(i * limit) <= total <= i * limit,
        decreases n - i,
    {
        let s = eval(forward, &inputs[i]);
        proof {
            lemma_scored_bounds(forward, inputs@[i as int], s as int, limit);
            assert((i + 1) * limit <= n * limit) by (nonlinear_arith)
                requires
                    i + 1 <= n,
                    limit >= 0,
            ;
            assert((i + 1) * limit == i * limit + limit) by (nonlinear_arith);
            let prev = scores;
            scores = scores.push(s as int);
            assert(scores.drop_last() =~= prev);
        }
        total = total + s;
        i = i + 1;
    }
    total
}

} // verus!
