//! Wire-index bookkeeping shared by both gate encodings: clamped offsets and
//! the repair that keeps a gate's wires pairwise distinct.

use vstd::prelude::*;
use vstd::arithmetic::div_mod::{
    lemma_add_mod_noop_right,
    lemma_fundamental_div_mod,
    lemma_mod_add_multiples_vanish,
};
use vstd::set_lib::{lemma_int_range, lemma_len_subset, lemma_map_size, set_int_range};

verus! {

/// No wire occurs twice.
pub open spec fn all_distinct(w: Seq<usize>) -> bool {
    forall|i: int, j: int| 0 <= i < j < w.len() ==> w[i] != w[j]
}

/// Every wire lies in `[0, width)`.
pub open spec fn in_bounds(w: Seq<usize>, width: int) -> bool {
    forall|i: int| 0 <= i < w.len() ==> w[i] < width
}

/// `x` clamped to `[lo, hi]`.
pub open spec fn clamp_spec(x: int, lo: int, hi: int) -> int {
    if x < lo {
        lo
    } else if x > hi {
        hi
    } else {
        x
    }
}

/// `c + d` clamped to the wires `[0, width - 1]`.
pub fn clamp_offset(c: usize, d: i64, width: usize) -> (r: usize)
    requires
        width > 0,
    ensures
        r == clamp_spec(c + d, 0, width - 1),
{
    let x: i128 = c as i128 + d as i128;
    if x < 0 {
        0
    } else if x > (width - 1) as i128 {
        width - 1
    } else {
        x as usize
    }
}

/// Offset from the starting wire after `t` steps of the walk `+1, -2, +3, -4, ...`:
/// `0, 1, -1, 2, -2, ...`.
pub open spec fn walk_offset(t: int) -> int {
    if t % 2 == 1 {
        (t + 1) / 2
    } else {
        -(t / 2)
    }
}

/// The wire visited after `t` steps of the walk from `start`, modulo `width`.
pub open spec fn walk_pos(start: int, width: int, t: int) -> int {
    (start + walk_offset(t)) % width
}

/// Step `t` is where the walk from `start` first reaches a wire that `others` does not hold.
pub open spec fn walk_stop(others: Seq<usize>, start: int, width: int, t: int) -> bool {
    &&& 0 <= t < width
    &&& !others.contains(walk_pos(start, width, t) as usize)
    &&& forall|s: int| 0 <= s < t ==> others.contains(#[trigger] walk_pos(start, width, s) as usize)
}

/// Wire `i` moved to where its walk first leaves the other wires.
pub open spec fn separated(w: Seq<usize>, i: int, width: int) -> Seq<usize> {
    let t = choose|t: int| walk_stop(w.remove(i), w[i] as int, width, t);
    w.update(i, walk_pos(w[i] as int, width, t) as usize)
}

/// Wires `0, 1, ..., n - 1` separated in turn.
pub open spec fn rectified(w: Seq<usize>, width: int, n: nat) -> Seq<usize>
    decreases n,
{
    if n == 0 {
        w
    } else {
        separated(rectified(w, width, (n - 1) as nat), n - 1, width)
    }
}

proof fn lemma_mod_close(a: int, b: int, m: int)
    requires
        0 < m,
        a % m == b % m,
        -m < a - b < m,
    ensures
        a == b,
{
    lemma_fundamental_div_mod(a, m);
    lemma_fundamental_div_mod(b, m);
    let q = a / m - b / m;
    assert(a - b == m * q) by (nonlinear_arith)
        requires
            a == m * (a / m) + a % m,
            b == m * (b / m) + b % m,
            a % m == b % m,
            q == a / m - b / m,
    ;
    assert(q == 0) by (nonlinear_arith)
        requires
            a - b == m * q,
            -m < a - b < m,
            0 < m,
    ;
}

/// The first `width` steps of the walk visit pairwise different wires.
proof fn lemma_walk_injective(start: int, width: int, s1: int, s2: int)
    requires
        0 < width,
        0 <= s1 < width,
        0 <= s2 < width,
        s1 != s2,
    ensures
        walk_pos(start, width, s1) != walk_pos(start, width, s2),
{
    let a = start + walk_offset(s1);
    let b = start + walk_offset(s2);
    if a % width == b % width {
        lemma_mod_close(a, b, width);
    }
}

/// A wire set that the walk never leaves for `n <= width` steps has at least `n` members.
proof fn lemma_walk_pigeonhole(start: int, width: int, others: Seq<usize>, n: int)
    requires
        0 <= n <= width <= usize::MAX,
        forall|s: int| 0 <= s < n ==> others.contains(walk_pos(start, width, s) as usize),
        forall|s: int| 0 <= s < n ==> 0 <= #[trigger] walk_pos(start, width, s) < width,
    ensures
        n <= others.len(),
{
    let f = |s: int| walk_pos(start, width, s) as usize;
    let dom = set_int_range(0, n);
    lemma_int_range(0, n);
    assert(vstd::relations::injective_on(f, dom)) by {
        assert forall|s1: int, s2: int|
            dom.contains(s1) && dom.contains(s2) && #[trigger] f(s1) == #[trigger] f(s2)
            implies s1 == s2 by {
            assert(0 <= s1 < n && 0 <= s2 < n);
            assert(f(s1) == walk_pos(start, width, s1) as usize);
            assert(f(s2) == walk_pos(start, width, s2) as usize);
            assert(0 <= walk_pos(start, width, s1) < width);
            assert(0 <= walk_pos(start, width, s2) < width);
            if s1 != s2 {
                lemma_walk_injective(start, width, s1, s2);
            }
        }
    }
    lemma_map_size(dom, dom.map(f), f);
    assert(dom.map(f).subset_of(others.to_set()));
    others.lemma_cardinality_of_set();
    lemma_len_subset(dom.map(f), others.to_set());
}

/// Walks wire `i` outward from its value (`+1, -2, +3, ...` modulo `width`)
/// until no other wire shares it.
fn separate_wire(conns: &mut Vec<usize>, i: usize, width: usize)
    requires
        i < old(conns).len() <= width,
        in_bounds(old(conns)@, width as int),
    ensures
        final(conns)@.len() == old(conns)@.len(),
        in_bounds(final(conns)@, width as int),
        forall|j: int| 0 <= j < old(conns)@.len() && j != i ==> final(conns)@[j] == old(conns)@[j],
        forall|j: int| 0 <= j < final(conns)@.len() && j != i ==> final(conns)@[j] != final(conns)@[i as int],
        (forall|j: int| 0 <= j < old(conns)@.len() && j != i ==> old(conns)@[j] != old(conns)@[i as int])
            ==> final(conns)@ == old(conns)@,
        final(conns)@ == separated(old(conns)@, i as int, width as int),
{
    let ghost start = conns@[i as int] as int;
    let ghost others = conns@.remove(i as int);
    let n = conns.len();
    let mut t: usize = 0;
    proof {
        vstd::arithmetic::div_mod::lemma_small_mod(start as nat, width as nat);
        assert(walk_pos(start, width as int, 0) == start);
    }
    loop
        invariant
            n == conns@.len(),
            i < n <= width,
            in_bounds(conns@, width as int),
            others == conns@.remove(i as int),
            t < width,
            conns@[i as int] == walk_pos(start, width as int, t as int),
            forall|s: int| 0 <= s < t ==> others.contains(walk_pos(start, width as int, s) as usize),
            forall|s: int| 0 <= s <= t ==> 0 <= #[trigger] walk_pos(start, width as int, s) < width,
            t == 0 ==> conns@ == old(conns)@,
            (forall|j: int| 0 <= j < n && j != i ==> old(conns)@[j] != old(conns)@[i as int]) ==> t == 0,
            old(conns)@.len() == n,
            old(conns)@.remove(i as int) == others,
            old(conns)@[i as int] == start,
            forall|j: int| 0 <= j < n && j != i ==> conns@[j] == old(conns)@[j],
        decreases width - t,
    {
        let c = conns[i];
        let mut clash = false;
        let mut j: usize = 0;
        while j < n
            invariant
                n == conns@.len(),
                j <= n,
                i < n,
                c == conns@[i as int],
                clash <==> exists|k: int| 0 <= k < j && k != i && conns@[k] == c,
            decreases n - j,
        {
            if j != i && conns[j] == c {
                clash = true;
            }
            j = j + 1;
        }
        if !clash {
            proof {
                let w = width as int;
                if others.contains(c) {
                    let m = choose|m: int| 0 <= m < others.len() && others[m] == c;
                    if m < i {
                        assert(conns@[m] == c);
                    } else {
                        assert(conns@[m + 1] == c);
                    }
                }
                assert(walk_stop(others, start, w, t as int));
                assert(old(conns)@.remove(i as int) == others);
                let t2 = choose|t2: int| walk_stop(others, start, w, t2);
                assert(walk_stop(others, start, w, t2));
                if t2 < t {
                    assert(others.contains(walk_pos(start, w, t2) as usize));
                } else if t2 > t {
                    assert(others.contains(walk_pos(start, w, t as int) as usize));
                }
                assert(conns@ =~= separated(old(conns)@, i as int, w));
            }
            return;
        }
        proof {
            let k = choose|k: int| 0 <= k < n && k != i && conns@[k] == c;
            if k < i {
                assert(others[k] == c);
            } else {
                assert(others[k - 1] == c);
            }
            assert(others.contains(walk_pos(start, width as int, t as int) as usize));
            lemma_walk_pigeonhole(start, width as int, others, t + 1);
        }
        let step: usize = t + 1;
        let next: usize = if t % 2 == 0 {
            ((c as u128 + step as u128) % width as u128) as usize
        } else {
            ((c as u128 + (width - step) as u128) % width as u128) as usize
        };
        proof {
            let w = width as int;
            let base = start + walk_offset(t as int);
            assert(c == base % w);
            if t % 2 == 0 {
                assert(walk_offset(t + 1) == walk_offset(t as int) + step);
                lemma_add_mod_noop_right(step as int, base, w);
                assert((c + step) % w == (base + step) % w);
            } else {
                assert(walk_offset(t + 1) == walk_offset(t as int) - step);
                lemma_add_mod_noop_right(w - step, base, w);
                lemma_mod_add_multiples_vanish(base - step, w);
                assert((c + (w - step)) % w == (base + (w - step)) % w);
            }
        }
        conns.set(i, next);
        t = t + 1;
        proof {
            assert(others == conns@.remove(i as int));
        }
    }
}

/// Restores pairwise distinct wires, keeping every wire in `[0, width)`:
/// each wire in turn walks outward from its value while another wire shares it.
/// Wires that are already distinct are left as they are.
pub fn rectify_duplicates(conns: &mut Vec<usize>, width: usize)
    requires
        old(conns)@.len() <= width,
        in_bounds(old(conns)@, width as int),
    ensures
        final(conns)@.len() == old(conns)@.len(),
        in_bounds(final(conns)@, width as int),
        all_distinct(final(conns)@),
        all_distinct(old(conns)@) ==> final(conns)@ == old(conns)@,
        final(conns)@ == rectified(old(conns)@, width as int, old(conns)@.len()),
{
    let n = conns.len();
    let mut i: usize = 0;
    while i < n
        invariant
            n == conns@.len(),
            i <= n <= width,
            in_bounds(conns@, width as int),
            forall|a: int, b: int| 0 <= a < n && 0 <= b < n && a != b && a < i ==> conns@[a] != conns@[b],
            all_distinct(old(conns)@) ==> conns@ == old(conns)@,
            conns@ == rectified(old(conns)@, width as int, i as nat),
        decreases n - i,
    {
        separate_wire(conns, i, width);
        i = i + 1;
    }
}

} // verus!

verus! {

/// The least of `raw`, `middle` and `len - middle - 1`.
pub open spec fn group_half(len: int, middle: int, raw: int) -> int {
    let room = if len - middle - 1 < middle { len - middle - 1 } else { middle };
    if raw < room { raw } else { room }
}

/// `len - middle - 1`, `middle` and `raw` at most: the half-width of a group
/// centred on `middle` that stays inside `[0, len)`.
pub fn clamp_group(len: usize, middle: usize, raw: usize) -> (r: usize)
    requires
        middle < len,
    ensures
        r == group_half(len as int, middle as int, raw as int),
        r <= raw,
        r <= middle,
        middle + r < len,
        r == raw || r == middle || r == len - middle - 1,
{
    let room = if len - middle - 1 < middle { len - middle - 1 } else { middle };
    if raw < room { raw } else { room }
}

/// A group centred on `middle` with half-width `size` lies inside `[0, len)`.
pub open spec fn group_ok(len: int, middle: int, size: int) -> bool {
    0 <= size <= middle && middle + size < len
}

/// -1, 0 or 1 after the sign of `x`.
pub open spec fn signum(x: int) -> int {
    if x > 0 {
        1
    } else if x < 0 {
        -1
    } else {
        0
    }
}

/// Where a copied group goes: `middle + shamt + size * signum(shamt)`, clamped to `[0, len - 1]`.
pub open spec fn insertion_point(len: int, middle: int, size: int, shamt: int) -> int {
    clamp_spec(middle + shamt + size * signum(shamt), 0, len - 1)
}

/// The index before which a copied group is spliced in.
pub fn copy_insertion_point(len: usize, middle: usize, size: usize, shamt: i64) -> (r: usize)
    requires
        len > 0,
    ensures
        r == insertion_point(len as int, middle as int, size as int, shamt as int),
        r < len,
{
    let sign: i128 = if shamt > 0 { 1 } else if shamt < 0 { -1 } else { 0 };
    let x: i128 = middle as i128 + shamt as i128 + size as i128 * sign;
    if x < 0 {
        0
    } else if x > (len - 1) as i128 {
        len - 1
    } else {
        x as usize
    }
}

/// Each wire moved by its own delta, `deltas[from + j]` for wire `j`, clamped to `[0, width - 1]`.
pub open spec fn shifted(wires: Seq<usize>, deltas: Seq<i64>, from: int, width: int) -> Seq<usize> {
    Seq::new(wires.len(), |j: int| clamp_spec(wires[j] + deltas[from + j], 0, width - 1) as usize)
}

/// `new` is `old` moved by the deltas and then made pairwise distinct by the
/// outward walk; where the moved wires are already distinct, `new` is exactly them.
pub open spec fn moved(old: Seq<usize>, new: Seq<usize>, deltas: Seq<i64>, from: int, width: int) -> bool {
    &&& new.len() == old.len()
    &&& in_bounds(new, width)
    &&& all_distinct(new)
    &&& new == rectified(shifted(old, deltas, from, width), width, old.len())
    &&& all_distinct(shifted(old, deltas, from, width)) ==> new == shifted(old, deltas, from, width)
}

/// Moves each wire by its delta, clamps it to the wires and restores distinctness.
pub fn move_wires(wires: &Vec<usize>, deltas: &Vec<i64>, from: usize, width: usize) -> (r: Vec<usize>)
    requires
        wires@.len() <= width,
        from + wires@.len() <= deltas@.len(),
    ensures
        moved(wires@, r@, deltas@, from as int, width as int),
{
    let mut r: Vec<usize> = Vec::new();
    let mut j: usize = 0;
    let nd = deltas.len();
    while j < wires.len()
        invariant
            nd == deltas@.len(),
            j <= wires@.len() <= width,
            from + wires@.len() <= deltas@.len(),
            r@ =~= shifted(wires@, deltas@, from as int, width as int).subrange(0, j as int),
        decreases wires@.len() - j,
    {
        r.push(clamp_offset(wires[j], deltas[from + j], width));
        j = j + 1;
    }
    assert(r@ =~= shifted(wires@, deltas@, from as int, width as int));
    rectify_duplicates(&mut r, width);
    r
}

} // verus!

verus! {

/// The integers drawn for one mutation operator: which operator (`op`:
/// 1 shift, 2 copy, 3 delete, 4 jitter, 5 table mutation), the group centre,
/// the group's unclamped half-width, the shift, one delta per wire of the group
/// (jitter) and one swap count per gate of the group (table mutation).
pub struct Draw {
    pub op: u8,
    pub middle: usize,
    pub raw_size: usize,
    pub shamt: i64,
    pub deltas: Vec<i64>,
    pub counts: Vec<u64>,
}

} // verus!
