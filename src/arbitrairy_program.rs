//! Networks of learned permutation gates: each gate reads `k` wires, looks the
//! pattern up in its table and writes the output pattern back to the same wires.

use vstd::prelude::*;
use crate::bits::{bits_of, bv_get, bv_len, bv_new, bv_push, bv_set};
use crate::table::{
    bits_value,
    is_permutation,
    lemma_bits_value_bound,
    lemma_two_pow_pos,
    num_bits,
    two_pow,
    SBox,
};
use vstd::arithmetic::div_mod::lemma_div_denominator;
use crate::wiring::{
    Draw,
    group_half,
    all_distinct,
    clamp_group,
    copy_insertion_point,
    group_ok,
    in_bounds,
    insertion_point,
    move_wires,
    moved,
};

verus! {

/// The bits at the given wires, in wire order.
pub open spec fn gather(state: Seq<bool>, wires: Seq<usize>) -> Seq<bool> {
    Seq::new(wires.len(), |j: int| state[wires[j] as int])
}

/// The state with `vals[j]` written to `wires[j]` for `j < n`, in that order.
pub open spec fn scatter(state: Seq<bool>, wires: Seq<usize>, vals: Seq<bool>, n: nat) -> Seq<bool>
    decreases n,
{
    if n == 0 {
        state
    } else {
        scatter(state, wires, vals, (n - 1) as nat).update(wires[n - 1] as int, vals[n - 1])
    }
}

/// One gate: gather its wires, look the pattern up, scatter the output back.
pub open spec fn gate_step(state: Seq<bool>, table: Seq<usize>, wires: Seq<usize>) -> Seq<bool> {
    scatter(
        state,
        wires,
        num_bits(table[bits_value(gather(state, wires)) as int] as nat, wires.len()),
        wires.len(),
    )
}

/// The gates `(table, wires)` applied in order.
pub open spec fn run(state: Seq<bool>, gates: Seq<(Seq<usize>, Seq<usize>)>) -> Seq<bool>
    decreases gates.len(),
{
    if gates.len() == 0 {
        state
    } else {
        let g = gates.last();
        gate_step(run(state, gates.drop_last()), g.0, g.1)
    }
}

/// The input followed by zeros up to `width` bits.
pub open spec fn pad_zeros(input: Seq<bool>, width: nat) -> Seq<bool> {
    input + Seq::new((width - input.len()) as nat, |i: int| false)
}

proof fn lemma_scatter_len(state: Seq<bool>, wires: Seq<usize>, vals: Seq<bool>, n: nat)
    requires
        n <= wires.len(),
        in_bounds(wires, state.len() as int),
    ensures
        scatter(state, wires, vals, n).len() == state.len(),
    decreases n,
{
    if n > 0 {
        lemma_scatter_len(state, wires, vals, (n - 1) as nat);
    }
}

proof fn lemma_scatter_at(state: Seq<bool>, wires: Seq<usize>, vals: Seq<bool>, n: nat, j: int)
    requires
        n <= wires.len(),
        0 <= j < n,
        all_distinct(wires),
        in_bounds(wires, state.len() as int),
    ensures
        scatter(state, wires, vals, n)[wires[j] as int] == vals[j],
    decreases n,
{
    lemma_scatter_len(state, wires, vals, (n - 1) as nat);
    if j < n - 1 {
        lemma_scatter_at(state, wires, vals, (n - 1) as nat, j);
        assert(wires[j] != wires[n - 1]);
    }
}

proof fn lemma_scatter_off(state: Seq<bool>, wires: Seq<usize>, vals: Seq<bool>, n: nat, p: int)
    requires
        n <= wires.len(),
        0 <= p < state.len(),
        in_bounds(wires, state.len() as int),
        forall|j: int| 0 <= j < n ==> wires[j] != p,
    ensures
        scatter(state, wires, vals, n)[p] == state[p],
    decreases n,
{
    if n > 0 {
        lemma_scatter_len(state, wires, vals, (n - 1) as nat);
        lemma_scatter_off(state, wires, vals, (n - 1) as nat, p);
    }
}

proof fn lemma_num_bits_last(n: nat, k: nat)
    requires
        k >= 1,
    ensures
        num_bits(n, k) == num_bits(n / 2, (k - 1) as nat).push(n % 2 == 1),
    decreases k,
{
    lemma_num_bits_len(n, k);
    if k == 1 {
        assert(two_pow(0) == 1);
        assert(num_bits(n, 0) =~= Seq::<bool>::empty());
        assert(num_bits(n / 2, 0) =~= Seq::<bool>::empty());
        assert(n as int / 1 == n as int) by (nonlinear_arith);
        assert(n / two_pow(0) == n);
        assert(num_bits(n, 1) == seq![(n / two_pow(0)) % 2 == 1] + num_bits(n, 0));
        assert(num_bits(n, 1) =~= num_bits(n / 2, 0).push(n % 2 == 1));
    } else {
        lemma_num_bits_last(n, (k - 1) as nat);
        lemma_two_pow_pos((k - 2) as nat);
        lemma_div_denominator(n as int, 2, two_pow((k - 2) as nat) as int);
        assert(two_pow((k - 1) as nat) == 2 * two_pow((k - 2) as nat));
        assert(num_bits(n, k) =~= num_bits(n / 2, (k - 1) as nat).push(n % 2 == 1));
    }
}

/// Reading back the low `k` bits of a number below `2^k` gives the number.
pub proof fn lemma_bits_value_num_bits(n: nat, k: nat)
    requires
        n < two_pow(k),
    ensures
        bits_value(num_bits(n, k)) == n,
    decreases k,
{
    if k == 0 {
        assert(num_bits(n, 0).len() == 0);
    } else {
        lemma_num_bits_last(n, k);
        lemma_bits_value_num_bits(n / 2, (k - 1) as nat);
        let s = num_bits(n, k);
        assert(s.drop_last() =~= num_bits(n / 2, (k - 1) as nat));
    }
}

/// Bit patterns of one length that spell the same number are equal.
pub proof fn lemma_bits_value_injective(a: Seq<bool>, b: Seq<bool>)
    requires
        a.len() == b.len(),
        bits_value(a) == bits_value(b),
    ensures
        a == b,
    decreases a.len(),
{
    if a.len() > 0 {
        lemma_bits_value_injective(a.drop_last(), b.drop_last());
        assert(a.last() == b.last());
        assert(a =~= a.drop_last().push(a.last()));
        assert(b =~= b.drop_last().push(b.last()));
    }
}

/// One learned gate with a permutation table and distinct wires is injective
/// on states of a given length.
pub proof fn lemma_gate_injective(x: Seq<bool>, y: Seq<bool>, table: Seq<usize>, wires: Seq<usize>)
    requires
        x.len() == y.len(),
        wires.len() < 32,
        table.len() == two_pow(wires.len()),
        is_permutation(table),
        all_distinct(wires),
        in_bounds(wires, x.len() as int),
        gate_step(x, table, wires) == gate_step(y, table, wires),
    ensures
        x == y,
{
    let k = wires.len();
    let gx = gather(x, wires);
    let gy = gather(y, wires);
    lemma_bits_value_bound(gx);
    lemma_bits_value_bound(gy);
    let tx = table[bits_value(gx) as int];
    let ty = table[bits_value(gy) as int];
    let vx = num_bits(tx as nat, k);
    let vy = num_bits(ty as nat, k);
    lemma_num_bits_len(tx as nat, k);
    lemma_num_bits_len(ty as nat, k);
    lemma_scatter_len(x, wires, vx, k);
    lemma_scatter_len(y, wires, vy, k);
    assert forall|j: int| 0 <= j < k implies vx[j] == vy[j] by {
        lemma_scatter_at(x, wires, vx, k, j);
        lemma_scatter_at(y, wires, vy, k, j);
    }
    assert(vx =~= vy);
    lemma_bits_value_num_bits(tx as nat, k);
    lemma_bits_value_num_bits(ty as nat, k);
    assert(bits_value(gx) == bits_value(gy));
    lemma_bits_value_injective(gx, gy);
    assert forall|p: int| 0 <= p < x.len() implies x[p] == y[p] by {
        if exists|j: int| 0 <= j < k && wires[j] == p {
            let j = choose|j: int| 0 <= j < k && wires[j] == p;
            assert(gx[j] == gy[j]);
        } else {
            lemma_scatter_off(x, wires, vx, k, p);
            lemma_scatter_off(y, wires, vy, k, p);
        }
    }
    assert(x =~= y);
}

/// Each gate has a permutation table over as many bits as it has wires, and
/// distinct wires below `width`.
pub open spec fn gates_valid(gates: Seq<(Seq<usize>, Seq<usize>)>, width: int) -> bool {
    forall|g: int| 0 <= g < gates.len() ==> {
        let gate = #[trigger] gates[g];
        &&& gate.1.len() < 32
        &&& gate.0.len() == two_pow(gate.1.len())
        &&& is_permutation(gate.0)
        &&& all_distinct(gate.1)
        &&& in_bounds(gate.1, width)
    }
}

pub proof fn lemma_run_len(x: Seq<bool>, gates: Seq<(Seq<usize>, Seq<usize>)>)
    requires
        gates_valid(gates, x.len() as int),
    ensures
        run(x, gates).len() == x.len(),
    decreases gates.len(),
{
    if gates.len() > 0 {
        lemma_run_len(x, gates.drop_last());
        let g = gates.last();
        assert(gates_valid(gates, x.len() as int));
        assert(g == gates[gates.len() - 1]);
        lemma_scatter_len(
            run(x, gates.drop_last()),
            g.1,
            num_bits(g.0[bits_value(gather(run(x, gates.drop_last()), g.1)) as int] as nat, g.1.len()),
            g.1.len(),
        );
    }
}

/// The gates in order form an injective transform on states of a given length.
pub proof fn lemma_run_injective(x: Seq<bool>, y: Seq<bool>, gates: Seq<(Seq<usize>, Seq<usize>)>)
    requires
        x.len() == y.len(),
        gates_valid(gates, x.len() as int),
        run(x, gates) == run(y, gates),
    ensures
        x == y,
    decreases gates.len(),
{
    if gates.len() > 0 {
        let rest = gates.drop_last();
        assert(gates_valid(rest, x.len() as int));
        lemma_run_len(x, rest);
        lemma_run_len(y, rest);
        let g = gates.last();
        assert(g == gates[gates.len() - 1]);
        lemma_gate_injective(run(x, rest), run(y, rest), g.0, g.1);
        lemma_run_injective(x, y, rest);
    }
}

/// The group centred on `middle` with half-width `size` had its wires moved
/// (gate `lo + g` by the deltas from `deltas[g * stride ..]`); tables and the
/// other gates are kept.
pub open spec fn moved_group(
    old: Seq<(Seq<usize>, Seq<usize>)>,
    new: Seq<(Seq<usize>, Seq<usize>)>,
    middle: int,
    size: int,
    deltas: Seq<i64>,
    stride: int,
    width: int,
) -> bool {
    &&& new.len() == old.len()
    &&& forall|g: int| 0 <= g < new.len() ==> new[g].0 == old[g].0
    &&& forall|g: int| 0 <= g < new.len() && !(middle - size <= g <= middle + size) ==> new[g].1 == old[g].1
    &&& forall|g: int| middle - size <= g <= middle + size ==> moved(
        old[g].1,
        new[g].1,
        deltas,
        (g - (middle - size)) * stride,
        width,
    )
}

/// The group centred on `middle` copied in right after gate `insertion_point(..)`.
pub open spec fn copied<G>(old: Seq<G>, new: Seq<G>, middle: int, size: int, shamt: int) -> bool {
    let ip = insertion_point(old.len() as int, middle, size, shamt);
    new == old.subrange(0, ip + 1) + old.subrange(middle - size, middle + size + 1) + old.subrange(
        ip + 1,
        old.len() as int,
    )
}

/// The group centred on `middle` removed where it lies strictly inside; else nothing changes.
pub open spec fn deleted<G>(old: Seq<G>, new: Seq<G>, middle: int, size: int) -> bool {
    if middle - size > 0 && middle + size < old.len() - 1 {
        new == old.subrange(0, middle - size) + old.subrange(middle + size + 1, old.len() as int)
    } else {
        new == old
    }
}

/// Only the tables of the group centred on `middle` may change, and only
/// those whose swap count is not zero; every wire is kept.
pub open spec fn remixed(
    old: Seq<(Seq<usize>, Seq<usize>)>,
    new: Seq<(Seq<usize>, Seq<usize>)>,
    middle: int,
    size: int,
    counts: Seq<u64>,
) -> bool {
    &&& new.len() == old.len()
    &&& forall|g: int| 0 <= g < new.len() ==> new[g].1 == old[g].1
    &&& forall|g: int| 0 <= g < new.len() && (!(middle - size <= g <= middle + size)
        || counts[g - (middle - size)] == 0) ==> new[g].0 == old[g].0
}

/// Draw `j` is a possible result of `draw` for how many gates network `j` has,
/// and network `j + 1` is what that draw makes of network `j`.
pub open spec fn is_chain<F: Fn(usize) -> Draw>(draw: F, ps: Seq<Program>, ds: Seq<Draw>) -> bool {
    &&& ps.len() == ds.len() + 1
    &&& forall|j: int| 0 <= j < ds.len() ==> #[trigger] draw.ensures((ps[j].gates_view().len() as usize,), ds[j])
        && ps[j].step_result(ps[j + 1], ds[j])
}

/// Each gate as its table and its wires.
pub open spec fn view_of(gates: Seq<(SBox, Vec<usize>)>) -> Seq<(Seq<usize>, Seq<usize>)> {
    gates.map_values(|g: (SBox, Vec<usize>)| (g.0.shuffles@, g.1@))
}

/// Equal widths, tables and wires.
pub open spec fn same_gate(a: (SBox, Vec<usize>), b: (SBox, Vec<usize>)) -> bool {
    a.0.inp_size == b.0.inp_size && a.0.shuffles@ == b.0.shuffles@ && a.1@ == b.1@
}

/// A network of learned gates of `gate_size` wires over `inp_size` bits.
#[derive(Clone, Debug)]
pub struct Program {
    gates: Vec<(SBox, Vec<usize>)>,
    inp_size: usize,
    gate_size: usize,
}

impl Program {
    /// Each gate as its table and its wires, in order.
    pub closed spec fn gates_view(&self) -> Seq<(Seq<usize>, Seq<usize>)> {
        view_of(self.gates@)
    }

    /// Total bit-width.
    pub closed spec fn width(&self) -> nat {
        self.inp_size as nat
    }

    /// Wires per gate.
    pub closed spec fn gate_width(&self) -> nat {
        self.gate_size as nat
    }

    /// At least one gate; each with a permutation table over `gate_size` bits and
    /// `gate_size` pairwise distinct wires in `[0, inp_size)`.
    pub closed spec fn wf(&self) -> bool {
        &&& 0 < self.gates@.len() <= i64::MAX
        &&& self.gate_size < 32
        &&& self.gate_size <= self.inp_size
        &&& forall|g: int| 0 <= g < self.gates@.len() ==> self.gate_ok(#[trigger] self.gates@[g])
    }

    pub closed spec fn gate_ok(&self, g: (SBox, Vec<usize>)) -> bool {
        &&& g.0.wf()
        &&& g.0.inp_size == self.gate_size
        &&& g.1@.len() == self.gate_size
        &&& in_bounds(g.1@, self.inp_size as int)
        &&& all_distinct(g.1@)
    }

    /// One identity gate wired to `0, 1, ..., gate_size - 1`.
    pub fn new(inp_size: usize, gate_size: usize) -> (r: Self)
        requires
            gate_size < 32,
            gate_size <= inp_size,
        ensures
            r.wf(),
            r.width() == inp_size,
            r.gate_width() == gate_size,
            r.gates_view().len() == 1,
            forall|i: int| 0 <= i < r.gates_view()[0].0.len() ==> r.gates_view()[0].0[i] == i,
            forall|j: int| 0 <= j < gate_size ==> r.gates_view()[0].1[j] == j,
    {
        let sbox = SBox::new(gate_size);
        let mut wires: Vec<usize> = Vec::new();
        let mut j: usize = 0;
        while j < gate_size
            invariant
                j <= gate_size,
                wires@.len() == j,
                forall|i: int| 0 <= i < j ==> wires@[i] == i,
            decreases gate_size - j,
        {
            wires.push(j);
            j = j + 1;
        }
        let mut gates: Vec<(SBox, Vec<usize>)> = Vec::new();
        gates.push((sbox, wires));
        let r = Program { gates, inp_size, gate_size };
        assert(r.gate_ok(r.gates@[0]));
        assert(r.gates_view()[0] == (r.gates@[0].0.shuffles@, r.gates@[0].1@));
        assert forall|i: int| 0 <= i < r.gates_view()[0].0.len() implies r.gates_view()[0].0[i] == i by {
            assert(sbox.table()[i] == i);
        }
        r
    }

    /// Total bit-width.
    pub fn inp_size(&self) -> (r: usize)
        ensures
            r == self.width(),
    {
        self.inp_size
    }

    /// Wires per gate.
    pub fn gate_size(&self) -> (r: usize)
        ensures
            r == self.gate_width(),
    {
        self.gate_size
    }

    /// The input, padded with zeros to the full width, run through every gate in order.
    pub fn forward(&self, input: bit_vec::BitVec) -> (r: bit_vec::BitVec)
        requires
            self.wf(),
            bits_of(input).len() <= self.width(),
        ensures
            bits_of(r) == run(pad_zeros(bits_of(input), self.width()), self.gates_view()),
            bits_of(r).len() == self.width(),
    {
        let ghost orig = bits_of(input);
        let mut mem = input;
        while bv_len(&mem) < self.inp_size
            invariant
                bits_of(mem).len() <= self.inp_size,
                orig.len() <= bits_of(mem).len(),
                bits_of(mem) =~= orig + Seq::new((bits_of(mem).len() - orig.len()) as nat, |i: int| false),
            decreases self.inp_size - bits_of(mem).len(),
        {
            bv_push(&mut mem, false);
        }
        let ghost padded = bits_of(mem);
        assert(padded =~= pad_zeros(orig, self.width()));
        let k = self.gate_size;
        let mut g: usize = 0;
        while g < self.gates.len()
            invariant
                self.wf(),
                k == self.gate_size,
                g <= self.gates@.len(),
                bits_of(mem) == run(padded, self.gates_view().subrange(0, g as int)),
                bits_of(mem).len() == self.inp_size,
            decreases self.gates@.len() - g,
        {
            let sbox = &self.gates[g].0;
            let conns = &self.gates[g].1;
            assert(self.gate_ok(self.gates@[g as int]));
            let ghost before = bits_of(mem);
            let mut inp = bv_new();
            let mut j: usize = 0;
            while j < k
                invariant
                    g < self.gates@.len(),
                    self.gate_ok(self.gates@[g as int]),
                    conns@ == self.gates@[g as int].1@,
                    k == conns@.len(),
                    j <= k,
                    bits_of(mem) == before,
                    before.len() == self.inp_size,
                    bits_of(inp) =~= gather(before, conns@).subrange(0, j as int),
                decreases k - j,
            {
                bv_push(&mut inp, bv_get(&mem, conns[j]));
                j = j + 1;
            }
            assert(bits_of(inp) =~= gather(before, conns@));
            let out = sbox.forward(inp);
            proof {
                lemma_num_bits_len(
                    sbox.shuffles@[bits_value(gather(before, conns@)) as int] as nat,
                    k as nat,
                );
            }
            let mut j: usize = 0;
            while j < k
                invariant
                    g < self.gates@.len(),
                    self.gate_ok(self.gates@[g as int]),
                    conns@ == self.gates@[g as int].1@,
                    k == conns@.len(),
                    bits_of(out).len() == k,
                    before.len() == self.inp_size,
                    j <= k,
                    bits_of(mem) == scatter(before, conns@, bits_of(out), j as nat),
                    bits_of(mem).len() == self.inp_size,
                decreases k - j,
            {
                proof {
                    lemma_scatter_len(before, conns@, bits_of(out), j as nat);
                }
                let b = bv_get(&out, j);
                bv_set(&mut mem, conns[j], b);
                j = j + 1;
            }
            proof {
                let gv = self.gates_view();
                assert(gv.subrange(0, g + 1).drop_last() =~= gv.subrange(0, g as int));
                assert(gv[g as int] == (sbox.shuffles@, conns@));
            }
            g = g + 1;
        }
        assert(self.gates_view().subrange(0, self.gates@.len() as int) =~= self.gates_view());
        mem
    }

    /// A well-formed network has at least one gate; every gate has a
    /// permutation table over `gate_size` bits and `gate_size` pairwise
    /// distinct wires below the width.
    pub proof fn lemma_wf_gates(&self)
        requires
            self.wf(),
        ensures
            self.gates_view().len() > 0,
            self.gate_width() <= self.width(),
            forall|g: int| 0 <= g < self.gates_view().len() ==> {
                let gate = #[trigger] self.gates_view()[g];
                &&& is_permutation(gate.0)
                &&& gate.0.len() == two_pow(self.gate_width())
                &&& gate.1.len() == self.gate_width()
                &&& all_distinct(gate.1)
                &&& in_bounds(gate.1, self.width() as int)
            },
    {
        assert forall|g: int| 0 <= g < self.gates_view().len() implies {
            let gate = #[trigger] self.gates_view()[g];
            &&& is_permutation(gate.0)
            &&& gate.0.len() == two_pow(self.gate_width())
            &&& gate.1.len() == self.gate_width()
            &&& all_distinct(gate.1)
            &&& in_bounds(gate.1, self.width() as int)
        } by {
            assert(self.gate_ok(self.gates@[g]));
        }
    }

    /// The forward transform is injective on inputs of the full width.
    pub proof fn lemma_forward_injective(&self, x: Seq<bool>, y: Seq<bool>)
        requires
            self.wf(),
            x.len() == self.width(),
            y.len() == self.width(),
            run(pad_zeros(x, self.width()), self.gates_view()) == run(
                pad_zeros(y, self.width()),
                self.gates_view(),
            ),
        ensures
            x == y,
    {
        assert(pad_zeros(x, self.width()) =~= x);
        assert(pad_zeros(y, self.width()) =~= y);
        self.lemma_wf_gates();
        assert(gates_valid(self.gates_view(), self.width() as int));
        lemma_run_injective(x, y, self.gates_view());
    }

    /// Appends copies of the gates `from..to` to `out`.
    fn push_range(&self, out: &mut Vec<(SBox, Vec<usize>)>, from: usize, to: usize)
        requires
            from <= to <= self.gates@.len(),
        ensures
            final(out)@.len() == old(out)@.len() + (to - from),
            forall|i: int| 0 <= i < old(out)@.len() ==> final(out)@[i] == old(out)@[i],
            forall|j: int| old(out)@.len() <= j < final(out)@.len() ==> same_gate(
                #[trigger] final(out)@[j],
                self.gates@[from + j - old(out)@.len()],
            ),
    {
        let ghost start = out@;
        let mut g: usize = from;
        while g < to
            invariant
                from <= g <= to <= self.gates@.len(),
                out@.len() == start.len() + (g - from),
                forall|i: int| 0 <= i < start.len() ==> out@[i] == start[i],
                forall|j: int| start.len() <= j < out@.len() ==> same_gate(
                    #[trigger] out@[j],
                    self.gates@[from + j - start.len()],
                ),
            decreases to - g,
        {
            let gate = &self.gates[g];
            out.push((gate.0.copy(), gate.1.clone()));
            g = g + 1;
        }
    }

    /// Program over the same widths with the given gates.
    fn with_gates(&self, gates: Vec<(SBox, Vec<usize>)>) -> (r: Self)
        ensures
            r.gates@ == gates@,
            r.inp_size == self.inp_size,
            r.gate_size == self.gate_size,
    {
        Program { gates, inp_size: self.inp_size, gate_size: self.gate_size }
    }

    /// Moves the wires of each gate of the group centred on `middle`: gate
    /// `lo + g` takes its deltas from `deltas[g * stride ..]`.
    fn move_group(&self, middle: usize, size: usize, deltas: &Vec<i64>, stride: usize) -> (r: Self)
        requires
            self.wf(),
            group_ok(self.gates@.len() as int, middle as int, size as int),
            2 * size * stride + self.gate_size <= deltas@.len(),
        ensures
            r.wf(),
            r.width() == self.width(),
            r.gate_width() == self.gate_width(),
            r.gates_view().len() == self.gates_view().len(),
            forall|g: int| 0 <= g < r.gates_view().len() ==> r.gates_view()[g].0 == self.gates_view()[g].0,
            forall|g: int| 0 <= g < r.gates_view().len() && !(middle - size <= g <= middle + size)
                ==> r.gates_view()[g].1 == self.gates_view()[g].1,
            forall|g: int| middle - size <= g <= middle + size ==> moved(
                self.gates_view()[g].1,
                r.gates_view()[g].1,
                deltas@,
                (g - (middle - size)) * stride,
                self.width() as int,
            ),
    {
        let n = self.gates.len();
        let nd = deltas.len();
        let lo = middle - size;
        let hi = middle + size;
        let mut gates: Vec<(SBox, Vec<usize>)> = Vec::new();
        let mut g: usize = 0;
        while g < n
            invariant
                self.wf(),
                n == self.gates@.len(),
                lo == middle - size,
                hi == middle + size,
                hi < n,
                2 * size * stride + self.gate_size <= deltas@.len(),
                nd == deltas@.len(),
                g <= n,
                gates@.len() == g,
                forall|i: int| 0 <= i < g ==> self.gate_ok(#[trigger] gates@[i]),
                forall|i: int| 0 <= i < g ==> gates@[i].0.shuffles@ == self.gates@[i].0.shuffles@,
                forall|i: int| 0 <= i < g && !(lo <= i <= hi) ==> gates@[i].1@ == self.gates@[i].1@,
                forall|i: int| 0 <= i < g && lo <= i <= hi ==> moved(
                    self.gates@[i].1@,
                    gates@[i].1@,
                    deltas@,
                    (i - lo) * stride,
                    self.inp_size as int,
                ),
            decreases n - g,
        {
            let gate = &self.gates[g];
            assert(self.gate_ok(self.gates@[g as int]));
            let wires = if lo <= g && g <= hi {
                proof {
                    assert((g - lo) * stride + self.gate_size <= 2 * size * stride + self.gate_size)
                        by (nonlinear_arith)
                        requires
                            g - lo <= 2 * size,
                    ;
                }
                move_wires(&gate.1, deltas, (g - lo) * stride, self.inp_size)
            } else {
                gate.1.clone()
            };
            gates.push((gate.0.copy(), wires));
            assert(self.gate_ok(gates@[g as int]));
            g = g + 1;
        }
        let r = self.with_gates(gates);
        assert forall|g: int| 0 <= g < r.gates@.len() implies r.gate_ok(#[trigger] r.gates@[g]) by {
            assert(self.gate_ok(gates@[g]));
        }
        r
    }

    /// Vertical shift: every wire of every gate in the group centred on `middle`
    /// moves by `shamt`, clamped to the wires, then each gate's wires are made distinct.
    pub fn shift_group(&self, middle: usize, size: usize, shamt: i64) -> (r: Self)
        requires
            self.wf(),
            group_ok(self.gates_view().len() as int, middle as int, size as int),
        ensures
            r.wf(),
            r.width() == self.width(),
            r.gate_width() == self.gate_width(),
            r.gates_view().len() == self.gates_view().len(),
            forall|g: int| 0 <= g < r.gates_view().len() ==> r.gates_view()[g].0 == self.gates_view()[g].0,
            forall|g: int| 0 <= g < r.gates_view().len() && !(middle - size <= g <= middle + size)
                ==> r.gates_view()[g].1 == self.gates_view()[g].1,
            forall|g: int| middle - size <= g <= middle + size ==> moved(
                self.gates_view()[g].1,
                r.gates_view()[g].1,
                Seq::new(self.gate_width(), |j: int| shamt),
                0,
                self.width() as int,
            ),
    {
        let mut deltas: Vec<i64> = Vec::new();
        let mut j: usize = 0;
        while j < self.gate_size
            invariant
                j <= self.gate_size,
                deltas@ =~= Seq::new(j as nat, |i: int| shamt),
            decreases self.gate_size - j,
        {
            deltas.push(shamt);
            j = j + 1;
        }
        let r = self.move_group(middle, size, &deltas, 0);
        assert forall|g: int| middle - size <= g <= middle + size implies moved(
            self.gates_view()[g].1,
            r.gates_view()[g].1,
            Seq::new(self.gate_width(), |j: int| shamt),
            0,
            self.width() as int,
        ) by {
            assert((g - (middle - size)) * 0 == 0);
        }
        r
    }

    /// Individual jitter: wire `j` of gate `middle - size + g` moves by
    /// `deltas[g * gate_size + j]`, clamped to the wires, then each gate's wires are made distinct.
    pub fn jitter_group(&self, middle: usize, size: usize, deltas: &Vec<i64>) -> (r: Self)
        requires
            self.wf(),
            group_ok(self.gates_view().len() as int, middle as int, size as int),
            deltas@.len() >= (2 * size + 1) * self.gate_width(),
        ensures
            r.wf(),
            r.width() == self.width(),
            r.gate_width() == self.gate_width(),
            r.gates_view().len() == self.gates_view().len(),
            forall|g: int| 0 <= g < r.gates_view().len() ==> r.gates_view()[g].0 == self.gates_view()[g].0,
            forall|g: int| 0 <= g < r.gates_view().len() && !(middle - size <= g <= middle + size)
                ==> r.gates_view()[g].1 == self.gates_view()[g].1,
            forall|g: int| middle - size <= g <= middle + size ==> moved(
                self.gates_view()[g].1,
                r.gates_view()[g].1,
                deltas@,
                (g - (middle - size)) * self.gate_width(),
                self.width() as int,
            ),
    {
        assert(2 * size * self.gate_size + self.gate_size == (2 * size + 1) * self.gate_size)
            by (nonlinear_arith);
        self.move_group(middle, size, deltas, self.gate_size)
    }

    /// Horizontal copy: the group centred on `middle` is duplicated and spliced in
    /// right after gate number `insertion_point(len, middle, size, shamt)`; the original stays.
    pub fn copy_group(&self, middle: usize, size: usize, shamt: i64) -> (r: Self)
        requires
            self.wf(),
            group_ok(self.gates_view().len() as int, middle as int, size as int),
            self.gates_view().len() + 2 * size + 1 <= i64::MAX,
        ensures
            r.wf(),
            r.width() == self.width(),
            r.gate_width() == self.gate_width(),
            ({
                let old_gates = self.gates_view();
                let ip = insertion_point(old_gates.len() as int, middle as int, size as int, shamt as int);
                r.gates_view() == old_gates.subrange(0, ip + 1) + old_gates.subrange(
                    middle - size,
                    middle + size + 1,
                ) + old_gates.subrange(ip + 1, old_gates.len() as int)
            }),
            r.gates_view().len() == self.gates_view().len() + 2 * size + 1,
    {
        let n = self.gates.len();
        let ip = copy_insertion_point(n, middle, size, shamt);
        let mut gates: Vec<(SBox, Vec<usize>)> = Vec::new();
        self.push_range(&mut gates, 0, ip + 1);
        self.push_range(&mut gates, middle - size, middle + size + 1);
        self.push_range(&mut gates, ip + 1, n);
        let r = self.with_gates(gates);
        proof {
            self.lemma_gates_ok(r, 0, ip + 1, 0);
            self.lemma_gates_ok(r, (middle - size) as int, (middle + size + 1) as int, ip + 1);
            self.lemma_gates_ok(r, ip + 1, n as int, ip + 1 + 2 * size + 1);
            let old_gates = self.gates_view();
            assert(r.gates_view() =~= old_gates.subrange(0, ip + 1) + old_gates.subrange(
                middle - size,
                middle + size + 1,
            ) + old_gates.subrange(ip + 1, n as int));
            assert forall|g: int| 0 <= g < r.gates@.len() implies r.gate_ok(#[trigger] r.gates@[g]) by {
                if g < ip + 1 {
                } else if g < ip + 1 + 2 * size + 1 {
                } else {
                }
            }
        }
        r
    }

    /// Deletion: where the group centred on `middle` lies strictly inside
    /// (`middle - size > 0` and `middle + size < len - 1`) it is removed;
    /// elsewhere nothing changes.
    pub fn delete_group(&self, middle: usize, size: usize) -> (r: Self)
        requires
            self.wf(),
            group_ok(self.gates_view().len() as int, middle as int, size as int),
        ensures
            r.wf(),
            r.width() == self.width(),
            r.gate_width() == self.gate_width(),
            ({
                let old_gates = self.gates_view();
                if middle - size > 0 && middle + size < old_gates.len() - 1 {
                    r.gates_view() == old_gates.subrange(0, middle - size) + old_gates.subrange(
                        middle + size + 1,
                        old_gates.len() as int,
                    )
                } else {
                    r.gates_view() == old_gates
                }
            }),
            middle - size > 0 && middle + size < self.gates_view().len() - 1
                ==> r.gates_view().len() == self.gates_view().len() - (2 * size + 1),
    {
        let n = self.gates.len();
        let mut gates: Vec<(SBox, Vec<usize>)> = Vec::new();
        if middle - size > 0 && middle + size < n - 1 {
            self.push_range(&mut gates, 0, middle - size);
            self.push_range(&mut gates, middle + size + 1, n);
            let r = self.with_gates(gates);
            proof {
                self.lemma_gates_ok(r, 0, (middle - size) as int, 0);
                self.lemma_gates_ok(r, (middle + size + 1) as int, n as int, (middle - size) as int);
                let old_gates = self.gates_view();
                assert(r.gates_view() =~= old_gates.subrange(0, middle - size) + old_gates.subrange(
                    middle + size + 1,
                    n as int,
                ));
                assert forall|g: int| 0 <= g < r.gates@.len() implies r.gate_ok(#[trigger] r.gates@[g]) by {
                    if g < middle - size {
                    } else {
                    }
                }
            }
            r
        } else {
            self.push_range(&mut gates, 0, n);
            let r = self.with_gates(gates);
            proof {
                self.lemma_gates_ok(r, 0, n as int, 0);
                assert(r.gates_view() =~= self.gates_view());
                assert forall|g: int| 0 <= g < r.gates@.len() implies r.gate_ok(#[trigger] r.gates@[g]) by {
                }
            }
            r
        }
    }

    /// Where the gates `from..to` were copied to `r` from index `at` on, the
    /// copies are well formed and show the same tables and wires.
    proof fn lemma_gates_ok(&self, r: Self, from: int, to: int, at: int)
        requires
            self.wf(),
            0 <= from <= to <= self.gates@.len(),
            0 <= at,
            at + (to - from) <= r.gates@.len(),
            r.inp_size == self.inp_size,
            r.gate_size == self.gate_size,
            forall|j: int| at <= j < at + (to - from) ==> same_gate(
                #[trigger] r.gates@[j],
                self.gates@[from + j - at],
            ),
        ensures
            forall|i: int| at <= i < at + (to - from) ==> r.gate_ok(#[trigger] r.gates@[i]),
            forall|i: int| at <= i < at + (to - from) ==> #[trigger] r.gates_view()[i]
                == self.gates_view()[from + i - at],
    {
        assert forall|i: int| at <= i < at + (to - from) implies r.gate_ok(#[trigger] r.gates@[i]) by {
            assert(self.gate_ok(self.gates@[from + i - at]));
            assert(same_gate(r.gates@[i], self.gates@[from + i - at]));
        }
        assert forall|i: int| at <= i < at + (to - from) implies #[trigger] r.gates_view()[i]
            == self.gates_view()[from + i - at] by {
            assert(same_gate(r.gates@[i], self.gates@[from + i - at]));
        }
    }

    /// Internal mutation: the table of gate `middle - size + g` undergoes
    /// `swap_counts[g]` random exchanges of two entries; wires do not change.
    pub fn mutate_tables(&self, middle: usize, size: usize, swap_counts: &Vec<u64>) -> (r: Self)
        requires
            self.wf(),
            group_ok(self.gates_view().len() as int, middle as int, size as int),
            swap_counts@.len() >= 2 * size + 1,
        ensures
            r.wf(),
            r.width() == self.width(),
            r.gate_width() == self.gate_width(),
            r.gates_view().len() == self.gates_view().len(),
            forall|g: int| 0 <= g < r.gates_view().len() ==> r.gates_view()[g].1 == self.gates_view()[g].1,
            forall|g: int| 0 <= g < r.gates_view().len() && (!(middle - size <= g <= middle + size)
                || swap_counts@[g - (middle - size)] == 0)
                ==> r.gates_view()[g].0 == self.gates_view()[g].0,
    {
        let n = self.gates.len();
        let lo = middle - size;
        let hi = middle + size;
        let mut gates: Vec<(SBox, Vec<usize>)> = Vec::new();
        let mut g: usize = 0;
        while g < n
            invariant
                self.wf(),
                n == self.gates@.len(),
                lo == middle - size,
                hi == middle + size,
                hi < n,
                swap_counts@.len() >= 2 * size + 1,
                g <= n,
                gates@.len() == g,
                forall|i: int| 0 <= i < g ==> self.gate_ok(#[trigger] gates@[i]),
                forall|i: int| 0 <= i < g ==> gates@[i].1@ == self.gates@[i].1@,
                forall|i: int| 0 <= i < g && (!(lo <= i <= hi) || swap_counts@[i - lo] == 0)
                    ==> gates@[i].0.shuffles@ == self.gates@[i].0.shuffles@,
            decreases n - g,
        {
            let gate = &self.gates[g];
            assert(self.gate_ok(self.gates@[g as int]));
            let sbox = if lo <= g && g <= hi {
                gate.0.mutation(swap_counts[g - lo])
            } else {
                gate.0.copy()
            };
            gates.push((sbox, gate.1.clone()));
            g = g + 1;
        }
        let r = self.with_gates(gates);
        assert forall|g: int| 0 <= g < r.gates@.len() implies r.gate_ok(#[trigger] r.gates@[g]) by {
            assert(self.gate_ok(gates@[g]));
        }
        r
    }

    /// An equal network.
    fn duplicate(&self) -> (r: Self)
        requires
            self.wf(),
        ensures
            r.wf(),
            r.width() == self.width(),
            r.gate_width() == self.gate_width(),
            r.gates_view() == self.gates_view(),
    {
        let n = self.gates.len();
        let mut gates: Vec<(SBox, Vec<usize>)> = Vec::new();
        self.push_range(&mut gates, 0, n);
        let r = self.with_gates(gates);
        proof {
            self.lemma_gates_ok(r, 0, n as int, 0);
            assert(r.gates_view() =~= self.gates_view());
            assert forall|g: int| 0 <= g < r.gates@.len() implies r.gate_ok(#[trigger] r.gates@[g]) by {
            }
        }
        r
    }

    /// What one mutation draw `d` does to this network: the group centred on
    /// `d.middle` has half-width `group_half(len, d.middle, d.raw_size)`; operator
    /// 1 shifts it, 2 copies it, 3 deletes it, 4 jitters it, 5 mutates its tables.
    /// A draw that does not fit leaves the gates as they are.
    pub open spec fn step_result(&self, r: Self, d: Draw) -> bool {
        let old = self.gates_view();
        let new = r.gates_view();
        let len = old.len() as int;
        let m = d.middle as int;
        let size = group_half(len, m, d.raw_size as int);
        let k = self.gate_width();
        let w = self.width() as int;
        &&& r.width() == self.width()
        &&& r.gate_width() == self.gate_width()
        &&& if m >= len {
            new == old
        } else if d.op == 1 {
            moved_group(old, new, m, size, Seq::new(k, |j: int| d.shamt), 0, w)
        } else if d.op == 2 && len + 2 * size + 1 <= i64::MAX {
            copied(old, new, m, size, d.shamt as int)
        } else if d.op == 3 {
            deleted(old, new, m, size)
        } else if d.op == 4 && (2 * size + 1) * k <= d.deltas@.len() {
            moved_group(old, new, m, size, d.deltas@, k as int, w)
        } else if d.op == 5 && 2 * size + 1 <= d.counts@.len() {
            remixed(old, new, m, size, d.counts@)
        } else {
            new == old
        }
    }

    /// One mutation operator, chosen and parameterised by `d` (see `step_result`).
    /// A draw that does not fit the network (centre out of range, too few
    /// deltas or counts, unknown operator, a copy that would not fit) changes nothing.
    pub fn mutation_step(&self, d: &Draw) -> (r: Self)
        requires
            self.wf(),
        ensures
            r.wf(),
            r.width() == self.width(),
            self.step_result(r, *d),
    {
        let n = self.gates.len();
        if d.middle >= n {
            return self.duplicate();
        }
        let size = clamp_group(n, d.middle, d.raw_size);
        let groups = 2 * size + 1;
        proof {
            let k = self.gate_size as int;
            let gs = groups as int;
            assert(gs * k <= 0x1_0000_0000_0000_0000 * 32) by (nonlinear_arith)
                requires
                    0 <= gs <= 0xffff_ffff_ffff_ffff,
                    0 <= k < 32,
            ;
        }
        if d.op == 1 {
            self.shift_group(d.middle, size, d.shamt)
        } else if d.op == 2 && n as u128 + groups as u128 <= i64::MAX as u128 {
            self.copy_group(d.middle, size, d.shamt)
        } else if d.op == 3 {
            self.delete_group(d.middle, size)
        } else if d.op == 4 && groups as u128 * self.gate_size as u128 <= d.deltas.len() as u128 {
            self.jitter_group(d.middle, size, &d.deltas)
        } else if d.op == 5 && groups <= d.counts.len() {
            self.mutate_tables(d.middle, size, &d.counts)
        } else {
            self.duplicate()
        }
    }

    /// `count` mutation operators in turn, each with the integers that `draw`
    /// gives for the current gate count. Whatever is drawn, every network on
    /// the way, and the result, stays well formed: non-empty, tables that are
    /// permutations, distinct wires below the width; so its forward transform
    /// stays injective (`lemma_forward_injective`).
    pub fn mutation<F: Fn(usize) -> Draw>(&self, count: u64, draw: F) -> (r: Self)
        requires
            self.wf(),
            forall|n: usize| #[trigger] draw.requires((n,)),
        ensures
            r.wf(),
            r.width() == self.width(),
            r.gate_width() == self.gate_width(),
            count == 0 ==> r.gates_view() == self.gates_view(),
            exists|ps: Seq<Program>, ds: Seq<Draw>|
                #![trigger is_chain(draw, ps, ds)]
                is_chain(draw, ps, ds) && ds.len() == count && ps[0].gates_view() == self.gates_view()
                    && ps[0].width() == self.width() && ps[0].gate_width() == self.gate_width()
                    && ps.last() == r,
            r.gates_view().len() > 0,
            forall|g: int| 0 <= g < r.gates_view().len() ==> {
                let gate = #[trigger] r.gates_view()[g];
                &&& is_permutation(gate.0)
                &&& gate.0.len() == two_pow(r.gate_width())
                &&& gate.1.len() == r.gate_width()
                &&& all_distinct(gate.1)
                &&& in_bounds(gate.1, r.width() as int)
            },
            forall|x: Seq<bool>, y: Seq<bool>|
                x.len() == r.width() && y.len() == r.width() && #[trigger] run(pad_zeros(x, r.width()), r.gates_view())
                    == #[trigger] run(pad_zeros(y, r.width()), r.gates_view()) ==> x == y,
    {
        let mut cur = self.duplicate();
        let ghost mut ps: Seq<Program> = seq![cur];
        let ghost mut ds: Seq<Draw> = Seq::empty();
        let mut i: u64 = 0;
        while i < count
            invariant
                cur.wf(),
                cur.width() == self.width(),
                cur.gate_width() == self.gate_width(),
                forall|n: usize| #[trigger] draw.requires((n,)),
                i <= count,
                i == 0 ==> cur.gates_view() == self.gates_view(),
                is_chain(draw, ps, ds),
                ds.len() == i,
                ps.last() == cur,
                ps[0].gates_view() == self.gates_view(),
                ps[0].width() == self.width(),
                ps[0].gate_width() == self.gate_width(),
            decreases count - i,
        {
            let d = draw(cur.gates.len());
            let next = cur.mutation_step(&d);
            proof {
                let ps2 = ps.push(next);
                let ds2 = ds.push(d);
                assert forall|j: int| 0 <= j < ds2.len() implies #[trigger] draw.ensures(
                    (ps2[j].gates_view().len() as usize,),
                    ds2[j],
                ) && ps2[j].step_result(ps2[j + 1], ds2[j]) by {
                    if j < ds.len() {
                        assert(ps2[j] == ps[j] && ps2[j + 1] == ps[j + 1] && ds2[j] == ds[j]);
                    } else {
                        assert(ps2[j] == cur && ps2[j + 1] == next && ds2[j] == d);
                    }
                }
                ps = ps2;
                ds = ds2;
            }
            cur = next;
            i = i + 1;
        }
        proof {
            cur.lemma_wf_gates();
            assert forall|x: Seq<bool>, y: Seq<bool>|
                x.len() == cur.width() && y.len() == cur.width() && #[trigger] run(pad_zeros(x, cur.width()), cur.gates_view())
                    == #[trigger] run(pad_zeros(y, cur.width()), cur.gates_view()) implies x == y by {
                cur.lemma_forward_injective(x, y);
            }
        }
        cur
    }

    /// The wires of gate `g`.
    pub fn wires(&self, g: usize) -> (r: Vec<usize>)
        requires
            g < self.gates_view().len(),
        ensures
            r@ == self.gates_view()[g as int].1,
    {
        self.gates[g].1.clone()
    }

    /// The table of gate `g`: output number by input number.
    pub fn table(&self, g: usize) -> (r: Vec<usize>)
        requires
            g < self.gates_view().len(),
        ensures
            r@ == self.gates_view()[g as int].0,
    {
        self.gates[g].0.shuffles.clone()
    }

    /// Gate count.
    pub fn complexity(&self) -> (r: i64)
        requires
            self.wf(),
        ensures
            r == self.gates_view().len(),
    {
        self.gates.len() as i64
    }
}

pub proof fn lemma_num_bits_len(n: nat, k: nat)
    ensures
        num_bits(n, k).len() == k,
    decreases k,
{
    if k > 0 {
        lemma_num_bits_len(n, (k - 1) as nat);
    }
}

} // verus!
