//! Networks of conditional swap gates `(control, a, b)`: where the control bit
//! is set, `a` takes `!b` and `b` takes `a`.

use vstd::prelude::*;
use crate::bits::{bits_of, bv_clone, bv_get, bv_len, bv_push, bv_set};
use crate::arbitrairy_program::{copied, deleted};
use crate::wiring::{
    Draw,
    group_half,
    all_distinct,
    clamp_group,
    copy_insertion_point,
    group_ok,
    in_bounds,
    insertion_point,
    move_wires,
    moved,
};

verus! {

/// The three wires of a gate are pairwise distinct and lie in `[0, width)`.
pub open spec fn gate_valid(g: (usize, usize, usize), width: int) -> bool {
    &&& g.0 < width && g.1 < width && g.2 < width
    &&& g.0 != g.1 && g.1 != g.2 && g.0 != g.2
}

/// The wires of a gate as a sequence `[control, a, b]`.
pub open spec fn wires_of(g: (usize, usize, usize)) -> Seq<usize> {
    seq![g.0, g.1, g.2]
}

/// One gate: with the control bit set, `a <- !b` and `b <- a`; otherwise nothing.
pub open spec fn swap_step(st: Seq<bool>, g: (usize, usize, usize)) -> Seq<bool> {
    if st[g.0 as int] {
        st.update(g.2 as int, st[g.1 as int]).update(g.1 as int, !st[g.2 as int])
    } else {
        st
    }
}

/// The gates applied in order.
pub open spec fn run_swaps(st: Seq<bool>, gates: Seq<(usize, usize, usize)>) -> Seq<bool>
    decreases gates.len(),
{
    if gates.len() == 0 {
        st
    } else {
        swap_step(run_swaps(st, gates.drop_last()), gates.last())
    }
}

/// The input followed by filler up to `width` bits: position `p` holds `p % 2 == 0`.
pub open spec fn pad_alternating(input: Seq<bool>, width: nat) -> Seq<bool> {
    input + Seq::new((width - input.len()) as nat, |i: int| (input.len() + i) % 2 == 0)
}

/// Number of `false` bits at the start of `s[i..n]`.
pub open spec fn leading_zeros_from(s: Seq<bool>, i: int, n: int) -> int
    decreases n - i,
{
    if i >= n {
        0
    } else if s[i] {
        0
    } else {
        1 + leading_zeros_from(s, i + 1, n)
    }
}

/// Number of positions `p` in `[lo, hi)`, counted down from `hi - 1`, that hold
/// the filler bit `p % 2 == 0`, up to the first that does not.
pub open spec fn intact_filler(s: Seq<bool>, lo: int, hi: int) -> int
    decreases hi - lo,
{
    if hi <= lo {
        0
    } else if s[hi - 1] == ((hi - 1) % 2 == 0) {
        1 + intact_filler(s, lo, hi - 1)
    } else {
        0
    }
}

/// Score of an output for an input of `n` bits: the zeros that open the data
/// region, less the filler bits that were spoiled.
pub open spec fn swap_score(res: Seq<bool>, n: int) -> int {
    leading_zeros_from(res, 0, n) - ((res.len() - n) - intact_filler(res, n, res.len() as int))
}

proof fn lemma_leading_bounds(s: Seq<bool>, i: int, n: int)
    ensures
        0 <= leading_zeros_from(s, i, n) <= if n - i > 0 { n - i } else { 0 },
    decreases n - i,
{
    if i < n {
        lemma_leading_bounds(s, i + 1, n);
    }
}

proof fn lemma_filler_bounds(s: Seq<bool>, lo: int, hi: int)
    ensures
        0 <= intact_filler(s, lo, hi) <= if hi - lo > 0 { hi - lo } else { 0 },
    decreases hi - lo,
{
    if lo < hi {
        lemma_filler_bounds(s, lo, hi - 1);
    }
}

/// With the control bit set, two applications of a gate leave `a` and `b`
/// negated, so a gate is a cycle of four and not its own inverse.
pub proof fn lemma_swap_twice(st: Seq<bool>, g: (usize, usize, usize))
    requires
        gate_valid(g, st.len() as int),
        st[g.0 as int],
    ensures
        swap_step(swap_step(st, g), g) == st.update(g.1 as int, !st[g.1 as int]).update(
            g.2 as int,
            !st[g.2 as int],
        ),
{
    assert(swap_step(swap_step(st, g), g) =~= st.update(g.1 as int, !st[g.1 as int]).update(
        g.2 as int,
        !st[g.2 as int],
    ));
}

/// With the control bit set, four applications of a gate give the state back.
pub proof fn lemma_swap_four(st: Seq<bool>, g: (usize, usize, usize))
    requires
        gate_valid(g, st.len() as int),
        st[g.0 as int],
    ensures
        swap_step(swap_step(swap_step(swap_step(st, g), g), g), g) == st,
{
    let two = swap_step(swap_step(st, g), g);
    lemma_swap_twice(st, g);
    assert(two[g.0 as int] == st[g.0 as int]);
    lemma_swap_twice(two, g);
    assert(swap_step(swap_step(two, g), g) =~= st);
}

/// One gate is injective on states of a given length.
pub proof fn lemma_swap_injective(x: Seq<bool>, y: Seq<bool>, g: (usize, usize, usize))
    requires
        x.len() == y.len(),
        gate_valid(g, x.len() as int),
        swap_step(x, g) == swap_step(y, g),
    ensures
        x == y,
{
    let sx = swap_step(x, g);
    assert(sx[g.0 as int] == x[g.0 as int]);
    assert(swap_step(y, g)[g.0 as int] == y[g.0 as int]);
    assert forall|i: int| 0 <= i < x.len() implies x[i] == y[i] by {
        if x[g.0 as int] && i == g.1 as int {
            assert(sx[g.2 as int] == x[i]);
        } else if x[g.0 as int] && i == g.2 as int {
            assert(sx[g.1 as int] == !x[i]);
        } else {
            assert(sx[i] == x[i]);
        }
    }
    assert(x =~= y);
}

/// The gates in order form an injective transform on states of a given length.
pub proof fn lemma_run_injective(x: Seq<bool>, y: Seq<bool>, gates: Seq<(usize, usize, usize)>, width: int)
    requires
        x.len() == width,
        y.len() == width,
        forall|g: int| 0 <= g < gates.len() ==> gate_valid(#[trigger] gates[g], width),
        run_swaps(x, gates) == run_swaps(y, gates),
    ensures
        x == y,
    decreases gates.len(),
{
    if gates.len() > 0 {
        let rest = gates.drop_last();
        lemma_run_len(x, rest, width);
        lemma_run_len(y, rest, width);
        assert(gate_valid(gates[gates.len() - 1], width));
        lemma_swap_injective(run_swaps(x, rest), run_swaps(y, rest), gates.last());
        lemma_run_injective(x, y, rest, width);
    }
}

pub proof fn lemma_run_len(x: Seq<bool>, gates: Seq<(usize, usize, usize)>, width: int)
    requires
        x.len() == width,
        forall|g: int| 0 <= g < gates.len() ==> gate_valid(#[trigger] gates[g], width),
    ensures
        run_swaps(x, gates).len() == width,
    decreases gates.len(),
{
    if gates.len() > 0 {
        lemma_run_len(x, gates.drop_last(), width);
        assert(gate_valid(gates[gates.len() - 1], width));
    }
}

/// The group centred on `middle` with half-width `size` had its wires moved
/// (gate `lo + g` by the deltas from `deltas[g * stride ..]`); the other gates are kept.
pub open spec fn moved_swaps(
    old: Seq<(usize, usize, usize)>,
    new: Seq<(usize, usize, usize)>,
    middle: int,
    size: int,
    deltas: Seq<i64>,
    stride: int,
    width: int,
) -> bool {
    &&& new.len() == old.len()
    &&& forall|g: int| 0 <= g < new.len() && !(middle - size <= g <= middle + size) ==> new[g] == old[g]
    &&& forall|g: int| middle - size <= g <= middle + size ==> moved(
        wires_of(old[g]),
        wires_of(new[g]),
        deltas,
        (g - (middle - size)) * stride,
        width,
    )
}

/// Draw `j` is a possible result of `draw` for how many gates network `j` has,
/// and network `j + 1` is what that draw makes of network `j`.
pub open spec fn is_swap_chain<F: Fn(usize) -> Draw>(draw: F, ps: Seq<Program>, ds: Seq<Draw>) -> bool {
    &&& ps.len() == ds.len() + 1
    &&& forall|j: int| 0 <= j < ds.len() ==> #[trigger] draw.ensures((ps[j].gates_view().len() as usize,), ds[j])
        && ps[j].step_result(ps[j + 1], ds[j])
}

/// A network of conditional swap gates over `inp_size` bits.
#[derive(Clone, Debug)]
pub struct Program {
    fredkins: Vec<(usize, usize, usize)>,
    inp_size: usize,
}

impl Program {
    /// The gates in order.
    pub closed spec fn gates_view(&self) -> Seq<(usize, usize, usize)> {
        self.fredkins@
    }

    /// Total bit-width.
    pub closed spec fn width(&self) -> nat {
        self.inp_size as nat
    }

    /// At least one gate, each with three distinct wires in `[0, inp_size)`.
    pub closed spec fn wf(&self) -> bool {
        &&& 0 < self.fredkins@.len() <= i64::MAX
        &&& self.inp_size <= i64::MAX
        &&& forall|g: int| 0 <= g < self.fredkins@.len() ==> gate_valid(#[trigger] self.fredkins@[g], self.inp_size as int)
    }

    /// The seed network `(0, 1, 4), (3, 1, 4), (2, 3, 1)`.
    pub fn new(inp_size: usize) -> (r: Self)
        requires
            5 <= inp_size <= i64::MAX,
        ensures
            r.wf(),
            r.width() == inp_size,
            r.gates_view() == seq![(0usize, 1usize, 4usize), (3usize, 1usize, 4usize), (2usize, 3usize, 1usize)],
    {
        let r = Program { fredkins: vec![(0, 1, 4), (3, 1, 4), (2, 3, 1)], inp_size };
        assert(r.fredkins@ =~= seq![(0usize, 1usize, 4usize), (3usize, 1usize, 4usize), (2usize, 3usize, 1usize)]);
        r
    }

    /// Total bit-width.
    pub fn inp_size(&self) -> (r: usize)
        ensures
            r == self.width(),
    {
        self.inp_size
    }

    /// The input, padded with alternating filler to the full width, run through every gate in order.
    pub fn forward(&self, input: bit_vec::BitVec) -> (r: bit_vec::BitVec)
        requires
            self.wf(),
            bits_of(input).len() <= self.width(),
        ensures
            bits_of(r) == run_swaps(pad_alternating(bits_of(input), self.width()), self.gates_view()),
            bits_of(r).len() == self.width(),
    {
        let ghost orig = bits_of(input);
        let mut input = input;
        let mut len = bv_len(&input);
        while len < self.inp_size
            invariant
                len == bits_of(input).len(),
                len <= self.inp_size,
                orig.len() <= len,
                bits_of(input) =~= orig + Seq::new((len - orig.len()) as nat, |i: int| (orig.len() + i) % 2 == 0),
            decreases self.inp_size - len,
        {
            bv_push(&mut input, len % 2 == 0);
            len = len + 1;
        }
        let ghost padded = bits_of(input);
        assert(padded =~= pad_alternating(orig, self.width()));
        let mut g: usize = 0;
        while g < self.fredkins.len()
            invariant
                self.wf(),
                g <= self.fredkins@.len(),
                bits_of(input) == run_swaps(padded, self.fredkins@.subrange(0, g as int)),
                bits_of(input).len() == self.inp_size,
            decreases self.fredkins@.len() - g,
        {
            let (switch, g1, g2) = self.fredkins[g];
            assert(gate_valid(self.fredkins@[g as int], self.inp_size as int));
            let ghost before = bits_of(input);
            if bv_get(&input, switch) {
                let tmp = !bv_get(&input, g2);
                let v1 = bv_get(&input, g1);
                bv_set(&mut input, g2, v1);
                bv_set(&mut input, g1, tmp);
            }
            proof {
                assert(self.fredkins@.subrange(0, g + 1).drop_last() =~= self.fredkins@.subrange(0, g as int));
                assert(bits_of(input) == swap_step(before, self.fredkins@[g as int]));
            }
            g = g + 1;
        }
        assert(self.fredkins@.subrange(0, self.fredkins@.len() as int) =~= self.fredkins@);
        input
    }

    /// The score of one input: the leading zeros of the output's data region,
    /// less the filler bits spoiled (counted from the right end).
    pub fn eval(&self, input: &bit_vec::BitVec) -> (r: i64)
        requires
            self.wf(),
            bits_of(*input).len() <= self.width(),
        ensures
            r == swap_score(
                run_swaps(pad_alternating(bits_of(*input), self.width()), self.gates_view()),
                bits_of(*input).len() as int,
            ),
            -(self.width() as int) <= r <= self.width(),
            -(self.width() - bits_of(*input).len()) <= r <= bits_of(*input).len(),
    {
        let n = bv_len(input);
        let res = self.forward(bv_clone(input));
        let w = self.inp_size;
        let mut lead: usize = 0;
        while lead < n && !bv_get(&res, lead)
            invariant
                lead <= n <= w,
                bits_of(res).len() == w,
                leading_zeros_from(bits_of(res), 0, n as int) == lead + leading_zeros_from(
                    bits_of(res),
                    lead as int,
                    n as int,
                ),
            decreases n - lead,
        {
            lead = lead + 1;
        }
        let mut intact: usize = 0;
        while intact < w - n && bv_get(&res, w - 1 - intact) == ((w - 1 - intact) % 2 == 0)
            invariant
                n <= w,
                intact <= w - n,
                bits_of(res).len() == w,
                intact_filler(bits_of(res), n as int, w as int) == intact + intact_filler(
                    bits_of(res),
                    n as int,
                    w - intact,
                ),
            decreases w - n - intact,
        {
            intact = intact + 1;
        }
        proof {
            lemma_leading_bounds(bits_of(res), 0, n as int);
            lemma_filler_bounds(bits_of(res), n as int, w as int);
        }
        lead as i64 - ((w - n) as i64 - intact as i64)
    }

    /// Sum of the scores of the inputs.
    pub fn eval_many(&self, inputs: &Vec<bit_vec::BitVec>) -> (r: i64)
        requires
            self.wf(),
            forall|i: int| 0 <= i < inputs@.len() ==> bits_of(#[trigger] inputs@[i]).len() <= self.width(),
            inputs@.len() * self.width() <= i64::MAX,
        ensures
            r == self.total_score(inputs@),
    {
        let mut total: i64 = 0;
        let mut i: usize = 0;
        while i < inputs.len()
            invariant
                self.wf(),
                i <= inputs@.len(),
                forall|j: int| 0 <= j < inputs@.len() ==> bits_of(#[trigger] inputs@[j]).len() <= self.width(),
                inputs@.len() * self.width() <= i64::MAX,
                total == self.total_score(inputs@.subrange(0, i as int)),
                -(i * self.width()) <= total <= i * self.width(),
            decreases inputs@.len() - i,
        {
            let s = self.eval(&inputs[i]);
            proof {
                assert(inputs@.subrange(0, i + 1).drop_last() =~= inputs@.subrange(0, i as int));
                assert((i + 1) * self.width() <= inputs@.len() * self.width()) by (nonlinear_arith)
                    requires
                        i + 1 <= inputs@.len(),
                ;
                assert((i + 1) * self.width() == i * self.width() + self.width()) by (nonlinear_arith);
            }
            total = total + s;
            i = i + 1;
        }
        assert(inputs@.subrange(0, inputs@.len() as int) =~= inputs@);
        total
    }

    /// Sum of the scores of the inputs, in order.
    pub open spec fn total_score(&self, inputs: Seq<bit_vec::BitVec>) -> int
        decreases inputs.len(),
    {
        if inputs.len() == 0 {
            0
        } else {
            self.total_score(inputs.drop_last()) + swap_score(
                run_swaps(pad_alternating(bits_of(inputs.last()), self.width()), self.gates_view()),
                bits_of(inputs.last()).len() as int,
            )
        }
    }

    /// A well-formed network has at least one gate, and every gate three
    /// pairwise distinct wires below the width.
    pub proof fn lemma_wf_gates(&self)
        requires
            self.wf(),
        ensures
            self.gates_view().len() > 0,
            forall|g: int| 0 <= g < self.gates_view().len() ==> all_distinct(wires_of(#[trigger] self.gates_view()[g]))
                && in_bounds(wires_of(self.gates_view()[g]), self.width() as int),
    {
        assert forall|g: int| 0 <= g < self.gates_view().len() implies all_distinct(wires_of(#[trigger] self.gates_view()[g]))
            && in_bounds(wires_of(self.gates_view()[g]), self.width() as int) by {
            assert(gate_valid(self.fredkins@[g], self.inp_size as int));
        }
    }

    /// The forward transform is injective on inputs of the full width.
    pub proof fn lemma_forward_injective(&self, x: Seq<bool>, y: Seq<bool>)
        requires
            self.wf(),
            x.len() == self.width(),
            y.len() == self.width(),
            run_swaps(pad_alternating(x, self.width()), self.gates_view()) == run_swaps(
                pad_alternating(y, self.width()),
                self.gates_view(),
            ),
        ensures
            x == y,
    {
        assert(pad_alternating(x, self.width()) =~= x);
        assert(pad_alternating(y, self.width()) =~= y);
        lemma_run_injective(x, y, self.fredkins@, self.inp_size as int);
    }

    /// Appends the gates `from..to` to `out`.
    fn push_range(&self, out: &mut Vec<(usize, usize, usize)>, from: usize, to: usize)
        requires
            from <= to <= self.fredkins@.len(),
        ensures
            final(out)@ == old(out)@ + self.fredkins@.subrange(from as int, to as int),
    {
        let ghost start = out@;
        let mut g: usize = from;
        while g < to
            invariant
                from <= g <= to <= self.fredkins@.len(),
                out@ =~= start + self.fredkins@.subrange(from as int, g as int),
            decreases to - g,
        {
            out.push(self.fredkins[g]);
            g = g + 1;
        }
    }

    /// Moves the wires of each gate of the group centred on `middle`: gate
    /// `lo + g` takes its deltas from `deltas[g * stride ..]`.
    fn move_group(&self, middle: usize, size: usize, deltas: &Vec<i64>, stride: usize) -> (r: Self)
        requires
            self.wf(),
            group_ok(self.fredkins@.len() as int, middle as int, size as int),
            2 * size * stride + 3 <= deltas@.len(),
        ensures
            r.wf(),
            r.width() == self.width(),
            r.gates_view().len() == self.gates_view().len(),
            forall|g: int| 0 <= g < r.gates_view().len() && !(middle - size <= g <= middle + size)
                ==> r.gates_view()[g] == self.gates_view()[g],
            forall|g: int| middle - size <= g <= middle + size ==> moved(
                wires_of(self.gates_view()[g]),
                wires_of(r.gates_view()[g]),
                deltas@,
                (g - (middle - size)) * stride,
                self.width() as int,
            ),
    {
        let n = self.fredkins.len();
        let nd = deltas.len();
        let lo = middle - size;
        let hi = middle + size;
        let mut gates: Vec<(usize, usize, usize)> = Vec::new();
        let mut g: usize = 0;
        while g < n
            invariant
                self.wf(),
                n == self.fredkins@.len(),
                nd == deltas@.len(),
                lo == middle - size,
                hi == middle + size,
                hi < n,
                2 * size * stride + 3 <= deltas@.len(),
                g <= n,
                gates@.len() == g,
                forall|i: int| 0 <= i < g ==> gate_valid(#[trigger] gates@[i], self.inp_size as int),
                forall|i: int| 0 <= i < g && !(lo <= i <= hi) ==> gates@[i] == self.fredkins@[i],
                forall|i: int| 0 <= i < g && lo <= i <= hi ==> moved(
                    wires_of(self.fredkins@[i]),
                    wires_of(gates@[i]),
                    deltas@,
                    (i - lo) * stride,
                    self.inp_size as int,
                ),
            decreases n - g,
        {
            let gate = self.fredkins[g];
            assert(gate_valid(self.fredkins@[g as int], self.inp_size as int));
            if lo <= g && g <= hi {
                proof {
                    assert((g - lo) * stride + 3 <= 2 * size * stride + 3) by (nonlinear_arith)
                        requires
                            g - lo <= 2 * size,
                    ;
                }
                let wires = vec![gate.0, gate.1, gate.2];
                assert(wires@ =~= wires_of(gate));
                let m = move_wires(&wires, deltas, (g - lo) * stride, self.inp_size);
                let moved_gate = (m[0], m[1], m[2]);
                assert(wires_of(moved_gate) =~= m@);
                gates.push(moved_gate);
            } else {
                gates.push(gate);
            }
            g = g + 1;
        }
        Program { fredkins: gates, inp_size: self.inp_size }
    }

    /// Vertical shift: every wire of every gate in the group centred on `middle`
    /// moves by `shamt`, clamped to the wires, then each gate's wires are made distinct.
    pub fn shift_group(&self, middle: usize, size: usize, shamt: i64) -> (r: Self)
        requires
            self.wf(),
            group_ok(self.gates_view().len() as int, middle as int, size as int),
        ensures
            r.wf(),
            r.width() == self.width(),
            r.gates_view().len() == self.gates_view().len(),
            forall|g: int| 0 <= g < r.gates_view().len() && !(middle - size <= g <= middle + size)
                ==> r.gates_view()[g] == self.gates_view()[g],
            forall|g: int| middle - size <= g <= middle + size ==> moved(
                wires_of(self.gates_view()[g]),
                wires_of(r.gates_view()[g]),
                seq![shamt, shamt, shamt],
                0,
                self.width() as int,
            ),
    {
        let deltas = vec![shamt, shamt, shamt];
        let r = self.move_group(middle, size, &deltas, 0);
        assert forall|g: int| middle - size <= g <= middle + size implies moved(
            wires_of(self.gates_view()[g]),
            wires_of(r.gates_view()[g]),
            seq![shamt, shamt, shamt],
            0,
            self.width() as int,
        ) by {
            assert((g - (middle - size)) * 0 == 0);
            assert(deltas@ =~= seq![shamt, shamt, shamt]);
        }
        r
    }

    /// Individual jitter: wire `j` (control, a, b) of gate `middle - size + g` moves by
    /// `deltas[3 * g + j]`, clamped to the wires, then each gate's wires are made distinct.
    pub fn jitter_group(&self, middle: usize, size: usize, deltas: &Vec<i64>) -> (r: Self)
        requires
            self.wf(),
            group_ok(self.gates_view().len() as int, middle as int, size as int),
            deltas@.len() >= 3 * (2 * size + 1),
        ensures
            r.wf(),
            r.width() == self.width(),
            r.gates_view().len() == self.gates_view().len(),
            forall|g: int| 0 <= g < r.gates_view().len() && !(middle - size <= g <= middle + size)
                ==> r.gates_view()[g] == self.gates_view()[g],
            forall|g: int| middle - size <= g <= middle + size ==> moved(
                wires_of(self.gates_view()[g]),
                wires_of(r.gates_view()[g]),
                deltas@,
                (g - (middle - size)) * 3,
                self.width() as int,
            ),
    {
        self.move_group(middle, size, deltas, 3)
    }

    /// Horizontal copy: the group centred on `middle` is duplicated and spliced in
    /// right after gate number `insertion_point(len, middle, size, shamt)`; the original stays.
    pub fn copy_group(&self, middle: usize, size: usize, shamt: i64) -> (r: Self)
        requires
            self.wf(),
            group_ok(self.gates_view().len() as int, middle as int, size as int),
            self.gates_view().len() + 2 * size + 1 <= i64::MAX,
        ensures
            r.wf(),
            r.width() == self.width(),
            ({
                let old_gates = self.gates_view();
                let ip = insertion_point(old_gates.len() as int, middle as int, size as int, shamt as int);
                r.gates_view() == old_gates.subrange(0, ip + 1) + old_gates.subrange(
                    middle - size,
                    middle + size + 1,
                ) + old_gates.subrange(ip + 1, old_gates.len() as int)
            }),
            r.gates_view().len() == self.gates_view().len() + 2 * size + 1,
    {
        let n = self.fredkins.len();
        let ip = copy_insertion_point(n, middle, size, shamt);
        let mut gates: Vec<(usize, usize, usize)> = Vec::new();
        self.push_range(&mut gates, 0, ip + 1);
        self.push_range(&mut gates, middle - size, middle + size + 1);
        self.push_range(&mut gates, ip + 1, n);
        let r = Program { fredkins: gates, inp_size: self.inp_size };
        assert forall|g: int| 0 <= g < r.fredkins@.len() implies gate_valid(
            #[trigger] r.fredkins@[g],
            self.inp_size as int,
        ) by {
            if g < ip + 1 {
                assert(r.fredkins@[g] == self.fredkins@[g]);
            } else if g < ip + 1 + 2 * size + 1 {
                assert(r.fredkins@[g] == self.fredkins@[g - ip - 1 + middle - size]);
            } else {
                assert(r.fredkins@[g] == self.fredkins@[g - 2 * size - 1]);
            }
        }
        r
    }

    /// Deletion: where the group centred on `middle` lies strictly inside
    /// (`middle - size > 0` and `middle + size < len - 1`) it is removed;
    /// elsewhere nothing changes.
    pub fn delete_group(&self, middle: usize, size: usize) -> (r: Self)
        requires
            self.wf(),
            group_ok(self.gates_view().len() as int, middle as int, size as int),
        ensures
            r.wf(),
            r.width() == self.width(),
            ({
                let old_gates = self.gates_view();
                if middle - size > 0 && middle + size < old_gates.len() - 1 {
                    r.gates_view() == old_gates.subrange(0, middle - size) + old_gates.subrange(
                        middle + size + 1,
                        old_gates.len() as int,
                    )
                } else {
                    r.gates_view() == old_gates
                }
            }),
            middle - size > 0 && middle + size < self.gates_view().len() - 1
                ==> r.gates_view().len() == self.gates_view().len() - (2 * size + 1),
    {
        let n = self.fredkins.len();
        let mut gates: Vec<(usize, usize, usize)> = Vec::new();
        if middle - size > 0 && middle + size < n - 1 {
            self.push_range(&mut gates, 0, middle - size);
            self.push_range(&mut gates, middle + size + 1, n);
            let r = Program { fredkins: gates, inp_size: self.inp_size };
            assert forall|g: int| 0 <= g < r.fredkins@.len() implies gate_valid(
                #[trigger] r.fredkins@[g],
                self.inp_size as int,
            ) by {
                if g < middle - size {
                    assert(r.fredkins@[g] == self.fredkins@[g]);
                } else {
                    assert(r.fredkins@[g] == self.fredkins@[g + 2 * size + 1]);
                }
            }
            r
        } else {
            self.push_range(&mut gates, 0, n);
            assert(self.fredkins@.subrange(0, n as int) =~= self.fredkins@);
            Program { fredkins: gates, inp_size: self.inp_size }
        }
    }

    /// An equal network.
    fn duplicate(&self) -> (r: Self)
        requires
            self.wf(),
        ensures
            r.wf(),
            r.width() == self.width(),
            r.gates_view() == self.gates_view(),
    {
        let mut gates: Vec<(usize, usize, usize)> = Vec::new();
        self.push_range(&mut gates, 0, self.fredkins.len());
        assert(self.fredkins@.subrange(0, self.fredkins@.len() as int) =~= self.fredkins@);
        Program { fredkins: gates, inp_size: self.inp_size }
    }

    /// What one mutation draw `d` does to this network: the group centred on
    /// `d.middle` has half-width `group_half(len, d.middle, d.raw_size)`; operator
    /// 1 shifts it, 2 copies it, 3 deletes it, 4 jitters it (this encoding has
    /// no tables). A draw that does not fit leaves the gates as they are.
    pub open spec fn step_result(&self, r: Self, d: Draw) -> bool {
        let old = self.gates_view();
        let new = r.gates_view();
        let len = old.len() as int;
        let m = d.middle as int;
        let size = group_half(len, m, d.raw_size as int);
        let w = self.width() as int;
        &&& r.width() == self.width()
        &&& if m >= len {
            new == old
        } else if d.op == 1 {
            moved_swaps(old, new, m, size, seq![d.shamt, d.shamt, d.shamt], 0, w)
        } else if d.op == 2 && len + 2 * size + 1 <= i64::MAX {
            copied(old, new, m, size, d.shamt as int)
        } else if d.op == 3 {
            deleted(old, new, m, size)
        } else if d.op == 4 && 3 * (2 * size + 1) <= d.deltas@.len() {
            moved_swaps(old, new, m, size, d.deltas@, 3, w)
        } else {
            new == old
        }
    }

    /// One mutation operator, chosen and parameterised by `d` (see `step_result`).
    pub fn mutation_step(&self, d: &Draw) -> (r: Self)
        requires
            self.wf(),
        ensures
            r.wf(),
            self.step_result(r, *d),
    {
        let n = self.fredkins.len();
        if d.middle >= n {
            return self.duplicate();
        }
        let size = clamp_group(n, d.middle, d.raw_size);
        let groups = 2 * size + 1;
        if d.op == 1 {
            self.shift_group(d.middle, size, d.shamt)
        } else if d.op == 2 && n as u128 + groups as u128 <= i64::MAX as u128 {
            self.copy_group(d.middle, size, d.shamt)
        } else if d.op == 3 {
            self.delete_group(d.middle, size)
        } else if d.op == 4 && 3 * (groups as u128) <= d.deltas.len() as u128 {
            self.jitter_group(d.middle, size, &d.deltas)
        } else {
            self.duplicate()
        }
    }

    /// `count` mutation operators in turn, each with the integers that `draw`
    /// gives for the current gate count. Whatever is drawn, every network on
    /// the way, and the result, stays well formed: non-empty, three distinct
    /// wires per gate below the width; so its forward transform stays
    /// injective (`lemma_forward_injective`).
    pub fn mutation<F: Fn(usize) -> Draw>(&self, count: u64, draw: F) -> (r: Self)
        requires
            self.wf(),
            forall|n: usize| #[trigger] draw.requires((n,)),
        ensures
            r.wf(),
            r.width() == self.width(),
            count == 0 ==> r.gates_view() == self.gates_view(),
            exists|ps: Seq<Program>, ds: Seq<Draw>|
                #![trigger is_swap_chain(draw, ps, ds)]
                is_swap_chain(draw, ps, ds) && ds.len() == count && ps[0].gates_view() == self.gates_view()
                    && ps[0].width() == self.width() && ps.last() == r,
            r.gates_view().len() > 0,
            forall|g: int| 0 <= g < r.gates_view().len() ==> all_distinct(wires_of(#[trigger] r.gates_view()[g]))
                && in_bounds(wires_of(r.gates_view()[g]), r.width() as int),
            forall|x: Seq<bool>, y: Seq<bool>|
                x.len() == r.width() && y.len() == r.width() && #[trigger] run_swaps(pad_alternating(x, r.width()), r.gates_view())
                    == #[trigger] run_swaps(pad_alternating(y, r.width()), r.gates_view()) ==> x == y,
    {
        let mut cur = self.duplicate();
        let ghost mut ps: Seq<Program> = seq![cur];
        let ghost mut ds: Seq<Draw> = Seq::empty();
        let mut i: u64 = 0;
        while i < count
            invariant
                cur.wf(),
                cur.width() == self.width(),
                forall|n: usize| #[trigger] draw.requires((n,)),
                i <= count,
                i == 0 ==> cur.gates_view() == self.gates_view(),
                is_swap_chain(draw, ps, ds),
                ds.len() == i,
                ps.last() == cur,
                ps[0].gates_view() == self.gates_view(),
                ps[0].width() == self.width(),
            decreases count - i,
        {
            let d = draw(cur.fredkins.len());
            let next = cur.mutation_step(&d);
            proof {
                let ps2 = ps.push(next);
                let ds2 = ds.push(d);
                assert forall|j: int| 0 <= j < ds2.len() implies #[trigger] draw.ensures(
                    (ps2[j].gates_view().len() as usize,),
                    ds2[j],
                ) && ps2[j].step_result(ps2[j + 1], ds2[j]) by {
                    if j < ds.len() {
                        assert(ps2[j] == ps[j] && ps2[j + 1] == ps[j + 1] && ds2[j] == ds[j]);
                    } else {
                        assert(ps2[j] == cur && ps2[j + 1] == next && ds2[j] == d);
                    }
                }
                ps = ps2;
                ds = ds2;
            }
            cur = next;
            i = i + 1;
        }
        proof {
            cur.lemma_wf_gates();
            assert forall|x: Seq<bool>, y: Seq<bool>|
                x.len() == cur.width() && y.len() == cur.width() && #[trigger] run_swaps(pad_alternating(x, cur.width()), cur.gates_view())
                    == #[trigger] run_swaps(pad_alternating(y, cur.width()), cur.gates_view()) implies x == y by {
                cur.lemma_forward_injective(x, y);
            }
        }
        cur
    }

    /// The gates in order, as `(control, a, b)`.
    pub fn gates(&self) -> (r: Vec<(usize, usize, usize)>)
        ensures
            r@ == self.gates_view(),
    {
        let mut r: Vec<(usize, usize, usize)> = Vec::new();
        self.push_range(&mut r, 0, self.fredkins.len());
        assert(self.fredkins@.subrange(0, self.fredkins@.len() as int) =~= self.fredkins@);
        r
    }

    /// Gate count.
    pub fn complexity(&self) -> (r: i64)
        requires
            self.wf(),
        ensures
            r == self.gates_view().len(),
    {
        self.fredkins.len() as i64
    }
}

} // verus!
