use bit_vec::BitVec;
use revcirc::arbitrairy_program;
use revcirc::fredkins_program;
use revcirc::table::{bitvec_to_num, num_to_bitvec, SBox};
use revcirc::wiring::{Draw, clamp_group, clamp_offset, copy_insertion_point, move_wires, rectify_duplicates};
use revcirc::bits::{bit_len, from_bools, to_bools};
use revcirc::{eval, eval_many};

fn bits(s: &str) -> BitVec {
    let mut v = BitVec::new();
    for c in s.chars() {
        v.push(c == '1');
    }
    v
}

fn all_distinct(w: &[usize]) -> bool {
    for i in 0..w.len() {
        for j in (i + 1)..w.len() {
            if w[i] == w[j] {
                return false;
            }
        }
    }
    true
}

fn is_permutation(t: &[usize]) -> bool {
    let mut seen = vec![false; t.len()];
    for &x in t {
        if x >= t.len() || seen[x] {
            return false;
        }
        seen[x] = true;
    }
    true
}

#[test]
fn swap_gate_one_and_two_applications() {
    // Gate (0, 1, 4) then (3, 1, 4) act on a = wire 1, b = wire 4; wire 2 keeps
    // the last gate (2, 3, 1) idle.
    let p = fredkins_program::Program::new(5);
    let out = p.forward(bits("10011"));
    // After the first gate (a, b) = (0, 0); after the second (1, 0): the original pair negated.
    assert_eq!(out, bits("11010"));
}

#[test]
fn swap_gate_idle_without_control() {
    let p = fredkins_program::Program::new(5);
    assert_eq!(p.forward(bits("00000")), bits("00000"));
    assert_eq!(p.forward(bits("01001")), bits("01001"));
    // Wire 2 set: wire 3 <- !wire 1, wire 1 <- wire 3.
    assert_eq!(p.forward(bits("01101")), bits("00101"));
}

#[test]
fn swap_forward_pads_with_alternating_filler() {
    let p = fredkins_program::Program::new(8);
    // Input "0" is padded to 0 0 1 0 1 0 1 0 (position p holds p % 2 == 0); bit 2 is set
    // so (2, 3, 1) acts: wire 3 <- !wire 1, wire 1 <- wire 3.
    assert_eq!(p.forward(bits("0")), bits("00111010"));
}

#[test]
fn learned_identity_seed_keeps_input() {
    let p = arbitrairy_program::Program::new(8, 4);
    let input = bits("10110000");
    assert_eq!(p.forward(input.clone()), input);
    assert_eq!(p.wires(0), vec![0, 1, 2, 3]);
    assert_eq!(p.table(0), (0..16).collect::<Vec<usize>>());
    assert_eq!(p.complexity(), 1);
}

#[test]
fn learned_forward_pads_with_zeros() {
    let p = arbitrairy_program::Program::new(8, 4);
    assert_eq!(p.forward(bits("101")), bits("10100000"));
}

#[test]
fn scoring_all_zero_vector_under_swap_seed() {
    let p = fredkins_program::Program::new(8);
    assert_eq!(p.eval(&bits("00000000")), 8);
}

#[test]
fn scoring_all_zero_vector_under_learned_seed() {
    let p = arbitrairy_program::Program::new(8, 4);
    // An all-zero output counts each of its zeros once.
    assert_eq!(eval(|i| p.forward(i), &bits("00000000")), 8);
}

#[test]
fn swap_eval_counts_spoiled_filler() {
    let p = fredkins_program::Program::new(8);
    // Output 00111010 for input "0": one leading zero; filler region 0111010 against
    // expected 0101010 keeps its last 4 bits intact, so 7 - 4 = 3 bits are spoiled.
    assert_eq!(p.eval(&bits("0")), 1 - 3);
}

#[test]
fn swap_eval_many_sums() {
    let p = fredkins_program::Program::new(8);
    let corpus = vec![bits("00000000"), bits("0")];
    assert_eq!(p.eval_many(&corpus), 8 - 2);
}

#[test]
fn edge_eval_exact_values() {
    let id = |v: BitVec| v;
    assert_eq!(eval(id, &bits("0011000")), 7 - (7 - 5));
    assert_eq!(eval(id, &bits("1001")), 0);
    assert_eq!(eval(id, &bits("000")), 3);
    assert_eq!(eval(id, &bits("")), 0);
    assert_eq!(eval(id, &bits("1111")), 0);
    assert_eq!(eval_many(id, &vec![bits("0011000"), bits("1111"), bits("")]), 5);
}

#[test]
fn eval_uses_the_forward_output() {
    let p = arbitrairy_program::Program::new(8, 4);
    // Output is 10100000: no leading zeros, five trailing: 3 - (8 - 5) = 0.
    assert_eq!(eval(|i| p.forward(i), &bits("101")), 0);
}

#[test]
fn bit_number_conversions() {
    assert_eq!(bitvec_to_num(&bits("1011")), 11);
    assert_eq!(bitvec_to_num(&bits("")), 0);
    assert_eq!(num_to_bitvec(11, 4), bits("1011"));
    assert_eq!(num_to_bitvec(11, 6), bits("001011"));
    assert_eq!(num_to_bitvec(11, 2), bits("11"));
}

#[test]
fn sbox_identity_and_swaps() {
    let s = SBox::new(3);
    assert_eq!(s.shuffles, (0..8).collect::<Vec<usize>>());
    assert_eq!(s.forward(bits("101")), bits("101"));
    assert_eq!(s.forward(bits("1")), bits("001"));
    let t = s.swap_entries(1, 5);
    assert_eq!(t.forward(bits("001")), bits("101"));
    assert_eq!(t.forward(bits("101")), bits("001"));
    assert!(is_permutation(&t.shuffles));
}

#[test]
fn sbox_mutation_stays_a_permutation() {
    let mut s = SBox::new(4);
    for _ in 0..20 {
        s = s.mutation(5);
        assert!(is_permutation(&s.shuffles));
        assert_eq!(s.shuffles.len(), 16);
    }
    let unchanged = s.mutation(0);
    assert_eq!(unchanged.shuffles, s.shuffles);
}

#[test]
fn rectify_walks_outward() {
    let mut w = vec![2, 2, 2];
    rectify_duplicates(&mut w, 5);
    assert_eq!(w, vec![3, 1, 2]);
    let mut w = vec![0, 0];
    rectify_duplicates(&mut w, 2);
    assert_eq!(w, vec![1, 0]);
    let mut w = vec![4, 1, 3];
    rectify_duplicates(&mut w, 5);
    assert_eq!(w, vec![4, 1, 3]);
}

#[test]
fn rectify_fills_a_full_width() {
    let mut w = vec![3; 7];
    rectify_duplicates(&mut w, 7);
    assert!(all_distinct(&w));
    assert!(w.iter().all(|&x| x < 7));
}

#[test]
fn clamping_helpers() {
    assert_eq!(clamp_offset(3, -5, 10), 0);
    assert_eq!(clamp_offset(3, 4, 10), 7);
    assert_eq!(clamp_offset(3, 40, 10), 9);
    assert_eq!(clamp_group(10, 5, 100), 4);
    assert_eq!(clamp_group(10, 2, 100), 2);
    assert_eq!(clamp_group(10, 5, 1), 1);
    assert_eq!(clamp_group(1, 0, 7), 0);
    assert_eq!(copy_insertion_point(10, 5, 1, 2), 8);
    assert_eq!(copy_insertion_point(10, 5, 1, -2), 2);
    assert_eq!(copy_insertion_point(10, 5, 1, 0), 5);
    assert_eq!(copy_insertion_point(10, 5, 1, 100), 9);
    assert_eq!(copy_insertion_point(10, 5, 1, -100), 0);
}

#[test]
fn move_wires_clamps_and_separates() {
    assert_eq!(move_wires(&vec![1, 2, 3], &vec![1, 1, 1], 0, 10), vec![2, 3, 4]);
    // 8 + 5 and 9 + 5 both clamp to 9; the first then walks to 0 (9 + 1 modulo 10).
    assert_eq!(move_wires(&vec![8, 9, 0], &vec![0, 5, 5, 1], 1, 10), vec![0, 9, 1]);
}

#[test]
fn swap_copy_and_delete_change_complexity() {
    let p = fredkins_program::Program::new(5);
    let c = p.copy_group(1, 0, 0);
    assert_eq!(c.complexity(), 4);
    assert_eq!(c.gates(), vec![(0, 1, 4), (3, 1, 4), (3, 1, 4), (2, 3, 1)]);
    let d = c.delete_group(1, 0);
    assert_eq!(d.complexity(), 3);
    assert_eq!(d.gates(), vec![(0, 1, 4), (3, 1, 4), (2, 3, 1)]);
    let c2 = c.copy_group(2, 1, 3);
    assert_eq!(c2.complexity(), 7);
    // Insertion point 2 + 3 + 1 clamps to 3: the copy follows gate 3.
    assert_eq!(
        c2.gates(),
        vec![(0, 1, 4), (3, 1, 4), (3, 1, 4), (2, 3, 1), (3, 1, 4), (3, 1, 4), (2, 3, 1)]
    );
    // Insertion point 0 + 2 = 2: the copy of the first gate follows the last one.
    assert_eq!(p.copy_group(0, 0, 2).gates(), vec![(0, 1, 4), (3, 1, 4), (2, 3, 1), (0, 1, 4)]);
}

#[test]
fn deletion_at_the_edge_is_a_no_op() {
    let p = fredkins_program::Program::new(5);
    assert_eq!(p.delete_group(0, 0).gates(), p.gates());
    assert_eq!(p.delete_group(2, 0).gates(), p.gates());
    // The only interior group of three gates is the middle one.
    assert_eq!(p.delete_group(1, 1).gates(), p.gates());
    assert_eq!(p.delete_group(1, 0).gates(), vec![(0, 1, 4), (2, 3, 1)]);
}

#[test]
fn swap_shift_and_jitter() {
    let p = fredkins_program::Program::new(8);
    let s = p.shift_group(1, 1, 2);
    assert_eq!(s.gates(), vec![(2, 3, 6), (5, 3, 6), (4, 5, 3)]);
    let s = p.shift_group(1, 0, 10);
    assert_eq!(s.gates()[1], (0, 6, 7));
    let j = p.jitter_group(0, 0, &vec![1, 1, -1]);
    assert_eq!(j.gates(), vec![(1, 2, 3), (3, 1, 4), (2, 3, 1)]);
    for g in p.shift_group(1, 1, -30).gates() {
        assert!(all_distinct(&[g.0, g.1, g.2]));
        assert!(g.0 < 8 && g.1 < 8 && g.2 < 8);
    }
}

#[test]
fn learned_operators() {
    let p = arbitrairy_program::Program::new(10, 3);
    let p = p.copy_group(0, 0, 0);
    assert_eq!(p.complexity(), 2);
    let p = p.shift_group(1, 0, 4);
    assert_eq!(p.wires(0), vec![0, 1, 2]);
    assert_eq!(p.wires(1), vec![4, 5, 6]);
    let p = p.jitter_group(0, 0, &vec![9, 9, 9]);
    assert_eq!(p.wires(0), vec![0, 8, 9]);
    let p = p.mutate_tables(1, 0, &vec![3]);
    assert!(is_permutation(&p.table(1)));
    assert_eq!(p.table(0), (0..8).collect::<Vec<usize>>());
    let p = p.copy_group(1, 0, 0).copy_group(1, 0, 0);
    assert_eq!(p.complexity(), 4);
    let q = p.delete_group(1, 0);
    assert_eq!(q.complexity(), 3);
}

#[test]
fn learned_network_is_injective_on_small_width() {
    let mut p = arbitrairy_program::Program::new(6, 3);
    p = p.mutate_tables(0, 0, &vec![10]);
    p = p.copy_group(0, 0, 1);
    p = p.shift_group(1, 0, 2);
    p = p.mutate_tables(1, 0, &vec![10]);
    let mut outs = Vec::new();
    for n in 0..64u32 {
        let mut v = BitVec::new();
        for j in 0..6 {
            v.push((n >> (5 - j)) & 1 == 1);
        }
        outs.push(p.forward(v));
    }
    for i in 0..outs.len() {
        for j in (i + 1)..outs.len() {
            assert_ne!(outs[i], outs[j]);
        }
    }
}

#[test]
fn swap_network_is_injective_on_small_width() {
    let p = fredkins_program::Program::new(6).copy_group(1, 1, 0).shift_group(2, 2, 1);
    let mut outs = Vec::new();
    for n in 0..64u32 {
        let mut v = BitVec::new();
        for j in 0..6 {
            v.push((n >> (5 - j)) & 1 == 1);
        }
        outs.push(p.forward(v));
    }
    for i in 0..outs.len() {
        for j in (i + 1)..outs.len() {
            assert_ne!(outs[i], outs[j]);
        }
    }
}

#[test]
fn deletions_never_empty_a_network() {
    let mut p = fredkins_program::Program::new(6);
    for _ in 0..3 {
        p = p.copy_group(1, 1, 0);
    }
    for _ in 0..40 {
        let len = p.complexity() as usize;
        let middle = len / 2;
        let size = clamp_group(len, middle, 100);
        p = p.delete_group(middle, size);
        p = p.delete_group(middle.min(p.complexity() as usize - 1), 0);
        assert!(p.complexity() >= 1);
    }
    assert!(p.complexity() >= 1);
    assert!(!p.gates().is_empty());
}

fn draw(op: u8, middle: usize, raw_size: usize, shamt: i64, deltas: Vec<i64>, counts: Vec<u64>) -> Draw {
    Draw { op, middle, raw_size, shamt, deltas, counts }
}

#[test]
fn swap_mutation_applies_each_draw() {
    let p = fredkins_program::Program::new(8);
    // Copy the middle gate after itself, then delete it again.
    let q = p.mutation(1, |len| draw(2, len / 2, 0, 0, vec![], vec![]));
    assert_eq!(q.gates(), vec![(0, 1, 4), (3, 1, 4), (3, 1, 4), (2, 3, 1)]);
    let r = q.mutation_step(&draw(3, 1, 0, 0, vec![], vec![]));
    assert_eq!(r.gates(), p.gates());
    // A centre out of range, too few deltas or an unknown operator changes nothing.
    assert_eq!(p.mutation_step(&draw(1, 3, 0, 5, vec![], vec![])).gates(), p.gates());
    assert_eq!(p.mutation_step(&draw(4, 1, 0, 0, vec![1, 1], vec![])).gates(), p.gates());
    assert_eq!(p.mutation_step(&draw(5, 1, 0, 0, vec![], vec![1])).gates(), p.gates());
    assert_eq!(p.mutation(0, |_| draw(3, 1, 0, 0, vec![], vec![])).gates(), p.gates());
    // A shift of the whole network by 2.
    let s = p.mutation_step(&draw(1, 1, 9, 2, vec![], vec![]));
    assert_eq!(s.gates(), vec![(2, 3, 6), (5, 3, 6), (4, 5, 3)]);
}

#[test]
fn learned_mutation_applies_each_draw() {
    let p = arbitrairy_program::Program::new(10, 3);
    let q = p.mutation(2, |len| draw(2, len - 1, 0, 0, vec![], vec![]));
    assert_eq!(q.complexity(), 3);
    let j = q.mutation_step(&draw(4, 0, 0, 0, vec![1, 1, 1], vec![]));
    assert_eq!(j.wires(0), vec![1, 2, 3]);
    let t = q.mutation_step(&draw(5, 1, 0, 0, vec![], vec![4]));
    assert!(is_permutation(&t.table(1)));
    assert_eq!(t.wires(1), vec![0, 1, 2]);
    assert_eq!(q.mutation_step(&draw(6, 1, 0, 0, vec![], vec![])).complexity(), 3);
}

#[test]
fn long_random_mutation_keeps_networks_valid() {
    let p = arbitrairy_program::Program::new(12, 3);
    let q = p.mutation(200, |len| {
        let middle = (len * 7 + 3) % len;
        let op = (len % 5) as u8 + 1;
        draw(op, middle, 2, (len as i64 % 7) - 3, vec![5, -9, 2, 0, 14, -3, 1, 1, 1, 8, -8, 4, 3, 3, 3], vec![2, 2, 2, 2, 2])
    });
    assert!(q.complexity() >= 1);
    for g in 0..q.complexity() as usize {
        let w = q.wires(g);
        assert!(all_distinct(&w));
        assert!(w.iter().all(|&x| x < 12));
        assert!(is_permutation(&q.table(g)));
    }
}

#[test]
fn bit_vector_conversions() {
    let v = from_bools(&vec![true, false, true, true]);
    assert_eq!(v, bits("1011"));
    assert_eq!(bit_len(&v), 4);
    assert_eq!(to_bools(&bits("0110")), vec![false, true, true, false]);
    assert_eq!(bit_len(&BitVec::new()), 0);
}

#[test]
fn wide_number_to_bits() {
    let mut expected = "0".repeat(37);
    expected.push_str("101");
    assert_eq!(num_to_bitvec(5, 40), bits(&expected));
}

#[test]
fn sbox_applies_swaps_in_order() {
    let s = SBox::new(2);
    let t = s.apply_swaps(&vec![(0, 1), (1, 3), (2, 2)]);
    // [0,1,2,3] -> [1,0,2,3] -> [1,3,2,0] -> unchanged by (2, 2).
    assert_eq!(t.shuffles, vec![1, 3, 2, 0]);
    assert_eq!(s.apply_swaps(&vec![]).shuffles, vec![0, 1, 2, 3]);
}
