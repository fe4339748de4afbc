use logicsim::graph::gate::{off, on, BuildGate, GateIndex, GateType};
use logicsim::graph::graph_builder::GateGraphBuilder;

fn flip_flop_scenario() {
    let mut graph = GateGraphBuilder::new();
    let g = &mut graph;

    let set = g.lever("set");
    let reset = g.lever("reset");

    let flip = g.or2(reset.bit(), off(), "flip");
    let q = g.not1(flip, "q");

    let flop = g.or2(set.bit(), q, "flop");
    let nq = g.not1(flop, "nq");
    g.d1(flip, nq);

    let output = g.output1(nq, "nq");
    let g = &mut graph.init();

    g.run_until_stable(10).unwrap();
    for _ in 0..10 {
        assert_eq!(output.b0(g), true);
    }
    g.update_lever(set, true);

    g.run_until_stable(10).unwrap();
    assert_eq!(output.b0(g), false);

    g.update_lever(set, false);

    g.run_until_stable(10).unwrap();
    assert_eq!(output.b0(g), false);
}

fn not_loop_scenario() {
    let mut graph = GateGraphBuilder::new();
    let g = &mut graph;

    let n1 = g.not1(off(), "n1");
    let n2 = g.not1(n1, "n2");
    let n3 = g.not1(n2, "n3");
    g.d0(n1, n3);

    let output = g.output1(n1, "n1");
    let g = &mut graph.init();

    let mut a = true;
    for _ in 0..10 {
        assert_eq!(output.b0(g), a);
        g.tick();
        a = !a;
    }

    // There is no stable state
    assert!(g.run_until_stable(100).is_err())
}

fn big_and_scenario() {
    let mut graph = GateGraphBuilder::new();
    let g = &mut graph;
    let and = g.and2(on(), on(), "and");
    let output = g.output(&[and], "big_and");
    g.dpush(and, on());
    g.dpush(and, on());
    let g = &mut graph.init();

    assert_eq!(output.b0(g), true)
}

#[test]
fn graph_builder_test_flip_flop() {
    flip_flop_scenario();
}

#[test]
fn graph_builder_test_not_loop() {
    not_loop_scenario();
}

#[test]
fn graph_builder_test_big_and() {
    big_and_scenario();
}

#[test]
fn graph_test_flip_flop() {
    flip_flop_scenario();
}

#[test]
fn graph_test_not_loop() {
    not_loop_scenario();
}

#[test]
fn graph_test_big_and() {
    big_and_scenario();
}

#[test]
fn readme_simple_gates() {
    let mut g = GateGraphBuilder::new();
    let or = g.or2(on(), off(), "or");
    let or_output = g.output1(or, "or_output");
    let and = g.and2(on(), off(), "and");
    let and_output = g.output1(and, "and_output");
    let ig = &g.init();
    assert_eq!(or_output.b0(ig), true);
    assert_eq!(and_output.b0(ig), false);
}

#[test]
fn readme_levers() {
    let mut g = GateGraphBuilder::new();
    let l1 = g.lever("l1");
    let l2 = g.lever("l2");
    let or = g.or2(l1.bit(), l2.bit(), "or");
    let or_output = g.output1(or, "or_output");
    let and = g.and2(l1.bit(), l2.bit(), "and");
    let and_output = g.output1(and, "and_output");
    let ig = &mut g.init();

    assert_eq!(or_output.b0(ig), false);
    assert_eq!(and_output.b0(ig), false);

    ig.flip_lever_stable(l1).unwrap();
    assert_eq!(or_output.b0(ig), true);
    assert_eq!(and_output.b0(ig), false);

    ig.flip_lever_stable(l2).unwrap();
    assert_eq!(or_output.b0(ig), true);
    assert_eq!(and_output.b0(ig), true);
}

#[test]
fn readme_sr_latch() {
    let mut g = GateGraphBuilder::new();
    let r = g.lever("l1");
    let s = g.lever("l2");
    let q = g.nor2(r.bit(), off(), "q");
    let nq = g.nor2(s.bit(), q, "nq");
    let q_output = g.output1(q, "q");
    let nq_output = g.output1(nq, "nq");
    g.d1(q, nq);

    let ig = &mut g.init();
    ig.pulse_lever_stable(r).unwrap();
    assert_eq!(q_output.b0(ig), false);
    assert_eq!(nq_output.b0(ig), true);

    ig.pulse_lever_stable(s).unwrap();
    assert_eq!(q_output.b0(ig), true);
    assert_eq!(nq_output.b0(ig), false);

    ig.pulse_lever_stable(r).unwrap();
    assert_eq!(q_output.b0(ig), false);
    assert_eq!(nq_output.b0(ig), true);
}

#[test]
fn readme_xor_probe_scenario() {
    let mut g = GateGraphBuilder::new();
    let l1 = g.lever("l1");
    let l2 = g.lever("l2");
    let xor = g.xor2(l1.bit(), l2.bit(), "xor");
    let xor_output = g.output1(xor, "xor_output");
    let ig = &mut g.init();
    assert_eq!(xor_output.b0(ig), false);
    ig.set_lever_stable(l1).unwrap();
    assert_eq!(xor_output.b0(ig), true);
    ig.set_lever_stable(l2).unwrap();
    assert_eq!(xor_output.b0(ig), false);
    ig.reset_lever_stable(l1).unwrap();
    assert_eq!(xor_output.b0(ig), true);
    ig.reset_lever_stable(l2).unwrap();
    assert_eq!(xor_output.b0(ig), false);
}

#[test]
fn unoptimized_graph_computes_the_same() {
    let mut g = GateGraphBuilder::new();
    let l1 = g.lever("l1");
    let l2 = g.lever("l2");
    let nand = g.nand2(l1.bit(), l2.bit(), "nand");
    let xnor = g.xnor2(nand, on(), "xnor");
    let out = g.output(&[nand, xnor], "out");
    let ig = &mut g.init_unoptimized();
    ig.run_until_stable(10).unwrap();
    assert_eq!(out.u8(ig), 0b11);
    ig.set_lever_stable(l1).unwrap();
    ig.set_lever_stable(l2).unwrap();
    assert_eq!(out.u8(ig), 0b00);
    assert_eq!(ig.num_levers(), 2);
    assert_eq!(ig.num_outputs(), 1);
}

#[test]
fn lever_pulse_and_flip() {
    let mut g = GateGraphBuilder::new();
    let l = g.lever("l");
    let o = g.output1(l.bit(), "l");
    let ig = &mut g.init();
    ig.flip_lever(l);
    assert_eq!(o.b0(ig), true);
    ig.pulse_lever(l);
    assert_eq!(o.b0(ig), false);
    ig.set_lever(l);
    assert_eq!(o.b0(ig), true);
    ig.reset_lever(l);
    assert_eq!(o.b0(ig), false);
    ig.update_levers(&[l], &[true]);
    assert_eq!(o.b0(ig), true);
}

#[test]
fn constants_are_off_and_on() {
    let mut g = GateGraphBuilder::new();
    assert_eq!(g.len(), 2);
    let o = g.output(&[off(), on()], "constants");
    let ig = &g.init();
    assert_eq!(o.u8(ig), 0b10);
    assert_eq!(o.bx(ig, 1), true);
}

#[test]
fn output_conversions() {
    let mut g = GateGraphBuilder::new();
    let bits = [on(), off(), off(), off(), off(), off(), on(), on()];
    let o = g.output(&bits, "bits");
    let ig = &g.init();
    assert_eq!(o.u8(ig), 0b1100_0001);
    assert_eq!(o.i8(ig), 0b1100_0001u8 as i8);
    assert_eq!(o.u128(ig), 0b1100_0001);
    assert_eq!(o.i128(ig), 0b1100_0001);
    assert_eq!(o.char(ig), 0b1100_0001u8 as char);
}

#[test]
fn gate_index_constants() {
    assert!(off().is_off());
    assert!(on().is_on());
    assert!(off().is_const() && on().is_const());
    assert!(!GateIndex::new(2).is_const());
    assert_eq!(off().opposite_if_const(), Some(on()));
    assert_eq!(on().opposite_if_const(), Some(off()));
    assert_eq!(GateIndex::new(7).opposite_if_const(), None);
}

#[test]
fn gate_type_negation() {
    assert_eq!(GateType::Or.negated_version(), GateType::Nor);
    assert_eq!(GateType::Nor.negated_version(), GateType::Or);
    assert_eq!(GateType::And.negated_version(), GateType::Nand);
    assert_eq!(GateType::Xor.negated_version(), GateType::Xnor);
    assert_eq!(GateType::Xnor.negated_version().negated_version(), GateType::Xnor);
    assert!(GateType::Nand.is_negated());
    assert!(GateType::Not.is_negated());
    assert!(!GateType::Or.is_negated());
    assert!(GateType::Lever.is_lever());
    assert!(!GateType::Lever.has_negated_version());
    assert!(GateType::And.short_circuits());
    assert!(!GateType::Xor.short_circuits());
    assert_eq!(GateType::And.init(), true);
    assert_eq!(GateType::Or.init(), false);
    assert_eq!(GateType::Xor.accumulate(true, true), false);
    assert_eq!(GateType::Or.accumulate(false, true), true);
    assert_eq!(GateType::And.accumulate(true, false), false);
}

#[test]
fn optimized_constants_keep_their_meaning() {
    let mut g = GateGraphBuilder::new();
    let l = g.lever("l");
    let xor_on = g.xor1(on(), "xor_on");
    let xnor_on = g.xnor1(on(), "xnor_on");
    let nor_off = g.nor2(off(), l.bit(), "nor_off");
    let nand_on = g.nand2(on(), l.bit(), "nand_on");
    let out = g.output(&[xor_on, xnor_on, nor_off, nand_on], "out");
    let ig = &mut g.init();
    ig.run_until_stable(10).unwrap();
    assert_eq!(out.u8(ig), 0b1101);
    ig.set_lever_stable(l).unwrap();
    assert_eq!(out.u8(ig), 0b0001);
}

#[test]
fn built_graphs_list_every_dependent() {
    let mut g = GateGraphBuilder::new();
    let l1 = g.lever("l1");
    let l2 = g.lever("l2");
    let x = g.xor2(l1.bit(), l2.bit(), "x");
    let n = g.not1(x, "n");
    let a = g.and2(n, l1.bit(), "a");
    g.output(&[x, n, a], "out");
    let mut h = GateGraphBuilder::new();
    let m1 = h.lever("m1");
    let m2 = h.nor2(m1.bit(), off(), "m2");
    h.output1(m2, "m2");
    let unoptimized = h.init_unoptimized();
    assert!(unoptimized.check_dependents());
    let ig = g.init();
    assert!(ig.check_dependents());
}

#[test]
fn stable_graph_holds_computed_states() {
    let mut g = GateGraphBuilder::new();
    let l1 = g.lever("l1");
    let l2 = g.lever("l2");
    let x = g.xor2(l1.bit(), l2.bit(), "x");
    let n = g.not1(x, "n");
    let a = g.and2(n, l1.bit(), "a");
    let out = g.output(&[x, n, a], "out");
    let ig = &mut g.init();
    assert!(ig.check_dependents());
    for (v1, v2) in [(false, false), (true, false), (false, true), (true, true)] {
        ig.update_lever(l1, v1);
        ig.update_lever(l2, v2);
        ig.run_until_stable(10).unwrap();
        let xv = v1 != v2;
        let nv = !xv;
        let av = nv && v1;
        let expected = (xv as u8) | ((nv as u8) << 1) | ((av as u8) << 2);
        assert_eq!(out.u8(ig), expected);
    }
}

#[test]
fn replacing_one_copy_of_a_repeated_dependency_unlists_the_dependent() {
    let mut g = GateGraphBuilder::new();
    let l = g.lever("l");
    let and = g.and2(l.bit(), l.bit(), "and");
    g.d1(and, on());
    g.output1(and, "and");
    let ig = g.init_unoptimized();
    assert!(!ig.check_dependents());
}

#[test]
fn test_swap_dependency() {
    let mut g = BuildGate::new(GateType::Or, vec![3, 2, 3]);
    g.swap_dependency(3, 1);

    let deps = g.dependencies_list();
    assert_eq!(deps[0], 1);
    assert_eq!(deps[1], 2);
    assert_eq!(deps[2], 1);
}

#[test]
fn update_levers_leaves_other_levers_alone() {
    let mut g = GateGraphBuilder::new();
    let l1 = g.lever("l1");
    let l2 = g.lever("l2");
    let l3 = g.lever("l3");
    let o1 = g.output1(l1.bit(), "o1");
    let o2 = g.output1(l2.bit(), "o2");
    let o3 = g.output1(l3.bit(), "o3");
    let ig = &mut g.init();
    ig.update_lever(l2, true);
    ig.update_levers(&[l1, l3], &[true]);
    assert_eq!(o1.b0(ig), true);
    assert_eq!(o2.b0(ig), true);
    assert_eq!(o3.b0(ig), false);
}
