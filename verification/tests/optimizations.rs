use logicsim::graph::gate::{off, on, GateType};
use logicsim::graph::graph_builder::GateGraphBuilder;
use logicsim::graph::optimizations::const_propagation::const_propagation_pass;
use logicsim::graph::optimizations::dead_code_elimination::dead_code_elimination_pass;
use logicsim::graph::optimizations::dependency_deduplication::dependency_deduplication_pass;
use logicsim::graph::optimizations::equal_gate_merging::equal_gate_merging_pass;
use logicsim::graph::optimizations::global_value_numbering::{global_value_numbering_pass, type_number};
use logicsim::graph::optimizations::not_deduplication::not_deduplication_pass;
use logicsim::graph::optimizations::single_dependency_collapsing::single_dependency_collapsing_pass;

#[test]
fn dependency_deduplication_keeps_one_or_two() {
    let mut g = GateGraphBuilder::new();
    let a = g.lever("a");
    let b = g.lever("b");
    let and = g.andx(&[b.bit(), a.bit(), a.bit(), b.bit(), a.bit()], "and");
    let xor = g.xorx(&[b.bit(), a.bit(), a.bit(), b.bit(), b.bit()], "xor");
    g.output(&[and, xor], "out");
    dependency_deduplication_pass(&mut g);
    assert_eq!(g.dependencies_of(and.idx), vec![a.bit().idx, b.bit().idx]);
    assert_eq!(g.dependencies_of(xor.idx), vec![a.bit().idx, b.bit().idx, a.bit().idx]);
}

#[test]
fn dead_code_elimination_removes_unread_gates() {
    let mut g = GateGraphBuilder::new();
    let a = g.lever("a");
    let n = g.not1(a.bit(), "n");
    let dead = g.and2(n, a.bit(), "dead");
    let kept = g.or2(n, off(), "kept");
    g.output1(kept, "out");
    assert_eq!(g.len(), 6);
    dead_code_elimination_pass(&mut g);
    assert_eq!(g.len(), 5);
    assert_eq!(g.gate_type(dead.idx), None);
    assert_eq!(g.gate_type(kept.idx), Some(GateType::Or));
    assert_eq!(g.dependents_of(n.idx), vec![kept.idx]);
    assert_eq!(g.total_len(), 6);
}

#[test]
fn const_propagation_replaces_decided_gates() {
    let mut g = GateGraphBuilder::new();
    let a = g.lever("a");
    let and = g.and2(a.bit(), off(), "and");
    let or = g.or2(and, a.bit(), "or");
    g.output1(or, "out");
    const_propagation_pass(&mut g);
    assert_eq!(g.gate_type(and.idx), None);
    assert_eq!(g.dependencies_of(or.idx), vec![off().idx, a.bit().idx]);
    assert_eq!(g.dependents_of(off().idx), vec![or.idx]);
}

#[test]
fn const_propagation_turns_negated_gates_into_nots() {
    let mut g = GateGraphBuilder::new();
    let a = g.lever("a");
    let nor = g.nor2(off(), a.bit(), "nor");
    let or = g.or2(nor, a.bit(), "or");
    g.output1(or, "out");
    const_propagation_pass(&mut g);
    assert_eq!(g.gate_type(nor.idx), Some(GateType::Not));
    assert_eq!(g.dependencies_of(nor.idx), vec![a.bit().idx]);
}

#[test]
fn not_deduplication_shares_one_not() {
    let mut g = GateGraphBuilder::new();
    let a = g.lever("a");
    let n1 = g.not1(a.bit(), "n1");
    let n2 = g.not1(a.bit(), "n2");
    let or = g.or2(n1, n2, "or");
    g.output1(or, "out");
    not_deduplication_pass(&mut g);
    assert_eq!(g.len(), 5);
    let deps = g.dependencies_of(or.idx);
    assert_eq!(deps[0], deps[1]);
    assert_eq!(g.gate_type(deps[0]), Some(GateType::Not));
}

#[test]
fn single_dependency_collapsing_skips_buffers() {
    let mut g = GateGraphBuilder::new();
    let a = g.lever("a");
    let buffer = g.or1(a.bit(), "buffer");
    let and = g.and2(buffer, on(), "and");
    g.output1(and, "out");
    single_dependency_collapsing_pass(&mut g);
    assert_eq!(g.gate_type(buffer.idx), None);
    assert_eq!(g.dependencies_of(and.idx), vec![a.bit().idx, on().idx]);
}

#[test]
fn global_value_numbering_merges_equal_gates() {
    let mut g = GateGraphBuilder::new();
    let a = g.lever("a");
    let b = g.lever("b");
    let x1 = g.and2(a.bit(), b.bit(), "x1");
    let x2 = g.and2(a.bit(), b.bit(), "x2");
    let or = g.or2(x1, x2, "or");
    g.output1(or, "out");
    global_value_numbering_pass(&mut g);
    let deps = g.dependencies_of(or.idx);
    assert_eq!(deps[0], deps[1]);
    assert_eq!(g.len(), 6);
}

#[test]
fn equal_gate_merging_flattens_same_types() {
    let mut g = GateGraphBuilder::new();
    let a = g.lever("a");
    let b = g.lever("b");
    let c = g.lever("c");
    let inner = g.or2(a.bit(), b.bit(), "inner");
    let outer = g.or2(inner, c.bit(), "outer");
    g.output1(outer, "out");
    equal_gate_merging_pass(&mut g);
    assert_eq!(g.gate_type(inner.idx), None);
    let mut deps = g.dependencies_of(outer.idx);
    deps.sort();
    assert_eq!(deps, vec![a.bit().idx, b.bit().idx, c.bit().idx]);
}

#[test]
fn optimized_graphs_keep_observable_gates() {
    let mut g = GateGraphBuilder::new();
    let a = g.lever("a");
    let and = g.and2(a.bit(), on(), "and");
    let n = g.not1(and, "n");
    let out = g.output1(n, "n");
    let ig = &mut g.init();
    assert!(ig.len() <= 4);
    assert_eq!(ig.num_levers(), 1);
    assert_eq!(out.b0(ig), true);
    ig.set_lever_stable(a).unwrap();
    assert_eq!(out.b0(ig), false);
}

#[test]
fn gate_type_numbers() {
    assert_eq!(type_number(GateType::Off), 0);
    assert_eq!(type_number(GateType::Lever), 2);
    assert_eq!(type_number(GateType::Nor), 9);
}

#[test]
fn const_propagation_removes_nots_of_constants() {
    let mut g = GateGraphBuilder::new();
    let a = g.lever("a");
    let n = g.not1(on(), "n");
    let or = g.or2(n, a.bit(), "or");
    g.output1(or, "out");
    const_propagation_pass(&mut g);
    assert_eq!(g.gate_type(n.idx), None);
    assert_eq!(g.dependencies_of(or.idx), vec![off().idx, a.bit().idx]);
}

#[test]
fn not_deduplication_keeps_one_not_per_gate() {
    let mut g = GateGraphBuilder::new();
    let a = g.lever("a");
    let n1 = g.not1(a.bit(), "n1");
    let n2 = g.not1(a.bit(), "n2");
    let n3 = g.not1(a.bit(), "n3");
    let or = g.orx(&[n1, n2, n3], "or");
    g.output1(or, "out");
    not_deduplication_pass(&mut g);
    let kept = [n1, n2, n3].iter().filter(|n| g.gate_type(n.idx).is_some()).count();
    assert_eq!(kept, 1);
    assert_eq!(g.gate_type(n1.idx), Some(GateType::Not));
    assert_eq!(g.dependencies_of(or.idx), vec![n1.idx, n1.idx, n1.idx]);
}

#[test]
fn single_dependency_collapsing_keeps_output_gates() {
    let mut g = GateGraphBuilder::new();
    let l1 = g.lever("l1");
    let l2 = g.lever("l2");
    let o = g.and2(l1.bit(), l2.bit(), "o");
    g.output1(o, "o");
    let n = g.not1(o, "n");
    single_dependency_collapsing_pass(&mut g);
    assert_eq!(g.gate_type(o.idx), Some(GateType::And));
    assert_eq!(g.dependencies_of(o.idx), vec![l1.bit().idx, l2.bit().idx]);
    assert_eq!(g.gate_type(n.idx), Some(GateType::Nand));
    assert_eq!(g.dependencies_of(n.idx), vec![l1.bit().idx, l2.bit().idx]);
}

#[test]
fn dependency_deduplication_counts_xor_inputs() {
    let mut g = GateGraphBuilder::new();
    let a = g.lever("a");
    let b = g.lever("b");
    let c = g.lever("c");
    let xor = g.xorx(&[c.bit(), a.bit(), b.bit(), a.bit(), c.bit(), c.bit(), c.bit()], "xor");
    g.output1(xor, "out");
    dependency_deduplication_pass(&mut g);
    let mut deps = g.dependencies_of(xor.idx);
    deps.sort();
    assert_eq!(deps, vec![a.bit().idx, a.bit().idx, b.bit().idx, c.bit().idx, c.bit().idx]);
}

#[test]
fn dead_code_elimination_keeps_live_gates_and_renumbering_follows() {
    let mut g = GateGraphBuilder::new();
    let a = g.lever("a");
    let dead = g.not1(a.bit(), "dead");
    let x = g.and2(a.bit(), a.bit(), "x");
    let out = g.output1(x, "out");
    dead_code_elimination_pass(&mut g);
    assert_eq!(g.gate_type(dead.idx), None);
    assert_eq!(g.dependencies_of(x.idx), vec![a.bit().idx, a.bit().idx]);
    let ig = &mut g.init_unoptimized();
    assert_eq!(ig.len(), 4);
    assert!(!out.b0(ig));
    ig.flip_lever_stable(a).unwrap();
    assert!(out.b0(ig));
}

#[test]
fn single_dependency_collapsing_keeps_observable_dependency() {
    let mut g = GateGraphBuilder::new();
    let l1 = g.lever("l1");
    let l2 = g.lever("l2");
    let o = g.and2(l1.bit(), l2.bit(), "o");
    g.output1(o, "o");
    let n = g.not1(o, "n");
    single_dependency_collapsing_pass(&mut g);
    assert_eq!(g.gate_type(o.idx), Some(GateType::And));
    assert_eq!(g.dependencies_of(o.idx), vec![l1.bit().idx, l2.bit().idx]);
    assert_eq!(g.gate_type(n.idx), Some(GateType::Nand));
    assert_eq!(g.dependencies_of(n.idx), vec![l1.bit().idx, l2.bit().idx]);
}

#[test]
fn single_dependency_collapsing_folds_not_into_lone_dependency() {
    let mut g = GateGraphBuilder::new();
    let l1 = g.lever("l1");
    let l2 = g.lever("l2");
    let inner = g.and2(l1.bit(), l2.bit(), "inner");
    let n = g.not1(inner, "n");
    let or = g.or2(n, l1.bit(), "or");
    g.output1(or, "out");
    single_dependency_collapsing_pass(&mut g);
    assert_eq!(g.gate_type(n.idx), None);
    assert_eq!(g.gate_type(inner.idx), Some(GateType::Nand));
    assert_eq!(g.dependencies_of(or.idx), vec![inner.idx, l1.bit().idx]);
}

#[test]
fn dependency_deduplication_keeps_what_gates_compute() {
    let mut g = GateGraphBuilder::new();
    let a = g.lever("a");
    let b = g.lever("b");
    let xor = g.xorx(&[a.bit(), a.bit(), b.bit()], "xor");
    let and = g.andx(&[a.bit(), b.bit(), a.bit()], "and");
    let out = g.output(&[xor, and], "out");
    dependency_deduplication_pass(&mut g);
    assert_eq!(g.dependencies_of(xor.idx).len(), 3);
    assert_eq!(g.dependencies_of(and.idx).len(), 2);
    let ig = &mut g.init_unoptimized();
    assert_eq!(out.bx(ig, 0), false);
    assert_eq!(out.bx(ig, 1), false);
    ig.set_lever_stable(b).unwrap();
    assert_eq!(out.bx(ig, 0), true);
    assert_eq!(out.bx(ig, 1), false);
    ig.set_lever_stable(a).unwrap();
    assert_eq!(out.bx(ig, 0), true);
    assert_eq!(out.bx(ig, 1), true);
}

#[test]
fn const_propagation_drops_constants_that_decide_nothing() {
    let mut g = GateGraphBuilder::new();
    let a = g.lever("a");
    let b = g.lever("b");
    let and = g.andx(&[on(), a.bit(), b.bit()], "and");
    let xor = g.xorx(&[a.bit(), on(), b.bit()], "xor");
    let or = g.or2(and, xor, "or");
    g.output1(or, "out");
    const_propagation_pass(&mut g);
    assert_eq!(g.gate_type(and.idx), Some(GateType::And));
    assert_eq!(g.dependencies_of(and.idx), vec![a.bit().idx, b.bit().idx]);
    assert_eq!(g.gate_type(xor.idx), Some(GateType::Xnor));
    assert_eq!(g.dependencies_of(xor.idx), vec![a.bit().idx, b.bit().idx]);
}

#[test]
fn equal_gate_merging_keeps_what_outputs_read() {
    let mut g = GateGraphBuilder::new();
    let a = g.lever("a");
    let b = g.lever("b");
    let c = g.lever("c");
    let inner = g.xor2(a.bit(), b.bit(), "inner");
    let outer = g.xor2(inner, c.bit(), "outer");
    let out = g.output1(outer, "out");
    equal_gate_merging_pass(&mut g);
    assert_eq!(g.gate_type(inner.idx), None);
    assert_eq!(g.dependencies_of(outer.idx).len(), 3);
    let ig = &mut g.init_unoptimized();
    for (va, vb, vc) in [(false, false, true), (true, false, false), (true, true, false), (true, true, true)] {
        ig.update_lever(a, va);
        ig.update_lever(b, vb);
        ig.update_lever(c, vc);
        ig.run_until_stable(10).unwrap();
        assert_eq!(out.bx(ig, 0), (va != vb) != vc);
    }
}

#[test]
fn const_propagation_keeps_what_outputs_read() {
    let mut g = GateGraphBuilder::new();
    let a = g.lever("a");
    let b = g.lever("b");
    let nand = g.nand2(on(), a.bit(), "nand");
    let and = g.andx(&[on(), a.bit(), b.bit()], "and");
    let or = g.or2(nand, and, "or");
    let out = g.output1(or, "out");
    const_propagation_pass(&mut g);
    assert_eq!(g.gate_type(nand.idx), Some(GateType::Not));
    assert_eq!(g.dependencies_of(nand.idx), vec![a.bit().idx]);
    assert_eq!(g.dependencies_of(and.idx), vec![a.bit().idx, b.bit().idx]);
    let ig = &mut g.init_unoptimized();
    for (va, vb) in [(false, false), (true, false), (true, true), (false, true)] {
        ig.update_lever(a, va);
        ig.update_lever(b, vb);
        ig.run_until_stable(10).unwrap();
        assert_eq!(out.bx(ig, 0), !va || (va && vb));
    }
}

#[test]
fn single_dependency_collapsing_keeps_what_outputs_read() {
    let mut g = GateGraphBuilder::new();
    let a = g.lever("a");
    let b = g.lever("b");
    let x = g.xor2(a.bit(), b.bit(), "x");
    let n = g.norx(&[x], "n");
    let one = g.andx(&[n], "one");
    let res = g.xor2(one, b.bit(), "res");
    let out = g.output1(res, "out");
    single_dependency_collapsing_pass(&mut g);
    assert_eq!(g.gate_type(one.idx), None);
    let ig = &mut g.init_unoptimized();
    for (va, vb) in [(false, false), (true, false), (true, true), (false, true)] {
        ig.update_lever(a, va);
        ig.update_lever(b, vb);
        ig.run_until_stable(10).unwrap();
        assert_eq!(out.bx(ig, 0), (va == vb) != vb);
    }
}

#[test]
fn not_deduplication_keeps_what_outputs_read() {
    let mut g = GateGraphBuilder::new();
    let a = g.lever("a");
    let b = g.lever("b");
    let n1 = g.not1(a.bit(), "n1");
    let n2 = g.not1(a.bit(), "n2");
    let x = g.xor2(n1, b.bit(), "x");
    let y = g.and2(n2, b.bit(), "y");
    let out = g.output(&[x, y], "out");
    not_deduplication_pass(&mut g);
    assert!(g.gate_type(n1.idx).is_none() || g.gate_type(n2.idx).is_none());
    let ig = &mut g.init_unoptimized();
    for (va, vb) in [(false, false), (true, false), (true, true), (false, true)] {
        ig.update_lever(a, va);
        ig.update_lever(b, vb);
        ig.run_until_stable(10).unwrap();
        assert_eq!(out.bx(ig, 0), !va != vb);
        assert_eq!(out.bx(ig, 1), !va && vb);
    }
}

#[test]
fn global_value_numbering_keeps_what_outputs_read() {
    let mut g = GateGraphBuilder::new();
    let a = g.lever("a");
    let b = g.lever("b");
    let o1 = g.or2(a.bit(), b.bit(), "o1");
    let o2 = g.or2(a.bit(), b.bit(), "o2");
    let x = g.xor2(o1, a.bit(), "x");
    let y = g.and2(o2, b.bit(), "y");
    let out = g.output(&[x, y], "out");
    global_value_numbering_pass(&mut g);
    assert!(g.gate_type(o1.idx).is_none() || g.gate_type(o2.idx).is_none());
    let ig = &mut g.init_unoptimized();
    for (va, vb) in [(false, false), (true, false), (true, true), (false, true)] {
        ig.update_lever(a, va);
        ig.update_lever(b, vb);
        ig.run_until_stable(10).unwrap();
        assert_eq!(out.bx(ig, 0), (va || vb) != va);
        assert_eq!(out.bx(ig, 1), (va || vb) && vb);
    }
}
