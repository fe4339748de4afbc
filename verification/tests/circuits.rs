use logicsim::circuits::adder::adder;
use logicsim::circuits::aluish::{alu, aluish};
use logicsim::circuits::bus::Bus;
use logicsim::circuits::bus_multiplexer::bus_multiplexer;
use logicsim::circuits::constant::{constant, ones, zeros};
use logicsim::circuits::control_signals_set::ControlSignalSet;
use logicsim::circuits::counter::counter;
use logicsim::circuits::d_flip_flop::d_flip_flop;
use logicsim::circuits::decoder::decoder;
use logicsim::circuits::io_buffer::{address_width, IOBuffer};
use logicsim::circuits::jk_flip_flop::jk_flip_flop;
use logicsim::circuits::multiplexer::multiplexer;
use logicsim::circuits::output_register::output_register;
use logicsim::circuits::ram::ram;
use logicsim::circuits::register::register;
use logicsim::circuits::rom::rom;
use logicsim::circuits::sr_latch::sr_latch;
use logicsim::circuits::wire::Wire;
use logicsim::circuits::word_input::WordInput;
use logicsim::graph::gate::{off, on, GateType};
use logicsim::graph::graph_builder::GateGraphBuilder;

#[test]
fn test_constant() {
    let constants = [0, 0b1u8, 0b10010010];
    let results = [
        [false, false, false, false, false, false, false, false],
        [true, false, false, false, false, false, false, false],
        [false, true, false, false, true, false, false, true],
    ];
    for (c, result) in constants.iter().zip(results.iter()) {
        let mut graph = GateGraphBuilder::new();
        let g = &mut graph;
        let output: Vec<_> = constant(*c);
        let out = g.output(&output, "out");

        let g = &mut graph.init();

        for (i, result) in result.iter().enumerate() {
            assert_eq!(out.bx(g, i), *result)
        }
    }
}

#[test]
fn constant_reads_back() {
    let mut g = GateGraphBuilder::new();
    let c = constant(54u8);
    let output = g.output(&c, "const");
    let gi = &mut g.init();
    assert_eq!(output.u8(gi), 54);
}

#[test]
fn zeros_and_ones() {
    assert_eq!(zeros(3), vec![off(), off(), off()]);
    assert_eq!(ones(2), vec![on(), on()]);
    assert!(zeros(0).is_empty());
}

#[test]
fn adder_adds() {
    let mut g = GateGraphBuilder::new();
    let input1 = constant(3u8);
    let input2 = constant(5u8);
    let result = adder(&mut g, on(), &input1, &input2, "adder");
    let output = g.output(&result, "result");
    let ig = &g.init();
    assert_eq!(output.u8(ig), 9);
}

#[test]
fn aluish_subtracts() {
    let mut g = GateGraphBuilder::new();
    let input1 = constant(3i8);
    let input2 = constant(5i8);
    let result = aluish(&mut g, on(), on(), on(), &input1, &input2, "alu");
    let output = g.output(&result, "result");
    let ig = &g.init();
    assert_eq!(output.i8(ig), -2);
}

#[test]
fn alu_adds_and_gates_output() {
    let mut g = GateGraphBuilder::new();
    let input1 = constant(7u8);
    let input2 = constant(9u8);
    let write = g.lever("write");
    let result = alu(&mut g, off(), write.bit(), off(), &input1, &input2, "alu");
    let output = g.output(&result, "result");
    let ig = &mut g.init();
    ig.run_until_stable(10).unwrap();
    assert_eq!(output.u8(ig), 0);
    ig.set_lever_stable(write).unwrap();
    assert_eq!(output.u8(ig), 16);
}

#[test]
fn bus_connects() {
    let mut g = GateGraphBuilder::new();
    let input1 = constant(0x01u8);
    let input2 = constant(0x10u8);
    let bus = Bus::new(&mut g, 8, "bus");
    bus.connect(&mut g, &input1);
    bus.connect(&mut g, &input2);
    assert_eq!(bus.len(), 8);
    assert!(!bus.is_empty());
    let output = g.output(bus.bits(), "result");
    let ig = &g.init();
    assert_eq!(output.u8(ig), 0x11);
}

#[test]
fn bus_connect_some_and_merge() {
    let mut g = GateGraphBuilder::new();
    let bus = Bus::new(&mut g, 4, "bus");
    bus.connect_some(&mut g, &[on()]);
    let other = Bus::new(&mut g, 4, "other");
    other.connect(&mut g, &constant(0b0100u8)[0..4]);
    let merged = bus.merge(&mut g, other);
    assert_eq!(merged.bits(), bus.bits());
    assert_eq!(bus.bx(1), bus.bits()[1]);
    assert_eq!(bus.b0(), bus.bits()[0]);
    let output = g.output(merged.bits(), "merged");
    let ig = &g.init();
    assert_eq!(output.u8(ig), 0b0101);
}

#[test]
fn bus_split_wires() {
    let mut g = GateGraphBuilder::new();
    let bus = Bus::new(&mut g, 2, "bus");
    bus.connect(&mut g, &[on(), off()]);
    let mut wires = vec![Wire::new(&mut g, "a"), Wire::new(&mut g, "b")];
    bus.split_wires(&mut g, &mut wires);
    let output = g.output(&[wires[0].bit(), wires[1].bit()], "wires");
    let ig = &g.init();
    assert_eq!(output.u8(ig), 0b01);
    assert_eq!(bus.into_bits().len(), 2);
}

#[test]
fn wire_with_counter_resets() {
    let mut g = GateGraphBuilder::new();
    let mut reset = Wire::new(&mut g, "reset");
    let reset_lever = reset.make_lever(&mut g);
    assert_eq!(reset.lever().map(|l| l.bit()), Some(reset_lever.bit()));
    let clock = g.lever("clock");
    let counter_output = counter(&mut g, clock.bit(), on(), off(), on(), reset.bit(), &zeros(4), "counter");
    reset.connect(&mut g, counter_output[2]);
    let output = g.output(&counter_output, "result");
    let ig = &mut g.init();
    ig.pulse_lever_stable(reset_lever).unwrap();
    assert_eq!(output.u8(ig), 0);
    ig.pulse_lever_stable(clock).unwrap();
    assert_eq!(output.u8(ig), 1);
    ig.pulse_lever_stable(clock).unwrap();
    assert_eq!(output.u8(ig), 2);
    ig.pulse_lever_stable(clock).unwrap();
    assert_eq!(output.u8(ig), 3);
    ig.pulse_lever_stable(clock).unwrap();
    assert_eq!(output.u8(ig), 0);
}

#[test]
fn bus_multiplexer_selects() {
    let mut g = GateGraphBuilder::new();
    let input1 = constant(3u8);
    let input2 = constant(5u8);
    let address = g.lever("address");
    let result = bus_multiplexer(&mut g, &[address.bit()], &[&input1, &input2], "busmux");
    let output = g.output(&result, "result");
    let ig = &mut g.init();
    ig.run_until_stable(2).unwrap();
    assert_eq!(output.u8(ig), 3);
    ig.flip_lever_stable(address).unwrap();
    assert_eq!(output.u8(ig), 5);
    ig.flip_lever_stable(address).unwrap();
    assert_eq!(output.u8(ig), 3);
}

#[test]
fn multiplexer_selects() {
    let mut g = GateGraphBuilder::new();
    let address = WordInput::new(&mut g, 3, "address");
    let result = multiplexer(&mut g, &address.bits(), &[on(), off(), off(), on()], "mux");
    let output = g.output1(result, "result");
    let ig = &mut g.init();
    let _ = ig.run_until_stable(2);
    assert_eq!(output.b0(ig), true);
    address.set_to(ig, 1);
    let _ = ig.run_until_stable(2);
    assert_eq!(output.b0(ig), false);
    address.set_to(ig, 2);
    let _ = ig.run_until_stable(2);
    assert_eq!(output.b0(ig), false);
    address.set_to(ig, 3);
    let _ = ig.run_until_stable(2);
    assert_eq!(output.b0(ig), true);
}

#[test]
fn test_counter_counts() {
    let mut graph = GateGraphBuilder::new();
    let g = &mut graph;

    let val = 34u8;
    let input = &constant(val)[0..2];
    let clock = g.lever("clock");
    let enable = g.lever("enable");
    let read = g.lever("read");
    let write = g.lever("write");
    let reset = g.lever("reset");

    let c = counter(g, clock.bit(), enable.bit(), write.bit(), read.bit(), reset.bit(), input, "counter");
    let output = g.output(&c, "counter");

    let g = &mut graph.init();
    g.run_until_stable(100).unwrap();

    g.pulse_lever_stable(reset).unwrap();

    assert_eq!(output.bx(g, 0), false);
    assert_eq!(output.bx(g, 1), false);

    g.set_lever(read);
    assert_eq!(output.bx(g, 0), false);
    assert_eq!(output.bx(g, 1), false);

    g.pulse_lever_stable(clock).unwrap();
    assert_eq!(output.bx(g, 0), false);
    assert_eq!(output.bx(g, 1), false);

    g.set_lever_stable(enable).unwrap();
    g.pulse_lever_stable(clock).unwrap();
    assert_eq!(output.bx(g, 0), true);
    assert_eq!(output.bx(g, 1), false);

    g.pulse_lever_stable(clock).unwrap();
    assert_eq!(output.bx(g, 0), false);
    assert_eq!(output.bx(g, 1), true);

    g.pulse_lever_stable(clock).unwrap();
    assert_eq!(output.bx(g, 0), true);
    assert_eq!(output.bx(g, 1), true);
}

#[test]
fn test_counter_write() {
    let mut graph = GateGraphBuilder::new();
    let g = &mut graph;

    let val = 34u8;
    let input = &constant(val);
    let clock = g.lever("clock");
    let read = g.lever("read");
    let write = g.lever("write");
    let reset = g.lever("reset");

    let c = counter(g, clock.bit(), on(), write.bit(), read.bit(), reset.bit(), input, "counter");
    let output = g.output(&c, "counter");

    let g = &mut graph.init();
    g.run_until_stable(100).unwrap();

    g.set_lever_stable(read).unwrap();

    assert_eq!(output.u8(g), 255);

    g.set_lever(write);
    g.pulse_lever_stable(clock).unwrap();
    g.reset_lever(write);
    assert_eq!(g.run_until_stable(1000), Ok(2));
    assert_eq!(output.u8(g), val);

    g.pulse_lever_stable(clock).unwrap();
    assert_eq!(output.u8(g), val + 1);
}

#[test]
fn test_counter_reset() {
    let mut graph = GateGraphBuilder::new();
    let g = &mut graph;

    let val = 34u8;
    let input = &constant(val);
    let clock = g.lever("clock");
    let read = g.lever("read");
    let write = g.lever("write");
    let reset = g.lever("reset");

    let c = counter(g, clock.bit(), on(), write.bit(), read.bit(), reset.bit(), input, "counter");
    let output = g.output(&c, "counter");

    let g = &mut graph.init();
    g.run_until_stable(100).unwrap();

    g.set_lever_stable(read).unwrap();

    assert_eq!(output.u8(g), 255);

    for i in 0..10 {
        g.pulse_lever_stable(clock).unwrap();
        assert_eq!(output.u8(g), i);
    }

    g.pulse_lever_stable(reset).unwrap();

    assert_eq!(g.run_until_stable(1000), Ok(0));
    assert_eq!(output.u8(g), 0);
}

#[test]
fn d_flip_flop_test_flip_flop() {
    let mut graph = GateGraphBuilder::new();
    let g = &mut graph;

    let d = g.lever("d");
    let read = g.lever("read");
    let reset = g.lever("reset");
    let write = g.lever("write");
    let clock = g.lever("clock");

    let output = d_flip_flop(g, d.bit(), clock.bit(), reset.bit(), write.bit(), read.bit(), "flippity floop");
    let out = g.output1(output, "out");
    let g = &mut graph.init();

    g.run_until_stable(10).unwrap();
    g.pulse_lever_stable(reset).unwrap();
    assert_eq!(out.b0(g), false);

    g.set_lever(d);
    g.set_lever(write);
    assert_eq!(out.b0(g), false);

    g.pulse_lever_stable(clock).unwrap();
    assert_eq!(out.b0(g), false);

    g.set_lever_stable(read).unwrap();
    assert_eq!(out.b0(g), true);

    g.reset_lever(d);
    g.reset_lever(read);
    g.reset_lever(write);
    assert_eq!(out.b0(g), false);

    g.set_lever_stable(read).unwrap();
    assert_eq!(out.b0(g), true);

    g.set_lever(write);
    g.set_lever(clock);

    g.reset_lever(write);
    g.reset_lever(clock);

    g.run_until_stable(10).unwrap();
    assert_eq!(out.b0(g), false);
}

#[test]
fn test_decoder() {
    let mut graph = GateGraphBuilder::new();
    let g = &mut graph;
    let c = WordInput::new(g, 2, "input");
    let out = decoder(g, &c.bits(), "decoder");
    let out = g.output(&out, "out");

    let g = &mut graph.init();
    g.run_until_stable(10).unwrap();

    assert_eq!(out.u8(g), 1);

    c.set_bit(g, 0);
    assert_eq!(g.run_until_stable(1000), Ok(1));
    assert_eq!(out.u8(g), 2);

    c.set_bit(g, 1);
    assert_eq!(g.run_until_stable(1000), Ok(1));
    assert_eq!(out.u8(g), 8);
}

#[test]
fn test_alone() {
    let mut graph = GateGraphBuilder::new();
    let g = &mut graph;

    let buffer = IOBuffer::new(g, 8, 2, "buffer");

    let g = &mut graph.init();
    g.run_until_stable(10).unwrap();
    buffer.reset(g).unwrap();

    assert_eq!(buffer.read_u8(g, 0), Ok(0));

    buffer.write(g, 1, 3).unwrap();

    assert_eq!(buffer.read_u8(g, 0), Ok(0));

    assert_eq!(buffer.read_u8(g, 1), Ok(3));

    buffer.reset(g).unwrap();

    assert_eq!(buffer.read_u8(g, 1), Ok(0));
}

#[test]
fn test_with_circuit() {
    let mut graph = GateGraphBuilder::new();
    let g = &mut graph;

    let width = 8;
    let len = 2;
    let address_bits = 1;

    let buffer = IOBuffer::new(g, width, len, "buffer");

    let clock = g.lever("clock");
    let read = g.lever("read");
    let write = g.lever("write");
    let reset = g.lever("reset");

    let input = WordInput::new(g, 8, "input");
    let address_input = WordInput::new(g, address_bits, "address");
    let io_bus = Bus::new(g, width, "bus");
    io_bus.connect(g, &input.bits());

    let io_bus = buffer.connect(g, clock.bit(), read.bit(), write.bit(), reset.bit(), &address_input.bits(), io_bus);

    let output = g.output(io_bus.bits(), "output");

    let g = &mut graph.init();
    g.run_until_stable(10).unwrap();

    // Reset by circuit.
    g.pulse_lever_stable(reset).unwrap();

    assert_eq!(buffer.read_u8(g, 0), Ok(0));

    // Write in buffer, read by circuit.
    buffer.write(g, 1, 3).unwrap();
    g.run_until_stable(10).unwrap();

    println!("here");
    g.set_lever_stable(read).unwrap();
    assert_eq!(output.u8(g), 0);

    address_input.set_to(g, 1);
    assert_eq!(g.run_until_stable(1000), Ok(1));
    assert_eq!(output.u8(g), 3);

    // Write in circuit, read by buffer.

    g.reset_lever_stable(read).unwrap();
    g.set_lever_stable(write).unwrap();
    input.set_to(g, 5);
    g.pulse_lever_stable(clock).unwrap();
    g.reset_lever_stable(write).unwrap();

    assert_eq!(buffer.read_u8(g, 1), Ok(5));
}

#[test]
fn io_buffer_address_width() {
    assert_eq!(address_width(0), 0);
    assert_eq!(address_width(1), 0);
    assert_eq!(address_width(2), 1);
    assert_eq!(address_width(3), 1);
    assert_eq!(address_width(16), 4);
    assert_eq!(address_width(17), 4);
}

fn jk_graph() -> (GateGraphBuilder, logicsim::graph::handles::LeverHandle, logicsim::graph::handles::LeverHandle, logicsim::graph::handles::LeverHandle, logicsim::graph::handles::CircuitOutputHandle) {
    let mut g = GateGraphBuilder::new();
    let set = g.lever("set");
    let reset = g.lever("reset");
    let clock = g.lever("clock");
    let q = jk_flip_flop(&mut g, reset.bit(), set.bit(), clock.bit());
    let out = g.output1(q, "q");
    (g, set, reset, clock, out)
}

fn jk_pulse(g: &mut logicsim::graph::initialized_graph::InitializedGateGraph, clock: logicsim::graph::handles::LeverHandle) {
    g.set_lever(clock);
    g.run_until_stable(10).unwrap();
    g.reset_lever(clock);
    g.run_until_stable(10).unwrap();
}

#[test]
fn jk_flip_flop_sets_and_resets() {
    let (graph, set, reset, clock, q) = jk_graph();
    let g = &mut graph.init();
    g.run_until_stable(10).unwrap();

    g.set_lever(reset);
    jk_pulse(g, clock);
    assert_eq!(q.b0(g), false);
    g.reset_lever(reset);

    g.set_lever(set);
    assert_eq!(q.b0(g), false);
    jk_pulse(g, clock);
    assert_eq!(q.b0(g), true);
    g.reset_lever(set);
    jk_pulse(g, clock);
    assert_eq!(q.b0(g), true);

    g.set_lever(reset);
    jk_pulse(g, clock);
    assert_eq!(q.b0(g), false);
}

fn sr_latch_scenario() {
    let mut graph = GateGraphBuilder::new();
    let g = &mut graph;

    let s = g.lever("s");
    let r = g.lever("r");

    let output = sr_latch(g, s.bit(), r.bit(), "latchy latch");

    let out = g.output1(output, "out");
    let g = &mut graph.init();
    g.run_until_stable(10).unwrap();

    assert_eq!(out.b0(g), false);

    for i in 0..10 {
        if i % 2 == 0 {
            g.pulse_lever_stable(s).unwrap();
            assert_eq!(out.b0(g), true);
        } else {
            g.pulse_lever_stable(r).unwrap();
            assert_eq!(out.b0(g), false);
        }
    }
}

#[test]
fn output_register_test_sr_latch() {
    sr_latch_scenario();
}

#[test]
fn sr_latch_test_sr_latch() {
    sr_latch_scenario();
}

#[test]
fn output_register_flags_writes() {
    let mut g = GateGraphBuilder::new();
    let clock = g.lever("clock");
    let write = g.lever("write");
    let ack = g.lever("ack");
    let (updated, out) = output_register(&mut g, &constant(6u8), clock.bit(), write.bit(), on(), off(), ack.bit(), "out");
    let updated = g.output1(updated, "updated");
    let out = g.output(&out, "out");
    let ig = &mut g.init();
    ig.run_until_stable(10).unwrap();
    ig.pulse_lever_stable(ack).unwrap();
    assert_eq!(updated.b0(ig), false);
    ig.set_lever_stable(write).unwrap();
    ig.pulse_lever_stable(clock).unwrap();
    ig.reset_lever_stable(write).unwrap();
    assert_eq!(updated.b0(ig), true);
    assert_eq!(out.u8(ig), 6);
    ig.pulse_lever_stable(ack).unwrap();
    assert_eq!(updated.b0(ig), false);
}

#[test]
fn test_ram_reset() {
    let mut graph = GateGraphBuilder::new();
    let g = &mut graph;

    let read = g.lever("read");
    let write = g.lever("write");
    let clock = g.lever("clock");
    let reset = g.lever("reset");
    let input = WordInput::new(g, 8, "input");
    let address = WordInput::new(g, 4, "input");

    let output = ram(g, read.bit(), write.bit(), clock.bit(), reset.bit(), &address.bits(), &input.bits(), "ram");
    let out = g.output(&output, "out");

    let g = &mut graph.init();
    g.run_until_stable(100).unwrap();

    assert_eq!(out.u8(g), 0);

    g.set_lever(read);
    assert_eq!(out.u8(g), 0);

    g.pulse_lever_stable(reset).unwrap();
    for a in 0..(1 << address.len()) - 1 {
        address.set_to(g, a);
        assert_eq!(out.u8(g), 0);
    }
}

#[test]
fn test_ram_write_read() {
    let mut graph = GateGraphBuilder::new();
    let g = &mut graph;

    let read = g.lever("read");
    let write = g.lever("write");
    let clock = g.lever("clock");
    let reset = g.lever("reset");
    let input = WordInput::new(g, 4, "input");
    let address = WordInput::new(g, 4, "input");

    let output = ram(g, read.bit(), write.bit(), clock.bit(), reset.bit(), &address.bits(), &input.bits(), "ram");
    let out = g.output(&output, "out");

    let g = &mut graph.init();
    g.run_until_stable(100).unwrap();

    g.pulse_lever_stable(reset).unwrap();

    assert_eq!(out.u8(g), 0);

    g.set_lever(write);
    for a in 0..(1 << address.len()) - 1 {
        address.set_to(g, a);
        input.set_to(g, a ^ a);
        g.set_lever(clock);
        g.reset_lever(clock);
        assert_eq!(out.u8(g), 0);
    }
    g.reset_lever(write);
    g.set_lever(read);

    for a in 0..(1 << address.len()) - 1 {
        address.set_to(g, a);
        assert_eq!(out.u8(g), (a ^ a) as u8);
    }
}

#[test]
fn test_register() {
    let mut graph = GateGraphBuilder::new();
    let g = &mut graph;
    let value = 3u8;

    let input = WordInput::new(g, 8, "input");

    let read = g.lever("read");
    let write = g.lever("write");
    let reset = g.lever("reset");
    let clock = g.lever("clock");

    let r = register(g, clock.bit(), write.bit(), read.bit(), reset.bit(), &input.bits(), "reg");

    let out = g.output(&r, "out");

    let g = &mut graph.init();

    input.set_to(g, value);

    g.run_until_stable(10).unwrap();
    assert_eq!(out.u8(g), 0);

    g.set_lever(write);

    assert_eq!(out.u8(g), 0);

    g.set_lever_stable(clock).unwrap();
    assert_eq!(out.u8(g), 0);

    g.reset_lever_stable(clock).unwrap();
    g.set_lever_stable(read).unwrap();
    assert_eq!(out.u8(g), value);

    g.reset_lever_stable(read).unwrap();
    assert_eq!(out.u8(g), 0);

    g.set_lever_stable(read).unwrap();
    assert_eq!(out.u8(g), value);

    input.set_to(g, value ^ value);
    assert_eq!(g.run_until_stable(1000), Ok(1));
    assert_eq!(out.u8(g), value);

    g.set_lever_stable(write).unwrap();
    assert_eq!(out.u8(g), value);

    g.set_lever_stable(clock).unwrap();
    assert_eq!(out.u8(g), value ^ value);

    g.reset_lever(clock);
    assert_eq!(out.u8(g), value ^ value);

    g.set_lever_stable(reset).unwrap();
    assert_eq!(out.u8(g), 0);
}

#[test]
fn rom_reads_words() {
    let mut g = GateGraphBuilder::new();
    let address = WordInput::new(&mut g, 3, "address");
    let out = rom(&mut g, on(), &address.bits(), &[3u8, 9, 1], "rom");
    let output = g.output(&out, "result");
    let ig = &mut g.init();
    let _ = ig.run_until_stable(2);
    assert_eq!(output.u8(ig), 3);
    address.set_to(ig, 1);
    let _ = ig.run_until_stable(2);
    assert_eq!(output.u8(ig), 9);
    address.set_to(ig, 2);
    let _ = ig.run_until_stable(2);
    assert_eq!(output.u8(ig), 1);
    address.set_to(ig, 3);
    let _ = ig.run_until_stable(2);
    assert_eq!(output.u8(ig), 0);
}

#[test]
fn word_input_bits() {
    let mut g = GateGraphBuilder::new();
    let input = WordInput::new(&mut g, 3, "input");
    assert_eq!(input.len(), 3);
    assert!(!input.is_empty());
    let output = g.output(&input.bits(), "result");
    let ig = &mut g.init();
    assert_eq!(output.u8(ig), 0);
    input.set_to(ig, 2);
    assert_eq!(output.u8(ig), 2);
    input.set_bit(ig, 0);
    assert_eq!(output.u8(ig), 3);
    input.flip_bit(ig, 1);
    assert_eq!(output.u8(ig), 1);
    assert_eq!(input.update_bit(ig, 3, true), None);
    input.set(ig);
    assert_eq!(output.u8(ig), 7);
    input.reset_bit(ig, 2);
    assert_eq!(output.u8(ig), 3);
    input.reset(ig);
    assert_eq!(output.u8(ig), 0);
}

#[test]
fn test_set() {
    let mut g = GateGraphBuilder::new();
    let set = ControlSignalSet::new(&mut g, "TestSignals", &["s1", "s2", "s3"]);
    assert_eq!(set.len(), 3);
    assert_eq!(set.signal_index("s1"), Some(0));
    assert_eq!(set.signal_index("s2"), Some(1));
    assert_eq!(set.signal_index("s3"), Some(2));
}

#[test]
fn test_signals_to_bits() {
    let mut g = GateGraphBuilder::new();
    let set = ControlSignalSet::new(&mut g, "TestSignals", &["s1", "s2", "s3"]);
    assert_eq!(set.signals_to_bits(&[]), Some(0));
    assert_eq!(set.signals_to_bits(&["s1"]), Some(1));
    assert_eq!(set.signals_to_bits(&["s3"]), Some(0b100));

    assert_eq!(set.signals_to_bits(&["s2", "s3"]), Some(0b110));
    assert_eq!(set.signals_to_bits(&["s3", "s2"]), Some(0b110));
    assert_eq!(set.signals_to_bits(&["s1", "s2", "s3"]), Some(0b111));
}

#[test]
fn control_signals_unknown_and_connect() {
    let mut g = GateGraphBuilder::new();
    let mut set = ControlSignalSet::new(&mut g, "Signals", &["a", "b"]);
    assert_eq!(set.signal_index("c"), None);
    assert_eq!(set.signals_to_bits(&["a", "c"]), None);
    set.connect(&mut g, &[on(), off()]);
    let a = set.signal("a").unwrap().bit();
    let b = set.signal("b").unwrap().bit();
    let out = g.output(&[a, b], "signals");
    let ig = &g.init();
    assert_eq!(out.u8(ig), 0b01);
}

#[test]
fn d_flip_flop_wiring_is_as_stated() {
    let mut g = GateGraphBuilder::new();
    let d = g.lever("d");
    let clock = g.lever("clock");
    let reset = g.lever("reset");
    let write = g.lever("write");
    let read = g.lever("read");
    let n = g.total_len();
    let out = d_flip_flop(&mut g, d.bit(), clock.bit(), reset.bit(), write.bit(), read.bit(), "dff");
    assert_eq!(out.idx, n + 7);
    assert_eq!(g.total_len(), n + 8);
    let expected = [
        (GateType::And, vec![clock.bit().idx, write.bit().idx]),
        (GateType::Not, vec![d.bit().idx]),
        (GateType::And, vec![d.bit().idx, n]),
        (GateType::And, vec![n + 1, n]),
        (GateType::Or, vec![n + 3, reset.bit().idx]),
        (GateType::Nor, vec![n + 4, n + 6]),
        (GateType::Nor, vec![n + 2, n + 5]),
        (GateType::And, vec![n + 5, read.bit().idx]),
    ];
    for (k, (ty, deps)) in expected.iter().enumerate() {
        assert_eq!(g.gate_type(n + k), Some(*ty));
        assert_eq!(&g.dependencies_of(n + k), deps);
    }
}

#[test]
fn rom_adds_no_gates_for_zero_words() {
    let mut g = GateGraphBuilder::new();
    let read = g.lever("read");
    let address = WordInput::new(&mut g, 2, "address");
    let n = g.total_len();
    let out = rom(&mut g, read.bit(), &address.bits(), &[0u8, 5u8, 0u8, 7u8], "rom");
    // Decoder: 2 + 4 gates, 8 ors, 8 ands for each of the 2 words that are not 0, 8 outputs.
    assert_eq!(g.total_len(), n + 2 + 4 + 8 + 16 + 8);
    assert_eq!(out[0].idx, n + 2 + 4 + 8 + 16);
    // Bit 0 reads the ands of bit 0 of words 1 and 3.
    assert_eq!(g.dependencies_of(n + 6), vec![n + 14, n + 22]);
    assert_eq!(g.dependencies_of(n + 14), vec![n + 3, 1]);
    assert_eq!(g.dependencies_of(n + 22), vec![n + 5, 1]);
    assert_eq!(g.dependencies_of(n + 15), vec![n + 3, 0]);
}

#[test]
fn ram_and_counter_gate_counts() {
    let mut g = GateGraphBuilder::new();
    let read = g.lever("read");
    let write = g.lever("write");
    let clock = g.lever("clock");
    let reset = g.lever("reset");
    let input = WordInput::new(&mut g, 4, "input");
    let address = WordInput::new(&mut g, 2, "address");
    let n = g.total_len();
    let out = ram(&mut g, read.bit(), write.bit(), clock.bit(), reset.bit(), &address.bits(), &input.bits(), "ram");
    // 4 outputs, a decoder of 2 + 4 gates, then 4 cells of 2 + 8 * 4 gates.
    assert_eq!(g.total_len(), n + 4 + 6 + 4 * 34);
    assert_eq!(out[1].idx, n + 1);
    let cells = n + 10;
    assert_eq!(g.dependencies_of(n + 1), vec![cells + 9 + 8, cells + 34 + 9 + 8, cells + 68 + 9 + 8, cells + 102 + 9 + 8]);

    let m = g.total_len();
    let c = counter(&mut g, clock.bit(), on(), write.bit(), read.bit(), reset.bit(), &input.bits(), "counter");
    assert_eq!(g.total_len(), m + 28 * 4 + 7);
    assert_eq!(c[0].idx, m + 28 * 4 + 7 - (3 * 4 + 3));
}

#[test]
fn bus_multiplexer_wiring_is_as_stated() {
    let mut g = GateGraphBuilder::new();
    let s = g.lever("s");
    let a = WordInput::new(&mut g, 3, "a");
    let b = WordInput::new(&mut g, 2, "b");
    let n = g.total_len();
    let a_bits = a.bits();
    let b_bits = b.bits();
    let out = bus_multiplexer(&mut g, &[s.bit()], &[&a_bits, &b_bits], "mux");
    // 3 outputs, a decoder of 1 + 2 gates, then 3 + 2 ands.
    assert_eq!(g.total_len(), n + 3 + 3 + 5);
    assert_eq!(out.len(), 3);
    let ands = n + 6;
    assert_eq!(g.dependencies_of(n), vec![ands, ands + 3]);
    assert_eq!(g.dependencies_of(n + 2), vec![ands + 2]);
    assert_eq!(g.dependencies_of(ands + 3), vec![b_bits[0].idx, n + 5]);
}

#[test]
fn io_buffer_gate_count() {
    let mut g = GateGraphBuilder::new();
    let n = g.total_len();
    let _buffer = IOBuffer::new(&mut g, 8, 16, "buffer");
    // Levers, buses, wires with their levers, then a RAM of 16 words of 8 bits.
    let ram_gates = 8 + 4 + 16 + 16 * (2 + 8 * 8);
    assert_eq!(g.total_len(), n + 2 * 8 + 2 * 4 + 8 + ram_gates);
    let ig = g.init_unoptimized();
    assert_eq!(ig.num_levers(), 8 + 4 + 4);
}

