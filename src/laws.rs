use vstd::prelude::*;
use crate::circuit::{keep_others, lemma_keep_others, CircuitError, CircuitView, ConnectorRef, FunctionBoxRef};
use crate::function_box::{all_inputs_high, box_output, FunctionBoxView};
use crate::gate::{gate_kind_of, GateKind};
use crate::propagation::{all_supported, lemma_run_shape, run, same_shape, step, wired_from};

verus! {

/// Wiring an output to an undriven input succeeds, and afterwards no
/// terminal can be wired to that input any more.
pub proof fn lemma_connect_then_driven(
    v: CircuitView,
    output: (FunctionBoxRef, ConnectorRef),
    input: (FunctionBoxRef, ConnectorRef),
)
    requires
        v.wf(),
        v.is_output(output),
        v.is_input(input),
        !v.is_driven(input),
    ensures
        v.connect_outcome(output, input) == Ok::<(), CircuitError>(()),
        v.with_wire(output, input).is_driven(input),
        forall|c: (FunctionBoxRef, ConnectorRef)|
            !v.with_wire(output, input).can_connect(c, input) && !v.with_wire(output, input).can_connect(
                input,
                c,
            ),
{
    let v1 = v.with_wire(output, input);
    let k = (output.0, input.0);
    let w = v1.wires[k];
    assert(w[w.len() - 1] == (output.1, input.1));
    assert(v1.feeds(output.0, input));
}

/// Connecting the same pair twice leaves exactly one wire for that pair:
/// the second attempt finds the input driven and changes nothing.
pub proof fn lemma_connect_twice(
    v: CircuitView,
    output: (FunctionBoxRef, ConnectorRef),
    input: (FunctionBoxRef, ConnectorRef),
)
    requires
        v.wf(),
        v.is_output(output),
        v.is_input(input),
        !v.is_driven(input),
    ensures
        v.with_wire(output, input).connect_outcome(output, input) == Err::<(), CircuitError>(
            CircuitError::InputAlreadyDriven,
        ),
        v.with_wire(output, input).wires[(output.0, input.0)].contains((output.1, input.1)),
        forall|q1: int, q2: int|
            0 <= q1 < v.with_wire(output, input).wires[(output.0, input.0)].len() && 0 <= q2 < v.with_wire(
                output,
                input,
            ).wires[(output.0, input.0)].len() && v.with_wire(output, input).wires[(output.0, input.0)][q1] == (
            output.1,
            input.1,
            ) && v.with_wire(output, input).wires[(output.0, input.0)][q2] == (output.1, input.1) ==> q1 == q2,
{
    let v1 = v.with_wire(output, input);
    let k = (output.0, input.0);
    let w = v1.wires[k];
    let last = w.len() - 1;
    assert(w[last] == (output.1, input.1));
    assert(v1.feeds(output.0, input));
    assert forall|q1: int, q2: int|
        0 <= q1 < w.len() && 0 <= q2 < w.len() && w[q1] == (output.1, input.1) && w[q2] == (output.1, input.1)
            implies q1 == q2 by {
        if q1 != last {
            assert(v.wires.contains_key(k) && v.wires[k][q1] == w[q1]);
            assert(v.feeds(output.0, input));
        }
        if q2 != last {
            assert(v.wires.contains_key(k) && v.wires[k][q2] == w[q2]);
            assert(v.feeds(output.0, input));
        }
    }
}

/// Disconnecting an input removes exactly the wires into it: every other
/// wire survives, on its edge; an edge whose only wire went into it is gone;
/// and the input is left undriven and low.
pub proof fn lemma_disconnect_scope(v: CircuitView, t: (FunctionBoxRef, ConnectorRef))
    requires
        v.wf(),
        v.is_input(t),
    ensures
        v.disconnect_outcome(t) == Ok::<(), CircuitError>(()),
        !v.without_wires_to(t).is_driven(t),
        v.without_wires_to(t).boxes[t.0 as int].connectors[t.1 as int].state == false,
        forall|k: (FunctionBoxRef, FunctionBoxRef), p: (ConnectorRef, ConnectorRef)|
            v.wires.contains_key(k) && #[trigger] v.wires[k].contains(p) && !(k.1 == t.0 && p.1 == t.1)
                ==> v.without_wires_to(t).wires.contains_key(k) && v.without_wires_to(t).wires[k].contains(p),
        forall|k: (FunctionBoxRef, FunctionBoxRef), p: (ConnectorRef, ConnectorRef)|
            v.without_wires_to(t).wires.contains_key(k) && #[trigger] v.without_wires_to(t).wires[k].contains(p)
                ==> v.wires.contains_key(k) && v.wires[k].contains(p),
        forall|k: (FunctionBoxRef, FunctionBoxRef)|
            #[trigger] v.wires.contains_key(k) && k.1 == t.0 && v.wires[k].len() == 1 && v.wires[k][0].1 == t.1
                ==> !v.without_wires_to(t).wires.contains_key(k),
        forall|k: (FunctionBoxRef, FunctionBoxRef)|
            #[trigger] v.wires.contains_key(k) && k.1 == t.0 && v.wires[k].len() == 1 && v.wires[k][0].1 == t.1
                ==> v.without_wires_to(t).wires.dom() == v.wires.dom().remove(k),
        forall|k: (FunctionBoxRef, FunctionBoxRef)|
            #[trigger] v.wires.contains_key(k) && k.1 == t.0 && v.wires[k].len() == 1 && v.wires[k][0].1 == t.1
                && v.wires.dom().finite() ==> v.without_wires_to(t).wires.dom().len() + 1 == v.wires.dom().len(),
{
    let v1 = v.without_wires_to(t);
    assert forall|k: (FunctionBoxRef, FunctionBoxRef), p: (ConnectorRef, ConnectorRef)|
        v.wires.contains_key(k) && #[trigger] v.wires[k].contains(p) && !(k.1 == t.0 && p.1 == t.1) implies v1.wires.contains_key(k)
        && v1.wires[k].contains(p) by {
        lemma_keep_others(v.wires[k], t.1);
        if k.1 == t.0 {
            assert(keep_others(v.wires[k], t.1).contains(p));
        }
    }
    assert forall|k: (FunctionBoxRef, FunctionBoxRef), p: (ConnectorRef, ConnectorRef)|
        v1.wires.contains_key(k) && #[trigger] v1.wires[k].contains(p) implies v.wires.contains_key(k)
        && v.wires[k].contains(p) by {
        lemma_keep_others(v.wires[k], t.1);
    }
    assert forall|k: (FunctionBoxRef, FunctionBoxRef)|
        #[trigger] v.wires.contains_key(k) && k.1 == t.0 && v.wires[k].len() == 1 && v.wires[k][0].1 == t.1
            implies !v1.wires.contains_key(k) by {
        let w = v.wires[k];
        assert(w.drop_last().len() == 0);
        assert(keep_others(w.drop_last(), t.1).len() == 0);
    }
    assert forall|k: (FunctionBoxRef, FunctionBoxRef)|
        #[trigger] v.wires.contains_key(k) && k.1 == t.0 && v.wires[k].len() == 1 && v.wires[k][0].1 == t.1
            implies v1.wires.dom() == v.wires.dom().remove(k) && (v.wires.dom().finite()
            ==> v1.wires.dom().len() + 1 == v.wires.dom().len()) by {
        let w = v.wires[k];
        assert(w.drop_last().len() == 0);
        assert(keep_others(w.drop_last(), t.1).len() == 0);
        assert forall|k2: (FunctionBoxRef, FunctionBoxRef)| #[trigger] v.wires.contains_key(k2) && k2 != k
            implies v1.wires.contains_key(k2) by {
            if k2.1 == t.0 {
                let w2 = v.wires[k2];
                assert forall|i: int| 0 <= i < w2.len() implies (#[trigger] w2[i]).1 != t.1 by {
                    if w2[i].1 == t.1 {
                        assert(v.wires[k][0].1 == v.wires[k2][i].1);
                    }
                }
                lemma_keep_others(w2, t.1);
            }
        }
        assert(v1.wires.dom() =~= v.wires.dom().remove(k));
    }
    if v1.is_driven(t) {
        let src = choose|src: FunctionBoxRef| #[trigger] v1.feeds(src, t);
        let k = (src, t.0);
        let q = choose|q: int| 0 <= q < v1.wires[k].len() && (#[trigger] v1.wires[k][q]).1 == t.1;
        lemma_keep_others(v.wires[k], t.1);
        assert(v1.wires[k].contains(v1.wires[k][q]));
    }
}

/// A box named "1" evaluates to high and one named "0" to low, whatever its
/// inputs.
pub proof fn lemma_constant_sources(b: FunctionBoxView)
    ensures
        gate_kind_of(b.name) == GateKind::One ==> box_output(b) == Some(true),
        gate_kind_of(b.name) == GateKind::Zero ==> box_output(b) == Some(false),
{
}

/// Evaluating a box named "1" sets every one of its outputs high, and one
/// named "0" low, whatever the states of the boxes and the wiring.
pub proof fn lemma_constant_step(
    bs: Seq<FunctionBoxView>,
    wires: Map<(FunctionBoxRef, FunctionBoxRef), Seq<(ConnectorRef, ConnectorRef)>>,
    j: FunctionBoxRef,
    target: usize,
)
    requires
        j < bs.len(),
    ensures
        forall|c: int|
            bs[j as int].inputs_len <= c < bs[j as int].connectors.len() ==> {
                let s = (#[trigger] step(bs, wires, j, target)[j as int].connectors[c]).state;
                &&& gate_kind_of(bs[j as int].name) == GateKind::One ==> s
                &&& gate_kind_of(bs[j as int].name) == GateKind::Zero ==> !s
            },
{
}

/// After a tick, the outputs of every box hold what the box evaluated to:
/// high for a box named "1", low for a box named "0", whatever the wiring.
/// Only a box's own evaluation writes its outputs; wires reach inputs only.
pub proof fn lemma_sources_after_tick(v: CircuitView, j: FunctionBoxRef)
    requires
        v.wf(),
        all_supported(v.boxes),
        v.generation < usize::MAX,
        j < v.boxes.len() <= usize::MAX,
    ensures
        forall|c: int|
            v.boxes[j as int].inputs_len <= c < v.boxes[j as int].connectors.len() ==> {
                let s = (#[trigger] v.ticked().boxes[j as int].connectors[c]).state;
                &&& gate_kind_of(v.boxes[j as int].name) == GateKind::One ==> s
                &&& gate_kind_of(v.boxes[j as int].name) == GateKind::Zero ==> !s
            },
{
    let target = (v.generation + 1) as usize;
    lemma_outputs_settled(v, j, target, v.boxes.len());
}

proof fn lemma_outputs_settled(v: CircuitView, j: FunctionBoxRef, target: usize, n: nat)
    requires
        v.wf(),
        all_supported(v.boxes),
        target == v.generation + 1,
        j < n <= v.boxes.len() <= usize::MAX,
    ensures
        forall|c: int|
            v.boxes[j as int].inputs_len <= c < v.boxes[j as int].connectors.len() ==> {
                let s = (#[trigger] run(v.boxes, v.wires, target, n)[j as int].connectors[c]).state;
                &&& gate_kind_of(v.boxes[j as int].name) == GateKind::One ==> s
                &&& gate_kind_of(v.boxes[j as int].name) == GateKind::Zero ==> !s
            },
    decreases n,
{
    let bs = v.boxes;
    let prev = run(bs, v.wires, target, (n - 1) as nat);
    let cur = run(bs, v.wires, target, n);
    lemma_run_shape(bs, v.wires, target, (n - 1) as nat);
    let i = (n - 1) as int;
    assert(same_shape(prev[i], bs[i]));
    assert(box_output(bs[i]) is Some);
    assert(prev[i].name == bs[i].name);
    assert(box_output(prev[i]) is Some);
    let res = box_output(prev[i]).unwrap();
    assert(cur == crate::propagation::apply_step(prev, v.wires, i as FunctionBoxRef, res, target));
    if j == i {
        assert(same_shape(prev[j as int], bs[j as int]));
        assert(gate_kind_of(prev[j as int].name) == gate_kind_of(bs[j as int].name));
    } else {
        lemma_outputs_settled(v, j, target, (n - 1) as nat);
        assert forall|c: int|
            bs[j as int].inputs_len <= c < bs[j as int].connectors.len() implies !#[trigger] wired_from(
            v.wires,
            i as FunctionBoxRef,
            j,
            c,
        ) by {
            if wired_from(v.wires, i as FunctionBoxRef, j, c) {
                let k = (i as FunctionBoxRef, j);
                let q = choose|q: int| 0 <= q < v.wires[k].len() && (#[trigger] v.wires[k][q]).1 == c;
                assert(v.wire_ok(k, v.wires[k][q]));
                assert(bs[j as int].wf());
            }
        }
    }
}

/// Connecting two outputs, or into an input that already has a wire, is
/// refused with the matching error; `connect` then leaves the circuit as it
/// was.
pub proof fn lemma_connect_rejects(
    v: CircuitView,
    c1: (FunctionBoxRef, ConnectorRef),
    c2: (FunctionBoxRef, ConnectorRef),
)
    requires
        v.wf(),
    ensures
        v.is_output(c1) && v.is_output(c2) ==> v.connect_outcome(c1, c2) == Err::<(), CircuitError>(
            CircuitError::InvalidWiring,
        ),
        v.is_output(c1) && v.is_input(c2) && v.is_driven(c2) ==> v.connect_outcome(c1, c2) == Err::<
            (),
            CircuitError,
        >(CircuitError::InputAlreadyDriven),
{
}

/// Every wire runs from a box to one with a higher handle, so handle order
/// follows the flow of signals.
pub open spec fn wired_forward(v: CircuitView) -> bool {
    forall|k: (FunctionBoxRef, FunctionBoxRef)| #[trigger] v.wires.contains_key(k) ==> k.0 < k.1
}

/// When handle order follows the flow of signals, one tick settles the
/// circuit: afterwards the outputs of every box hold what the box computes
/// from its inputs as they then stand.
pub proof fn lemma_forward_tick_settles(v: CircuitView)
    requires
        v.wf(),
        all_supported(v.boxes),
        wired_forward(v),
        v.generation < usize::MAX,
        v.boxes.len() <= usize::MAX,
    ensures
        forall|j: int, c: int|
            0 <= j < v.boxes.len() && v.boxes[j].inputs_len <= c < v.boxes[j].connectors.len() ==> Some(
                (#[trigger] v.ticked().boxes[j].connectors[c]).state,
            ) == box_output(v.ticked().boxes[j]),
{
    let target = (v.generation + 1) as usize;
    let n = v.boxes.len();
    assert forall|j: int, c: int|
        0 <= j < n && v.boxes[j].inputs_len <= c < v.boxes[j].connectors.len() implies Some(
            (#[trigger] v.ticked().boxes[j].connectors[c]).state,
        ) == box_output(v.ticked().boxes[j]) by {
        lemma_frozen_after_step(v, j as FunctionBoxRef, target, n);
        lemma_step_settles(v, j as FunctionBoxRef, target);
    }
}

/// Box `j` right after its own step outputs what it computes from its
/// inputs, which its step left as they were.
proof fn lemma_step_settles(v: CircuitView, j: FunctionBoxRef, target: usize)
    requires
        v.wf(),
        all_supported(v.boxes),
        wired_forward(v),
        j < v.boxes.len() <= usize::MAX,
    ensures
        forall|c: int|
            v.boxes[j as int].inputs_len <= c < v.boxes[j as int].connectors.len() ==> Some(
                (#[trigger] run(v.boxes, v.wires, target, (j + 1) as nat)[j as int].connectors[c]).state,
            ) == box_output(run(v.boxes, v.wires, target, (j + 1) as nat)[j as int]),
{
    let bs = v.boxes;
    let prev = run(bs, v.wires, target, j as nat);
    let cur = run(bs, v.wires, target, (j + 1) as nat);
    lemma_run_shape(bs, v.wires, target, j as nat);
    assert(same_shape(prev[j as int], bs[j as int]));
    assert(box_output(bs[j as int]) is Some);
    assert(box_output(prev[j as int]) is Some);
    let res = box_output(prev[j as int]).unwrap();
    assert(cur == crate::propagation::apply_step(prev, v.wires, j, res, target));
    assert(bs[j as int].wf());
    assert forall|c: int| 0 <= c < bs[j as int].inputs_len implies #[trigger] cur[j as int].connectors[c]
        == prev[j as int].connectors[c] by {
        if wired_from(v.wires, j, j, c) {
            assert(v.wires.contains_key((j, j)));
        }
    }
    assert(cur[j as int].inputs_len == prev[j as int].inputs_len);
    assert(prev[j as int].inputs_len == bs[j as int].inputs_len);
    if all_inputs_high(prev[j as int]) {
        assert forall|i: int| 0 <= i < cur[j as int].inputs_len implies cur[j as int].connectors[i].state by {
            assert(cur[j as int].connectors[i] == prev[j as int].connectors[i]);
        }
    }
    if all_inputs_high(cur[j as int]) {
        assert forall|i: int| 0 <= i < prev[j as int].inputs_len implies prev[j as int].connectors[i].state by {
            assert(cur[j as int].connectors[i] == prev[j as int].connectors[i]);
        }
    }
    assert(all_inputs_high(cur[j as int]) == all_inputs_high(prev[j as int]));
}

/// Once box `j` has had its step, later steps leave it alone.
proof fn lemma_frozen_after_step(v: CircuitView, j: FunctionBoxRef, target: usize, n: nat)
    requires
        v.wf(),
        wired_forward(v),
        j < n <= v.boxes.len() <= usize::MAX,
    ensures
        run(v.boxes, v.wires, target, n)[j as int] == run(v.boxes, v.wires, target, (j + 1) as nat)[j as int],
    decreases n,
{
    if n > j + 1 {
        lemma_frozen_after_step(v, j, target, (n - 1) as nat);
        let bs = v.boxes;
        let prev = run(bs, v.wires, target, (n - 1) as nat);
        let cur = run(bs, v.wires, target, n);
        let i = (n - 1) as FunctionBoxRef;
        lemma_run_shape(bs, v.wires, target, (n - 1) as nat);
        match box_output(prev[i as int]) {
            Some(res) => {
                assert(cur == crate::propagation::apply_step(prev, v.wires, i, res, target));
                assert forall|c: int| 0 <= c < prev[j as int].connectors.len() implies #[trigger] cur[j as int].connectors[c]
                    == prev[j as int].connectors[c] by {
                    if wired_from(v.wires, i, j, c) {
                        assert(v.wires.contains_key((i, j)));
                    }
                }
                assert(cur[j as int].connectors =~= prev[j as int].connectors);
            },
            None => {},
        }
    }
}

} // verus!
