use vstd::prelude::*;
use crate::circuit::{CircuitView, ConnectorRef, FunctionBoxRef};
use crate::connector::ConnectorView;
use crate::function_box::{box_output, FunctionBoxView};

verus! {

/// A wire from box `src` ends at connector `c` of box `t`.
pub open spec fn wired_from(
    wires: Map<(FunctionBoxRef, FunctionBoxRef), Seq<(ConnectorRef, ConnectorRef)>>,
    src: FunctionBoxRef,
    t: FunctionBoxRef,
    c: int,
) -> bool {
    &&& wires.contains_key((src, t))
    &&& exists|q: int| 0 <= q < wires[(src, t)].len() && (#[trigger] wires[(src, t)][q]).1 == c
}

/// The boxes after box `j` has been evaluated to `res` in tick `target`: its
/// own outputs and every input that one of its wires reaches take `res`,
/// and `j` is marked as evaluated in `target`.
pub open spec fn apply_step(
    bs: Seq<FunctionBoxView>,
    wires: Map<(FunctionBoxRef, FunctionBoxRef), Seq<(ConnectorRef, ConnectorRef)>>,
    j: FunctionBoxRef,
    res: bool,
    target: usize,
) -> Seq<FunctionBoxView> {
    Seq::new(
        bs.len(),
        |t: int|
            {
                let b = bs[t];
                FunctionBoxView {
                    connectors: Seq::new(
                        b.connectors.len(),
                        |c: int|
                            if (t == j && c >= b.inputs_len) || wired_from(wires, j, t as FunctionBoxRef, c) {
                                ConnectorView { state: res, ..b.connectors[c] }
                            } else {
                                b.connectors[c]
                            },
                    ),
                    generation: if t == j {
                        target
                    } else {
                        b.generation
                    },
                    ..b
                }
            },
    )
}

/// One step of a tick: box `j` is evaluated, if its name selects a rule.
pub open spec fn step(
    bs: Seq<FunctionBoxView>,
    wires: Map<(FunctionBoxRef, FunctionBoxRef), Seq<(ConnectorRef, ConnectorRef)>>,
    j: FunctionBoxRef,
    target: usize,
) -> Seq<FunctionBoxView> {
    match box_output(bs[j as int]) {
        Some(res) => apply_step(bs, wires, j, res, target),
        None => bs,
    }
}

/// The boxes after the first `n` steps of a tick, taken in handle order.
pub open spec fn run(
    bs: Seq<FunctionBoxView>,
    wires: Map<(FunctionBoxRef, FunctionBoxRef), Seq<(ConnectorRef, ConnectorRef)>>,
    target: usize,
    n: nat,
) -> Seq<FunctionBoxView>
    decreases n,
{
    if n == 0 {
        bs
    } else {
        step(run(bs, wires, target, (n - 1) as nat), wires, (n - 1) as FunctionBoxRef, target)
    }
}

/// Two boxes differ at most in their connector states and generation.
pub open spec fn same_shape(a: FunctionBoxView, b: FunctionBoxView) -> bool {
    &&& a.name == b.name
    &&& a.inputs_len == b.inputs_len
    &&& a.outputs_len == b.outputs_len
    &&& a.connectors.len() == b.connectors.len()
    &&& forall|c: int|
        0 <= c < a.connectors.len() ==> (#[trigger] a.connectors[c]).name == b.connectors[c].name
            && a.connectors[c].direction == b.connectors[c].direction && a.connectors[c].idx
            == b.connectors[c].idx
}

/// Every box has an evaluation rule.
pub open spec fn all_supported(bs: Seq<FunctionBoxView>) -> bool {
    forall|b: int| 0 <= b < bs.len() ==> (#[trigger] box_output(bs[b])) is Some
}

/// Box `b` is the first one without an evaluation rule.
pub open spec fn first_unsupported(bs: Seq<FunctionBoxView>, b: int) -> bool {
    &&& 0 <= b < bs.len()
    &&& box_output(bs[b]) is None
    &&& forall|a: int| 0 <= a < b ==> (#[trigger] box_output(bs[a])) is Some
}

impl CircuitView {
    /// The circuit after one tick: every box is evaluated once, in handle
    /// order, each reading its inputs as the earlier steps left them.
    pub open spec fn ticked(self) -> CircuitView {
        let target = (self.generation + 1) as usize;
        CircuitView {
            boxes: run(self.boxes, self.wires, target, self.boxes.len()),
            wires: self.wires,
            generation: target,
        }
    }
}

pub proof fn lemma_run_shape(
    bs: Seq<FunctionBoxView>,
    wires: Map<(FunctionBoxRef, FunctionBoxRef), Seq<(ConnectorRef, ConnectorRef)>>,
    target: usize,
    n: nat,
)
    requires
        n <= bs.len(),
    ensures
        run(bs, wires, target, n).len() == bs.len(),
        forall|t: int| 0 <= t < bs.len() ==> same_shape(#[trigger] run(bs, wires, target, n)[t], bs[t]),
        forall|t: int| n <= t < bs.len() ==> (#[trigger] run(bs, wires, target, n)[t]).generation == bs[t].generation,
    decreases n,
{
    if n > 0 {
        lemma_run_shape(bs, wires, target, (n - 1) as nat);
        let prev = run(bs, wires, target, (n - 1) as nat);
        let cur = run(bs, wires, target, n);
        assert forall|t: int| 0 <= t < bs.len() implies same_shape(#[trigger] cur[t], bs[t]) by {
            assert(same_shape(prev[t], bs[t]));
        }
    }
}

/// When every box has a rule, the first `n` steps mark the first `n` boxes
/// as evaluated in tick `target`.
pub proof fn lemma_run_generation(
    bs: Seq<FunctionBoxView>,
    wires: Map<(FunctionBoxRef, FunctionBoxRef), Seq<(ConnectorRef, ConnectorRef)>>,
    target: usize,
    n: nat,
)
    requires
        n <= bs.len() <= usize::MAX,
        all_supported(bs),
    ensures
        forall|t: int| 0 <= t < n ==> (#[trigger] run(bs, wires, target, n)[t]).generation == target,
    decreases n,
{
    if n > 0 {
        lemma_run_generation(bs, wires, target, (n - 1) as nat);
        lemma_run_shape(bs, wires, target, (n - 1) as nat);
        let prev = run(bs, wires, target, (n - 1) as nat);
        let j = n - 1;
        assert(same_shape(prev[j], bs[j]));
        assert(box_output(bs[j]) is Some);
        assert(box_output(prev[j]) is Some);
        let cur = run(bs, wires, target, n);
        let res = box_output(prev[j]).unwrap();
        assert(cur == apply_step(prev, wires, j as FunctionBoxRef, res, target));
        assert forall|t: int| 0 <= t < n implies (#[trigger] cur[t]).generation == target by {
            if t < j {
                assert(prev[t].generation == target);
            }
        }
    }
}

} // verus!
