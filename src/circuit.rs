use vstd::prelude::*;
use crate::connector::{ConnectorDirection, ConnectorView};
use crate::function_box::FunctionBoxView;

verus! {

/// Handle of a box: its position in the order of insertion.
pub type FunctionBoxRef = usize;

/// Position of a connector in its box's connector list.
pub type ConnectorRef = usize;

/// What can go wrong when the circuit is changed, evaluated or restored.
#[derive(Debug, PartialEq, Eq)]
pub enum CircuitError {
    /// Connectors of the wrong directions, or a box or connector that does
    /// not exist.
    InvalidWiring,
    /// The input already has an incoming wire.
    InputAlreadyDriven,
    /// A box whose name selects no evaluation rule.
    UnsupportedGateKind { box_ref: FunctionBoxRef, kind: String },
    /// A saved circuit that does not describe a well-formed circuit.
    PersistenceError,
}

/// Mathematical model of a circuit: its boxes by handle, the wires of each
/// ordered pair of boxes that has any, and the number of ticks run.
pub struct CircuitView {
    pub boxes: Seq<FunctionBoxView>,
    pub wires: Map<(FunctionBoxRef, FunctionBoxRef), Seq<(ConnectorRef, ConnectorRef)>>,
    pub generation: usize,
}

/// The wires of a list that do not end at input `c`, in their order.
pub open spec fn keep_others(w: Seq<(usize, usize)>, c: usize) -> Seq<(usize, usize)>
    decreases w.len(),
{
    if w.len() == 0 {
        w
    } else {
        let rest = keep_others(w.drop_last(), c);
        if w.last().1 != c {
            rest.push(w.last())
        } else {
            rest
        }
    }
}

/// What `keep_others` keeps: exactly the wires of `w` that do not end at `c`,
/// without duplicates if `w` has none, and all of `w` if none ends at `c`.
pub proof fn lemma_keep_others(w: Seq<(usize, usize)>, c: usize)
    ensures
        forall|x: (usize, usize)| #[trigger] keep_others(w, c).contains(x) <==> (w.contains(x) && x.1 != c),
        w.no_duplicates() ==> keep_others(w, c).no_duplicates(),
        (forall|i: int| 0 <= i < w.len() ==> (#[trigger] w[i]).1 != c) ==> keep_others(w, c) == w,
        keep_others(w, c).len() <= w.len(),
    decreases w.len(),
{
    if w.len() > 0 {
        let w2 = w.drop_last();
        let a = w.last();
        lemma_keep_others(w2, c);
        let r2 = keep_others(w2, c);
        let r = keep_others(w, c);
        assert forall|x: (usize, usize)| w.contains(x) <==> (w2.contains(x) || x == a) by {
            if w.contains(x) {
                let i = choose|i: int| 0 <= i < w.len() && w[i] == x;
                if i < w.len() - 1 {
                    assert(w2[i] == x);
                }
            }
            if w2.contains(x) {
                let i = choose|i: int| 0 <= i < w2.len() && w2[i] == x;
                assert(w[i] == x);
            }
            if x == a {
                assert(w[w.len() - 1] == x);
            }
        }
        if a.1 != c {
            assert forall|x: (usize, usize)| r.contains(x) <==> (r2.contains(x) || x == a) by {
                if r.contains(x) {
                    let i = choose|i: int| 0 <= i < r.len() && r[i] == x;
                    if i < r.len() - 1 {
                        assert(r2[i] == x);
                    }
                }
                if r2.contains(x) {
                    let i = choose|i: int| 0 <= i < r2.len() && r2[i] == x;
                    assert(r[i] == x);
                }
                if x == a {
                    assert(r[r.len() - 1] == x);
                }
            }
        }
        if w.no_duplicates() {
            assert(w2.no_duplicates()) by {
                assert forall|i: int, j: int| 0 <= i < w2.len() && 0 <= j < w2.len() && i != j implies w2[i]
                    != w2[j] by {
                    assert(w[i] == w2[i] && w[j] == w2[j]);
                }
            }
            if a.1 != c {
                assert(!r2.contains(a)) by {
                    if w2.contains(a) {
                        let i = choose|i: int| 0 <= i < w2.len() && w2[i] == a;
                        assert(w[i] == w[w.len() - 1]);
                    }
                }
                assert forall|i: int, j: int| 0 <= i < r.len() && 0 <= j < r.len() && i != j implies r[i]
                    != r[j] by {
                    if i == r.len() - 1 {
                        assert(r2[j] == r[j]);
                    } else if j == r.len() - 1 {
                        assert(r2[i] == r[i]);
                    } else {
                        assert(r2[i] == r[i] && r2[j] == r[j]);
                    }
                }
            }
        }
        if forall|i: int| 0 <= i < w.len() ==> (#[trigger] w[i]).1 != c {
            assert forall|i: int| 0 <= i < w2.len() implies (#[trigger] w2[i]).1 != c by {
                assert(w[i] == w2[i]);
            }
            assert(w[w.len() - 1].1 != c);
            assert(r =~= w);
        }
    }
}

/// A box with the state of connector `c` set to `s`.
pub open spec fn with_state(b: FunctionBoxView, c: int, s: bool) -> FunctionBoxView {
    FunctionBoxView {
        connectors: b.connectors.update(c, ConnectorView { state: s, ..b.connectors[c] }),
        ..b
    }
}

impl CircuitView {
    pub open spec fn valid_terminal(self, t: (FunctionBoxRef, ConnectorRef)) -> bool {
        t.0 < self.boxes.len() && t.1 < self.boxes[t.0 as int].connectors.len()
    }

    pub open spec fn direction(self, t: (FunctionBoxRef, ConnectorRef)) -> ConnectorDirection {
        self.boxes[t.0 as int].connectors[t.1 as int].direction
    }

    pub open spec fn is_output(self, t: (FunctionBoxRef, ConnectorRef)) -> bool {
        self.valid_terminal(t) && self.direction(t) == ConnectorDirection::Output
    }

    pub open spec fn is_input(self, t: (FunctionBoxRef, ConnectorRef)) -> bool {
        self.valid_terminal(t) && self.direction(t) == ConnectorDirection::Input
    }

    /// Some wire from box `src` ends at terminal `t`.
    pub open spec fn feeds(self, src: FunctionBoxRef, t: (FunctionBoxRef, ConnectorRef)) -> bool {
        &&& self.wires.contains_key((src, t.0))
        &&& exists|j: int|
            0 <= j < self.wires[(src, t.0)].len() && (#[trigger] self.wires[(src, t.0)][j]).1 == t.1
    }

    /// Terminal `t` has an incoming wire.
    pub open spec fn is_driven(self, t: (FunctionBoxRef, ConnectorRef)) -> bool {
        exists|src: FunctionBoxRef| #[trigger] self.feeds(src, t)
    }

    /// A wire of edge `k` is `p`: from an output of the source box to an
    /// input of the target box.
    pub open spec fn wire_ok(self, k: (FunctionBoxRef, FunctionBoxRef), p: (ConnectorRef, ConnectorRef)) -> bool {
        self.is_output((k.0, p.0)) && self.is_input((k.1, p.1))
    }

    /// A wire is attached to terminal `t`: one leaving it as an output of its
    /// box, or one entering it as an input.
    pub open spec fn is_attached(self, t: (FunctionBoxRef, ConnectorRef)) -> bool {
        exists|k: (FunctionBoxRef, FunctionBoxRef), q: int|
            self.wires.contains_key(k) && 0 <= q < self.wires[k].len() && ((k.0 == t.0 && (
            #[trigger] self.wires[k][q]).0 == t.1) || (k.1 == t.0 && self.wires[k][q].1 == t.1))
    }

    /// Boxes are well formed; edges carry at least one wire; every wire runs from an output to an
    /// input; and no input has more than one incoming wire.
    pub open spec fn wf(self) -> bool {
        &&& forall|b: int|
            0 <= b < self.boxes.len() ==> (#[trigger] self.boxes[b]).wf()
        &&& forall|k: (FunctionBoxRef, FunctionBoxRef)| #[trigger]
            self.wires.contains_key(k) ==> self.wires[k].len() > 0
        &&& forall|k: (FunctionBoxRef, FunctionBoxRef), j: int|
            self.wires.contains_key(k) && 0 <= j < self.wires[k].len() ==> self.wire_ok(
                k,
                #[trigger] self.wires[k][j],
            )
        &&& forall|k1: (FunctionBoxRef, FunctionBoxRef), k2: (FunctionBoxRef, FunctionBoxRef), j1: int, j2: int|
            self.wires.contains_key(k1) && self.wires.contains_key(k2) && 0 <= j1 < self.wires[k1].len() && 0
                <= j2 < self.wires[k2].len() && k1.1 == k2.1 && (#[trigger] self.wires[k1][j1]).1 == (
            #[trigger] self.wires[k2][j2]).1 ==> k1 == k2 && j1 == j2
    }

    /// The two terminals ordered as (output, input), when they exist and
    /// have opposite directions.
    pub open spec fn output_input_pair(self, c1: (FunctionBoxRef, ConnectorRef), c2: (FunctionBoxRef, ConnectorRef)) -> Option<
        ((FunctionBoxRef, ConnectorRef), (FunctionBoxRef, ConnectorRef)),
    > {
        if self.valid_terminal(c1) && self.valid_terminal(c2) && self.direction(c1) != self.direction(c2) {
            if self.direction(c1) == ConnectorDirection::Output {
                Some((c1, c2))
            } else {
                Some((c2, c1))
            }
        } else {
            None
        }
    }

    /// A wire could join the two terminals: one is an output, the other an
    /// input without an incoming wire.
    pub open spec fn can_connect(self, c1: (FunctionBoxRef, ConnectorRef), c2: (FunctionBoxRef, ConnectorRef)) -> bool {
        match self.output_input_pair(c1, c2) {
            Some(p) => !self.is_driven(p.1),
            None => false,
        }
    }

    /// What `connect(output, input)` reports.
    pub open spec fn connect_outcome(self, output: (FunctionBoxRef, ConnectorRef), input: (FunctionBoxRef, ConnectorRef)) -> Result<
        (),
        CircuitError,
    > {
        if !self.is_output(output) || !self.is_input(input) {
            Err(CircuitError::InvalidWiring)
        } else if self.is_driven(input) {
            Err(CircuitError::InputAlreadyDriven)
        } else {
            Ok(())
        }
    }

    /// The circuit with one more wire, from `output` to `input`, added to the
    /// edge of their boxes.
    pub open spec fn with_wire(self, output: (FunctionBoxRef, ConnectorRef), input: (FunctionBoxRef, ConnectorRef)) -> CircuitView {
        let k = (output.0, input.0);
        let p = (output.1, input.1);
        CircuitView {
            wires: self.wires.insert(
                k,
                if self.wires.contains_key(k) {
                    self.wires[k].push(p)
                } else {
                    seq![p]
                },
            ),
            ..self
        }
    }

    /// The circuit after `connect(output, input)`.
    pub open spec fn after_connect(self, output: (FunctionBoxRef, ConnectorRef), input: (FunctionBoxRef, ConnectorRef)) -> CircuitView {
        if self.connect_outcome(output, input) is Ok {
            self.with_wire(output, input)
        } else {
            self
        }
    }

    /// The circuit after `disconnect(t)`.
    pub open spec fn after_disconnect(self, t: (FunctionBoxRef, ConnectorRef)) -> CircuitView {
        if self.is_input(t) {
            self.without_wires_to(t)
        } else {
            self
        }
    }

    /// What `disconnect(t)` reports.
    pub open spec fn disconnect_outcome(self, t: (FunctionBoxRef, ConnectorRef)) -> Result<(), CircuitError> {
        if self.is_input(t) {
            Ok(())
        } else {
            Err(CircuitError::InvalidWiring)
        }
    }

    /// The circuit with every wire into input `t` removed, edges left without
    /// wires removed, and `t` low.
    pub open spec fn without_wires_to(self, t: (FunctionBoxRef, ConnectorRef)) -> CircuitView {
        CircuitView {
            boxes: self.boxes.update(t.0 as int, with_state(self.boxes[t.0 as int], t.1 as int, false)),
            wires: Map::new(
                |k: (FunctionBoxRef, FunctionBoxRef)|
                    self.wires.contains_key(k) && !(k.1 == t.0 && keep_others(self.wires[k], t.1).len() == 0),
                |k: (FunctionBoxRef, FunctionBoxRef)|
                    if k.1 == t.0 {
                        keep_others(self.wires[k], t.1)
                    } else {
                        self.wires[k]
                    },
            ),
            generation: self.generation,
        }
    }
}

} // verus!
