use vstd::prelude::*;
use crate::connector::{Connector, ConnectorDirection, ConnectorView};
use crate::gate::{gate_kind_of, GateKind};

verus! {

/// A gate or source instance: a name that selects its evaluation rule, and
/// its connectors, inputs first, then outputs.
#[derive(Debug)]
pub struct FunctionBox {
    pub name: String,
    pub connectors: Vec<Connector>,
    pub outputs_len: usize,
    pub inputs_len: usize,
    /// The last tick in which this box was evaluated.
    pub generation: usize,
}

/// Mathematical model of a function box.
pub struct FunctionBoxView {
    pub name: Seq<char>,
    pub connectors: Seq<ConnectorView>,
    pub inputs_len: usize,
    pub outputs_len: usize,
    pub generation: usize,
}

impl View for FunctionBox {
    type V = FunctionBoxView;

    open spec fn view(&self) -> FunctionBoxView {
        FunctionBoxView {
            name: self.name@,
            connectors: self.connectors@.map_values(|c: Connector| c@),
            inputs_len: self.inputs_len,
            outputs_len: self.outputs_len,
            generation: self.generation,
        }
    }
}

/// The direction that the connector at position `i` must have.
pub open spec fn direction_at(inputs_len: int, i: int) -> ConnectorDirection {
    if i < inputs_len {
        ConnectorDirection::Input
    } else {
        ConnectorDirection::Output
    }
}

/// The first connector in `[lo, hi)` named `name` sits at `i`.
pub open spec fn first_named(cs: Seq<ConnectorView>, lo: int, hi: int, name: Seq<char>, i: int) -> bool {
    &&& lo <= i < hi
    &&& cs[i].name == name
    &&& forall|j: int| lo <= j < i ==> cs[j].name != name
}

/// Whether all input connectors carry a high signal.
pub open spec fn all_inputs_high(b: FunctionBoxView) -> bool {
    forall|i: int| 0 <= i < b.inputs_len ==> b.connectors[i].state
}

/// The output that a box computes from its current input states, or `None`
/// for a box whose name selects no rule. A NAND box reads the current state
/// of every input, wired or not. A new box's inputs are low, and
/// disconnecting an input sets it low.
pub open spec fn box_output(b: FunctionBoxView) -> Option<bool> {
    match gate_kind_of(b.name) {
        GateKind::Nand => Some(!all_inputs_high(b)),
        GateKind::One => Some(true),
        GateKind::Zero => Some(false),
        GateKind::Unsupported => None,
    }
}

impl FunctionBoxView {
    /// Inputs occupy `[0, inputs_len)`, outputs the rest, and each connector
    /// knows its own position.
    pub open spec fn wf(self) -> bool {
        &&& self.connectors.len() == self.inputs_len + self.outputs_len
        &&& forall|i: int|
            0 <= i < self.connectors.len() ==> (#[trigger] self.connectors[i]).idx == i
                && self.connectors[i].direction == direction_at(self.inputs_len as int, i)
    }
}

impl FunctionBox {
    /// A box named `name` with one input connector per name of `inputs` and
    /// one output connector per name of `outputs`, all low, never evaluated.
    pub fn new(name: &str, inputs: Vec<String>, outputs: Vec<String>) -> (r: FunctionBox)
        requires
            inputs@.len() + outputs@.len() <= usize::MAX,
        ensures
            r@.wf(),
            r@.name == name@,
            r@.inputs_len == inputs@.len(),
            r@.outputs_len == outputs@.len(),
            r@.generation == 0,
            forall|i: int| 0 <= i < inputs@.len() ==> (#[trigger] r@.connectors[i]).name == inputs@[i]@,
            forall|j: int|
                0 <= j < outputs@.len() ==> (#[trigger] r@.connectors[inputs@.len() + j]).name
                    == outputs@[j]@,
            forall|i: int| 0 <= i < r@.connectors.len() ==> !(#[trigger] r@.connectors[i]).state,
    {
        let inputs_len = inputs.len();
        let outputs_len = outputs.len();
        let mut connectors: Vec<Connector> = Vec::new();
        let mut i: usize = 0;
        while i < inputs_len
            invariant
                inputs_len == inputs@.len(),
                i <= inputs_len,
                connectors@.len() == i,
                forall|k: int|
                    0 <= k < i ==> (#[trigger] connectors@[k])@ == (ConnectorView {
                        name: inputs@[k]@,
                        direction: ConnectorDirection::Input,
                        idx: k as usize,
                        state: false,
                    }),
            decreases inputs_len - i,
        {
            connectors.push(Connector::new_input(inputs[i].clone(), i));
            i += 1;
        }
        let mut j: usize = 0;
        while j < outputs_len
            invariant
                inputs_len == inputs@.len(),
                outputs_len == outputs@.len(),
                inputs_len + outputs_len <= usize::MAX,
                j <= outputs_len,
                connectors@.len() == inputs_len + j,
                forall|k: int|
                    0 <= k < inputs_len ==> (#[trigger] connectors@[k])@ == (ConnectorView {
                        name: inputs@[k]@,
                        direction: ConnectorDirection::Input,
                        idx: k as usize,
                        state: false,
                    }),
                forall|k: int|
                    0 <= k < j ==> (#[trigger] connectors@[inputs_len + k])@ == (ConnectorView {
                        name: outputs@[k]@,
                        direction: ConnectorDirection::Output,
                        idx: (inputs_len + k) as usize,
                        state: false,
                    }),
            decreases outputs_len - j,
        {
            connectors.push(Connector::new_output(outputs[j].clone(), inputs_len + j));
            proof {
                assert(connectors@[inputs_len + j as int] == connectors@.last());
            }
            j += 1;
        }
        let r = FunctionBox { name: name.to_owned(), connectors, outputs_len, inputs_len, generation: 0 };
        assert forall|k: int| 0 <= k < r@.connectors.len() implies (#[trigger] r@.connectors[k]).idx == k
            && r@.connectors[k].direction == direction_at(inputs_len as int, k) by {
            if k >= inputs_len {
                assert(r@.connectors[inputs_len + (k - inputs_len)] == r@.connectors[k]);
            }
        }
        assert forall|k: int| 0 <= k < r@.connectors.len() implies !(#[trigger] r@.connectors[k]).state by {
            if k >= inputs_len {
                assert(r@.connectors[inputs_len + (k - inputs_len)] == r@.connectors[k]);
            }
        }
        assert forall|k: int| 0 <= k < outputs@.len() implies (#[trigger] r@.connectors[inputs@.len() + k]).name
            == outputs@[k]@ by {}
        r
    }

    /// The first input connector named `name`, if any.
    pub fn get_input_connector(&self, name: &str) -> (r: Option<&Connector>)
        requires
            self@.wf(),
        ensures
            r matches Some(c) ==> first_named(self@.connectors, 0, self.inputs_len as int, name@, c.idx as int)
                && c@ == self@.connectors[c.idx as int],
            r is None ==> forall|i: int| 0 <= i < self.inputs_len ==> self@.connectors[i].name != name@,
    {
        self.find_named(0, self.inputs_len, name)
    }

    /// The first output connector named `name`, if any.
    pub fn get_output_connector(&self, name: &str) -> (r: Option<&Connector>)
        requires
            self@.wf(),
        ensures
            r matches Some(c) ==> first_named(
                self@.connectors,
                self.inputs_len as int,
                self@.connectors.len() as int,
                name@,
                c.idx as int,
            ) && c@ == self@.connectors[c.idx as int],
            r is None ==> forall|i: int|
                self.inputs_len <= i < self@.connectors.len() ==> self@.connectors[i].name != name@,
    {
        self.find_named(self.inputs_len, self.connectors.len(), name)
    }

    fn find_named(&self, lo: usize, hi: usize, name: &str) -> (r: Option<&Connector>)
        requires
            self@.wf(),
            lo <= hi <= self@.connectors.len(),
        ensures
            r matches Some(c) ==> first_named(self@.connectors, lo as int, hi as int, name@, c.idx as int)
                && c@ == self@.connectors[c.idx as int],
            r is None ==> forall|i: int| lo <= i < hi ==> self@.connectors[i].name != name@,
    {
        let mut i = lo;
        while i < hi
            invariant
                self@.wf(),
                lo <= i <= hi <= self@.connectors.len(),
                forall|j: int| lo <= j < i ==> self@.connectors[j].name != name@,
            decreases hi - i,
        {
            let c = &self.connectors[i];
            assert(c@ == self@.connectors[i as int]);
            if crate::gate::same_text(c.name.as_str(), name) {
                return Some(c);
            }
            i += 1;
        }
        None
    }

    /// The input connectors, in order.
    pub fn inputs_iter(&self) -> (r: &[Connector])
        requires
            self@.wf(),
        ensures
            r@ == self.connectors@.subrange(0, self.inputs_len as int),
    {
        self.connectors.as_slice().split_at(self.inputs_len).0
    }

    /// The output connectors, in order.
    pub fn outputs_iter(&self) -> (r: &[Connector])
        requires
            self@.wf(),
        ensures
            r@ == self.connectors@.subrange(self.inputs_len as int, self.connectors@.len() as int),
    {
        self.connectors.as_slice().split_at(self.inputs_len).1
    }

    /// Whether the connectors are laid out as `wf` demands.
    pub fn is_well_formed(&self) -> (r: bool)
        ensures
            r == self@.wf(),
    {
        let n = self.connectors.len();
        if self.inputs_len > n || n - self.inputs_len != self.outputs_len {
            return false;
        }
        let mut i: usize = 0;
        while i < n
            invariant
                n == self@.connectors.len(),
                self@.connectors.len() == self.inputs_len + self.outputs_len,
                i <= n,
                forall|k: int|
                    0 <= k < i ==> (#[trigger] self@.connectors[k]).idx == k && self@.connectors[k].direction
                        == direction_at(self.inputs_len as int, k),
            decreases n - i,
        {
            let c = &self.connectors[i];
            assert(c@ == self@.connectors[i as int]);
            let expected = if i < self.inputs_len {
                ConnectorDirection::Input
            } else {
                ConnectorDirection::Output
            };
            if c.idx != i || c.direction != expected {
                return false;
            }
            i += 1;
        }
        true
    }

    /// A copy of this box.
    pub fn duplicate(&self) -> (r: FunctionBox)
        ensures
            r@ == self@,
    {
        let mut connectors: Vec<Connector> = Vec::new();
        let mut i: usize = 0;
        while i < self.connectors.len()
            invariant
                i <= self@.connectors.len(),
                connectors@.len() == i,
                forall|k: int| 0 <= k < i ==> (#[trigger] connectors@[k])@ == self@.connectors[k],
            decreases self@.connectors.len() - i,
        {
            connectors.push(self.connectors[i].duplicate());
            i += 1;
        }
        let r = FunctionBox {
            name: self.name.clone(),
            connectors,
            outputs_len: self.outputs_len,
            inputs_len: self.inputs_len,
            generation: self.generation,
        };
        assert(r@.connectors =~= self@.connectors);
        r
    }

    /// The input connectors, in order, for changing their states.
    pub fn inputs_iter_mut(&mut self) -> (r: &mut [Connector])
        requires
            old(self)@.wf(),
        ensures
            r@ == old(self).connectors@.subrange(0, old(self).inputs_len as int),
            final(self).connectors@ == final(r)@ + old(self).connectors@.subrange(
                old(self).inputs_len as int,
                old(self).connectors@.len() as int,
            ),
            final(self).name == old(self).name,
            final(self).inputs_len == old(self).inputs_len,
            final(self).outputs_len == old(self).outputs_len,
            final(self).generation == old(self).generation,
    {
        self.connectors.as_mut_slice().split_at_mut(self.inputs_len).0
    }

    /// The output connectors, in order, for changing their states.
    pub fn outputs_iter_mut(&mut self) -> (r: &mut [Connector])
        requires
            old(self)@.wf(),
        ensures
            r@ == old(self).connectors@.subrange(old(self).inputs_len as int, old(self).connectors@.len() as int),
            final(self).connectors@ == old(self).connectors@.subrange(0, old(self).inputs_len as int) + final(r)@,
            final(self).name == old(self).name,
            final(self).inputs_len == old(self).inputs_len,
            final(self).outputs_len == old(self).outputs_len,
            final(self).generation == old(self).generation,
    {
        self.connectors.as_mut_slice().split_at_mut(self.inputs_len).1
    }

    /// The output that this box computes from its current input states, or
    /// `None` when its name selects no evaluation rule.
    pub fn evaluate(&self) -> (r: Option<bool>)
        requires
            self@.wf(),
        ensures
            r == box_output(self@),
    {
        match GateKind::from_name(self.name.as_str()) {
            GateKind::Nand => {
                let mut all_high = true;
                let mut i: usize = 0;
                while i < self.inputs_len
                    invariant
                        self@.wf(),
                        i <= self.inputs_len,
                        all_high == forall|k: int| 0 <= k < i ==> self@.connectors[k].state,
                    decreases self.inputs_len - i,
                {
                    assert(self.connectors@[i as int]@ == self@.connectors[i as int]);
                    all_high = all_high && self.connectors[i].state;
                    i += 1;
                }
                Some(!all_high)
            },
            GateKind::One => Some(true),
            GateKind::Zero => Some(false),
            GateKind::Unsupported => None,
        }
    }
}

} // verus!
