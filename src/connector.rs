use vstd::prelude::*;

verus! {

/// Which way a signal flows through a terminal.
#[derive(Debug, Clone, Copy, PartialEq, Eq, Structural)]
pub enum ConnectorDirection {
    Input,
    Output,
}

/// One terminal of a function box: a named signal endpoint with a fixed
/// direction, its position in the owning box's connector list, and its
/// current boolean state.
#[derive(Debug)]
pub struct Connector {
    pub name: String,
    pub direction: ConnectorDirection,
    pub idx: usize,
    pub state: bool,
}

/// Mathematical model of a connector.
pub struct ConnectorView {
    pub name: Seq<char>,
    pub direction: ConnectorDirection,
    pub idx: usize,
    pub state: bool,
}

impl View for Connector {
    type V = ConnectorView;

    open spec fn view(&self) -> ConnectorView {
        ConnectorView {
            name: self.name@,
            direction: self.direction,
            idx: self.idx,
            state: self.state,
        }
    }
}

impl Connector {
    /// A fresh connector carries a low signal.
    pub fn new(name: String, direction: ConnectorDirection, idx: usize) -> (r: Connector)
        ensures
            r@ == (ConnectorView { name: name@, direction, idx, state: false }),
    {
        Connector { name, direction, idx, state: false }
    }

    pub fn new_input(name: String, idx: usize) -> (r: Connector)
        ensures
            r@ == (ConnectorView { name: name@, direction: ConnectorDirection::Input, idx, state: false }),
    {
        Self::new(name, ConnectorDirection::Input, idx)
    }

    pub fn new_output(name: String, idx: usize) -> (r: Connector)
        ensures
            r@ == (ConnectorView { name: name@, direction: ConnectorDirection::Output, idx, state: false }),
    {
        Self::new(name, ConnectorDirection::Output, idx)
    }

    /// A copy of this connector, name included.
    pub fn duplicate(&self) -> (r: Connector)
        ensures
            r@ == self@,
    {
        Connector { name: self.name.clone(), direction: self.direction, idx: self.idx, state: self.state }
    }
}

/// Connectors are the same terminal when they sit at the same position with
/// the same direction; the name plays no part.
impl PartialEq for Connector {
    fn eq(&self, other: &Connector) -> (r: bool) {
        self.idx == other.idx && self.direction == other.direction
    }
}

impl vstd::std_specs::cmp::PartialEqSpecImpl for Connector {
    open spec fn obeys_eq_spec() -> bool {
        true
    }

    open spec fn eq_spec(&self, other: &Connector) -> bool {
        self.idx == other.idx && self.direction == other.direction
    }
}

} // verus!
