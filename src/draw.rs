use vstd::prelude::*;
use crate::circuit::ConnectorRef;
use crate::connector::Connector;

verus! {

/// How a connector is to be drawn: whether it is highlighted and whether a
/// wire is attached to it.
pub struct ConnectorDraw<'a> {
    pub idx: usize,
    pub connector: &'a Connector,
    pub highlighted: bool,
    pub connected: bool,
}

impl<'a> ConnectorDraw<'a> {
    /// A connector drawn plain: not highlighted, shown unconnected.
    pub fn new(connector: &'a Connector, idx: usize) -> (r: ConnectorDraw<'a>)
        ensures
            r.connector == connector,
            r.idx == idx,
            !r.highlighted,
            !r.connected,
    {
        ConnectorDraw { idx, connector, highlighted: false, connected: false }
    }
}

/// What a point on a drawn function box hits.
#[derive(Debug, Clone, Copy, PartialEq, Eq, Structural)]
pub enum FunctionBoxCollideDesc {
    FunctionBox,
    Connector(ConnectorRef),
}

/// The kind of thing being dragged.
#[derive(Debug, Clone, Copy, PartialEq, Eq, Structural)]
pub enum EntityKind {
    FunctionBox,
    Connector,
}

} // verus!
