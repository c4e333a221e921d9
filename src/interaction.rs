use vstd::prelude::*;
use crate::circuit::{CircuitError, CircuitView, ConnectorRef, FunctionBoxRef};
use crate::container::{output_input_pair, Container};
use crate::draw::{EntityKind, FunctionBoxCollideDesc};

verus! {

/// What the pointer is dragging in the editor: a box, or a wire being
/// pulled from a connector towards a target connector. Pointer positions
/// stay with the caller; this holds the decisions.
#[derive(Debug, Clone, Copy)]
pub struct WireDrag {
    pub dragged_entity_kind: Option<EntityKind>,
    pub dragged_function_box: Option<FunctionBoxRef>,
    pub dragged_connector: Option<(FunctionBoxRef, ConnectorRef)>,
    pub dragged_connector_target: Option<(FunctionBoxRef, ConnectorRef)>,
}

/// The terminals that a release wires together, if any: the dragged
/// connector and its target, ordered as (output, input).
pub open spec fn release_pair(d: WireDrag, v: CircuitView) -> Option<
    ((FunctionBoxRef, ConnectorRef), (FunctionBoxRef, ConnectorRef)),
> {
    match (d.dragged_connector, d.dragged_connector_target) {
        (Some(a), Some(b)) => v.output_input_pair(a, b),
        _ => None,
    }
}

/// The drag after the held pointer is found over box `b`, hitting `hit`.
pub open spec fn drag_over(d: WireDrag, v: CircuitView, b: FunctionBoxRef, hit: Option<FunctionBoxCollideDesc>) -> WireDrag {
    match (d.dragged_entity_kind, hit) {
        (None, Some(FunctionBoxCollideDesc::FunctionBox)) => if d.dragged_function_box is None {
            WireDrag {
                dragged_entity_kind: Some(EntityKind::FunctionBox),
                dragged_function_box: Some(b),
                ..d
            }
        } else {
            d
        },
        (None, Some(FunctionBoxCollideDesc::Connector(c))) => WireDrag {
            dragged_entity_kind: Some(EntityKind::Connector),
            dragged_connector: Some((b, c)),
            ..d
        },
        (Some(EntityKind::Connector), Some(FunctionBoxCollideDesc::Connector(c))) => match d.dragged_connector {
            Some(from) => if v.can_connect(from, (b, c)) {
                WireDrag { dragged_connector_target: Some((b, c)), ..d }
            } else {
                d
            },
            None => d,
        },
        _ => d,
    }
}

/// The circuit after the held pointer is found over box `b`, hitting `hit`:
/// grabbing an input connector pulls its wire out.
pub open spec fn circuit_over(d: WireDrag, v: CircuitView, b: FunctionBoxRef, hit: Option<FunctionBoxCollideDesc>) -> CircuitView {
    match (d.dragged_entity_kind, hit) {
        (None, Some(FunctionBoxCollideDesc::Connector(c))) => v.after_disconnect((b, c)),
        _ => v,
    }
}

impl WireDrag {
    /// Nothing is dragged.
    pub fn new() -> (r: WireDrag)
        ensures
            r.dragged_entity_kind is None,
            r.dragged_function_box is None,
            r.dragged_connector is None,
            r.dragged_connector_target is None,
    {
        WireDrag {
            dragged_entity_kind: None,
            dragged_function_box: None,
            dragged_connector: None,
            dragged_connector_target: None,
        }
    }

    /// The pointer button is up: a wire dragged onto a target is connected,
    /// and the drag ends. Returns what `connect` reported, or `None` when
    /// nothing was to be connected.
    pub fn release(&mut self, container: &mut Container) -> (r: Option<Result<(), CircuitError>>)
        requires
            old(container).wf(),
        ensures
            final(container).wf(),
            *final(self) == WireDrag::spec_new(),
            match release_pair(*old(self), old(container)@) {
                Some(p) => r == Some(old(container)@.connect_outcome(p.0, p.1)) && final(container)@
                    == old(container)@.after_connect(p.0, p.1),
                None => r is None && final(container)@ == old(container)@,
            },
    {
        let mut r = None;
        if let (Some(a), Some(b)) = (self.dragged_connector, self.dragged_connector_target) {
            if let Some((output, input)) = output_input_pair(container, a, b) {
                r = Some(container.connect(output, input));
            }
        }
        *self = WireDrag::new();
        r
    }

    /// The drag in which nothing is dragged.
    pub open spec fn spec_new() -> WireDrag {
        WireDrag {
            dragged_entity_kind: None,
            dragged_function_box: None,
            dragged_connector: None,
            dragged_connector_target: None,
        }
    }

    /// A new frame with the pointer held: the target is looked for afresh.
    pub fn clear_target(&mut self)
        ensures
            *final(self) == (WireDrag { dragged_connector_target: None, ..*old(self) }),
    {
        self.dragged_connector_target = None;
    }

    /// The held pointer is over box `b`, hitting `hit`. With nothing dragged
    /// yet, a box hit starts dragging the box and a connector hit starts
    /// pulling a wire from the connector, first pulling out the wire that
    /// enters it if it is an input. While a wire is pulled, a connector that
    /// the wire could join becomes its target.
    pub fn pointer_over(&mut self, container: &mut Container, b: FunctionBoxRef, hit: Option<FunctionBoxCollideDesc>)
        requires
            old(container).wf(),
        ensures
            final(container).wf(),
            *final(self) == drag_over(*old(self), old(container)@, b, hit),
            final(container)@ == circuit_over(*old(self), old(container)@, b, hit),
    {
        match (self.dragged_entity_kind, hit) {
            (None, Some(FunctionBoxCollideDesc::FunctionBox)) => {
                if self.dragged_function_box.is_none() {
                    self.dragged_entity_kind = Some(EntityKind::FunctionBox);
                    self.dragged_function_box = Some(b);
                }
            },
            (None, Some(FunctionBoxCollideDesc::Connector(c))) => {
                let _ = container.disconnect((b, c));
                self.dragged_entity_kind = Some(EntityKind::Connector);
                self.dragged_connector = Some((b, c));
            },
            (Some(EntityKind::Connector), Some(FunctionBoxCollideDesc::Connector(c))) => {
                if let Some(from) = self.dragged_connector {
                    if container.can_connect(from, (b, c)) {
                        self.dragged_connector_target = Some((b, c));
                    }
                }
            },
            _ => {},
        }
    }
}

} // verus!
