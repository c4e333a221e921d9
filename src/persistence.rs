use vstd::prelude::*;
use crate::circuit::{CircuitView, FunctionBoxRef};
use crate::connector::ConnectorDirection;
use crate::edge_list::{edge_map, key_at, lemma_edge_map_at, lemma_edge_map_key, unique_keys, EdgeEntry};
use crate::function_box::{direction_at, FunctionBox, FunctionBoxView};

verus! {

/// A circuit as plain data, the form in which it is saved and loaded: the
/// boxes by handle, the edges as (source box, target box, wires), and the
/// number of ticks run.
#[derive(Debug)]
pub struct Snapshot {
    pub boxes: Vec<FunctionBox>,
    pub edges: Vec<(FunctionBoxRef, FunctionBoxRef, Vec<(usize, usize)>)>,
    pub generation: usize,
}

/// Mathematical model of a snapshot.
pub struct SnapshotView {
    pub boxes: Seq<FunctionBoxView>,
    pub edges: Seq<EdgeEntry>,
    pub generation: usize,
}

impl View for Snapshot {
    type V = SnapshotView;

    open spec fn view(&self) -> SnapshotView {
        SnapshotView {
            boxes: self.boxes@.map_values(|b: FunctionBox| b@),
            edges: self.edges@.map_values(
                |e: (FunctionBoxRef, FunctionBoxRef, Vec<(usize, usize)>)| (e.0, e.1, e.2@),
            ),
            generation: self.generation,
        }
    }
}

/// Wire `q1` of edge `e1` and wire `q2` of edge `e2` are two different wires
/// into the same input.
pub open spec fn clash(es: Seq<EdgeEntry>, e1: int, q1: int, e2: int, q2: int) -> bool {
    &&& (e1, q1) != (e2, q2)
    &&& es[e1].1 == es[e2].1
    &&& es[e1].2[q1].1 == es[e2].2[q2].1
}

/// No wire clashes with wire `q1` of edge `e1`.
pub open spec fn clash_free(es: Seq<EdgeEntry>, e1: int, q1: int) -> bool {
    forall|e2: int, q2: int| 0 <= e2 < es.len() && 0 <= q2 < es[e2].2.len() ==> !#[trigger] clash(es, e1, q1, e2, q2)
}

impl SnapshotView {
    /// The circuit that the snapshot describes.
    pub open spec fn circuit(self) -> CircuitView {
        CircuitView { boxes: self.boxes, wires: edge_map(self.edges), generation: self.generation }
    }

    /// The snapshot describes a well-formed circuit: well-formed boxes, one
    /// edge per box pair, no edge without
    /// wires, every wire from an output to an input, and no input with two
    /// incoming wires.
    pub open spec fn valid(self) -> bool {
        &&& forall|b: int|
            0 <= b < self.boxes.len() ==> (#[trigger] self.boxes[b]).wf()
        &&& unique_keys(self.edges)
        &&& forall|e: int| 0 <= e < self.edges.len() ==> (#[trigger] self.edges[e]).2.len() > 0
        &&& forall|e: int, q: int|
            0 <= e < self.edges.len() && 0 <= q < self.edges[e].2.len() ==> self.circuit().wire_ok(
                key_at(self.edges, e),
                #[trigger] self.edges[e].2[q],
            )
        &&& forall|e: int, q: int|
            0 <= e < self.edges.len() && 0 <= q < self.edges[e].2.len() ==> #[trigger] clash_free(self.edges, e, q)
    }

    /// The snapshot holds circuit `c`: the same boxes and tick count, and its
    /// edges, one per box pair, carry exactly the wires of `c`.
    pub open spec fn describes(self, c: CircuitView) -> bool {
        &&& self.boxes == c.boxes
        &&& self.generation == c.generation
        &&& unique_keys(self.edges)
        &&& edge_map(self.edges) == c.wires
    }
}

/// A valid snapshot describes a well-formed circuit.
pub proof fn lemma_valid_circuit(s: SnapshotView)
    requires
        s.valid(),
    ensures
        s.circuit().wf(),
{
    let c = s.circuit();
    let es = s.edges;
    assert forall|k: (FunctionBoxRef, FunctionBoxRef)| #[trigger] c.wires.contains_key(k) implies c.wires[k].len() > 0 by {
        let e = lemma_edge_map_key(es, k);
        assert(es[e].2.len() > 0);
    }
    assert forall|k: (FunctionBoxRef, FunctionBoxRef), j: int|
        c.wires.contains_key(k) && 0 <= j < c.wires[k].len() implies c.wire_ok(k, #[trigger] c.wires[k][j]) by {
        let e = lemma_edge_map_key(es, k);
        assert(c.wire_ok(key_at(es, e), es[e].2[j]));
    }
    assert forall|k1: (FunctionBoxRef, FunctionBoxRef), k2: (FunctionBoxRef, FunctionBoxRef), j1: int, j2: int|
        c.wires.contains_key(k1) && c.wires.contains_key(k2) && 0 <= j1 < c.wires[k1].len() && 0 <= j2
            < c.wires[k2].len() && k1.1 == k2.1 && (#[trigger] c.wires[k1][j1]).1 == (#[trigger] c.wires[k2][j2]).1
            implies k1 == k2 && j1 == j2 by {
        let e1 = lemma_edge_map_key(es, k1);
        let e2 = lemma_edge_map_key(es, k2);
        assert(clash_free(es, e1, j1));
        assert(!clash(es, e1, j1, e2, j2));
    }
}

/// Saving and loading gives the circuit back: a snapshot that holds a
/// well-formed circuit is valid, and the circuit it describes is that one,
/// with the same boxes, connector states, edges and wires.
pub proof fn lemma_snapshot_round_trip(s: SnapshotView, c: CircuitView)
    requires
        c.wf(),
        s.describes(c),
    ensures
        s.valid(),
        s.circuit() == c,
{
    let es = s.edges;
    assert forall|e: int| 0 <= e < es.len() implies (#[trigger] es[e]).2.len() > 0 by {
        lemma_edge_map_at(es, e);
    }
    assert forall|e: int, q: int| 0 <= e < es.len() && 0 <= q < es[e].2.len() implies s.circuit().wire_ok(
        key_at(es, e),
        #[trigger] es[e].2[q],
    ) by {
        lemma_edge_map_at(es, e);
        assert(c.wire_ok(key_at(es, e), c.wires[key_at(es, e)][q]));
    }
    assert forall|e: int, q: int| 0 <= e < es.len() && 0 <= q < es[e].2.len() implies #[trigger] clash_free(
        es,
        e,
        q,
    ) by {
        assert forall|e2: int, q2: int| 0 <= e2 < es.len() && 0 <= q2 < es[e2].2.len() implies !#[trigger] clash(
            es,
            e,
            q,
            e2,
            q2,
        ) by {
            lemma_edge_map_at(es, e);
            lemma_edge_map_at(es, e2);
            let k1 = key_at(es, e);
            let k2 = key_at(es, e2);
            if es[e].1 == es[e2].1 && es[e].2[q].1 == es[e2].2[q2].1 {
                assert(c.wires[k1][q] == es[e].2[q]);
                assert(c.wires[k2][q2] == es[e2].2[q2]);
                assert(k1 == k2 && q == q2);
            }
        }
    }
}

/// Whether `t` is an existing connector of direction `d`.
fn terminal_is(boxes: &Vec<FunctionBox>, t: (FunctionBoxRef, usize), d: ConnectorDirection) -> (r: bool)
    ensures
        r == (t.0 < boxes@.len() && t.1 < boxes@[t.0 as int]@.connectors.len()
            && boxes@[t.0 as int]@.connectors[t.1 as int].direction == d),
{
    if t.0 < boxes.len() && t.1 < boxes[t.0].connectors.len() {
        assert(boxes@[t.0 as int].connectors@[t.1 as int]@ == boxes@[t.0 as int]@.connectors[t.1 as int]);
        boxes[t.0].connectors[t.1].direction == d
    } else {
        false
    }
}

fn boxes_valid(s: &Snapshot) -> (r: bool)
    ensures
        r == forall|b: int|
            0 <= b < s@.boxes.len() ==> (#[trigger] s@.boxes[b]).wf(),
{
    let mut b: usize = 0;
    while b < s.boxes.len()
        invariant
            b <= s@.boxes.len(),
            forall|a: int| 0 <= a < b ==> (#[trigger] s@.boxes[a]).wf(),
        decreases s@.boxes.len() - b,
    {
        assert(s.boxes@[b as int]@ == s@.boxes[b as int]);
        if !s.boxes[b].is_well_formed() {
            return false;
        }
        b += 1;
    }
    true
}

fn wires_valid(s: &Snapshot) -> (r: bool)
    ensures
        r == ((forall|e: int| 0 <= e < s@.edges.len() ==> (#[trigger] s@.edges[e]).2.len() > 0) && (forall|e: int, q: int|
            0 <= e < s@.edges.len() && 0 <= q < s@.edges[e].2.len() ==> s@.circuit().wire_ok(
                key_at(s@.edges, e),
                #[trigger] s@.edges[e].2[q],
            ))),
{
    let ghost es = s@.edges;
    let ghost c = s@.circuit();
    let mut e: usize = 0;
    while e < s.edges.len()
        invariant
            es == s@.edges,
            c == s@.circuit(),
            e <= es.len(),
            forall|a: int| 0 <= a < e ==> (#[trigger] es[a]).2.len() > 0,
            forall|a: int, q: int| 0 <= a < e && 0 <= q < es[a].2.len() ==> c.wire_ok(key_at(es, a), #[trigger] es[a].2[q]),
        decreases es.len() - e,
    {
        let edge = &s.edges[e];
        assert(es[e as int] == (edge.0, edge.1, edge.2@));
        if edge.2.len() == 0 {
            return false;
        }
        let mut q: usize = 0;
        while q < edge.2.len()
            invariant
                es == s@.edges,
                c == s@.circuit(),
                e < es.len(),
                es[e as int] == (edge.0, edge.1, edge.2@),
                q <= edge.2@.len(),
                forall|q2: int| 0 <= q2 < q ==> c.wire_ok(key_at(es, e as int), #[trigger] es[e as int].2[q2]),
            decreases edge.2@.len() - q,
        {
            let p = edge.2[q];
            if !terminal_is(&s.boxes, (edge.0, p.0), ConnectorDirection::Output) || !terminal_is(
                &s.boxes,
                (edge.1, p.1),
                ConnectorDirection::Input,
            ) {
                return false;
            }
            q += 1;
        }
        e += 1;
    }
    true
}

fn keys_valid(s: &Snapshot) -> (r: bool)
    ensures
        r == unique_keys(s@.edges),
{
    let ghost es = s@.edges;
    let n = s.edges.len();
    let mut e1: usize = 0;
    while e1 < n
        invariant
            es == s@.edges,
            n == es.len(),
            e1 <= n,
            forall|i: int, j: int| 0 <= i < e1 && 0 <= j < e1 && #[trigger] key_at(es, i) == #[trigger] key_at(es, j) ==> i == j,
        decreases n - e1,
    {
        let mut e2: usize = 0;
        while e2 < e1
            invariant
                es == s@.edges,
                n == es.len(),
                e2 <= e1 < n,
                forall|j: int| 0 <= j < e2 ==> key_at(es, e1 as int) != #[trigger] key_at(es, j),
            decreases e1 - e2,
        {
            assert(key_at(es, e1 as int) == (s.edges@[e1 as int].0, s.edges@[e1 as int].1));
            assert(key_at(es, e2 as int) == (s.edges@[e2 as int].0, s.edges@[e2 as int].1));
            if s.edges[e1].0 == s.edges[e2].0 && s.edges[e1].1 == s.edges[e2].1 {
                return false;
            }
            e2 += 1;
        }
        e1 += 1;
    }
    true
}

/// Whether wire `q1` of edge `e1` clashes with no wire.
fn wire_clash_free(s: &Snapshot, e1: usize, q1: usize) -> (r: bool)
    requires
        e1 < s@.edges.len(),
        q1 < s@.edges[e1 as int].2.len(),
    ensures
        r == clash_free(s@.edges, e1 as int, q1 as int),
{
    let ghost es = s@.edges;
    assert(es[e1 as int] == (s.edges@[e1 as int].0, s.edges@[e1 as int].1, s.edges@[e1 as int].2@));
    let target = s.edges[e1].1;
    let input = s.edges[e1].2[q1].1;
    let mut e2: usize = 0;
    while e2 < s.edges.len()
        invariant
            es == s@.edges,
            e1 < es.len(),
            q1 < es[e1 as int].2.len(),
            target == es[e1 as int].1,
            input == es[e1 as int].2[q1 as int].1,
            e2 <= es.len(),
            forall|a: int, q2: int| 0 <= a < e2 && 0 <= q2 < es[a].2.len() ==> !#[trigger] clash(es, e1 as int, q1 as int, a, q2),
        decreases es.len() - e2,
    {
        let edge = &s.edges[e2];
        assert(es[e2 as int] == (edge.0, edge.1, edge.2@));
        if edge.1 == target {
            let mut q2: usize = 0;
            while q2 < edge.2.len()
                invariant
                    es == s@.edges,
                    e1 < es.len(),
                    q1 < es[e1 as int].2.len(),
                    e2 < es.len(),
                    es[e2 as int] == (edge.0, edge.1, edge.2@),
                    edge.1 == target,
                    target == es[e1 as int].1,
                    input == es[e1 as int].2[q1 as int].1,
                    q2 <= edge.2@.len(),
                    forall|r: int| 0 <= r < q2 ==> !#[trigger] clash(es, e1 as int, q1 as int, e2 as int, r),
                decreases edge.2@.len() - q2,
            {
                if edge.2[q2].1 == input && (e1 != e2 || q1 != q2) {
                    assert(es[e2 as int].2[q2 as int] == edge.2@[q2 as int]);
                    assert((e1 as int, q1 as int) != (e2 as int, q2 as int));
                    assert(clash(es, e1 as int, q1 as int, e2 as int, q2 as int));
                    return false;
                }
                q2 += 1;
            }
        }
        e2 += 1;
    }
    true
}

fn drivers_valid(s: &Snapshot) -> (r: bool)
    ensures
        r == forall|e: int, q: int|
            0 <= e < s@.edges.len() && 0 <= q < s@.edges[e].2.len() ==> #[trigger] clash_free(s@.edges, e, q),
{
    let ghost es = s@.edges;
    let mut e: usize = 0;
    while e < s.edges.len()
        invariant
            es == s@.edges,
            e <= es.len(),
            forall|a: int, q: int| 0 <= a < e && 0 <= q < es[a].2.len() ==> #[trigger] clash_free(es, a, q),
        decreases es.len() - e,
    {
        let n = s.edges[e].2.len();
        assert(es[e as int].2 == s.edges@[e as int].2@);
        let mut q: usize = 0;
        while q < n
            invariant
                es == s@.edges,
                e < es.len(),
                n == es[e as int].2.len(),
                q <= n,
                forall|a: int, q2: int| 0 <= a < e && 0 <= q2 < es[a].2.len() ==> #[trigger] clash_free(es, a, q2),
                forall|q2: int| 0 <= q2 < q ==> #[trigger] clash_free(es, e as int, q2),
            decreases n - q,
        {
            if !wire_clash_free(s, e, q) {
                return false;
            }
            q += 1;
        }
        e += 1;
    }
    true
}

impl Snapshot {
    /// Whether the snapshot describes a well-formed circuit.
    pub fn is_valid(&self) -> (r: bool)
        ensures
            r == self@.valid(),
    {
        boxes_valid(self) && keys_valid(self) && wires_valid(self) && drivers_valid(self)
    }
}

} // verus!
