use vstd::prelude::*;
use crate::circuit::{keep_others, lemma_keep_others, with_state, CircuitError, CircuitView, ConnectorRef, FunctionBoxRef};
use crate::connector::ConnectorDirection;
use crate::edge_list::{
    edge_map, has_key, key_at, lemma_edge_map_at, lemma_edge_map_key, lemma_edge_map_push,
    lemma_edge_map_swap_remove, lemma_edge_map_update, unique_keys, EdgeEntry,
};
use crate::connector::ConnectorView;
use crate::function_box::{box_output, FunctionBox, FunctionBoxView};
use crate::persistence::{lemma_valid_circuit, Snapshot};
use crate::propagation::{
    all_supported, apply_step, first_unsupported, lemma_run_generation, lemma_run_shape, run, same_shape,
    wired_from,
};
use crate::wire_graph::{
    edge_end, graph_add_edge, graph_add_node, graph_edge_count, graph_edge_endpoints, graph_edge_weight,
    graph_edges, graph_edges_at, graph_find_edge, lists_edges_at, graph_new, graph_node_count, graph_remove_edge, graph_set_edge_weight, swap_removed,
    WireGraph,
};

verus! {

/// A circuit: an arena of function boxes addressed by handle, and a wire
/// graph whose node `i` stands for box `i`.
#[derive(Debug)]
pub struct Container {
    boxes: Vec<FunctionBox>,
    graph: WireGraph,
    generation: usize,
}

impl View for Container {
    type V = CircuitView;

    closed spec fn view(&self) -> CircuitView {
        CircuitView {
            boxes: self.boxes@.map_values(|b: FunctionBox| b@),
            wires: edge_map(graph_edges(self.graph)),
            generation: self.generation,
        }
    }
}

/// An edge carries a wire into terminal `t`.
spec fn carries(e: EdgeEntry, t: (FunctionBoxRef, ConnectorRef)) -> bool {
    e.1 == t.0 && exists|j: int| 0 <= j < e.2.len() && (#[trigger] e.2[j]).1 == t.1
}

/// A copy of a list of wires.
fn copy_wires(w: &Vec<(usize, usize)>) -> (r: Vec<(usize, usize)>)
    ensures
        r@ == w@,
{
    let mut r: Vec<(usize, usize)> = Vec::new();
    let mut j: usize = 0;
    while j < w.len()
        invariant
            j <= w@.len(),
            r@ == w@.subrange(0, j as int),
        decreases w@.len() - j,
    {
        r.push(w[j]);
        j += 1;
        assert(r@ =~= w@.subrange(0, j as int));
    }
    assert(w@.subrange(0, w@.len() as int) =~= w@);
    r
}

/// The wires of `w` that do not end at input `c`.
fn wires_not_to(w: &Vec<(usize, usize)>, c: usize) -> (r: Vec<(usize, usize)>)
    ensures
        r@ == keep_others(w@, c),
{
    let mut r: Vec<(usize, usize)> = Vec::new();
    let mut j: usize = 0;
    while j < w.len()
        invariant
            j <= w@.len(),
            r@ == keep_others(w@.subrange(0, j as int), c),
        decreases w@.len() - j,
    {
        assert(w@.subrange(0, j + 1).drop_last() =~= w@.subrange(0, j as int));
        if w[j].1 != c {
            r.push(w[j]);
        }
        j += 1;
    }
    assert(w@.subrange(0, w@.len() as int) =~= w@);
    r
}

/// `bs` is `bs0` with the connectors picked by `hit` set to `res`.
spec fn updated(bs0: Seq<FunctionBoxView>, bs: Seq<FunctionBoxView>, res: bool, hit: spec_fn(int, int) -> bool) -> bool {
    &&& bs.len() == bs0.len()
    &&& forall|t: int|
        0 <= t < bs.len() ==> (#[trigger] bs[t]).connectors.len() == bs0[t].connectors.len() && bs[t] == (
        FunctionBoxView { connectors: bs[t].connectors, ..bs0[t] })
    &&& forall|t: int, c: int|
        0 <= t < bs.len() && 0 <= c < bs[t].connectors.len() ==> #[trigger] bs[t].connectors[c] == (if hit(t, c) {
            ConnectorView { state: res, ..bs0[t].connectors[c] }
        } else {
            bs0[t].connectors[c]
        })
}

proof fn lemma_updated_set(
    bs0: Seq<FunctionBoxView>,
    bs: Seq<FunctionBoxView>,
    res: bool,
    hit: spec_fn(int, int) -> bool,
    hit2: spec_fn(int, int) -> bool,
    t0: int,
    c0: int,
)
    requires
        updated(bs0, bs, res, hit),
        0 <= t0 < bs.len(),
        0 <= c0 < bs[t0].connectors.len(),
        forall|t: int, c: int| #[trigger] hit2(t, c) == (hit(t, c) || (t == t0 && c == c0)),
    ensures
        updated(bs0, bs.update(t0, with_state(bs[t0], c0, res)), res, hit2),
{
    let bs2 = bs.update(t0, with_state(bs[t0], c0, res));
    assert forall|t: int| 0 <= t < bs2.len() implies (#[trigger] bs2[t]).connectors.len() == bs0[t].connectors.len()
        && bs2[t] == (FunctionBoxView { connectors: bs2[t].connectors, ..bs0[t] }) by {
        assert(bs[t] == (FunctionBoxView { connectors: bs[t].connectors, ..bs0[t] }));
    }
    assert forall|t: int, c: int| 0 <= t < bs2.len() && 0 <= c < bs2[t].connectors.len() implies #[trigger] bs2[t].connectors[c]
        == (if hit2(t, c) {
        ConnectorView { state: res, ..bs0[t].connectors[c] }
    } else {
        bs0[t].connectors[c]
    }) by {
        assert(bs[t].connectors[c] == (if hit(t, c) {
            ConnectorView { state: res, ..bs0[t].connectors[c] }
        } else {
            bs0[t].connectors[c]
        }));
    }
}

/// A wire list has a wire into input `c`.
spec fn reaches(w: Seq<(usize, usize)>, c: int) -> bool {
    exists|q: int| 0 <= q < w.len() && (#[trigger] w[q]).1 == c
}

/// One of the first `q` wires of a list goes into input `c`.
spec fn reaches_upto(w: Seq<(usize, usize)>, c: int, q: int) -> bool {
    exists|q2: int| 0 <= q2 < q && (#[trigger] w[q2]).1 == c
}

/// One of the first `i` edges of `out` goes to box `t` and has a wire into
/// input `c`.
spec fn hits(es: Seq<EdgeEntry>, out: Seq<usize>, t: int, c: int, i: int) -> bool {
    exists|a: int| 0 <= a < i && es[out[a] as int].1 == t && #[trigger] reaches(es[out[a] as int].2, c)
}

proof fn lemma_hits_step(es: Seq<EdgeEntry>, out: Seq<usize>, i: int)
    requires
        0 <= i < out.len(),
    ensures
        forall|t: int, c: int|
            #[trigger] hits(es, out, t, c, i + 1) == (hits(es, out, t, c, i) || (es[out[i] as int].1 == t && reaches(
                es[out[i] as int].2,
                c,
            ))),
{
    assert forall|t: int, c: int|
        #[trigger] hits(es, out, t, c, i + 1) == (hits(es, out, t, c, i) || (es[out[i] as int].1 == t && reaches(
            es[out[i] as int].2,
            c,
        ))) by {
        if hits(es, out, t, c, i + 1) && !hits(es, out, t, c, i) {
            let a = choose|a: int| 0 <= a < i + 1 && es[out[a] as int].1 == t && #[trigger] reaches(es[out[a] as int].2, c);
            assert(a == i);
        }
    }
}

proof fn lemma_hits_all(es: Seq<EdgeEntry>, out: Seq<usize>, j: FunctionBoxRef, t: int, c: int)
    requires
        unique_keys(es),
        lists_edges_at(es, out, j, false),
        es.len() <= usize::MAX,
        0 <= t <= usize::MAX,
    ensures
        hits(es, out, t, c, out.len() as int) == wired_from(edge_map(es), j, t as FunctionBoxRef, c),
{
    let k = (j, t as FunctionBoxRef);
    if hits(es, out, t, c, out.len() as int) {
        let a = choose|a: int| 0 <= a < out.len() && es[out[a] as int].1 == t && #[trigger] reaches(es[out[a] as int].2, c);
        let e2 = out[a] as int;
        assert(edge_end(es, e2, false) == j);
        lemma_edge_map_at(es, e2);
        assert(key_at(es, e2) == k);
        let q = choose|q: int| 0 <= q < es[e2].2.len() && (#[trigger] es[e2].2[q]).1 == c;
        assert(edge_map(es)[k][q].1 == c);
    }
    if wired_from(edge_map(es), j, t as FunctionBoxRef, c) {
        let e2 = lemma_edge_map_key(es, k);
        assert(edge_end(es, e2, false) == j);
        assert(out.contains(e2 as usize));
        let a = choose|a: int| 0 <= a < out.len() && out[a] == e2 as usize;
        let q = choose|q: int| 0 <= q < edge_map(es)[k].len() && (#[trigger] edge_map(es)[k][q]).1 == c;
        assert(es[e2].2[q].1 == c);
        assert(reaches(es[out[a] as int].2, c));
    }
}

spec fn box_views(boxes: Seq<FunctionBox>) -> Seq<FunctionBoxView> {
    boxes.map_values(|b: FunctionBox| b@)
}

/// Sets the state of connector `c` of box `t`.
fn set_state(boxes: &mut Vec<FunctionBox>, t: FunctionBoxRef, c: ConnectorRef, s: bool)
    requires
        t < old(boxes)@.len(),
        c < old(boxes)@[t as int]@.connectors.len(),
    ensures
        box_views(final(boxes)@) == box_views(old(boxes)@).update(
            t as int,
            with_state(old(boxes)@[t as int]@, c as int, s),
        ),
        final(boxes)@.len() == old(boxes)@.len(),
{
    let ghost old_boxes = boxes@;
    boxes[t].connectors[c].state = s;
    proof {
        let goal = box_views(old_boxes).update(t as int, with_state(old_boxes[t as int]@, c as int, s));
        assert(boxes@[t as int].connectors@ == old_boxes[t as int].connectors@.update(
            c as int,
            boxes@[t as int].connectors@[c as int],
        ));
        assert(box_views(boxes@)[t as int].connectors =~= goal[t as int].connectors);
        assert(box_views(boxes@) =~= goal);
    }
}

impl Container {
    /// Boxes and graph nodes agree, edge keys are unique, and the model is
    /// well formed.
    pub closed spec fn wf(&self) -> bool {
        &&& self.boxes@.len() == graph_node_count(self.graph)
        &&& unique_keys(graph_edges(self.graph))
        &&& self@.wf()
    }

    /// The model of a well-formed container is well formed.
    pub proof fn lemma_view_wf(&self)
        requires
            self.wf(),
        ensures
            self@.wf(),
    {
    }

    /// An empty circuit.
    pub fn new() -> (r: Container)
        ensures
            r.wf(),
            r@.boxes.len() == 0,
            r@.wires.is_empty(),
            r@.generation == 0,
    {
        let r = Container { boxes: Vec::new(), graph: graph_new(), generation: 0 };
        assert(r@.boxes =~= Seq::<FunctionBoxView>::empty());
        assert(r@.wires =~= Map::<(usize, usize), Seq<(usize, usize)>>::empty());
        r
    }

    /// Inserts a box, unwired, and returns its handle.
    pub fn add(&mut self, function_box: FunctionBox) -> (r: FunctionBoxRef)
        requires
            old(self).wf(),
            function_box@.wf(),
        ensures
            final(self).wf(),
            r == old(self)@.boxes.len(),
            final(self)@.boxes == old(self)@.boxes.push(function_box@),
            final(self)@.wires == old(self)@.wires,
            final(self)@.generation == old(self)@.generation,
    {
        let r = graph_add_node(&mut self.graph);
        self.boxes.push(function_box);
        proof {
            let ob = old(self)@;
            let nb = self@;
            assert(nb.boxes =~= ob.boxes.push(function_box@));
            assert forall|k: (usize, usize), j: int|
                nb.wires.contains_key(k) && 0 <= j < nb.wires[k].len() implies nb.wire_ok(
                k,
                #[trigger] nb.wires[k][j],
            ) by {
                assert(ob.wire_ok(k, ob.wires[k][j]));
            }
        }
        r
    }

    /// The number of boxes.
    pub fn box_count(&self) -> (r: usize)
        ensures
            r == self@.boxes.len(),
    {
        self.boxes.len()
    }

    /// The number of ticks run.
    pub fn generation(&self) -> (r: usize)
        ensures
            r == self@.generation,
    {
        self.generation
    }

    /// The box with handle `b`, if there is one.
    pub fn get_box(&self, b: FunctionBoxRef) -> (r: Option<&FunctionBox>)
        ensures
            b < self@.boxes.len() ==> (r matches Some(x) && x@ == self@.boxes[b as int]),
            b >= self@.boxes.len() ==> r is None,
    {
        if b < self.boxes.len() {
            Some(&self.boxes[b])
        } else {
            None
        }
    }

    /// The state of the connector at terminal `t`, if it exists.
    pub fn connector_state(&self, t: (FunctionBoxRef, ConnectorRef)) -> (r: Option<bool>)
        ensures
            self@.valid_terminal(t) ==> r == Some(self@.boxes[t.0 as int].connectors[t.1 as int].state),
            !self@.valid_terminal(t) ==> r is None,
    {
        if t.0 < self.boxes.len() && t.1 < self.boxes[t.0].connectors.len() {
            proof {
                assert(self.boxes@[t.0 as int]@ == self@.boxes[t.0 as int]);
                assert(self.boxes@[t.0 as int].connectors@[t.1 as int]@ == self@.boxes[t.0 as int].connectors[t.1 as int]);
            }
            Some(self.boxes[t.0].connectors[t.1].state)
        } else {
            None
        }
    }

    /// The number of box pairs joined by wires.
    pub fn edge_count(&self) -> (r: usize)
        requires
            self.wf(),
        ensures
            self@.wires.dom().finite(),
            r == self@.wires.dom().len(),
    {
        let r = graph_edge_count(&self.graph);
        proof {
            self.lemma_edge_count();
        }
        r
    }

    proof fn lemma_edge_count(&self)
        requires
            self.wf(),
        ensures
            self@.wires.dom().finite(),
            self@.wires.dom().len() == graph_edges(self.graph).len(),
    {
        let es = graph_edges(self.graph);
        let keys = Seq::new(es.len(), |i: int| key_at(es, i));
        assert forall|i: int, j: int| 0 <= i < keys.len() && 0 <= j < keys.len() && i != j implies keys[i]
            != keys[j] by {
            assert(key_at(es, i) == keys[i]);
            assert(key_at(es, j) == keys[j]);
        }
        assert(keys.no_duplicates());
        assert forall|k: (usize, usize)| #[trigger] self@.wires.dom().contains(k) <==> keys.to_set().contains(k) by {
            if self@.wires.dom().contains(k) {
                let i = lemma_edge_map_key(es, k);
                assert(keys[i] == k);
            }
            if keys.to_set().contains(k) {
                let i = choose|i: int| 0 <= i < keys.len() && keys[i] == k;
                lemma_edge_map_at(es, i);
            }
        }
        assert(self@.wires.dom() =~= keys.to_set());
        keys.unique_seq_to_set();
    }

    /// The wires from box `a` to box `b`, as `(output, input)` pairs; empty
    /// when no wire joins them.
    pub fn wires_between(&self, a: FunctionBoxRef, b: FunctionBoxRef) -> (r: Vec<(ConnectorRef, ConnectorRef)>)
        requires
            self.wf(),
        ensures
            self@.wires.contains_key((a, b)) ==> r@ == self@.wires[(a, b)],
            !self@.wires.contains_key((a, b)) ==> r@.len() == 0,
    {
        if a >= self.boxes.len() || b >= self.boxes.len() {
            proof {
                if self@.wires.contains_key((a, b)) {
                    let w = self@.wires[(a, b)];
                    assert(self@.wire_ok((a, b), w[0]));
                }
            }
            return Vec::new();
        }
        match graph_find_edge(&self.graph, a, b) {
            Some(e) => {
                proof {
                    lemma_edge_map_at(graph_edges(self.graph), e as int);
                }
                copy_wires(graph_edge_weight(&self.graph, e))
            },
            None => {
                proof {
                    if self@.wires.contains_key((a, b)) {
                        let i = lemma_edge_map_key(graph_edges(self.graph), (a, b));
                        assert(key_at(graph_edges(self.graph), i) == (a, b));
                    }
                }
                Vec::new()
            },
        }
    }

    fn terminal_direction(&self, t: (FunctionBoxRef, ConnectorRef)) -> (r: Option<ConnectorDirection>)
        ensures
            self@.valid_terminal(t) ==> r == Some(self@.direction(t)),
            !self@.valid_terminal(t) ==> r is None,
    {
        if t.0 < self.boxes.len() && t.1 < self.boxes[t.0].connectors.len() {
            proof {
                assert(self.boxes@[t.0 as int]@ == self@.boxes[t.0 as int]);
                assert(self.boxes@[t.0 as int].connectors@[t.1 as int]@ == self@.boxes[t.0 as int].connectors[t.1 as int]);
            }
            Some(self.boxes[t.0].connectors[t.1].direction)
        } else {
            None
        }
    }

    /// The edge that carries a wire into terminal `t`, if any.
    fn edge_into(&self, t: (FunctionBoxRef, ConnectorRef)) -> (r: Option<usize>)
        requires
            self.wf(),
        ensures
            r matches Some(e) ==> e < graph_edges(self.graph).len() && carries(graph_edges(self.graph)[e as int], t),
            r is None ==> forall|e: int|
                0 <= e < graph_edges(self.graph).len() ==> !carries(#[trigger] graph_edges(self.graph)[e], t),
    {
        let ghost es = graph_edges(self.graph);
        let m = graph_edge_count(&self.graph);
        let incoming = graph_edges_at(&self.graph, t.0, true);
        let mut i: usize = 0;
        while i < incoming.len()
            invariant
                self.wf(),
                es == graph_edges(self.graph),
                m == es.len(),
                lists_edges_at(es, incoming@, t.0, true),
                i <= incoming@.len(),
                forall|a: int| 0 <= a < i ==> !carries(#[trigger] es[incoming@[a] as int], t),
            decreases incoming@.len() - i,
        {
            let e = incoming[i];
            assert(e < es.len() && edge_end(es, e as int, true) == t.0);
            let w = graph_edge_weight(&self.graph, e);
            let mut q: usize = 0;
            while q < w.len()
                invariant
                    self.wf(),
                    es == graph_edges(self.graph),
                    e < es.len(),
                    es[e as int].1 == t.0,
                    w@ == es[e as int].2,
                    q <= w@.len(),
                    forall|q2: int| 0 <= q2 < q ==> (#[trigger] w@[q2]).1 != t.1,
                decreases w@.len() - q,
            {
                if w[q].1 == t.1 {
                    return Some(e);
                }
                q += 1;
            }
            i += 1;
        }
        proof {
            assert forall|e: int| 0 <= e < es.len() implies !carries(#[trigger] es[e], t) by {
                if carries(es[e], t) {
                    assert(edge_end(es, e, true) == t.0);
                    assert(incoming@.contains(e as usize));
                    let p = choose|p: int| 0 <= p < incoming@.len() && incoming@[p] == e as usize;
                    assert(incoming@[p] as int == e);
                }
            }
        }
        None
    }

    /// Whether terminal `t` has an incoming wire.
    pub fn input_driven(&self, t: (FunctionBoxRef, ConnectorRef)) -> (r: bool)
        requires
            self.wf(),
        ensures
            r == self@.is_driven(t),
    {
        let ghost es = graph_edges(self.graph);
        match self.edge_into(t) {
            Some(e) => {
                proof {
                    let src = es[e as int].0;
                    lemma_edge_map_at(es, e as int);
                    let q = choose|q: int| 0 <= q < es[e as int].2.len() && (#[trigger] es[e as int].2[q]).1 == t.1;
                    assert(self@.wires[(src, t.0)][q].1 == t.1);
                    assert(self@.feeds(src, t));
                }
                true
            },
            None => {
                proof {
                    if self@.is_driven(t) {
                        let src = choose|src: FunctionBoxRef| #[trigger] self@.feeds(src, t);
                        let a = lemma_edge_map_key(es, (src, t.0));
                        let q = choose|q: int|
                            0 <= q < self@.wires[(src, t.0)].len() && (#[trigger] self@.wires[(src, t.0)][q]).1 == t.1;
                        assert(es[a].2[q].1 == t.1);
                        assert(carries(es[a], t));
                    }
                }
                false
            },
        }
    }

    /// Whether a wire could join the two terminals: one is an output and the
    /// other an input that has no incoming wire yet.
    pub fn can_connect(&self, c1: (FunctionBoxRef, ConnectorRef), c2: (FunctionBoxRef, ConnectorRef)) -> (r: bool)
        requires
            self.wf(),
        ensures
            r == self@.can_connect(c1, c2),
    {
        match output_input_pair(self, c1, c2) {
            Some((_, input)) => !self.input_driven(input),
            None => false,
        }
    }

    /// Wires `output` to `input`. Fails with `InvalidWiring` unless `output`
    /// is an output connector and `input` an input connector, and with
    /// `InputAlreadyDriven` when `input` already has an incoming wire; on
    /// failure nothing changes. Connecting the same pair again therefore
    /// leaves a single wire.
    pub fn connect(&mut self, output: (FunctionBoxRef, ConnectorRef), input: (FunctionBoxRef, ConnectorRef)) -> (r: Result<(), CircuitError>)
        requires
            old(self).wf(),
        ensures
            final(self).wf(),
            r == old(self)@.connect_outcome(output, input),
            r is Ok ==> final(self)@ == old(self)@.with_wire(output, input),
            r is Err ==> final(self)@ == old(self)@,
    {
        match (self.terminal_direction(output), self.terminal_direction(input)) {
            (Some(ConnectorDirection::Output), Some(ConnectorDirection::Input)) => {},
            _ => {
                return Err(CircuitError::InvalidWiring);
            },
        }
        if self.input_driven(input) {
            return Err(CircuitError::InputAlreadyDriven);
        }
        let ghost ov = self@;
        let ghost es = graph_edges(self.graph);
        let pair = (output.1, input.1);
        match graph_find_edge(&self.graph, output.0, input.0) {
            Some(e) => {
                let mut w = copy_wires(graph_edge_weight(&self.graph, e));
                w.push(pair);
                graph_set_edge_weight(&mut self.graph, e, w);
                proof {
                    lemma_edge_map_at(es, e as int);
                    lemma_edge_map_update(es, e as int, w@);
                }
            },
            None => {
                let mut w: Vec<(usize, usize)> = Vec::new();
                w.push(pair);
                proof {
                    if has_key(es, (output.0, input.0)) {
                        let i = choose|i: int| 0 <= i < es.len() && #[trigger] key_at(es, i) == (output.0, input.0);
                        assert(key_at(es, i) == (output.0, input.0));
                    }
                    lemma_edge_map_push(es, (output.0, input.0, w@));
                    assert(w@ =~= seq![pair]);
                }
                graph_add_edge(&mut self.graph, output.0, input.0, w);
            },
        }
        proof {
            self.lemma_with_wire_wf(ov, output, input);
        }
        Ok(())
    }

    /// Removes every wire into input `connector` and sets it low; an edge
    /// left without wires is removed. Fails with `InvalidWiring`, changing
    /// nothing, unless `connector` is an existing input connector.
    pub fn disconnect(&mut self, connector: (FunctionBoxRef, ConnectorRef)) -> (r: Result<(), CircuitError>)
        requires
            old(self).wf(),
        ensures
            final(self).wf(),
            r == old(self)@.disconnect_outcome(connector),
            r is Ok ==> final(self)@ == old(self)@.without_wires_to(connector),
            r is Err ==> final(self)@ == old(self)@,
    {
        match self.terminal_direction(connector) {
            Some(ConnectorDirection::Input) => {},
            _ => {
                return Err(CircuitError::InvalidWiring);
            },
        }
        let ghost ov = self@;
        let ghost goal = ov.without_wires_to(connector);
        let ghost m0 = ov.wires;
        let ghost m1 = goal.wires;
        let ghost es = graph_edges(self.graph);
        proof {
            assert(self.boxes@[connector.0 as int]@ == ov.boxes[connector.0 as int]);
        }
        set_state(&mut self.boxes, connector.0, connector.1, false);
        proof {
            assert(self@.boxes =~= goal.boxes);
        }
        let found = self.edge_into(connector);
        proof {
            // every edge into the box other than the one found keeps all its wires
            assert forall|k: (FunctionBoxRef, FunctionBoxRef)|
                #[trigger] m0.contains_key(k) && (found matches Some(e) ==> k != key_at(es, e as int))
                    implies m1.contains_key(k) && m1[k] == m0[k] by {
                if k.1 == connector.0 {
                    let a = lemma_edge_map_key(es, k);
                    assert forall|q: int| 0 <= q < m0[k].len() implies (#[trigger] m0[k][q]).1 != connector.1 by {
                        if m0[k][q].1 == connector.1 {
                            assert(es[a].2[q].1 == connector.1);
                            assert(carries(es[a], connector));
                            if let Some(e) = found {
                                lemma_edge_map_at(es, e as int);
                                let q0 = choose|q0: int|
                                    0 <= q0 < es[e as int].2.len() && (#[trigger] es[e as int].2[q0]).1 == connector.1;
                                let k0 = key_at(es, e as int);
                                assert(m0[k0][q0].1 == m0[k][q].1);
                            }
                        }
                    }
                    lemma_keep_others(m0[k], connector.1);
                }
            }
        }
        match found {
            Some(e) => {
                let w = wires_not_to(graph_edge_weight(&self.graph, e), connector.1);
                let ghost k0 = key_at(es, e as int);
                proof {
                    lemma_edge_map_at(es, e as int);
                }
                if w.len() == 0 {
                    graph_remove_edge(&mut self.graph, e);
                    proof {
                        lemma_edge_map_swap_remove(es, e as int);
                        assert(edge_map(graph_edges(self.graph)) =~= m1);
                    }
                } else {
                    graph_set_edge_weight(&mut self.graph, e, w);
                    proof {
                        lemma_edge_map_update(es, e as int, w@);
                        assert(edge_map(graph_edges(self.graph)) =~= m1);
                    }
                }
            },
            None => {
                proof {
                    assert(edge_map(graph_edges(self.graph)) =~= m1);
                }
            },
        }
        proof {
            assert(self@ == goal);
            self.lemma_without_wires_wf(ov, connector);
        }
        Ok(())
    }

    proof fn lemma_without_wires_wf(&self, ov: CircuitView, t: (FunctionBoxRef, ConnectorRef))
        requires
            ov.wf(),
            ov.is_input(t),
            self@ == ov.without_wires_to(t),
        ensures
            self@.wf(),
    {
        let v = self@;
        assert forall|b: int| 0 <= b < v.boxes.len() implies (#[trigger] v.boxes[b]).wf() by {
            assert(ov.boxes[b].wf());
        }
        assert forall|k: (FunctionBoxRef, FunctionBoxRef), j: int|
            v.wires.contains_key(k) && 0 <= j < v.wires[k].len() implies v.wire_ok(k, #[trigger] v.wires[k][j]) by {
            if k.1 == t.0 {
                lemma_keep_others(ov.wires[k], t.1);
                assert(v.wires[k].contains(v.wires[k][j]));
                let i = choose|i: int| 0 <= i < ov.wires[k].len() && ov.wires[k][i] == v.wires[k][j];
                assert(ov.wire_ok(k, ov.wires[k][i]));
            } else {
                assert(ov.wire_ok(k, ov.wires[k][j]));
            }
        }
        assert forall|k1: (FunctionBoxRef, FunctionBoxRef), k2: (FunctionBoxRef, FunctionBoxRef), j1: int, j2: int|
            v.wires.contains_key(k1) && v.wires.contains_key(k2) && 0 <= j1 < v.wires[k1].len() && 0 <= j2
                < v.wires[k2].len() && k1.1 == k2.1 && (#[trigger] v.wires[k1][j1]).1 == (
            #[trigger] v.wires[k2][j2]).1 implies k1 == k2 && j1 == j2 by {
            let i1 = if k1.1 == t.0 {
                lemma_keep_others(ov.wires[k1], t.1);
                assert(v.wires[k1].contains(v.wires[k1][j1]));
                choose|i: int| 0 <= i < ov.wires[k1].len() && ov.wires[k1][i] == v.wires[k1][j1]
            } else {
                j1
            };
            let i2 = if k2.1 == t.0 {
                lemma_keep_others(ov.wires[k2], t.1);
                assert(v.wires[k2].contains(v.wires[k2][j2]));
                choose|i: int| 0 <= i < ov.wires[k2].len() && ov.wires[k2][i] == v.wires[k2][j2]
            } else {
                j2
            };
            assert(ov.wires[k1][i1].1 == ov.wires[k2][i2].1);
            if k1 == k2 && k1.1 == t.0 {
                assert(ov.wires[k1].no_duplicates()) by {
                    assert forall|a: int, b: int| 0 <= a < ov.wires[k1].len() && 0 <= b < ov.wires[k1].len() && a != b
                        implies ov.wires[k1][a] != ov.wires[k1][b] by {
                        if ov.wires[k1][a] == ov.wires[k1][b] {
                            assert(ov.wires[k1][a].1 == ov.wires[k1][b].1);
                        }
                    }
                }
                lemma_keep_others(ov.wires[k1], t.1);
            }
        }
    }

    /// Box `j` has been evaluated to `res`: its outputs and every input that
    /// its wires reach take `res`, and it is marked as evaluated in `target`.
    fn propagate(&mut self, j: FunctionBoxRef, res: bool, target: usize, Ghost(ov): Ghost<CircuitView>)
        requires
            ov.wf(),
            ov.wires == old(self)@.wires,
            ov.boxes.len() == old(self)@.boxes.len(),
            forall|t: int| 0 <= t < ov.boxes.len() ==> same_shape(#[trigger] old(self)@.boxes[t], ov.boxes[t]),
            old(self).boxes@.len() == graph_node_count(old(self).graph),
            unique_keys(graph_edges(old(self).graph)),
            j < ov.boxes.len() <= usize::MAX,
        ensures
            final(self)@.boxes == apply_step(old(self)@.boxes, ov.wires, j, res, target),
            final(self).boxes@.len() == old(self).boxes@.len(),
            final(self).graph == old(self).graph,
            final(self).generation == old(self).generation,
    {
        let ghost bs0 = self@.boxes;
        let ghost es = graph_edges(self.graph);
        let ghost lo = bs0[j as int].inputs_len as int;
        assert(bs0[j as int].wf()) by {
            assert(ov.boxes[j as int].wf());
        }
        let hi = self.boxes[j].connectors.len();
        let mut c = self.boxes[j].inputs_len;
        proof {
            assert(self.boxes@[j as int]@ == bs0[j as int]);
            assert(updated(bs0, self@.boxes, res, |t: int, c2: int| t == j && lo <= c2 < c));
        }
        while c < hi
            invariant
                bs0.len() == ov.boxes.len(),
                j < bs0.len(),
                hi == bs0[j as int].connectors.len(),
                lo <= c <= hi,
                self.graph == old(self).graph,
                self.generation == old(self).generation,
                self.boxes@.len() == bs0.len(),
                updated(bs0, self@.boxes, res, |t: int, c2: int| t == j && lo <= c2 < c),
            decreases hi - c,
        {
            proof {
                lemma_updated_set(
                    bs0,
                    self@.boxes,
                    res,
                    |t: int, c2: int| t == j && lo <= c2 < c,
                    |t: int, c2: int| t == j && lo <= c2 < c + 1,
                    j as int,
                    c as int,
                );
            }
            set_state(&mut self.boxes, j, c, res);
            c += 1;
        }
        let m = graph_edge_count(&self.graph);
        let out = graph_edges_at(&self.graph, j, false);
        let mut i: usize = 0;
        proof {
            assert(updated(
                bs0,
                self@.boxes,
                res,
                |t: int, c2: int| (t == j && lo <= c2 < hi) || hits(es, out@, t, c2, i as int),
            )) by {
                assert forall|t: int, c2: int| #[trigger] hits(es, out@, t, c2, 0) == false by {}
            }
        }
        while i < out.len()
            invariant
                lists_edges_at(es, out@, j, false),
                ov.wf(),
                ov.wires == edge_map(es),
                unique_keys(es),
                forall|t: int| 0 <= t < ov.boxes.len() ==> same_shape(#[trigger] bs0[t], ov.boxes[t]),
                bs0.len() == ov.boxes.len(),
                j < bs0.len(),
                hi == bs0[j as int].connectors.len(),
                es == graph_edges(self.graph),
                m == es.len(),
                i <= out@.len(),
                self.graph == old(self).graph,
                self.generation == old(self).generation,
                self.boxes@.len() == bs0.len(),
                updated(bs0, self@.boxes, res, |t: int, c2: int| (t == j && lo <= c2 < hi) || hits(es, out@, t, c2, i as int)),
            decreases out@.len() - i,
        {
            let e = out[i];
            assert(e < es.len() && edge_end(es, e as int, false) == j);
            if let Some((src, target_box)) = graph_edge_endpoints(&self.graph, e) {
                if src == j {
                    let w = graph_edge_weight(&self.graph, e);
                    let mut q: usize = 0;
                    proof {
                        lemma_edge_map_at(es, e as int);
                        assert forall|c2: int| #[trigger] reaches_upto(w@, c2, 0) == false by {}
                    }
                    while q < w.len()
                        invariant
                            ov.wf(),
                            ov.wires == edge_map(es),
                            forall|t: int| 0 <= t < ov.boxes.len() ==> same_shape(#[trigger] bs0[t], ov.boxes[t]),
                            bs0.len() == ov.boxes.len(),
                            j < bs0.len(),
                            es == graph_edges(self.graph),
                            m == es.len(),
                            e < m,
                            es[e as int].0 == j,
                            es[e as int].1 == target_box,
                            w@ == es[e as int].2,
                            ov.wires.contains_key((j, target_box)),
                            ov.wires[(j, target_box)] == w@,
                            q <= w@.len(),
                            self.graph == old(self).graph,
                            self.generation == old(self).generation,
                            self.boxes@.len() == bs0.len(),
                            updated(
                                bs0,
                                self@.boxes,
                                res,
                                |t: int, c2: int|
                                    (t == j && lo <= c2 < hi) || hits(es, out@, t, c2, i as int) || (t == target_box
                                        && reaches_upto(w@, c2, q as int)),
                            ),
                        decreases w@.len() - q,
                    {
                        let input = w[q].1;
                        proof {
                            assert(ov.wire_ok((j, target_box), w@[q as int]));
                            assert(same_shape(bs0[target_box as int], ov.boxes[target_box as int]));
                            assert forall|c2: int| #[trigger] reaches_upto(w@, c2, q + 1) == (reaches_upto(w@, c2, q as int)
                                || c2 == input) by {
                                if reaches_upto(w@, c2, q + 1) && !reaches_upto(w@, c2, q as int) {
                                    let q2 = choose|q2: int| 0 <= q2 < q + 1 && (#[trigger] w@[q2]).1 == c2;
                                    assert(q2 == q);
                                }
                                if c2 == input {
                                    assert(w@[q as int].1 == c2);
                                }
                            }
                            lemma_updated_set(
                                bs0,
                                self@.boxes,
                                res,
                                |t: int, c2: int|
                                    (t == j && lo <= c2 < hi) || hits(es, out@, t, c2, i as int) || (t == target_box
                                        && reaches_upto(w@, c2, q as int)),
                                |t: int, c2: int|
                                    (t == j && lo <= c2 < hi) || hits(es, out@, t, c2, i as int) || (t == target_box
                                        && reaches_upto(w@, c2, q + 1)),
                                target_box as int,
                                input as int,
                            );
                        }
                        set_state(&mut self.boxes, target_box, input, res);
                        q += 1;
                    }
                    proof {
                        lemma_hits_step(es, out@, i as int);
                        assert forall|c2: int| #[trigger] reaches_upto(w@, c2, w@.len() as int) == reaches(w@, c2) by {}
                    }
                } else {
                    proof {
                        lemma_hits_step(es, out@, i as int);
                    }
                }
            }
            i += 1;
        }
        let ghost mid = self@.boxes;
        self.boxes[j].generation = target;
        proof {
            let goal = apply_step(bs0, ov.wires, j, res, target);
            assert forall|t: int, c2: int| 0 <= t < bs0.len() implies #[trigger] hits(es, out@, t, c2, out@.len() as int)
                == wired_from(ov.wires, j, t as FunctionBoxRef, c2) by {
                lemma_hits_all(es, out@, j, t, c2);
            }
            assert forall|t: int| 0 <= t < bs0.len() implies #[trigger] self@.boxes[t] == goal[t] by {
                assert(mid[t] == (FunctionBoxView { connectors: mid[t].connectors, ..bs0[t] }));
                assert(self@.boxes[t].connectors =~= goal[t].connectors);
            }
            assert(self@.boxes =~= goal);
        }
    }

    /// Runs one tick: every box is evaluated exactly once, in handle order,
    /// from the input states that the earlier evaluations of the tick left;
    /// its result goes onto its outputs and through its wires onto the
    /// inputs they reach, and the box is marked with the new tick count,
    /// which the container keeps itself rather than reading it off a box. When
    /// some box's name selects no evaluation rule, nothing changes and the
    /// first such box is reported.
    pub fn tick(&mut self) -> (r: Result<(), CircuitError>)
        requires
            old(self).wf(),
            old(self)@.generation < usize::MAX,
        ensures
            final(self).wf(),
            r is Ok <==> all_supported(old(self)@.boxes),
            r is Ok ==> final(self)@ == old(self)@.ticked(),
            r is Ok ==> forall|b: int|
                0 <= b < final(self)@.boxes.len() ==> (#[trigger] final(self)@.boxes[b]).generation
                    == final(self)@.generation,
            r matches Err(CircuitError::UnsupportedGateKind { box_ref, kind }) ==> first_unsupported(
                old(self)@.boxes,
                box_ref as int,
            ) && kind@ == old(self)@.boxes[box_ref as int].name,
            r is Err ==> (r matches Err(CircuitError::UnsupportedGateKind { .. }) && final(self)@ == old(self)@),
    {
        let n = self.boxes.len();
        let mut b: usize = 0;
        while b < n
            invariant
                self.wf(),
                n == self@.boxes.len(),
                b <= n,
                forall|a: int| 0 <= a < b ==> (#[trigger] box_output(self@.boxes[a])) is Some,
            decreases n - b,
        {
            proof {
                assert(self.boxes@[b as int]@ == self@.boxes[b as int]);
                assert(self@.boxes[b as int].wf());
            }
            if self.boxes[b].evaluate().is_none() {
                return Err(CircuitError::UnsupportedGateKind { box_ref: b, kind: self.boxes[b].name.clone() });
            }
            b += 1;
        }
        let target = self.generation + 1;
        let ghost ov = self@;
        let ghost graph0 = self.graph;
        let mut j: usize = 0;
        while j < n
            invariant
                ov.wf(),
                all_supported(ov.boxes),
                n == ov.boxes.len(),
                target == ov.generation + 1,
                j <= n,
                self.graph == graph0,
                self.boxes@.len() == n,
                self.generation == ov.generation,
                ov.wires == edge_map(graph_edges(graph0)),
                n == graph_node_count(graph0),
                unique_keys(graph_edges(graph0)),
                self@.boxes == run(ov.boxes, ov.wires, target, j as nat),
            decreases n - j,
        {
            proof {
                lemma_run_shape(ov.boxes, ov.wires, target, j as nat);
                assert(self.boxes@[j as int]@ == self@.boxes[j as int]);
                assert(same_shape(self@.boxes[j as int], ov.boxes[j as int]));
                assert(ov.boxes[j as int].wf());
            }
            if let Some(res) = self.boxes[j].evaluate() {
                self.propagate(j, res, target, Ghost(ov));
            }
            j += 1;
        }
        self.generation = target;
        proof {
            lemma_run_shape(ov.boxes, ov.wires, target, n as nat);
            lemma_run_generation(ov.boxes, ov.wires, target, n as nat);
            assert(self@ == ov.ticked());
            self.lemma_ticked_wf(ov);
        }
        Ok(())
    }

    proof fn lemma_ticked_wf(&self, ov: CircuitView)
        requires
            ov.wf(),
            self@.wires == ov.wires,
            self@.boxes.len() == ov.boxes.len(),
            forall|t: int| 0 <= t < ov.boxes.len() ==> same_shape(#[trigger] self@.boxes[t], ov.boxes[t]),
            self.boxes@.len() == graph_node_count(self.graph),
            unique_keys(graph_edges(self.graph)),
        ensures
            self.wf(),
    {
        let v = self@;
        assert forall|b: int| 0 <= b < v.boxes.len() implies (#[trigger] v.boxes[b]).wf() by {
            assert(same_shape(v.boxes[b], ov.boxes[b]));
            assert(ov.boxes[b].wf());
        }
        assert forall|k: (FunctionBoxRef, FunctionBoxRef), q: int|
            v.wires.contains_key(k) && 0 <= q < v.wires[k].len() implies v.wire_ok(k, #[trigger] v.wires[k][q]) by {
            let p = v.wires[k][q];
            assert(ov.wire_ok(k, p));
            assert(same_shape(v.boxes[k.0 as int], ov.boxes[k.0 as int]));
            assert(same_shape(v.boxes[k.1 as int], ov.boxes[k.1 as int]));
            assert(v.boxes[k.0 as int].connectors[p.0 as int].direction == ov.boxes[k.0 as int].connectors[p.0 as int].direction);
            assert(v.boxes[k.1 as int].connectors[p.1 as int].direction == ov.boxes[k.1 as int].connectors[p.1 as int].direction);
        }
    }

    /// The circuit as plain data: its boxes, its edges in the wire graph's
    /// order, and its tick count.
    pub fn snapshot(&self) -> (r: Snapshot)
        requires
            self.wf(),
        ensures
            r@.describes(self@),
    {
        let mut boxes: Vec<FunctionBox> = Vec::new();
        let mut b: usize = 0;
        while b < self.boxes.len()
            invariant
                b <= self.boxes@.len(),
                boxes@.len() == b,
                forall|a: int| 0 <= a < b ==> (#[trigger] boxes@[a])@ == self.boxes@[a]@,
            decreases self.boxes@.len() - b,
        {
            boxes.push(self.boxes[b].duplicate());
            b += 1;
        }
        let ghost es = graph_edges(self.graph);
        let m = graph_edge_count(&self.graph);
        let mut edges: Vec<(FunctionBoxRef, FunctionBoxRef, Vec<(usize, usize)>)> = Vec::new();
        let mut e: usize = 0;
        while e < m
            invariant
                es == graph_edges(self.graph),
                m == es.len(),
                e <= m,
                edges@.len() == e,
                forall|a: int| 0 <= a < e ==> ((#[trigger] edges@[a]).0, edges@[a].1, edges@[a].2@) == es[a],
            decreases m - e,
        {
            if let Some((src, target)) = graph_edge_endpoints(&self.graph, e) {
                edges.push((src, target, copy_wires(graph_edge_weight(&self.graph, e))));
            }
            e += 1;
        }
        let r = Snapshot { boxes, edges, generation: self.generation };
        assert(r@.boxes =~= self@.boxes);
        assert(r@.edges =~= es);
        r
    }

    /// The circuit that a snapshot describes, or `PersistenceError` when the
    /// snapshot does not describe a well-formed circuit.
    pub fn restore(s: Snapshot) -> (r: Result<Container, CircuitError>)
        ensures
            r is Ok <==> s@.valid(),
            r matches Ok(c) ==> c.wf() && c@ == s@.circuit(),
            r is Err ==> r == Err::<Container, CircuitError>(CircuitError::PersistenceError),
    {
        if !s.is_valid() {
            return Err(CircuitError::PersistenceError);
        }
        let ghost sv = s@;
        let Snapshot { boxes, edges, generation } = s;
        let mut graph = graph_new();
        let n = boxes.len();
        let mut i: usize = 0;
        while i < n
            invariant
                i <= n,
                graph_node_count(graph) == i,
                graph_edges(graph).len() == 0,
            decreases n - i,
        {
            graph_add_node(&mut graph);
            i += 1;
        }
        let mut e: usize = 0;
        while e < edges.len()
            invariant
                sv.valid(),
                sv.edges == edges@.map_values(|x: (FunctionBoxRef, FunctionBoxRef, Vec<(usize, usize)>)| (x.0, x.1, x.2@)),
                sv.boxes.len() == n,
                graph_node_count(graph) == n,
                e <= edges@.len(),
                graph_edges(graph) == sv.edges.subrange(0, e as int),
            decreases edges@.len() - e,
        {
            let edge = &edges[e];
            proof {
                assert(sv.edges[e as int] == (edge.0, edge.1, edge.2@));
                assert(sv.edges[e as int].2.len() > 0);
                assert(sv.circuit().wire_ok(key_at(sv.edges, e as int), sv.edges[e as int].2[0]));
            }
            graph_add_edge(&mut graph, edge.0, edge.1, copy_wires(&edge.2));
            e += 1;
            proof {
                assert(graph_edges(graph) =~= sv.edges.subrange(0, e as int));
            }
        }
        let c = Container { boxes, graph, generation };
        proof {
            assert(sv.edges.subrange(0, sv.edges.len() as int) =~= sv.edges);
            assert(c@.boxes =~= sv.boxes);
            lemma_valid_circuit(sv);
        }
        Ok(c)
    }

    /// Whether a wire is attached to terminal `t`.
    pub fn is_connected(&self, t: (FunctionBoxRef, ConnectorRef)) -> (r: bool)
        requires
            self.wf(),
        ensures
            r == self@.is_attached(t),
    {
        let ghost es = graph_edges(self.graph);
        let m = graph_edge_count(&self.graph);
        let outgoing = graph_edges_at(&self.graph, t.0, false);
        let incoming = graph_edges_at(&self.graph, t.0, true);
        let mut i: usize = 0;
        while i < outgoing.len()
            invariant
                self.wf(),
                es == graph_edges(self.graph),
                m == es.len(),
                lists_edges_at(es, outgoing@, t.0, false),
                i <= outgoing@.len(),
                forall|a: int, q: int|
                    0 <= a < i && 0 <= q < es[outgoing@[a] as int].2.len() ==> (#[trigger] es[outgoing@[a] as int].2[q]).0
                        != t.1,
            decreases outgoing@.len() - i,
        {
            let e = outgoing[i];
            assert(e < es.len() && edge_end(es, e as int, false) == t.0);
            let w = graph_edge_weight(&self.graph, e);
            let mut q: usize = 0;
            while q < w.len()
                invariant
                    self.wf(),
                    es == graph_edges(self.graph),
                    e < es.len(),
                    es[e as int].0 == t.0,
                    w@ == es[e as int].2,
                    q <= w@.len(),
                    forall|q2: int| 0 <= q2 < q ==> (#[trigger] w@[q2]).0 != t.1,
                decreases w@.len() - q,
            {
                if w[q].0 == t.1 {
                    proof {
                        lemma_edge_map_at(es, e as int);
                        assert(self@.wires[key_at(es, e as int)][q as int] == w@[q as int]);
                    }
                    return true;
                }
                q += 1;
            }
            i += 1;
        }
        let mut i: usize = 0;
        while i < incoming.len()
            invariant
                self.wf(),
                es == graph_edges(self.graph),
                m == es.len(),
                lists_edges_at(es, incoming@, t.0, true),
                i <= incoming@.len(),
                forall|a: int, q: int|
                    0 <= a < i && 0 <= q < es[incoming@[a] as int].2.len() ==> (#[trigger] es[incoming@[a] as int].2[q]).1
                        != t.1,
            decreases incoming@.len() - i,
        {
            let e = incoming[i];
            assert(e < es.len() && edge_end(es, e as int, true) == t.0);
            let w = graph_edge_weight(&self.graph, e);
            let mut q: usize = 0;
            while q < w.len()
                invariant
                    self.wf(),
                    es == graph_edges(self.graph),
                    e < es.len(),
                    es[e as int].1 == t.0,
                    w@ == es[e as int].2,
                    q <= w@.len(),
                    forall|q2: int| 0 <= q2 < q ==> (#[trigger] w@[q2]).1 != t.1,
                decreases w@.len() - q,
            {
                if w[q].1 == t.1 {
                    proof {
                        lemma_edge_map_at(es, e as int);
                        assert(self@.wires[key_at(es, e as int)][q as int] == w@[q as int]);
                    }
                    return true;
                }
                q += 1;
            }
            i += 1;
        }
        proof {
            if self@.is_attached(t) {
                let (k, q) = choose|k: (FunctionBoxRef, FunctionBoxRef), q: int|
                    self@.wires.contains_key(k) && 0 <= q < self@.wires[k].len() && ((k.0 == t.0 && (
                    #[trigger] self@.wires[k][q]).0 == t.1) || (k.1 == t.0 && self@.wires[k][q].1 == t.1));
                let a = lemma_edge_map_key(es, k);
                assert(es[a].2[q] == self@.wires[k][q]);
                if k.0 == t.0 && self@.wires[k][q].0 == t.1 {
                    assert(edge_end(es, a, false) == t.0);
                    assert(outgoing@.contains(a as usize));
                    let p = choose|p: int| 0 <= p < outgoing@.len() && outgoing@[p] == a as usize;
                    assert(es[outgoing@[p] as int].2[q].0 == t.1);
                } else {
                    assert(edge_end(es, a, true) == t.0);
                    assert(incoming@.contains(a as usize));
                    let p = choose|p: int| 0 <= p < incoming@.len() && incoming@[p] == a as usize;
                    assert(es[incoming@[p] as int].2[q].1 == t.1);
                }
            }
        }
        false
    }

    proof fn lemma_with_wire_wf(&self, ov: CircuitView, output: (FunctionBoxRef, ConnectorRef), input: (FunctionBoxRef, ConnectorRef))
        requires
            ov.wf(),
            ov.is_output(output),
            ov.is_input(input),
            !ov.is_driven(input),
            self@ == ov.with_wire(output, input),
        ensures
            self@.wf(),
    {
        let v = self@;
        let k0 = (output.0, input.0);
        let p = (output.1, input.1);
        assert forall|k: (FunctionBoxRef, FunctionBoxRef), j: int|
            v.wires.contains_key(k) && 0 <= j < v.wires[k].len() implies v.wire_ok(k, #[trigger] v.wires[k][j]) by {
            if k != k0 || (ov.wires.contains_key(k) && j < ov.wires[k].len()) {
                assert(ov.wire_ok(k, ov.wires[k][j]));
            }
        }
        assert forall|k1: (FunctionBoxRef, FunctionBoxRef), k2: (FunctionBoxRef, FunctionBoxRef), j1: int, j2: int|
            v.wires.contains_key(k1) && v.wires.contains_key(k2) && 0 <= j1 < v.wires[k1].len() && 0 <= j2
                < v.wires[k2].len() && k1.1 == k2.1 && (#[trigger] v.wires[k1][j1]).1 == (
            #[trigger] v.wires[k2][j2]).1 implies k1 == k2 && j1 == j2 by {
            let new1 = k1 == k0 && !(ov.wires.contains_key(k1) && j1 < ov.wires[k1].len());
            let new2 = k2 == k0 && !(ov.wires.contains_key(k2) && j2 < ov.wires[k2].len());
            if new1 && !new2 {
                assert(ov.wires[k2][j2].1 == input.1);
                assert(ov.feeds(k2.0, input));
            } else if new2 && !new1 {
                assert(ov.wires[k1][j1].1 == input.1);
                assert(ov.feeds(k1.0, input));
            } else if !new1 && !new2 {
                assert(ov.wires[k1][j1] == v.wires[k1][j1]);
                assert(ov.wires[k2][j2] == v.wires[k2][j2]);
            }
        }
    }
}

/// The two terminals ordered as (output, input), or `None` when one of them
/// does not exist or both have the same direction.
pub fn output_input_pair(container: &Container, c1: (FunctionBoxRef, ConnectorRef), c2: (FunctionBoxRef, ConnectorRef)) -> (r: Option<
    ((FunctionBoxRef, ConnectorRef), (FunctionBoxRef, ConnectorRef)),
>)
    ensures
        r == container@.output_input_pair(c1, c2),
{
    match (container.terminal_direction(c1), container.terminal_direction(c2)) {
        (Some(d1), Some(d2)) => {
            if d1 != d2 {
                if d1 == ConnectorDirection::Output {
                    Some((c1, c2))
                } else {
                    Some((c2, c1))
                }
            } else {
                None
            }
        },
        _ => None,
    }
}

} // verus!
