use vstd::prelude::*;
use crate::wire_graph::swap_removed;

verus! {

/// One edge of the wire graph: source box, target box, and the
/// `(output index, input index)` pairs of its wires.
pub type EdgeEntry = (usize, usize, Seq<(usize, usize)>);

/// The box pair that edge `i` joins.
pub open spec fn key_at(es: Seq<EdgeEntry>, i: int) -> (usize, usize) {
    (es[i].0, es[i].1)
}

pub open spec fn has_key(es: Seq<EdgeEntry>, k: (usize, usize)) -> bool {
    exists|i: int| 0 <= i < es.len() && #[trigger] key_at(es, i) == k
}

/// No two edges join the same ordered pair of boxes.
pub open spec fn unique_keys(es: Seq<EdgeEntry>) -> bool {
    forall|i: int, j: int|
        0 <= i < es.len() && 0 <= j < es.len() && #[trigger] key_at(es, i) == #[trigger] key_at(es, j)
            ==> i == j
}

/// The wires of an edge list, keyed by the box pair they join.
pub open spec fn edge_map(es: Seq<EdgeEntry>) -> Map<(usize, usize), Seq<(usize, usize)>> {
    Map::new(
        |k: (usize, usize)| has_key(es, k),
        |k: (usize, usize)| es[choose|i: int| 0 <= i < es.len() && key_at(es, i) == k].2,
    )
}

pub proof fn lemma_edge_map_at(es: Seq<EdgeEntry>, i: int)
    requires
        unique_keys(es),
        0 <= i < es.len(),
    ensures
        edge_map(es).contains_key(key_at(es, i)),
        edge_map(es)[key_at(es, i)] == es[i].2,
{
    let k = key_at(es, i);
    assert(has_key(es, k));
    let j = choose|j: int| 0 <= j < es.len() && key_at(es, j) == k;
    assert(j == i);
}

/// Every key of the map is the key of some edge.
pub proof fn lemma_edge_map_key(es: Seq<EdgeEntry>, k: (usize, usize)) -> (i: int)
    requires
        unique_keys(es),
        edge_map(es).contains_key(k),
    ensures
        0 <= i < es.len(),
        key_at(es, i) == k,
        edge_map(es)[k] == es[i].2,
{
    let i = choose|i: int| 0 <= i < es.len() && key_at(es, i) == k;
    lemma_edge_map_at(es, i);
    i
}

pub proof fn lemma_edge_map_push(es: Seq<EdgeEntry>, e: EdgeEntry)
    requires
        unique_keys(es),
        !has_key(es, (e.0, e.1)),
    ensures
        unique_keys(es.push(e)),
        edge_map(es.push(e)) == edge_map(es).insert((e.0, e.1), e.2),
{
    let es2 = es.push(e);
    assert forall|i: int, j: int|
        0 <= i < es2.len() && 0 <= j < es2.len() && #[trigger] key_at(es2, i) == #[trigger] key_at(es2, j)
            implies i == j by {
        if i < es.len() {
            assert(key_at(es2, i) == key_at(es, i));
        }
        if j < es.len() {
            assert(key_at(es2, j) == key_at(es, j));
        }
    }
    let m = edge_map(es).insert((e.0, e.1), e.2);
    assert forall|k: (usize, usize)| #[trigger] edge_map(es2).contains_key(k) implies m.contains_key(k)
        && edge_map(es2)[k] == m[k] by {
        let i = lemma_edge_map_key(es2, k);
        if i < es.len() {
            assert(key_at(es2, i) == key_at(es, i));
            lemma_edge_map_at(es, i);
        }
    }
    assert forall|k: (usize, usize)| #[trigger] m.contains_key(k) implies edge_map(es2).contains_key(k) by {
        if k == (e.0, e.1) {
            lemma_edge_map_at(es2, es.len() as int);
        } else {
            let i = lemma_edge_map_key(es, k);
            assert(key_at(es2, i) == key_at(es, i));
            lemma_edge_map_at(es2, i);
        }
    }
    assert(edge_map(es2) =~= m);
}

pub proof fn lemma_edge_map_update(es: Seq<EdgeEntry>, i: int, w: Seq<(usize, usize)>)
    requires
        unique_keys(es),
        0 <= i < es.len(),
    ensures
        unique_keys(es.update(i, (es[i].0, es[i].1, w))),
        edge_map(es.update(i, (es[i].0, es[i].1, w))) == edge_map(es).insert(key_at(es, i), w),
{
    let es2 = es.update(i, (es[i].0, es[i].1, w));
    assert forall|a: int| 0 <= a < es.len() implies #[trigger] key_at(es2, a) == key_at(es, a) by {}
    let m = edge_map(es).insert(key_at(es, i), w);
    assert forall|k: (usize, usize)| #[trigger] edge_map(es2).contains_key(k) implies m.contains_key(k)
        && edge_map(es2)[k] == m[k] by {
        let j = lemma_edge_map_key(es2, k);
        lemma_edge_map_at(es, j);
    }
    assert forall|k: (usize, usize)| #[trigger] m.contains_key(k) implies edge_map(es2).contains_key(k) by {
        if k == key_at(es, i) {
            lemma_edge_map_at(es2, i);
        } else {
            let j = lemma_edge_map_key(es, k);
            lemma_edge_map_at(es2, j);
        }
    }
    assert(edge_map(es2) =~= m);
}

pub proof fn lemma_edge_map_swap_remove(es: Seq<EdgeEntry>, i: int)
    requires
        unique_keys(es),
        0 <= i < es.len(),
    ensures
        unique_keys(swap_removed(es, i)),
        edge_map(swap_removed(es, i)) == edge_map(es).remove(key_at(es, i)),
{
    let es2 = swap_removed(es, i);
    let last = es.len() - 1;
    // where each edge of the new list came from
    let src = |a: int| if a == i && i != last { last } else { a };
    assert forall|a: int| 0 <= a < es2.len() implies #[trigger] key_at(es2, a) == key_at(es, src(a))
        && es2[a] == es[src(a)] && 0 <= src(a) < es.len() && src(a) != i by {}
    assert forall|a: int, b: int|
        0 <= a < es2.len() && 0 <= b < es2.len() && #[trigger] key_at(es2, a) == #[trigger] key_at(es2, b)
            implies a == b by {
        assert(key_at(es2, a) == key_at(es, src(a)));
        assert(key_at(es2, b) == key_at(es, src(b)));
    }
    let m = edge_map(es).remove(key_at(es, i));
    assert forall|k: (usize, usize)| #[trigger] edge_map(es2).contains_key(k) implies m.contains_key(k)
        && edge_map(es2)[k] == m[k] by {
        let a = lemma_edge_map_key(es2, k);
        assert(key_at(es2, a) == key_at(es, src(a)));
        lemma_edge_map_at(es, src(a));
    }
    assert forall|k: (usize, usize)| #[trigger] m.contains_key(k) implies edge_map(es2).contains_key(k) by {
        let j = lemma_edge_map_key(es, k);
        assert(j != i);
        if j == last {
            assert(key_at(es2, i) == key_at(es, j));
            lemma_edge_map_at(es2, i);
        } else {
            assert(key_at(es2, j) == key_at(es, j));
            lemma_edge_map_at(es2, j);
        }
    }
    assert(edge_map(es2) =~= m);
}

} // verus!
