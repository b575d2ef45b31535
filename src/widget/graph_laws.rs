//! What holds of every dataflow graph: laws relating links, walks,
//! schedules and evaluation passes.
use vstd::prelude::*;

use crate::widget::node_editor::{
    discovered, evaluation_start, is_schedule, is_walk, ordered_before, outputs_settled, ranked, step,
    settled, Data, GraphView, PortKey,
};

verus! {

/// Two walks from the same node over the same links reach the same nodes.
pub proof fn walks_reach_same_nodes(
    links: Map<PortKey, PortKey>,
    forward: bool,
    start: u64,
    a: Seq<u64>,
    b: Seq<u64>,
)
    requires
        is_walk(links, forward, start, a),
        is_walk(links, forward, start, b),
    ensures
        a.to_set() == b.to_set(),
{
    assert forall|x: u64| a.contains(x) implies b.contains(x) by {
        let i = choose|i: int| 0 <= i < a.len() && a[i] == x;
        lemma_walk_within(links, forward, start, a, b, i);
    }
    assert forall|x: u64| b.contains(x) implies a.contains(x) by {
        let i = choose|i: int| 0 <= i < b.len() && b[i] == x;
        lemma_walk_within(links, forward, start, b, a, i);
    }
    assert(a.to_set() =~= b.to_set());
}

proof fn lemma_walk_within(links: Map<PortKey, PortKey>, forward: bool, start: u64, a: Seq<u64>, b: Seq<u64>, i: int)
    requires
        is_walk(links, forward, start, a),
        is_walk(links, forward, start, b),
        0 <= i < a.len(),
    ensures
        b.contains(a[i]),
    decreases i,
{
    let parents = choose|parents: Seq<int>| discovered(links, forward, a, parents);
    if i == 0 {
        assert(b[0] == start);
    } else {
        let p = parents[i];
        lemma_walk_within(links, forward, start, a, b, p);
        let q = choose|q: int| 0 <= q < b.len() && b[q] == a[p];
        assert(step(links, forward, b[q], a[i]));
    }
}

/// A schedule runs every node that `node` depends on before `node`, and each
/// of them before every node that reads one of its outputs, provided no
/// cycle of links runs through `node` and the nodes it depends on.
pub proof fn schedule_runs_dependencies_first(
    links: Map<PortKey, PortKey>,
    node: u64,
    dependencies: Seq<u64>,
    order: Seq<u64>,
    rank: spec_fn(u64) -> nat,
)
    requires
        is_walk(links, false, node, seq![node] + dependencies),
        is_schedule(links, node, order),
        ranked(links, rank, seq![node] + dependencies),
    ensures
        order.len() >= 1,
        order.last() == node,
        forall|d: u64| #[trigger] dependencies.contains(d) ==> order.contains(d),
        forall|a: int, b: int, k: PortKey|
            0 <= a < order.len() && 0 <= b < order.len() && #[trigger] links.contains_key(k) && links[k].0
                == #[trigger] order[a] && k.0 == #[trigger] order[b] && dependencies.contains(order[a]) ==> a < b,
{
    let all = seq![node] + dependencies;
    let walk = choose|walk: Seq<u64>|
        #[trigger] is_walk(links, false, node, walk) && ordered_before(links, node, order)
            && (forall|i: int| 0 <= i < order.len() ==> walk.contains(#[trigger] order[i]))
            && (forall|rank: spec_fn(u64) -> nat|
            #[trigger] ranked(links, rank, walk) ==> forall|i: int| 0 <= i < walk.len() ==> order.contains(#[trigger] walk[i]));
    walks_reach_same_nodes(links, false, node, all, walk);
    assert(ranked(links, rank, walk)) by {
        assert forall|k: PortKey| #[trigger] links.contains_key(k) && walk.contains(k.0) implies rank(links[k].0) < rank(k.0) by {
            assert(walk.to_set().contains(k.0));
            assert(all.to_set().contains(k.0));
        }
    }
    assert forall|d: u64| #[trigger] dependencies.contains(d) implies order.contains(d) by {
        let i = choose|i: int| 0 <= i < dependencies.len() && dependencies[i] == d;
        assert(all[i + 1] == d);
        assert(all.to_set().contains(d));
        assert(walk.to_set().contains(d));
        let j = choose|j: int| 0 <= j < walk.len() && walk[j] == d;
        assert(order.contains(walk[j]));
    }
    assert forall|a: int, b: int, k: PortKey|
        0 <= a < order.len() && 0 <= b < order.len() && #[trigger] links.contains_key(k) && links[k].0
            == #[trigger] order[a] && k.0 == #[trigger] order[b] && dependencies.contains(order[a]) implies a < b by {
        if b < order.len() - 1 {
            let p = choose|p: int| 0 <= p < b && order.subrange(0, b)[p] == links[k].0;
            assert(order[p] == order[a]);
        } else {
            let i = choose|i: int| 0 <= i < dependencies.len() && dependencies[i] == order[a];
            assert(all[i + 1] == order[a]);
            assert(all.no_duplicates());
            assert(all[0] == node);
            assert(order[a] != node);
        }
    }
}

/// After a pass that starts at the node owning the output an input is
/// linked to, the input reads the value that node produced when the pass
/// evaluated it: later evaluations in the pass leave it alone.
pub proof fn input_reads_value_of_this_pass<T, V>(
    before: GraphView<T, V>,
    after: GraphView<T, V>,
    order: Seq<u64>,
    trace: Seq<GraphView<T, V>>,
    input: PortKey,
)
    requires
        before.links.contains_key(input),
        is_walk(before.links, true, before.links[input].0, order),
        before.pass(after, order, trace),
    ensures
        after.links == before.links,
        after.input(input) == trace[1].values.get(before.links[input]),
{
    let output = before.links[input];
    lemma_pass_keeps(before, after, order, trace, output, 1);
    lemma_trace_links(before, after, order, trace, order.len() as int);
}

proof fn lemma_pass_keeps<T, V>(
    before: GraphView<T, V>,
    after: GraphView<T, V>,
    order: Seq<u64>,
    trace: Seq<GraphView<T, V>>,
    output: PortKey,
    i: int,
)
    requires
        before.pass(after, order, trace),
        order.no_duplicates(),
        order.len() >= 1,
        order[0] == output.0,
        1 <= i <= order.len(),
    ensures
        trace[i].links == before.links,
        trace[order.len() as int].values.get(output) == trace[i].values.get(output),
    decreases order.len() - i, 1int,
{
    lemma_trace_links(before, after, order, trace, i);
    if i < order.len() {
        assert(trace[i + 1].changed_only(trace[i], seq![order[i]]));
        assert(order[i] != order[0]);
        assert(!seq![order[i]].contains(output.0));
        lemma_pass_keeps(before, after, order, trace, output, i + 1);
    }
}

proof fn lemma_trace_links<T, V>(
    before: GraphView<T, V>,
    after: GraphView<T, V>,
    order: Seq<u64>,
    trace: Seq<GraphView<T, V>>,
    i: int,
)
    requires
        before.pass(after, order, trace),
        0 <= i <= order.len(),
    ensures
        trace[i].links == before.links,
    decreases i,
{
    if i > 0 {
        let j = i - 1;
        lemma_trace_links(before, after, order, trace, j);
        assert(trace[j + 1].same_shape(trace[j]));
    }
}

/// Evaluating a node during a pass changes the values of that node's
/// outputs only: every other output keeps its value, and every other node
/// its state.
pub proof fn evaluation_changes_only_own_outputs<T, V>(
    before: GraphView<T, V>,
    after: GraphView<T, V>,
    order: Seq<u64>,
    trace: Seq<GraphView<T, V>>,
    i: int,
    output: PortKey,
)
    requires
        before.pass(after, order, trace),
        0 <= i < order.len(),
        output.0 != order[i],
    ensures
        trace[i + 1].values.get(output) == trace[i].values.get(output),
        trace[i + 1].links == trace[i].links,
        forall|j: int|
            0 <= j < trace[i].nodes.len() && trace[i].nodes[j].id != order[i] ==> #[trigger] trace[i
                + 1].nodes[j] == trace[i].nodes[j],
{
    assert(trace[i + 1].changed_only(trace[i], seq![order[i]]));
    assert(!seq![order[i]].contains(output.0));
    assert forall|j: int|
        0 <= j < trace[i].nodes.len() && trace[i].nodes[j].id != order[i] implies #[trigger] trace[i
            + 1].nodes[j] == trace[i].nodes[j] by {
        assert(!seq![order[i]].contains(trace[i].nodes[j].id));
        assert(trace[i + 1].nodes[j].state == trace[i].nodes[j].state);
    }
}

/// Linking an input a second time replaces its first link: the input then
/// has exactly one link, to the second output, and no other link changed.
pub proof fn relinking_replaces_link(
    links: Map<PortKey, PortKey>,
    input: PortKey,
    first: PortKey,
    second: PortKey,
)
    ensures
        links.insert(input, first).insert(input, second)[input] == second,
        links.insert(input, first).insert(input, second) == links.insert(input, second),
{
    assert(links.insert(input, first).insert(input, second) =~= links.insert(input, second));
}

/// Invalidating the same node twice in a row, with no change in between,
/// evaluates the same nodes both times.
pub proof fn invalidating_twice_evaluates_same_nodes<T, V>(
    g0: GraphView<T, V>,
    g1: GraphView<T, V>,
    g2: GraphView<T, V>,
    node: u64,
    first: Seq<u64>,
    first_trace: Seq<GraphView<T, V>>,
    second: Seq<u64>,
    second_trace: Seq<GraphView<T, V>>,
)
    requires
        is_walk(g0.links, true, node, first),
        g0.pass(g1, first, first_trace),
        is_walk(g1.links, true, node, second),
        g1.pass(g2, second, second_trace),
    ensures
        g2.links == g0.links,
        first.to_set() == second.to_set(),
{
    lemma_trace_links(g0, g1, first, first_trace, first.len() as int);
    lemma_trace_links(g1, g2, second, second_trace, second.len() as int);
    walks_reach_same_nodes(g0.links, true, node, first, second);
}

/// With an evaluation function whose result depends only on the state it
/// is given and on what the view shows, evaluating a node depends only on
/// its state, its declared outputs, the links and the cached values: two
/// graphs that agree on those end with the same values and the same state
/// of the node.
pub proof fn evaluation_depends_on_state_and_view<T, V, F: Fn(&mut T, &mut Data<V>)>(
    f: F,
    node: u64,
    before1: GraphView<T, V>,
    after1: GraphView<T, V>,
    before2: GraphView<T, V>,
    after2: GraphView<T, V>,
)
    requires
        forall|s1: &mut T, d1: &mut Data<V>, s2: &mut T, d2: &mut Data<V>|
            #[trigger] call_ensures(f, (s1, d1), ()) && #[trigger] call_ensures(f, (s2, d2), ())
                && mut_ref_current(s1) == mut_ref_current(s2) && mut_ref_current(d1).node()
                == mut_ref_current(d2).node() && mut_ref_current(d1).links() == mut_ref_current(d2).links()
                && mut_ref_current(d1).cached() == mut_ref_current(d2).cached()
                && mut_ref_current(d1).commits() == mut_ref_current(d2).commits() ==> mut_ref_future(s1)
                == mut_ref_future(s2) && mut_ref_future(d1).commits() == mut_ref_future(d2).commits(),
        before1.record(node).state == before2.record(node).state,
        before1.record(node).outputs == before2.record(node).outputs,
        before1.links == before2.links,
        before1.values == before2.values,
        exists|s: &mut T, d: &mut Data<V>|
            #[trigger] call_ensures(f, (s, d), ()) && mut_ref_current(s) == before1.record(node).state
                && mut_ref_future(s) == after1.record(node).state && evaluation_start(
                mut_ref_current(d),
                before1,
                node,
            ) && outputs_settled(after1.values, mut_ref_current(d).cached(), node, mut_ref_future(d).commits()),
        exists|s: &mut T, d: &mut Data<V>|
            #[trigger] call_ensures(f, (s, d), ()) && mut_ref_current(s) == before2.record(node).state
                && mut_ref_future(s) == after2.record(node).state && evaluation_start(
                mut_ref_current(d),
                before2,
                node,
            ) && outputs_settled(after2.values, mut_ref_current(d).cached(), node, mut_ref_future(d).commits()),
    ensures
        after1.record(node).state == after2.record(node).state,
        forall|k: PortKey| #[trigger] after1.values.get(k) == after2.values.get(k),
{
    let (s1, d1) = choose|s: &mut T, d: &mut Data<V>|
        #[trigger] call_ensures(f, (s, d), ()) && mut_ref_current(s) == before1.record(node).state
            && mut_ref_future(s) == after1.record(node).state && evaluation_start(mut_ref_current(d), before1, node)
            && outputs_settled(after1.values, mut_ref_current(d).cached(), node, mut_ref_future(d).commits());
    let (s2, d2) = choose|s: &mut T, d: &mut Data<V>|
        #[trigger] call_ensures(f, (s, d), ()) && mut_ref_current(s) == before2.record(node).state
            && mut_ref_future(s) == after2.record(node).state && evaluation_start(mut_ref_current(d), before2, node)
            && outputs_settled(after2.values, mut_ref_current(d).cached(), node, mut_ref_future(d).commits());
    assert(mut_ref_current(d1).commits() =~= mut_ref_current(d2).commits());
    assert(mut_ref_future(d1).commits() == mut_ref_future(d2).commits());
    assert forall|k: PortKey| #[trigger] after1.values.get(k) == after2.values.get(k) by {
        assert(after1.values.get(k) == settled(mut_ref_current(d1).cached(), node, mut_ref_future(d1).commits(), k));
        assert(after2.values.get(k) == settled(mut_ref_current(d2).cached(), node, mut_ref_future(d2).commits(), k));
    }
}

} // verus!
