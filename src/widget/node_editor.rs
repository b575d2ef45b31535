//! The dataflow graph of a node editor: nodes with named ports, links from
//! outputs to inputs, and a cache of output values that is recomputed in
//! dependency order whenever the graph changes.
use std::marker::PhantomData;
use std::rc::Rc;
use iced_core::{Point, Size};
use indexmap::IndexMap;
use vstd::prelude::*;
use vstd::seq_lib::lemma_no_dup_in_concat;
use vstd::string::StringSliceAdditionalSpecFns;

use crate::foreign::{get_slot, insert_slot, new_slots, slot_entries};

verus! {

/// The identity of a port: the id of the node that owns it and its name.
pub type PortKey = (u64, Seq<char>);

/// Whether two port names hold the same text.
fn same_name(a: &str, b: &str) -> (r: bool)
    ensures
        r == (a@ == b@),
{
    let x = a.as_bytes();
    let y = b.as_bytes();
    if x.len() != y.len() {
        return false;
    }
    let mut i: usize = 0;
    while i < x.len()
        invariant
            0 <= i <= x.len(),
            x.len() == y.len(),
            x@ == a.spec_bytes(),
            y@ == b.spec_bytes(),
            forall|j: int| 0 <= j < i ==> x@[j] == y@[j],
        decreases x.len() - i,
    {
        if x[i] != y[i] {
            return false;
        }
        i += 1;
    }
    proof {
        assert(x@ =~= y@);
        vstd::utf8::encode_utf8_decode_utf8(a@);
        vstd::utf8::encode_utf8_decode_utf8(b@);
    }
    true
}

/// A node of the graph. Ids are handed out in creation order and never reused.
#[derive(Debug, Clone, Copy, PartialEq, Eq, Structural, PartialOrd, Ord, Hash)]
pub struct Node(u64);

impl View for Node {
    type V = u64;

    closed spec fn view(&self) -> u64 {
        self.0
    }
}

/// The id of an input port: its node and its name.
#[derive(Debug, Clone, Copy)]
pub struct InputId {
    node: Node,
    name: &'static str,
}

/// The id of an output port: its node and its name.
#[derive(Debug, Clone, Copy)]
pub struct OutputId {
    node: Node,
    name: &'static str,
}

impl View for InputId {
    type V = PortKey;

    closed spec fn view(&self) -> PortKey {
        (self.node.0, self.name@)
    }
}

impl View for OutputId {
    type V = PortKey;

    closed spec fn view(&self) -> PortKey {
        (self.node.0, self.name@)
    }
}

impl InputId {
    fn same(&self, other: &InputId) -> (r: bool)
        ensures
            r == (self@ == other@),
    {
        self.node.0 == other.node.0 && same_name(self.name, other.name)
    }

    fn node(&self) -> (r: Node)
        ensures
            r@ == self@.0,
    {
        self.node
    }
}

impl OutputId {
    fn same(&self, other: &OutputId) -> (r: bool)
        ensures
            r == (self@ == other@),
    {
        self.node.0 == other.node.0 && same_name(self.name, other.name)
    }

    fn node(&self) -> (r: Node)
        ensures
            r@ == self@.0,
    {
        self.node
    }
}

/// A connection from an output port to an input port.
#[derive(Debug, Clone, Copy)]
pub struct Link {
    input: InputId,
    output: OutputId,
}

impl View for Link {
    type V = (PortKey, PortKey);

    closed spec fn view(&self) -> (PortKey, PortKey) {
        (self.input@, self.output@)
    }
}

/// The links of a graph: at most one output for each input.
struct LinkTable {
    entries: Vec<Link>,
    map: Ghost<Map<PortKey, PortKey>>,
}

impl LinkTable {
    spec fn view(&self) -> Map<PortKey, PortKey> {
        self.map@
    }

    spec fn wf(&self) -> bool {
        &&& forall|j: int|
            0 <= j < self.entries.len() ==> self.map@.contains_key(#[trigger] self.entries@[j].input@)
                && self.map@[self.entries@[j].input@] == self.entries@[j].output@
        &&& forall|k: PortKey|
            #[trigger] self.map@.contains_key(k) ==> exists|j: int|
                0 <= j < self.entries.len() && self.entries@[j].input@ == k
        &&& forall|a: int, b: int|
            0 <= a < self.entries.len() && 0 <= b < self.entries.len() && a != b
                ==> self.entries@[a].input@ != self.entries@[b].input@
    }

    fn new() -> (r: LinkTable)
        ensures
            r.wf(),
            r.view() == Map::<PortKey, PortKey>::empty(),
    {
        LinkTable { entries: Vec::new(), map: Ghost(Map::empty()) }
    }

    fn find(&self, input: &InputId) -> (r: Option<usize>)
        requires
            self.wf(),
        ensures
            match r {
                Some(j) => j < self.entries.len() && self.entries@[j as int].input@ == input@,
                None => !self.view().contains_key(input@),
            },
    {
        let mut j: usize = 0;
        while j < self.entries.len()
            invariant
                self.wf(),
                0 <= j <= self.entries.len(),
                forall|i: int| 0 <= i < j ==> self.entries@[i].input@ != input@,
            decreases self.entries.len() - j,
        {
            if self.entries[j].input.same(input) {
                return Some(j);
            }
            j += 1;
        }
        None
    }

    fn get(&self, input: &InputId) -> (r: Option<OutputId>)
        requires
            self.wf(),
        ensures
            match r {
                Some(o) => self.view().contains_key(input@) && self.view()[input@] == o@,
                None => !self.view().contains_key(input@),
            },
    {
        match self.find(input) {
            Some(j) => Some(self.entries[j].output),
            None => None,
        }
    }

    fn insert(&mut self, link: Link)
        requires
            old(self).wf(),
        ensures
            final(self).wf(),
            final(self).view() == old(self).view().insert(link.input@, link.output@),
    {
        let ghost k = link.input@;
        let ghost at: int;
        match self.find(&link.input) {
            Some(j) => {
                self.entries.set(j, link);
                proof {
                    at = j as int;
                }
            },
            None => {
                self.entries.push(link);
                proof {
                    at = self.entries.len() - 1;
                }
            },
        }
        self.map = Ghost(self.map@.insert(link.input@, link.output@));
        assert(self.entries@[at].input@ == k);
        assert forall|a: int, b: int|
            0 <= a < self.entries.len() && 0 <= b < self.entries.len() && a != b
                implies self.entries@[a].input@ != self.entries@[b].input@ by {
            if a != at && b != at {
                assert(self.entries@[a] == old(self).entries@[a]);
                assert(self.entries@[b] == old(self).entries@[b]);
            } else if a == at {
                if b < old(self).entries.len() {
                    assert(self.entries@[b] == old(self).entries@[b]);
                    assert(old(self).map@.contains_key(old(self).entries@[b].input@));
                }
            } else {
                if a < old(self).entries.len() {
                    assert(self.entries@[a] == old(self).entries@[a]);
                    assert(old(self).map@.contains_key(old(self).entries@[a].input@));
                }
            }
        }
        assert forall|i: int|
            0 <= i < self.entries.len() implies self.map@.contains_key(#[trigger] self.entries@[i].input@)
                && self.map@[self.entries@[i].input@] == self.entries@[i].output@ by {
            if i != at {
                assert(self.entries@[i] == old(self).entries@[i]);
            }
        }
        assert forall|key: PortKey| #[trigger] self.map@.contains_key(key) implies exists|j: int|
            0 <= j < self.entries.len() && self.entries@[j].input@ == key by {
            if key != k {
                let j = choose|j: int|
                    0 <= j < old(self).entries.len() && old(self).entries@[j].input@ == key;
                assert(self.entries@[j].input@ == key);
            } else {
                assert(self.entries@[at].input@ == key);
            }
        }
    }
}


/// What a borrowed optional value holds.
pub open spec fn owned<V>(r: Option<&V>) -> Option<V> {
    match r {
        Some(v) => Some(*v),
        None => None,
    }
}

spec fn content<V>(r: Rc<V>) -> V {
    *r
}

/// A committed output value, shared by reference counting: cloning it is cheap.
pub struct Value<V>(Option<Rc<V>>);

impl<V> View for Value<V> {
    type V = Option<V>;

    closed spec fn view(&self) -> Option<V> {
        match self.0 {
            Some(v) => Some(*v),
            None => None,
        }
    }
}

impl<V> Value<V> {
    /// Runs `f` once and holds what it produced, if anything.
    pub fn new(f: impl FnOnce() -> Option<V>) -> (r: Value<V>)
        requires
            f.requires(()),
        ensures
            f.ensures((), r@),
    {
        Value::of(f())
    }

    fn of(value: Option<V>) -> (r: Value<V>)
        ensures
            r@ == value,
    {
        match value {
            Some(v) => Value(Some(Rc::new(v))),
            None => Value(None),
        }
    }
}

impl<V> Clone for Value<V> {
    fn clone(&self) -> (r: Value<V>)
        ensures
            r@ == self@,
    {
        match &self.0 {
            Some(rc) => Value(Some(Rc::clone(rc))),
            None => Value(None),
        }
    }
}

/// The cache of output values: at most one value for each output.
struct ValueCache<V> {
    entries: Vec<(OutputId, Rc<V>)>,
    map: Ghost<Map<PortKey, V>>,
}

impl<V> ValueCache<V> {
    spec fn view(&self) -> Map<PortKey, V> {
        self.map@
    }

    spec fn wf(&self) -> bool {
        &&& forall|j: int|
            0 <= j < self.entries.len() ==> self.map@.contains_key(#[trigger] self.entries@[j].0@)
                && self.map@[self.entries@[j].0@] == *self.entries@[j].1
        &&& forall|k: PortKey|
            #[trigger] self.map@.contains_key(k) ==> exists|j: int|
                0 <= j < self.entries.len() && self.entries@[j].0@ == k
        &&& forall|a: int, b: int|
            0 <= a < self.entries.len() && 0 <= b < self.entries.len() && a != b
                ==> self.entries@[a].0@ != self.entries@[b].0@
    }

    fn new() -> (r: ValueCache<V>)
        ensures
            r.wf(),
            r.view() == Map::<PortKey, V>::empty(),
    {
        ValueCache { entries: Vec::new(), map: Ghost(Map::empty()) }
    }

    fn find(&self, output: &OutputId) -> (r: Option<usize>)
        requires
            self.wf(),
        ensures
            match r {
                Some(j) => j < self.entries.len() && self.entries@[j as int].0@ == output@,
                None => !self.view().contains_key(output@),
            },
    {
        let mut j: usize = 0;
        while j < self.entries.len()
            invariant
                self.wf(),
                0 <= j <= self.entries.len(),
                forall|i: int| 0 <= i < j ==> self.entries@[i].0@ != output@,
            decreases self.entries.len() - j,
        {
            if self.entries[j].0.same(output) {
                return Some(j);
            }
            j += 1;
        }
        None
    }

    fn get(&self, output: &OutputId) -> (r: Option<&V>)
        requires
            self.wf(),
        ensures
            owned(r) == self.view().get(output@),
    {
        match self.find(output) {
            Some(j) => Some(&*self.entries[j].1),
            None => None,
        }
    }

    fn insert(&mut self, output: OutputId, value: Rc<V>)
        requires
            old(self).wf(),
        ensures
            final(self).wf(),
            final(self).view() == old(self).view().insert(output@, *value),
    {
        let ghost k = output@;
        let ghost v: V = content(value);
        let ghost at: int;
        match self.find(&output) {
            Some(j) => {
                self.entries.set(j, (output, value));
                proof {
                    at = j as int;
                }
            },
            None => {
                self.entries.push((output, value));
                proof {
                    at = self.entries.len() - 1;
                }
            },
        }
        self.map = Ghost(self.map@.insert(k, v));
        assert(self.entries@[at].0@ == k);
        assert forall|key: PortKey| #[trigger] self.map@.contains_key(key) implies exists|j: int|
            0 <= j < self.entries.len() && self.entries@[j].0@ == key by {
            if key != k {
                let j = choose|j: int|
                    0 <= j < old(self).entries.len() && old(self).entries@[j].0@ == key;
                assert(self.entries@[j].0@ == key);
            } else {
                assert(self.entries@[at].0@ == key);
            }
        }
    }

    fn remove(&mut self, output: &OutputId)
        requires
            old(self).wf(),
        ensures
            final(self).wf(),
            final(self).view() == old(self).view().remove(output@),
    {
        match self.find(output) {
            Some(j) => {
                let ghost before = self.entries@;
                self.entries.remove(j);
                self.map = Ghost(self.map@.remove(output@));
                assert forall|i: int| 0 <= i < self.entries.len() implies self.map@.contains_key(
                    #[trigger] self.entries@[i].0@,
                ) && self.map@[self.entries@[i].0@] == *self.entries@[i].1 by {
                    if i < j {
                        assert(self.entries@[i] == before[i]);
                    } else {
                        assert(self.entries@[i] == before[i + 1]);
                    }
                }
                assert forall|key: PortKey| #[trigger] self.map@.contains_key(key) implies exists|
                    i: int,
                | 0 <= i < self.entries.len() && self.entries@[i].0@ == key by {
                    let i = choose|i: int| 0 <= i < before.len() && before[i].0@ == key;
                    if i < j {
                        assert(self.entries@[i] == before[i]);
                    } else {
                        assert(i != j);
                        assert(self.entries@[i - 1] == before[i]);
                    }
                }
            },
            None => {
                assert(self.map@.remove(output@) =~= self.map@);
            },
        }
    }
}


impl<V> ValueCache<V> {
    /// Removes the values of the listed outputs.
    fn remove_all(&mut self, outputs: &Vec<OutputId>)
        requires
            old(self).wf(),
        ensures
            final(self).wf(),
            final(self).view() == old(self).view().remove_keys(
                outputs@.map_values(|o: OutputId| o@).to_set(),
            ),
    {
        let ghost before = self.view();
        let ghost outs = outputs@.map_values(|o: OutputId| o@);
        let mut i: usize = 0;
        while i < outputs.len()
            invariant
                self.wf(),
                i <= outputs.len(),
                outs == outputs@.map_values(|o: OutputId| o@),
                forall|k: PortKey| #[trigger] self.view().get(k) == if outs.take(i as int).contains(k) {
                    None
                } else {
                    before.get(k)
                },
            decreases outputs.len() - i,
        {
            let output = outputs[i];
            let ghost pre = self.view();
            self.remove(&output);
            proof {
                assert(outs[i as int] == output@);
                assert(outs.take(i + 1) =~= outs.take(i as int).push(output@));
                assert forall|k: PortKey| #[trigger] self.view().get(k) == if outs.take(i + 1).contains(k) {
                    None
                } else {
                    before.get(k)
                } by {
                    if k != output@ {
                        assert(self.view().get(k) == pre.get(k)) by {
                            if pre.contains_key(k) {
                                assert(self.view().contains_key(k));
                            }
                        }
                        if outs.take(i as int).contains(k) {
                            let q = choose|q: int| 0 <= q < i && #[trigger] outs.take(i as int)[q] == k;
                            assert(outs.take(i + 1)[q] == k);
                        }
                        if outs.take(i + 1).contains(k) {
                            let q = choose|q: int| 0 <= q < i + 1 && #[trigger] outs.take(i + 1)[q] == k;
                            assert(q != i);
                            assert(outs.take(i as int)[q] == k);
                        }
                    } else {
                        assert(outs.take(i + 1)[i as int] == k);
                    }
                }
            }
            i += 1;
        }
        proof {
            assert(outs.take(i as int) =~= outs);
            assert(self.view() =~= before.remove_keys(outs.to_set())) by {
                assert forall|k: PortKey| #[trigger] self.view().contains_key(k)
                    == before.remove_keys(outs.to_set()).contains_key(k) by {
                    assert(self.view().get(k) is Some == self.view().contains_key(k));
                }
                assert forall|k: PortKey| #[trigger] self.view().contains_key(k)
                    implies self.view()[k] == before.remove_keys(outs.to_set())[k] by {
                    assert(self.view().get(k) == before.get(k));
                }
            }
        }
    }
}


/// One step along a link: `to` reads an output of `from` (forward), or the
/// other way round.
pub open spec fn step(links: Map<PortKey, PortKey>, forward: bool, from: u64, to: u64) -> bool {
    exists|k: PortKey|
        #[trigger] links.contains_key(k) && if forward {
            links[k].0 == from && k.0 == to
        } else {
            k.0 == from && links[k].0 == to
        }
}

/// Every node after the first is reached by a step from the node that
/// `parents` names for it, which comes before it.
pub open spec fn discovered(links: Map<PortKey, PortKey>, forward: bool, s: Seq<u64>, parents: Seq<int>) -> bool {
    &&& parents.len() == s.len()
    &&& forall|i: int|
        1 <= i < s.len() ==> 0 <= #[trigger] parents[i] < i && step(links, forward, s[parents[i]], s[i])
}

/// The ids of a sequence of nodes.
pub open spec fn ids(s: Seq<Node>) -> Seq<u64> {
    s.map_values(|n: Node| n@)
}

/// A breadth-first walk from `start` over the links: every node it lists is
/// reached by a step from a node listed before it, and every step from a
/// listed node leads to a listed node.
pub open spec fn is_walk(links: Map<PortKey, PortKey>, forward: bool, start: u64, s: Seq<u64>) -> bool {
    &&& s.len() >= 1
    &&& s[0] == start
    &&& s.no_duplicates()
    &&& exists|parents: Seq<int>| discovered(links, forward, s, parents)
    &&& forall|i: int, t: u64| 0 <= i < s.len() && #[trigger] step(links, forward, s[i], t) ==> s.contains(t)
}

spec fn link_from(l: Link, forward: bool) -> u64 {
    if forward {
        l.output@.0
    } else {
        l.input@.0
    }
}

spec fn link_to(l: Link, forward: bool) -> u64 {
    if forward {
        l.input@.0
    } else {
        l.output@.0
    }
}

proof fn lemma_no_dup_bound<A>(s: Seq<A>, cands: Seq<A>)
    requires
        s.no_duplicates(),
        forall|i: int| 0 <= i < s.len() ==> cands.contains(#[trigger] s[i]),
    ensures
        s.len() <= cands.len(),
{
    s.unique_seq_to_set();
    cands.lemma_cardinality_of_set();
    assert(s.to_set().subset_of(cands.to_set()));
    vstd::set_lib::lemma_len_subset(s.to_set(), cands.to_set());
}

fn contains_id(s: &Vec<u64>, n: u64) -> (r: bool)
    ensures
        r == s@.contains(n),
{
    let mut i: usize = 0;
    while i < s.len()
        invariant
            0 <= i <= s.len(),
            forall|j: int| 0 <= j < i ==> s@[j] != n,
        decreases s.len() - i,
    {
        if s[i] == n {
            return true;
        }
        i += 1;
    }
    false
}

impl LinkTable {
    /// Walks the links breadth first from `start`: forward from an output to
    /// the inputs that read it, or backward from an input to its output.
    fn walk(&self, start: u64, forward: bool) -> (r: Vec<u64>)
        requires
            self.wf(),
        ensures
            is_walk(self.view(), forward, start, r@),
    {
        let ghost links = self.view();
        let ghost cands: Seq<u64> = seq![start] + Seq::new(
            self.entries.len() as nat,
            |j: int| link_to(self.entries@[j], forward),
        );
        let mut order: Vec<u64> = Vec::new();
        order.push(start);
        let ghost mut parents: Seq<int> = seq![0int];
        let mut head: usize = 0;
        assert(cands[0] == start);
        while head < order.len()
            invariant
                self.wf(),
                links == self.view(),
                0 <= head <= order.len(),
                order.len() >= 1,
                order@[0] == start,
                order@.no_duplicates(),
                forall|i: int| 0 <= i < order.len() ==> cands.contains(#[trigger] order@[i]),
                cands.len() == self.entries.len() + 1,
                cands == seq![start] + Seq::new(
                    self.entries.len() as nat,
                    |j: int| link_to(self.entries@[j], forward),
                ),
                discovered(links, forward, order@, parents),
                forall|i: int, t: u64|
                    0 <= i < head && #[trigger] step(links, forward, order@[i], t)
                        ==> order@.contains(t),
            decreases self.entries.len() + 1 - head,
        {
            proof {
                lemma_no_dup_bound(order@, cands);
            }
            let current = order[head];
            let mut j: usize = 0;
            while j < self.entries.len()
                invariant
                    self.wf(),
                    links == self.view(),
                    0 <= head < order.len(),
                    0 <= j <= self.entries.len(),
                    current == order@[head as int],
                    order@[0] == start,
                    order@.no_duplicates(),
                    forall|i: int| 0 <= i < order.len() ==> cands.contains(#[trigger] order@[i]),
                    cands == seq![start] + Seq::new(
                        self.entries.len() as nat,
                        |j: int| link_to(self.entries@[j], forward),
                    ),
                    discovered(links, forward, order@, parents),
                    forall|i: int, t: u64|
                        0 <= i < head && #[trigger] step(links, forward, order@[i], t)
                            ==> order@.contains(t),
                    forall|jj: int|
                        0 <= jj < j ==> order@.contains(link_to(#[trigger] self.entries@[jj], forward))
                            || link_from(self.entries@[jj], forward) != current,
                decreases self.entries.len() - j,
            {
                let link = self.entries[j];
                let (from, to) = if forward {
                    (link.output.node().0, link.input.node().0)
                } else {
                    (link.input.node().0, link.output.node().0)
                };
                if from == current && !contains_id(&order, to) {
                    let ghost before = order@;
                    proof {
                        let k = link.input@;
                        assert(links.contains_key(k));
                        assert(step(links, forward, current, to));
                        assert(cands[j + 1] == to);
                    }
                    order.push(to);
                    proof {
                        assert(order@[head as int] == current);
                        parents = parents.push(head as int);
                        assert(parents[parents.len() - 1] == head);
                        assert forall|i: int| 1 <= i < order.len() implies 0 <= #[trigger] parents[i] < i
                            && step(links, forward, order@[parents[i]], order@[i]) by {
                            if i < before.len() {
                                assert(order@[i] == before[i]);
                                assert(order@[parents[i]] == before[parents[i]]);
                            } else {
                                assert(order@[head as int] == current);
                            }
                        }
                        assert forall|i: int, t: u64|
                            0 <= i < head && #[trigger] step(links, forward, order@[i], t)
                                implies order@.contains(t) by {
                            assert(order@[i] == before[i]);
                            let q = choose|q: int| 0 <= q < before.len() && before[q] == t;
                            assert(order@[q] == t);
                        }
                        assert forall|jj: int| 0 <= jj < j + 1 implies order@.contains(
                            link_to(#[trigger] self.entries@[jj], forward),
                        ) || link_from(self.entries@[jj], forward) != current by {
                            if jj < j {
                                let x = link_to(self.entries@[jj], forward);
                                if before.contains(x) {
                                    let q = choose|q: int| 0 <= q < before.len() && before[q] == x;
                                    assert(order@[q] == x);
                                }
                            } else {
                                assert(order@[order.len() - 1] == to);
                            }
                        }
                        assert forall|i: int| 0 <= i < order.len() implies cands.contains(#[trigger] order@[i]) by {
                            if i < before.len() {
                                assert(order@[i] == before[i]);
                            } else {
                                assert(cands[j + 1] == order@[i]);
                            }
                        }
                    }
                }
                j += 1;
            }
            proof {
                assert forall|t: u64| #[trigger] step(links, forward, order@[head as int], t)
                    implies order@.contains(t) by {
                    let k = choose|k: PortKey| #[trigger] links.contains_key(k) && if forward {
                        links[k].0 == order@[head as int] && k.0 == t
                    } else {
                        k.0 == order@[head as int] && links[k].0 == t
                    };
                    let jj = choose|jj: int| 0 <= jj < self.entries.len() && self.entries@[jj].input@ == k;
                    assert(self.entries@[jj].output@ == links[k]);
                    assert(order@.contains(link_to(self.entries@[jj], forward))
                        || link_from(self.entries@[jj], forward) != order@[head as int]);
                }
            }
            head += 1;
        }
        assert(discovered(links, forward, order@, parents));
        order
    }
}


/// A typed handle on an input port, made while building its node.
#[derive(Debug)]
pub struct Input<A> {
    id: InputId,
    _type: PhantomData<A>,
}

/// A typed handle on an output port, made while building its node.
#[derive(Debug)]
pub struct Output<A> {
    id: OutputId,
    _type: PhantomData<A>,
}

impl<A> View for Input<A> {
    type V = PortKey;

    closed spec fn view(&self) -> PortKey {
        self.id@
    }
}

impl<A> View for Output<A> {
    type V = PortKey;

    closed spec fn view(&self) -> PortKey {
        self.id@
    }
}

impl<A> Clone for Input<A> {
    fn clone(&self) -> (r: Self)
        ensures
            r@ == self@,
    {
        Input { id: self.id, _type: PhantomData }
    }
}

impl<A> Copy for Input<A> {}

impl<A> Clone for Output<A> {
    fn clone(&self) -> (r: Self)
        ensures
            r@ == self@,
    {
        Output { id: self.id, _type: PhantomData }
    }
}

impl<A> Copy for Output<A> {}

impl<A> From<(Output<A>, Input<A>)> for Link {
    fn from(pair: (Output<A>, Input<A>)) -> (r: Link)
        ensures
            r@ == (pair.1@, pair.0@),
    {
        Link { input: pair.1.id, output: pair.0.id }
    }
}

impl<A> vstd::std_specs::convert::FromSpecImpl<(Output<A>, Input<A>)> for Link {
    open spec fn obeys_from_spec() -> bool {
        true
    }

    closed spec fn from_spec(pair: (Output<A>, Input<A>)) -> Link {
        Link { input: pair.1.id, output: pair.0.id }
    }
}

/// The value a list of commits last gave `output`: `None` when none of them
/// is for `output`, else what the last one for it committed (itself `None`
/// when that commit declined to produce a value).
pub open spec fn last_commit<V>(commits: Seq<(PortKey, Option<V>)>, output: PortKey) -> Option<Option<V>>
    decreases commits.len(),
{
    if commits.len() == 0 {
        None
    } else if commits.last().0 == output {
        Some(commits.last().1)
    } else {
        last_commit(commits.drop_last(), output)
    }
}

/// What the node's own output `output` holds after `commits`: the last
/// commit for it, or nothing.
pub open spec fn committed_value<V>(commits: Seq<(PortKey, Option<V>)>, output: PortKey) -> Option<V> {
    match last_commit(commits, output) {
        Some(v) => v,
        None => None,
    }
}

spec fn commit_view<V>(entry: (OutputId, Value<V>)) -> (PortKey, Option<V>) {
    (entry.0@, entry.1@)
}

/// What a node's evaluation sees: the values of the outputs that its inputs
/// are linked to, and the commits it has made so far.
pub struct Data<'a, V> {
    links: &'a LinkTable,
    values: &'a ValueCache<V>,
    node: Node,
    log: Vec<(OutputId, Value<V>)>,
}

impl<'a, V> Data<'a, V> {
    /// The tables behind the view are well formed.
    pub closed spec fn wf(&self) -> bool {
        &&& self.links.wf()
        &&& self.values.wf()
    }

    /// The node being evaluated.
    pub closed spec fn node(&self) -> u64 {
        self.node@
    }

    /// The links of the graph.
    pub closed spec fn links(&self) -> Map<PortKey, PortKey> {
        self.links.view()
    }

    /// The cached values of the graph; the node's own outputs were cleared
    /// before its evaluation.
    pub closed spec fn cached(&self) -> Map<PortKey, V> {
        self.values.view()
    }

    /// The commits made so far, in order: an output and the value committed
    /// to it, or nothing when the evaluation declined to produce one.
    pub closed spec fn commits(&self) -> Seq<(PortKey, Option<V>)> {
        self.log@.map_values(|e: (OutputId, Value<V>)| commit_view(e))
    }

    /// What reading `input` gives: nothing when it is unlinked, else the value
    /// of the output it is linked to, taken from the node's own commits when
    /// that output belongs to the node.
    pub open spec fn read(&self, input: PortKey) -> Option<V> {
        if self.links().contains_key(input) {
            let output = self.links()[input];
            if output.0 == self.node() {
                committed_value(self.commits(), output)
            } else {
                self.cached().get(output)
            }
        } else {
            None
        }
    }

    fn last_commit_of(&self, output: &OutputId) -> (r: Option<&V>)
        ensures
            owned(r) == committed_value(self.commits(), output@),
    {
        let mut i: usize = self.log.len();
        assert(self.commits().take(i as int) =~= self.commits());
        while i > 0
            invariant
                i <= self.log.len(),
                last_commit(self.commits(), output@) == last_commit(self.commits().take(i as int), output@),
            decreases i,
        {
            let ghost c = self.commits().take(i as int);
            assert(c.drop_last() =~= self.commits().take(i - 1));
            assert(c.last() == commit_view(self.log@[i - 1]));
            if self.log[i - 1].0.same(output) {
                return match &self.log[i - 1].1.0 {
                    Some(v) => Some(&**v),
                    None => None,
                };
            }
            i -= 1;
        }
        assert(self.commits().take(0) =~= Seq::<(PortKey, Option<V>)>::empty());
        None
    }

    /// The value of the output that `input` is linked to, if there is one.
    pub fn get(&self, input: &Input<V>) -> (r: Option<&V>)
        requires
            self.wf(),
        ensures
            owned(r) == self.read(input@),
    {
        match self.links.get(&input.id) {
            Some(output) => {
                if output.node.0 == self.node.0 {
                    self.last_commit_of(&output)
                } else {
                    self.values.get(&output)
                }
            },
            None => None,
        }
    }

    fn commit_value(&mut self, output: &Output<V>, value: Value<V>)
        requires
            old(self).wf(),
        ensures
            final(self).wf(),
            final(self).node() == old(self).node(),
            final(self).links() == old(self).links(),
            final(self).cached() == old(self).cached(),
            final(self).commits() == old(self).commits().push((output@, value@)),
    {
        let ghost entry = (output.id, value);
        self.log.push((output.id, value));
        proof {
            assert(self.commits() =~= old(self).commits().push(commit_view(entry)));
        }
    }

    /// Commits `value` to `output`, an output of the node being evaluated;
    /// the graph keeps only commits to the node's own outputs.
    pub fn set(&mut self, output: &Output<V>, value: V)
        requires
            old(self).wf(),
        ensures
            final(self).wf(),
            final(self).node() == old(self).node(),
            final(self).links() == old(self).links(),
            final(self).cached() == old(self).cached(),
            final(self).commits() == old(self).commits().push((output@, Some(value))),
    {
        self.commit_value(output, Value::of(Some(value)));
    }

    /// Commits what `f` produces from the current view, if anything, to
    /// `output`, an output of the node being evaluated; the graph keeps only
    /// commits to the node's own outputs.
    pub fn set_with(&mut self, output: &Output<V>, f: impl FnOnce(&Self) -> Option<V>)
        requires
            old(self).wf(),
            f.requires((&*old(self),)),
        ensures
            final(self).wf(),
            final(self).node() == old(self).node(),
            final(self).links() == old(self).links(),
            final(self).cached() == old(self).cached(),
            exists|v: Option<V>|
                f.ensures((&*old(self),), v) && final(self).commits() == old(self).commits().push((output@, v)),
    {
        let value = Value::of(f(&*self));
        self.commit_value(output, value);
    }
}

/// A node as the graph holds it.
struct NodeRecord<T> {
    id: Node,
    state: T,
    position: Point,
    size: Option<Size>,
    inputs: Vec<InputId>,
    outputs: Vec<OutputId>,
    links_changed: bool,
}

/// A node of the graph, as contracts see it.
pub struct NodeView<T> {
    pub id: u64,
    pub state: T,
    pub position: Point,
    pub inputs: Seq<PortKey>,
    pub outputs: Seq<PortKey>,
}

impl<T> NodeRecord<T> {
    spec fn view(&self) -> NodeView<T> {
        NodeView {
            id: self.id@,
            state: self.state,
            position: self.position,
            inputs: self.inputs@.map_values(|i: InputId| i@),
            outputs: self.outputs@.map_values(|o: OutputId| o@),
        }
    }

    spec fn wf(&self) -> bool {
        &&& forall|i: int| 0 <= i < self.inputs.len() ==> (#[trigger] self.inputs@[i])@.0 == self.id@
        &&& forall|i: int| 0 <= i < self.outputs.len() ==> (#[trigger] self.outputs@[i])@.0 == self.id@
    }
}

/// The ports of the list that belong to `node`, in order.
pub open spec fn own_ports(ports: Seq<PortKey>, node: u64) -> Seq<PortKey> {
    ports.filter(|k: PortKey| k.0 == node)
}

/// A node with the given id, state, position and ports.
pub open spec fn node_view<T>(id: u64, state: T, position: Point, inputs: Seq<PortKey>, outputs: Seq<PortKey>) -> NodeView<T> {
    NodeView { id, state, position, inputs, outputs }
}

spec fn new_node<T>(id: u64, state: T, position: Point, inputs: Seq<InputId>, outputs: Seq<OutputId>) -> NodeView<T> {
    node_view(
        id,
        state,
        position,
        inputs.map_values(|i: InputId| i@),
        outputs.map_values(|o: OutputId| o@),
    )
}

/// A graph, as contracts see it: its nodes in the order they were added, its
/// links from inputs to outputs, the cached values of outputs, and the id the
/// next node will get.
pub struct GraphView<T, V> {
    pub nodes: Seq<NodeView<T>>,
    pub links: Map<PortKey, PortKey>,
    pub values: Map<PortKey, V>,
    pub next: u64,
}

impl<T, V> GraphView<T, V> {
    /// Whether a node with this id is in the graph.
    pub open spec fn has(self, id: u64) -> bool {
        exists|j: int| 0 <= j < self.nodes.len() && self.nodes[j].id == id
    }

    /// The node with this id.
    pub open spec fn record(self, id: u64) -> NodeView<T> {
        self.nodes[choose|j: int| 0 <= j < self.nodes.len() && self.nodes[j].id == id]
    }

    /// What reading an input gives: the cached value of the output it is
    /// linked to, or nothing.
    pub open spec fn input(self, input: PortKey) -> Option<V> {
        if self.links.contains_key(input) {
            self.values.get(self.links[input])
        } else {
            None
        }
    }

    /// The two graphs have the same nodes, with the same ports and positions,
    /// and the same links; states and values may differ.
    pub open spec fn same_shape(self, other: GraphView<T, V>) -> bool {
        &&& self.nodes.len() == other.nodes.len()
        &&& self.links == other.links
        &&& self.next == other.next
        &&& forall|j: int|
            0 <= j < self.nodes.len() ==> {
                &&& (#[trigger] self.nodes[j]).id == other.nodes[j].id
                &&& self.nodes[j].inputs == other.nodes[j].inputs
                &&& self.nodes[j].outputs == other.nodes[j].outputs
                &&& self.nodes[j].position == other.nodes[j].position
            }
    }

    /// `trace` records a pass that evaluates the nodes of `order` one by one:
    /// it starts at `self` and ends at `after`, each evaluation changes only
    /// the state and output values of the node evaluated, and one of a node
    /// the graph does not hold changes nothing. What each evaluation of a
    /// node the graph holds produces is stated, with the evaluation
    /// function, where a pass is run.
    pub open spec fn pass(self, after: GraphView<T, V>, order: Seq<u64>, trace: Seq<GraphView<T, V>>) -> bool {
        &&& trace.len() == order.len() + 1
        &&& trace[0] == self
        &&& trace[order.len() as int] == after
        &&& forall|i: int|
            0 <= i < order.len() ==> (#[trigger] trace[i + 1]).same_shape(trace[i])
                && trace[i + 1].changed_only(trace[i], seq![order[i]])
                && (!trace[i].has(order[i]) ==> trace[i + 1] == trace[i])
    }

    /// The links into inputs of nodes the graph holds.
    pub open spec fn held_links(self) -> Map<PortKey, PortKey> {
        self.links.restrict(Set::new(|k: PortKey| self.has(k.0)))
    }

    /// The same graph with one more node, added last.
    pub open spec fn with_node(self, node: NodeView<T>) -> GraphView<T, V> {
        GraphView { nodes: self.nodes.push(node), ..self }
    }

    /// The same graph with another id for its next node.
    pub open spec fn with_next(self, next: u64) -> GraphView<T, V> {
        GraphView { next, ..self }
    }

    /// The same graph with other links.
    pub open spec fn with_links(self, links: Map<PortKey, PortKey>) -> GraphView<T, V> {
        GraphView { links, ..self }
    }

    /// Only the states of the listed nodes and the values of their outputs
    /// differ between the two graphs.
    pub open spec fn changed_only(self, other: GraphView<T, V>, touched: Seq<u64>) -> bool {
        &&& forall|j: int|
            0 <= j < self.nodes.len() && !touched.contains(self.nodes[j].id) ==> (#[trigger] self.nodes[j]).state
                == other.nodes[j].state
        &&& forall|k: PortKey| !touched.contains(k.0) ==> #[trigger] self.values.get(k) == other.values.get(k)
    }
}

/// A dataflow graph: nodes with a state of type `T`, output values of type
/// `V`, and one evaluation function `F` shared by all nodes, which reads a
/// node's inputs and commits its outputs.
pub struct Graph<T, V, F> {
    nodes: Vec<NodeRecord<T>>,
    slots: IndexMap<u64, usize>,
    links: LinkTable,
    values: ValueCache<V>,
    current: u64,
    evaluate: F,
}

impl<T, V, F: Fn(&mut T, &mut Data<V>)> View for Graph<T, V, F> {
    type V = GraphView<T, V>;

    closed spec fn view(&self) -> GraphView<T, V> {
        GraphView {
            nodes: self.nodes@.map_values(|r: NodeRecord<T>| r.view()),
            links: self.links.view(),
            values: self.values.view(),
            next: self.current,
        }
    }
}

impl<T, V, F: Fn(&mut T, &mut Data<V>)> Graph<T, V, F> {
    /// The graph's tables agree with each other, node ids are unique and
    /// increase in insertion order, and the evaluation function accepts every
    /// node state and every well-formed view.
    pub closed spec fn wf(&self) -> bool {
        &&& self.links.wf()
        &&& self.values.wf()
        &&& forall|j: int| 0 <= j < self.nodes.len() ==> (#[trigger] self.nodes@[j]).id@ < self.current
        &&& forall|j: int| 0 <= j < self.nodes.len() ==> (#[trigger] self.nodes@[j]).wf()
        &&& forall|a: int, b: int|
            0 <= a < b < self.nodes.len() ==> self.nodes@[a].id@ < self.nodes@[b].id@
        &&& forall|j: int|
            0 <= j < self.nodes.len() ==> slot_entries(self.slots).get(#[trigger] self.nodes@[j].id@)
                == Some(j as usize)
        &&& forall|k: u64|
            #[trigger] slot_entries(self.slots).contains_key(k) ==> slot_entries(self.slots)[k]
                < self.nodes.len() && self.nodes@[slot_entries(self.slots)[k] as int].id@ == k
        &&& forall|s: &mut T, d: &mut Data<V>| d.wf() ==> call_requires(self.evaluate, (s, d))
    }

    /// The evaluation function of the graph.
    pub closed spec fn evaluator(&self) -> F {
        self.evaluate
    }

    /// Whether a link into the node changed since whoever draws the links
    /// last looked.
    pub closed spec fn links_changed(&self, node: u64) -> bool {
        exists|j: int| 0 <= j < self.nodes.len() && self.nodes@[j].id@ == node && #[trigger] self.nodes@[j].links_changed
    }

    /// Makes an empty graph whose nodes are evaluated by `evaluate`.
    pub fn new(evaluate: F) -> (r: Self)
        requires
            forall|s: &mut T, d: &mut Data<V>| d.wf() ==> call_requires(evaluate, (s, d)),
        ensures
            r.wf(),
            r@.nodes.len() == 0,
            r@.links.is_empty(),
            r@.values.is_empty(),
            r@.next == 0,
    {
        Graph {
            nodes: Vec::new(),
            slots: new_slots(),
            links: LinkTable::new(),
            values: ValueCache::new(),
            current: 0,
            evaluate,
        }
    }

    proof fn lemma_record(&self, j: int)
        requires
            self.wf(),
            0 <= j < self.nodes.len(),
        ensures
            self@.has(self.nodes@[j].id@),
            self@.record(self.nodes@[j].id@) == self.nodes@[j].view(),
    {
        let id = self.nodes@[j].id@;
        assert(self@.nodes[j].id == id);
        let c = choose|c: int| 0 <= c < self@.nodes.len() && self@.nodes[c].id == id;
        if c < j {
            assert(self.nodes@[c].id@ < self.nodes@[j].id@);
        } else if c > j {
            assert(self.nodes@[j].id@ < self.nodes@[c].id@);
        }
    }

    fn slot(&self, node: Node) -> (r: Option<usize>)
        requires
            self.wf(),
        ensures
            match r {
                Some(j) => j < self.nodes.len() && self.nodes@[j as int].id@ == node@
                    && self@.has(node@) && self@.record(node@) == self.nodes@[j as int].view(),
                None => !self@.has(node@),
            },
    {
        match get_slot(&self.slots, node.0) {
            Some(j) => {
                proof {
                    self.lemma_record(j as int);
                }
                Some(j)
            },
            None => {
                assert(!self@.has(node@)) by {
                    if self@.has(node@) {
                        let j = choose|j: int| 0 <= j < self@.nodes.len() && self@.nodes[j].id == node@;
                        assert(slot_entries(self.slots).get(self.nodes@[j].id@) == Some(j as usize));
                    }
                }
                None
            },
        }
    }

    /// The state of a node, if the graph has it.
    pub fn get(&self, node: Node) -> (r: Option<&T>)
        requires
            self.wf(),
        ensures
            owned(r) == if self@.has(node@) {
                Some(self@.record(node@).state)
            } else {
                None
            },
    {
        match self.slot(node) {
            Some(j) => Some(&self.nodes[j].state),
            None => None,
        }
    }

    /// The value that an input reads: that of the output it is linked to.
    /// Nothing when it is unlinked or that output holds no value.
    pub fn input(&self, input: &Input<V>) -> (r: Option<&V>)
        requires
            self.wf(),
        ensures
            owned(r) == self@.input(input@),
    {
        match self.links.get(&input.id) {
            Some(output) => self.values.get(&output),
            None => None,
        }
    }
}


/// What an output holds once a node has been evaluated: for an output of
/// the node, the last commit to it, or else what was cached; any other
/// output keeps what was cached.
pub open spec fn settled<V>(cached: Map<PortKey, V>, node: u64, commits: Seq<(PortKey, Option<V>)>, output: PortKey) -> Option<V> {
    if output.0 == node {
        match last_commit(commits, output) {
            Some(v) => v,
            None => cached.get(output),
        }
    } else {
        cached.get(output)
    }
}

/// The view an evaluation of `node` starts from in `before`: well formed,
/// for the node, with the graph's links, the cached values without the
/// node's declared outputs, and no commit yet.
pub open spec fn evaluation_start<T, V>(d: Data<V>, before: GraphView<T, V>, node: u64) -> bool {
    &&& d.wf()
    &&& d.node() == node
    &&& d.links() == before.links
    &&& d.cached() == before.values.remove_keys(before.record(node).outputs.to_set())
    &&& d.commits().len() == 0
}

/// `values` are what an evaluation of `node` leaves: each output of the
/// node holds what `commits` last gave it, and every other output what
/// `cached` holds.
pub open spec fn outputs_settled<V>(
    values: Map<PortKey, V>,
    cached: Map<PortKey, V>,
    node: u64,
    commits: Seq<(PortKey, Option<V>)>,
) -> bool {
    forall|k: PortKey| #[trigger] values.get(k) == settled(cached, node, commits, k)
}

impl<T, V, F: Fn(&mut T, &mut Data<V>)> Graph<T, V, F> {
    /// Caches the commits of the list that are for outputs of `node`, in
    /// order.
    fn apply_commits(&mut self, node: Node, log: &Vec<(OutputId, Value<V>)>)
        requires
            old(self).wf(),
        ensures
            final(self).wf(),
            final(self).nodes == old(self).nodes,
            final(self).links == old(self).links,
            final(self).current == old(self).current,
            final(self).evaluate == old(self).evaluate,
            outputs_settled(
                final(self).values.view(),
                old(self).values.view(),
                node@,
                log@.map_values(|e: (OutputId, Value<V>)| commit_view(e)),
            ),
    {
        let ghost cleared = self.values.view();
        let ghost commits = log@.map_values(|e: (OutputId, Value<V>)| commit_view(e));
        let mut i: usize = 0;
        while i < log.len()
            invariant
                self.wf(),
                self.nodes == old(self).nodes,
                self.links == old(self).links,
                self.current == old(self).current,
                self.evaluate == old(self).evaluate,
                cleared == old(self).values.view(),
                i <= log.len(),
                commits == log@.map_values(|e: (OutputId, Value<V>)| commit_view(e)),
                forall|k: PortKey| #[trigger] self.values.view().get(k) == settled(cleared, node@, commits.take(i as int), k),
            decreases log.len() - i,
        {
            let ghost pre = self.values.view();
            let ghost c = commits.take(i + 1);
            assert(c.drop_last() =~= commits.take(i as int));
            assert(c.last() == commit_view(log@[i as int]));
            let output = log[i].0;
            if output.node.0 == node.0 {
                match &log[i].1.0 {
                    Some(v) => {
                        self.values.insert(output, Rc::clone(v));
                    },
                    None => {
                        self.values.remove(&output);
                    },
                }
            }
            proof {
                assert forall|k: PortKey| #[trigger] self.values.view().get(k) == settled(cleared, node@, c, k) by {
                    if k != output@ {
                        assert(self.values.view().get(k) == pre.get(k)) by {
                            if pre.contains_key(k) {
                                assert(self.values.view().contains_key(k));
                            }
                            if self.values.view().contains_key(k) {
                                assert(pre.contains_key(k));
                            }
                        }
                    }
                }
            }
            i += 1;
        }
        assert(commits.take(i as int) =~= commits);
    }

    /// Evaluates one node: clears the cached values of its outputs, runs the
    /// evaluation function on its state, and caches what it committed to its
    /// own outputs.
    #[verifier::rlimit(100)]
    fn evaluate(&mut self, node: Node)
        requires
            old(self).wf(),
        ensures
            final(self).wf(),
            final(self).evaluator() == old(self).evaluator(),
            forall|a: int| 0 <= a < final(self).nodes.len() ==> #[trigger] final(self).nodes@[a].links_changed == old(self).nodes@[a].links_changed,
            final(self)@.same_shape(old(self)@),
            final(self)@.changed_only(old(self)@, seq![node@]),
            !old(self)@.has(node@) ==> final(self)@ == old(self)@,
            old(self)@.has(node@) ==> exists|s: &mut T, d: &mut Data<V>|
                #[trigger] call_ensures(old(self).evaluator(), (s, d), ()) && mut_ref_current(s) == old(
                    self,
                )@.record(node@).state && mut_ref_future(s) == final(self)@.record(node@).state
                    && evaluation_start(mut_ref_current(d), old(self)@, node@) && outputs_settled(
                    final(self)@.values,
                    mut_ref_current(d).cached(),
                    node@,
                    mut_ref_future(d).commits(),
                ),
    {
        let j = match self.slot(node) {
            Some(j) => j,
            None => {
                proof {
                    assert(self@.changed_only(old(self)@, seq![node@]));
                }
                return;
            },
        };
        self.values.remove_all(&self.nodes[j].outputs);
        let ghost cleared = self.values.view();
        let mut data = Data { links: &self.links, values: &self.values, node, log: Vec::new() };
        assert(data.commits() =~= Seq::<(PortKey, Option<V>)>::empty());
        let ghost start = data;
        let ghost old_state = self.nodes@[j as int].state;
        let state = &mut self.nodes[j].state;
        let view = &mut data;
        let ghost s_ref = state;
        let ghost d_ref = view;
        (self.evaluate)(state, view);
        assert(exists|s: &mut T, d: &mut Data<V>| #[trigger] call_ensures(self.evaluate, (s, d), ()) && mut_ref_current(s) == old_state && mut_ref_future(s) == mut_ref_future(s_ref) && mut_ref_current(d) == start && mut_ref_future(d) == mut_ref_future(d_ref));
        assert(self.evaluate == old(self).evaluate);
        let log = data.log;
        assert(log@.map_values(|e: (OutputId, Value<V>)| commit_view(e)) == mut_ref_future(d_ref).commits());
        let ghost mid = self.nodes@;
        assert(mid[j as int].state == mut_ref_future(s_ref));
        self.apply_commits(node, &log);
        proof {
            old(self).lemma_record(j as int);
            assert forall|a: int| 0 <= a < self.nodes.len() implies (#[trigger] self.nodes@[a]).wf() by {
                assert(old(self).nodes@[a].wf());
            }
            self.lemma_record(j as int);
            let outs = old(self)@.record(node@).outputs;
            assert forall|a: int|
                0 <= a < self@.nodes.len() && !seq![node@].contains(self@.nodes[a].id) implies (#[trigger] self@.nodes[a]).state
                    == old(self)@.nodes[a].state by {
                if a == j {
                    assert(seq![node@][0] == node@);
                }
            }
            assert forall|k: PortKey| !seq![node@].contains(k.0) implies #[trigger] self@.values.get(k) == old(self)@.values.get(k) by {
                assert(seq![node@][0] == node@);
                assert(self@.values.get(k) == settled(cleared, node@, mut_ref_future(d_ref).commits(), k));
                assert(!outs.to_set().contains(k)) by {
                    if outs.contains(k) {
                        let q = choose|q: int| 0 <= q < outs.len() && #[trigger] outs[q] == k;
                        assert(old(self).nodes@[j as int].wf());
                        assert(old(self).nodes@[j as int].outputs@[q]@ == k);
                    }
                }
            }
            assert(evaluation_start(start, old(self)@, node@));
            assert(start.cached() == cleared);
            let (s, d) = choose|s: &mut T, d: &mut Data<V>|
                #[trigger] call_ensures(self.evaluate, (s, d), ()) && mut_ref_current(s) == old_state
                    && mut_ref_future(s) == mut_ref_future(s_ref) && mut_ref_current(d) == start
                    && mut_ref_future(d) == mut_ref_future(d_ref);
            assert(mut_ref_current(s) == old(self)@.record(node@).state);
            assert(mut_ref_future(s) == self@.record(node@).state);
            assert(outputs_settled(self@.values, mut_ref_current(d).cached(), node@, mut_ref_future(d).commits()));
            assert(call_ensures(old(self).evaluator(), (s, d), ()));
        }
    }

    /// Evaluates `node`, then every node downstream of it once, in the
    /// breadth-first order in which the links reach them.
    fn invalidate(&mut self, node: Node)
        requires
            old(self).wf(),
        ensures
            final(self).wf(),
            final(self).evaluator() == old(self).evaluator(),
            forall|a: int| 0 <= a < final(self).nodes.len() ==> #[trigger] final(self).nodes@[a].links_changed == old(self).nodes@[a].links_changed,
            final(self)@.same_shape(old(self)@),
            exists|order: Seq<u64>, trace: Seq<GraphView<T, V>>|
                is_walk(old(self)@.links, true, node@, order) && #[trigger] old(self)@.pass(
                    final(self)@,
                    order,
                    trace,
                ) && forall|i: int|
                        0 <= i < order.len() && trace[i].has(order[i]) ==> exists|s: &mut T, d: &mut Data<V>|
                            #[trigger] call_ensures(old(self).evaluator(), (s, d), ()) && mut_ref_current(s) == trace[i].record(order[i]).state
                                && mut_ref_future(s) == trace[i + 1].record(order[i]).state && evaluation_start(
                                mut_ref_current(d),
                                trace[i],
                                order[i],
                            ) && outputs_settled(
                                trace[i + 1].values,
                                mut_ref_current(d).cached(),
                                order[i],
                                mut_ref_future(d).commits(),
                            ),
    {
        let order = self.links.walk(node.0, true);
        let ghost mut trace: Seq<GraphView<T, V>> = seq![self@];
        let mut k: usize = 0;
        while k < order.len()
            invariant
                self.wf(),
                0 <= k <= order.len(),
                is_walk(old(self)@.links, true, node@, order@),
                self@.links == old(self)@.links,
                self@.same_shape(old(self)@),
                trace.len() == k + 1,
                trace[0] == old(self)@,
                trace[k as int] == self@,
                self.evaluator() == old(self).evaluator(),
                self.nodes.len() == old(self).nodes.len(),
                forall|a: int| 0 <= a < self.nodes.len() ==> #[trigger] self.nodes@[a].links_changed == old(self).nodes@[a].links_changed,
                forall|i: int|
                    0 <= i < k ==> (#[trigger] trace[i + 1]).same_shape(trace[i])
                        && trace[i + 1].changed_only(trace[i], seq![order@[i]])
                        && (!trace[i].has(order@[i]) ==> trace[i + 1] == trace[i]),
                forall|i: int|
                        0 <= i < order@.take(k as int).len() && trace.take(k + 1)[i].has(order@.take(k as int)[i]) ==> exists|s: &mut T, d: &mut Data<V>|
                            #[trigger] call_ensures(old(self).evaluator(), (s, d), ()) && mut_ref_current(s) == trace.take(k + 1)[i].record(order@.take(k as int)[i]).state
                                && mut_ref_future(s) == trace.take(k + 1)[i + 1].record(order@.take(k as int)[i]).state && evaluation_start(
                                mut_ref_current(d),
                                trace.take(k + 1)[i],
                                order@.take(k as int)[i],
                            ) && outputs_settled(
                                trace.take(k + 1)[i + 1].values,
                                mut_ref_current(d).cached(),
                                order@.take(k as int)[i],
                                mut_ref_future(d).commits(),
                            ),
            decreases order.len() - k,
        {
            let ghost pre = self@;
            self.evaluate(Node(order[k]));
            proof {
                let t2 = trace.push(self@);
                assert forall|i: int|
                    0 <= i < k + 1 implies (#[trigger] t2[i + 1]).same_shape(t2[i])
                        && t2[i + 1].changed_only(t2[i], seq![order@[i]])
                        && (!t2[i].has(order@[i]) ==> t2[i + 1] == t2[i]) by {
                    if i < k {
                        assert(t2[i + 1] == trace[i + 1]);
                        assert(t2[i] == trace[i]);
                    } else {
                        assert(t2[i] == trace[i]);
                    }
                }
                let o2 = order@.take(k + 1);
                let tt = t2.take(k + 2);
                assert(tt =~= t2);
                assert forall|i: int| 0 <= i < o2.len() && tt[i].has(o2[i]) implies exists|s: &mut T, d: &mut Data<V>|
                    #[trigger] call_ensures(old(self).evaluator(), (s, d), ()) && mut_ref_current(s) == tt[i].record(o2[i]).state
                        && mut_ref_future(s) == tt[i + 1].record(o2[i]).state && evaluation_start(
                        mut_ref_current(d),
                        tt[i],
                        o2[i],
                    ) && outputs_settled(
                        tt[i + 1].values,
                        mut_ref_current(d).cached(),
                        o2[i],
                        mut_ref_future(d).commits(),
                    ) by {
                    if i < k {
                        assert(tt[i] == trace.take(k + 1)[i]);
                        assert(tt[i + 1] == trace.take(k + 1)[i + 1]);
                        assert(o2[i] == order@.take(k as int)[i]);
                    } else {
                        assert(tt[i] == pre);
                        assert(tt[i + 1] == self@);
                        assert(o2[i] == order@[k as int]);
                        assert(Node(order@[k as int])@ == order@[k as int]);
                    }
                }
                trace = t2;
            }
            k += 1;
        }
        assert(old(self)@.pass(self@, order@, trace));
        assert(trace.take(order.len() + 1) =~= trace);
        assert(order@.take(order.len() as int) =~= order@);
    }
}


impl<T, V, F: Fn(&mut T, &mut Data<V>)> Graph<T, V, F> {
    /// Links an output to an input, replacing the input's earlier link, then
    /// recomputes the input's node and everything downstream of it.
    pub fn link(&mut self, link: Link)
        requires
            old(self).wf(),
        ensures
            final(self).wf(),
            final(self).evaluator() == old(self).evaluator(),
            final(self)@.links == old(self)@.links.insert(link@.0, link@.1),
            old(self)@.has(link@.0.0) ==> final(self).links_changed(link@.0.0),
            exists|order: Seq<u64>, trace: Seq<GraphView<T, V>>|
                is_walk(final(self)@.links, true, link@.0.0, order) && #[trigger] old(self)@.with_links(
                    final(self)@.links,
                ).pass(final(self)@, order, trace) && forall|i: int|
                        0 <= i < order.len() && trace[i].has(order[i]) ==> exists|s: &mut T, d: &mut Data<V>|
                            #[trigger] call_ensures(old(self).evaluator(), (s, d), ()) && mut_ref_current(s) == trace[i].record(order[i]).state
                                && mut_ref_future(s) == trace[i + 1].record(order[i]).state && evaluation_start(
                                mut_ref_current(d),
                                trace[i],
                                order[i],
                            ) && outputs_settled(
                                trace[i + 1].values,
                                mut_ref_current(d).cached(),
                                order[i],
                                mut_ref_future(d).commits(),
                            ),
    {
        self.links.insert(link);
        self.mark_links_changed(link.input.node);
        assert(self@ == old(self)@.with_links(self@.links));
        let ghost marked = *self;
        self.invalidate(link.input.node);
        proof {
            if old(self)@.has(link@.0.0) {
                assert(marked@.has(link@.0.0));
                let j = choose|j: int|
                    0 <= j < marked.nodes.len() && marked.nodes@[j].id@ == link@.0.0 && #[trigger] marked.nodes@[j].links_changed;
                assert(self@.nodes[j].id == marked@.nodes[j].id);
                assert(self.nodes@[j].links_changed);
            }
        }
    }

    /// Notes that a link into the node changed, for whoever draws the links.
    fn mark_links_changed(&mut self, node: Node)
        requires
            old(self).wf(),
        ensures
            final(self).wf(),
            final(self).evaluator() == old(self).evaluator(),
            final(self)@ == old(self)@,
            old(self)@.has(node@) ==> final(self).links_changed(node@),
    {
        match self.slot(node) {
            Some(j) => {
                self.nodes[j].links_changed = true;
                proof {
                    assert(self.nodes@[j as int].id@ == node@ && self.nodes@[j as int].links_changed);
                    assert forall|a: int| 0 <= a < self.nodes.len() implies (#[trigger] self.nodes@[a]).wf() by {
                        assert(old(self).nodes@[a].wf());
                    }
                    assert forall|a: int| 0 <= a < self.nodes.len() implies #[trigger] self@.nodes[a] == old(self)@.nodes[a] by {
                        if a == j {
                            assert(self.nodes@[a].inputs@ == old(self).nodes@[a].inputs@);
                            assert(self.nodes@[a].outputs@ == old(self).nodes@[a].outputs@);
                        }
                    }
                    assert(self@.nodes =~= old(self)@.nodes);
                }
            },
            None => {},
        }
    }

    /// Moves a node, without recomputing anything.
    pub fn move_to(&mut self, node: Node, position: Point)
        requires
            old(self).wf(),
        ensures
            final(self).wf(),
            final(self)@.links == old(self)@.links,
            final(self)@.values == old(self)@.values,
            final(self)@.next == old(self)@.next,
            final(self)@.nodes.len() == old(self)@.nodes.len(),
            forall|j: int|
                0 <= j < old(self)@.nodes.len() ==> #[trigger] final(self)@.nodes[j] == if old(self)@.nodes[j].id
                    == node@ {
                    NodeView { position, ..old(self)@.nodes[j] }
                } else {
                    old(self)@.nodes[j]
                },
    {
        match self.slot(node) {
            Some(j) => {
                self.nodes[j].position = position;
                proof {
                    assert forall|a: int| 0 <= a < self.nodes.len() implies (#[trigger] self.nodes@[a]).wf() by {
                        assert(old(self).nodes@[a].wf());
                    }
                    assert forall|a: int| 0 <= a < old(self)@.nodes.len() implies #[trigger] self@.nodes[a] == if old(self)@.nodes[a].id
                        == node@ {
                        NodeView { position, ..old(self)@.nodes[a] }
                    } else {
                        old(self)@.nodes[a]
                    } by {
                        if a != j {
                            assert(old(self).nodes@[a].id@ != old(self).nodes@[j as int].id@);
                        }
                    }
                }
            },
            None => {
                assert forall|a: int| 0 <= a < old(self)@.nodes.len() implies old(self)@.nodes[a].id != node@ by {
                    assert(old(self)@.nodes[a].id == old(self).nodes@[a].id@);
                }
            },
        }
    }

    /// Applies `f` to a node's state, then recomputes the node and everything
    /// downstream of it. Returns what `f` returned, or the default value when
    /// the graph has no such node.
    pub fn update<O: Default>(&mut self, node: Node, f: impl FnOnce(&mut T, &mut Data<V>) -> O) -> (r: O)
        requires
            old(self).wf(),
            forall|s: &mut T, d: &mut Data<V>| d.wf() ==> call_requires(f, (s, d)),
        ensures
            final(self).wf(),
            final(self).evaluator() == old(self).evaluator(),
            !old(self)@.has(node@) ==> final(self)@ == old(self)@ && call_ensures(O::default, (), r),
            old(self)@.has(node@) ==> exists|s: &mut T, d: &mut Data<V>|
                #[trigger] call_ensures(f, (s, d), r) && mut_ref_current(s) == old(self)@.record(node@).state
                    && mut_ref_current(d).wf() && mut_ref_current(d).node() == node@
                    && mut_ref_current(d).links() == old(self)@.links && mut_ref_current(d).cached()
                    == old(self)@.values && mut_ref_current(d).commits().len() == 0 && exists|
                    mid: GraphView<T, V>,
                    order: Seq<u64>,
                    trace: Seq<GraphView<T, V>>,
                |
                    mid.same_shape(old(self)@) && mid.values == old(self)@.values && mid.changed_only(
                        old(self)@,
                        seq![node@],
                    ) && mid.record(node@).state == mut_ref_future(s) && is_walk(
                        old(self)@.links,
                        true,
                        node@,
                        order,
                    ) && #[trigger] mid.pass(final(self)@, order, trace) && forall|i: int|
                        0 <= i < order.len() && trace[i].has(order[i]) ==> exists|s: &mut T, d: &mut Data<V>|
                            #[trigger] call_ensures(old(self).evaluator(), (s, d), ()) && mut_ref_current(s) == trace[i].record(order[i]).state
                                && mut_ref_future(s) == trace[i + 1].record(order[i]).state && evaluation_start(
                                mut_ref_current(d),
                                trace[i],
                                order[i],
                            ) && outputs_settled(
                                trace[i + 1].values,
                                mut_ref_current(d).cached(),
                                order[i],
                                mut_ref_future(d).commits(),
                            ),
    {
        let j = match self.slot(node) {
            Some(j) => j,
            None => {
                return O::default();
            },
        };
        let mut data = Data { links: &self.links, values: &self.values, node, log: Vec::new() };
        assert(data.commits() =~= Seq::<(PortKey, Option<V>)>::empty());
        let ghost start = data;
        let ghost old_state = self.nodes@[j as int].state;
        let state = &mut self.nodes[j].state;
        let view = &mut data;
        let ghost s_ref = state;
        let ghost d_ref = view;
        let result = f(state, view);
        assert(exists|s: &mut T, d: &mut Data<V>|
            #[trigger] call_ensures(f, (s, d), result) && mut_ref_current(s) == old_state && mut_ref_future(s)
                == mut_ref_future(s_ref) && mut_ref_current(d) == start);
        proof {
            assert forall|a: int| 0 <= a < self.nodes.len() implies (#[trigger] self.nodes@[a]).wf() by {
                assert(old(self).nodes@[a].wf());
            }
            assert forall|a: int|
                0 <= a < self@.nodes.len() && !seq![node@].contains(self@.nodes[a].id) implies (#[trigger] self@.nodes[a]).state
                    == old(self)@.nodes[a].state by {
                if a == j {
                    assert(seq![node@][0] == node@);
                }
            }
            old(self).lemma_record(j as int);
            self.lemma_record(j as int);
        }
        let ghost mid = self@;
        let ghost ev = self.evaluator();
        self.invalidate(node);
        proof {
            let (s, d) = choose|s: &mut T, d: &mut Data<V>|
                #[trigger] call_ensures(f, (s, d), result) && mut_ref_current(s) == old_state && mut_ref_future(s)
                    == mut_ref_future(s_ref) && mut_ref_current(d) == start;
            let (order, trace) = choose|order: Seq<u64>, trace: Seq<GraphView<T, V>>|
                is_walk(mid.links, true, node@, order) && #[trigger] mid.pass(self@, order, trace) && forall|i: int|
                    0 <= i < order.len() && trace[i].has(order[i]) ==> exists|s: &mut T, d: &mut Data<V>|
                        #[trigger] call_ensures(ev, (s, d), ()) && mut_ref_current(s) == trace[i].record(order[i]).state
                            && mut_ref_future(s) == trace[i + 1].record(order[i]).state && evaluation_start(
                            mut_ref_current(d),
                            trace[i],
                            order[i],
                        ) && outputs_settled(
                            trace[i + 1].values,
                            mut_ref_current(d).cached(),
                            order[i],
                            mut_ref_future(d).commits(),
                        );
            assert(mid.record(node@).state == mut_ref_future(s));
            assert(mut_ref_current(d).cached() == old(self)@.values);
            assert(ev == old(self).evaluator());
        }
        result
    }
}


/// Builds one node: declares its ports, then adds it to the graph.
pub struct Builder<'a, T, V, F> {
    graph: Option<&'a mut Graph<T, V, F>>,
    node: Node,
    size: Option<Size>,
    inputs: Vec<InputId>,
    outputs: Vec<OutputId>,
}

impl<'a, T, V, F: Fn(&mut T, &mut Data<V>)> Builder<'a, T, V, F> {
    /// The declared ports belong to the node.
    pub closed spec fn wf(&self) -> bool {
        &&& forall|i: int| 0 <= i < self.inputs.len() ==> (#[trigger] self.inputs@[i])@.0 == self.node@
        &&& forall|i: int| 0 <= i < self.outputs.len() ==> (#[trigger] self.outputs@[i])@.0 == self.node@
    }

    /// The builder holds a well-formed graph whose last handed-out id is the
    /// node's, and the graph has no node with a later id.
    pub closed spec fn attached(&self) -> bool {
        match self.graph {
            Some(g) => {
                &&& g.wf()
                &&& self.node@ + 1 == g.current
                &&& forall|j: int| 0 <= j < g.nodes.len() ==> (#[trigger] g.nodes@[j]).id@ < self.node@
            },
            None => false,
        }
    }

    /// The graph the node is added to.
    pub closed spec fn target(&self) -> &'a mut Graph<T, V, F> {
        self.graph->0
    }

    /// The node being built.
    pub closed spec fn node(&self) -> u64 {
        self.node@
    }

    /// The graph, as it stands before the node is added.
    pub closed spec fn graph(&self) -> Option<GraphView<T, V>> {
        match self.graph {
            Some(g) => Some(g@),
            None => None,
        }
    }

    /// The input ports declared so far.
    pub closed spec fn inputs(&self) -> Seq<PortKey> {
        self.inputs@.map_values(|i: InputId| i@)
    }

    /// The output ports declared so far.
    pub closed spec fn outputs(&self) -> Seq<PortKey> {
        self.outputs@.map_values(|o: OutputId| o@)
    }

    /// The id the node will have.
    pub fn id(&self) -> (r: Node)
        ensures
            r@ == self.node(),
    {
        self.node
    }

    /// Declares an input port of the node.
    pub fn input<A>(&mut self, name: &'static str) -> (r: Input<A>)
        requires
            old(self).wf(),
        ensures
            final(self).wf(),
            final(self).attached() == old(self).attached(),
            r@ == (old(self).node(), name@),
            final(self).node() == old(self).node(),
            final(self).graph() == old(self).graph(),
            final(self).inputs() == old(self).inputs().push(r@),
            final(self).outputs() == old(self).outputs(),
    {
        let id = InputId { node: self.node, name };
        self.inputs.push(id);
        proof {
            assert(self.inputs() =~= old(self).inputs().push(id@));
        }
        Input { id, _type: PhantomData }
    }

    /// Declares an output port of the node.
    pub fn output<A>(&mut self, name: &'static str) -> (r: Output<A>)
        requires
            old(self).wf(),
        ensures
            final(self).wf(),
            final(self).attached() == old(self).attached(),
            r@ == (old(self).node(), name@),
            final(self).node() == old(self).node(),
            final(self).graph() == old(self).graph(),
            final(self).inputs() == old(self).inputs(),
            final(self).outputs() == old(self).outputs().push(r@),
    {
        let id = OutputId { node: self.node, name };
        self.outputs.push(id);
        proof {
            assert(self.outputs() =~= old(self).outputs().push(id@));
        }
        Output { id, _type: PhantomData }
    }

    /// Sets the size the node is drawn with.
    pub fn size(&mut self, size: Size)
        requires
            old(self).wf(),
        ensures
            final(self).wf(),
            final(self).attached() == old(self).attached(),
            final(self).node() == old(self).node(),
            final(self).graph() == old(self).graph(),
            final(self).inputs() == old(self).inputs(),
            final(self).outputs() == old(self).outputs(),
    {
        self.size = Some(size);
    }
}

impl<T, V, F: Fn(&mut T, &mut Data<V>)> Graph<T, V, F> {
    /// Starts building a node with a fresh id.
    pub fn build(&mut self) -> (r: Builder<'_, T, V, F>)
        requires
            old(self).wf(),
            old(self)@.next < u64::MAX,
        ensures
            r.wf(),
            r.attached(),
            r.node() == old(self)@.next,
            forall|j: int| 0 <= j < old(self)@.nodes.len() ==> #[trigger] old(self)@.nodes[j].id < r.node(),
            r.graph() == Some(old(self)@.with_next((old(self)@.next + 1) as u64)),
            r.inputs().len() == 0,
            r.outputs().len() == 0,
    {
        let node = Node(self.current);
        self.current = self.current + 1;
        Builder { graph: Some(self), node, size: None, inputs: Vec::new(), outputs: Vec::new() }
    }
}


impl<T, V, F: Fn(&mut T, &mut Data<V>)> Graph<T, V, F> {
    /// Adds a node with the last id handed out, then evaluates it and
    /// everything downstream of it.
    fn insert_node(
        &mut self,
        node: Node,
        size: Option<Size>,
        inputs: Vec<InputId>,
        outputs: Vec<OutputId>,
        position: Point,
        state: T,
    )
        requires
            old(self).wf(),
            node@ + 1 == old(self).current,
            forall|j: int| 0 <= j < old(self).nodes.len() ==> (#[trigger] old(self).nodes@[j]).id@ < node@,
            forall|i: int| 0 <= i < inputs.len() ==> (#[trigger] inputs@[i])@.0 == node@,
            forall|i: int| 0 <= i < outputs.len() ==> (#[trigger] outputs@[i])@.0 == node@,
        ensures
            final(self).wf(),
            final(self).evaluator() == old(self).evaluator(),
            exists|order: Seq<u64>, trace: Seq<GraphView<T, V>>|
                is_walk(old(self)@.links, true, node@, order) && #[trigger] old(self)@.with_node(
                    new_node(node@, state, position, inputs@, outputs@),
                ).pass(final(self)@, order, trace) && forall|i: int|
                        0 <= i < order.len() && trace[i].has(order[i]) ==> exists|s: &mut T, d: &mut Data<V>|
                            #[trigger] call_ensures(old(self).evaluator(), (s, d), ()) && mut_ref_current(s) == trace[i].record(order[i]).state
                                && mut_ref_future(s) == trace[i + 1].record(order[i]).state && evaluation_start(
                                mut_ref_current(d),
                                trace[i],
                                order[i],
                            ) && outputs_settled(
                                trace[i + 1].values,
                                mut_ref_current(d).cached(),
                                order[i],
                                mut_ref_future(d).commits(),
                            ),
    {
        let ghost record = new_node(node@, state, position, inputs@, outputs@);
        let j = self.nodes.len();
        self.nodes.push(
            NodeRecord { id: node, state, position, size, inputs, outputs, links_changed: false },
        );
        insert_slot(&mut self.slots, node.0, j);
        proof {
            assert(self.nodes@[j as int].wf());
            assert forall|a: int| 0 <= a < self.nodes.len() implies (#[trigger] self.nodes@[a]).wf() by {
                if a < j {
                    assert(old(self).nodes@[a].wf());
                }
            }
            assert forall|k: u64| #[trigger] slot_entries(self.slots).contains_key(k) implies slot_entries(self.slots)[k]
                < self.nodes.len() && self.nodes@[slot_entries(self.slots)[k] as int].id@ == k by {
                if k != node@ {
                    assert(slot_entries(old(self).slots).contains_key(k));
                }
            }
            assert forall|a: int| 0 <= a < self.nodes.len() implies slot_entries(self.slots).get(
                #[trigger] self.nodes@[a].id@,
            ) == Some(a as usize) by {
                if a < j {
                    assert(self.nodes@[a] == old(self).nodes@[a]);
                    assert(old(self).nodes@[a].id@ < node@);
                }
            }
            assert(self@.nodes =~= old(self)@.nodes.push(record));
            assert(self@ == old(self)@.with_node(record));
            assert(self.evaluator() == old(self).evaluator());
        }
        self.invalidate(node);
    }

    /// Builds a node with `f`, which declares its ports and returns its
    /// initial state, and adds it at `position`; then evaluates it and
    /// everything downstream of it.
    pub fn push(&mut self, position: Point, f: impl FnOnce(&mut Builder<'_, T, V, F>) -> T)
        requires
            old(self).wf(),
            old(self)@.next < u64::MAX,
            forall|b: &mut Builder<'_, T, V, F>| b.wf() ==> call_requires(f, (b,)),
        ensures
            final(self).wf(),
            final(self).evaluator() == old(self).evaluator(),
            exists|b: &mut Builder<'_, T, V, F>, state: T|
                #[trigger] call_ensures(f, (b,), state) && mut_ref_current(b).wf()
                    && mut_ref_current(b).node() == old(self)@.next && mut_ref_current(b).graph() is None
                    && mut_ref_current(b).inputs().len() == 0 && mut_ref_current(b).outputs().len() == 0
                    && exists|order: Seq<u64>, trace: Seq<GraphView<T, V>>|
                    is_walk(old(self)@.links, true, old(self)@.next, order) && #[trigger] old(self)@.with_next(
                        (old(self)@.next + 1) as u64,
                    ).with_node(
                        node_view(
                            old(self)@.next,
                            state,
                            position,
                            own_ports(mut_ref_future(b).inputs(), old(self)@.next),
                            own_ports(mut_ref_future(b).outputs(), old(self)@.next),
                        ),
                    ).pass(final(self)@, order, trace) && forall|i: int|
                        0 <= i < order.len() && trace[i].has(order[i]) ==> exists|s: &mut T, d: &mut Data<V>|
                            #[trigger] call_ensures(old(self).evaluator(), (s, d), ()) && mut_ref_current(s) == trace[i].record(order[i]).state
                                && mut_ref_future(s) == trace[i + 1].record(order[i]).state && evaluation_start(
                                mut_ref_current(d),
                                trace[i],
                                order[i],
                            ) && outputs_settled(
                                trace[i + 1].values,
                                mut_ref_current(d).cached(),
                                order[i],
                                mut_ref_future(d).commits(),
                            ),
    {
        let node = Node(self.current);
        self.current = self.current + 1;
        let mut builder: Builder<'_, T, V, F> = Builder {
            graph: None,
            node,
            size: None,
            inputs: Vec::new(),
            outputs: Vec::new(),
        };
        assert(builder.wf());
        assert(builder.inputs() =~= Seq::<PortKey>::empty());
        assert(builder.outputs() =~= Seq::<PortKey>::empty());
        let ghost start = builder;
        let b_ref = &mut builder;
        let ghost b_ghost = b_ref;
        let state = f(b_ref);
        assert(exists|b: &mut Builder<'_, T, V, F>|
            #[trigger] call_ensures(f, (b,), state) && mut_ref_current(b) == start && mut_ref_future(b)
                == mut_ref_future(b_ghost));
        let ghost declared_inputs = builder.inputs();
        let ghost declared_outputs = builder.outputs();
        let Builder { graph: _, node: _, size, inputs, outputs } = builder;
        let inputs = own_inputs(inputs, node);
        let outputs = own_outputs(outputs, node);
        let ghost mid = self@;
        let ghost ev = self.evaluator();
        let ghost record = new_node(node@, state, position, inputs@, outputs@);
        assert(record == node_view(node@, state, position, own_ports(declared_inputs, node@), own_ports(declared_outputs, node@)));
        assert(mid == old(self)@.with_next((old(self)@.next + 1) as u64));
        self.insert_node(node, size, inputs, outputs, position, state);
        proof {
            let b = choose|b: &mut Builder<'_, T, V, F>|
                #[trigger] call_ensures(f, (b,), state) && mut_ref_current(b) == start && mut_ref_future(b)
                    == mut_ref_future(b_ghost);
            assert(mut_ref_future(b).inputs() == declared_inputs);
            assert(ev == old(self).evaluator());
        }
    }
}

/// The ports of the list that belong to `node`, in order.
fn own_inputs(ports: Vec<InputId>, node: Node) -> (r: Vec<InputId>)
    ensures
        forall|i: int| 0 <= i < r.len() ==> (#[trigger] r@[i])@.0 == node@,
        r@.map_values(|p: InputId| p@) == own_ports(ports@.map_values(|p: InputId| p@), node@),
{
    let mut r: Vec<InputId> = Vec::new();
    let mut i: usize = 0;
    while i < ports.len()
        invariant
            0 <= i <= ports.len(),
            forall|j: int| 0 <= j < r.len() ==> (#[trigger] r@[j])@.0 == node@,
            r@.map_values(|p: InputId| p@) == own_ports(ports@.take(i as int).map_values(|p: InputId| p@), node@),
        decreases ports.len() - i,
    {
        let ghost before = r@;
        let ghost t = ports@.take(i + 1).map_values(|p: InputId| p@);
        proof {
            assert(t.drop_last() =~= ports@.take(i as int).map_values(|p: InputId| p@));
            assert(t.last() == ports@[i as int]@);
            reveal(Seq::filter);
        }
        if ports[i].node.0 == node.0 {
            r.push(ports[i]);
            proof {
                assert(r@.map_values(|p: InputId| p@) =~= before.map_values(|p: InputId| p@).push(ports@[i as int]@));
            }
        }
        i += 1;
    }
    assert(ports@.take(i as int) =~= ports@);
    r
}

/// The ports of the list that belong to `node`, in order.
fn own_outputs(ports: Vec<OutputId>, node: Node) -> (r: Vec<OutputId>)
    ensures
        forall|i: int| 0 <= i < r.len() ==> (#[trigger] r@[i])@.0 == node@,
        r@.map_values(|p: OutputId| p@) == own_ports(ports@.map_values(|p: OutputId| p@), node@),
{
    let mut r: Vec<OutputId> = Vec::new();
    let mut i: usize = 0;
    while i < ports.len()
        invariant
            0 <= i <= ports.len(),
            forall|j: int| 0 <= j < r.len() ==> (#[trigger] r@[j])@.0 == node@,
            r@.map_values(|p: OutputId| p@) == own_ports(ports@.take(i as int).map_values(|p: OutputId| p@), node@),
        decreases ports.len() - i,
    {
        let ghost before = r@;
        let ghost t = ports@.take(i + 1).map_values(|p: OutputId| p@);
        proof {
            assert(t.drop_last() =~= ports@.take(i as int).map_values(|p: OutputId| p@));
            assert(t.last() == ports@[i as int]@);
            reveal(Seq::filter);
        }
        if ports[i].node.0 == node.0 {
            r.push(ports[i]);
            proof {
                assert(r@.map_values(|p: OutputId| p@) =~= before.map_values(|p: OutputId| p@).push(ports@[i as int]@));
            }
        }
        i += 1;
    }
    assert(ports@.take(i as int) =~= ports@);
    r
}

impl<'a, T, V, F: Fn(&mut T, &mut Data<V>)> Builder<'a, T, V, F> {
    /// Adds the node, with its ports, position and initial state, to the
    /// graph, then evaluates it and everything downstream of it.
    pub fn finish(self, position: Point, state: T)
        requires
            self.wf(),
            self.attached(),
        ensures
            mut_ref_future(self.target()).wf(),
            mut_ref_future(self.target()).evaluator() == mut_ref_current(self.target()).evaluator(),
            exists|order: Seq<u64>, trace: Seq<GraphView<T, V>>|
                is_walk(mut_ref_current(self.target())@.links, true, self.node(), order) && #[trigger] mut_ref_current(self.target())@.with_node(
                    node_view(self.node(), state, position, self.inputs(), self.outputs()),
                ).pass(mut_ref_future(self.target())@, order, trace) && forall|i: int|
                        0 <= i < order.len() && trace[i].has(order[i]) ==> exists|s: &mut T, d: &mut Data<V>|
                            #[trigger] call_ensures(mut_ref_current(self.target()).evaluator(), (s, d), ()) && mut_ref_current(s) == trace[i].record(order[i]).state
                                && mut_ref_future(s) == trace[i + 1].record(order[i]).state && evaluation_start(
                                mut_ref_current(d),
                                trace[i],
                                order[i],
                            ) && outputs_settled(
                                trace[i + 1].values,
                                mut_ref_current(d).cached(),
                                order[i],
                                mut_ref_future(d).commits(),
                            ),
    {
        let ghost wanted = node_view(self.node(), state, position, self.inputs(), self.outputs());
        let Builder { graph, node, size, inputs, outputs } = self;
        assert(new_node(node@, state, position, inputs@, outputs@) == wanted);
        match graph {
            Some(graph) => graph.insert_node(node, size, inputs, outputs, position, state),
            None => {},
        }
    }
}


/// Every link into one of `nodes` leads from a node of lower rank to one of
/// higher rank: no cycle of links runs through `nodes`.
pub open spec fn ranked(links: Map<PortKey, PortKey>, rank: spec_fn(u64) -> nat, nodes: Seq<u64>) -> bool {
    forall|k: PortKey| #[trigger] links.contains_key(k) && nodes.contains(k.0) ==> rank(links[k].0) < rank(k.0)
}

/// `order` runs nodes that `node` depends on, each after every node it reads
/// from, and ends with `node`.
pub open spec fn ordered_before(links: Map<PortKey, PortKey>, node: u64, order: Seq<u64>) -> bool {
    &&& order.len() >= 1
    &&& order.last() == node
    &&& order.no_duplicates()
    &&& forall|q: int, k: PortKey|
        0 <= q < order.len() - 1 && #[trigger] links.contains_key(k) && k.0 == #[trigger] order[q]
            ==> order.subrange(0, q).contains(links[k].0)
}

/// What `schedule` returns for `node`: an order of the nodes of a backward
/// walk from `node` in which each comes after the nodes it reads from, and
/// which holds every node of the walk whenever no cycle of links runs
/// through the walk's nodes.
pub open spec fn is_schedule(links: Map<PortKey, PortKey>, node: u64, order: Seq<u64>) -> bool {
    exists|walk: Seq<u64>|
        #[trigger] is_walk(links, false, node, walk) && ordered_before(links, node, order)
            && (forall|i: int| 0 <= i < order.len() ==> walk.contains(#[trigger] order[i]))
            && (forall|rank: spec_fn(u64) -> nat|
            #[trigger] ranked(links, rank, walk) ==> forall|i: int| 0 <= i < walk.len() ==> order.contains(#[trigger] walk[i]))
}

impl LinkTable {
    /// Whether no active link leads into `node`.
    fn is_root(&self, active: &Vec<bool>, node: u64) -> (r: bool)
        requires
            active.len() == self.entries.len(),
        ensures
            r == forall|j: int| 0 <= j < self.entries.len() && #[trigger] active@[j] ==> self.entries@[j].input@.0 != node,
    {
        let mut j: usize = 0;
        while j < self.entries.len()
            invariant
                active.len() == self.entries.len(),
                0 <= j <= self.entries.len(),
                forall|i: int| 0 <= i < j && #[trigger] active@[i] ==> self.entries@[i].input@.0 != node,
            decreases self.entries.len() - j,
        {
            if active[j] && self.entries[j].input.node().0 == node {
                return false;
            }
            j += 1;
        }
        true
    }
}

proof fn lemma_walk_rank(links: Map<PortKey, PortKey>, node: u64, walk: Seq<u64>, parents: Seq<int>, rank: spec_fn(u64) -> nat, i: int)
    requires
        walk.len() >= 1,
        walk[0] == node,
        discovered(links, false, walk, parents),
        ranked(links, rank, walk),
        0 <= i < walk.len(),
    ensures
        rank(walk[i]) <= rank(node),
        i > 0 ==> rank(walk[i]) < rank(node),
    decreases i,
{
    if i > 0 {
        let p = parents[i];
        lemma_walk_rank(links, node, walk, parents, rank, p);
        let k = choose|k: PortKey| #[trigger] links.contains_key(k) && k.0 == walk[p] && links[k].0 == walk[i];
        assert(walk.contains(k.0));
        assert(rank(links[k].0) < rank(k.0));
    }
}


impl LinkTable {
    /// Switches off the active links from an output of `from` into an input
    /// of `to`, and tells whether there was one.
    fn deactivate(&self, active: &mut Vec<bool>, to: u64, from: u64) -> (removed: bool)
        requires
            old(active).len() == self.entries.len(),
        ensures
            final(active).len() == self.entries.len(),
            forall|j: int|
                0 <= j < self.entries.len() ==> #[trigger] final(active)@[j] == (old(active)@[j] && !(
                self.entries@[j].input@.0 == to && self.entries@[j].output@.0 == from)),
            removed == exists|j: int|
                0 <= j < self.entries.len() && #[trigger] old(active)@[j] && self.entries@[j].input@.0 == to
                    && self.entries@[j].output@.0 == from,
    {
        let mut removed = false;
        let mut j: usize = 0;
        while j < self.entries.len()
            invariant
                active.len() == self.entries.len(),
                0 <= j <= self.entries.len(),
                forall|i: int|
                    0 <= i < j ==> #[trigger] active@[i] == (old(active)@[i] && !(self.entries@[i].input@.0 == to
                        && self.entries@[i].output@.0 == from)),
                forall|i: int| j <= i < self.entries.len() ==> #[trigger] active@[i] == old(active)@[i],
                removed == exists|i: int|
                    0 <= i < j && #[trigger] old(active)@[i] && self.entries@[i].input@.0 == to
                        && self.entries@[i].output@.0 == from,
            decreases self.entries.len() - j,
        {
            if active[j] && self.entries[j].input.node().0 == to && self.entries[j].output.node().0 == from {
                active.set(j, false);
                removed = true;
            }
            j += 1;
        }
        removed
    }
}


/// The bookkeeping of a schedule under way: `order` is what was scheduled,
/// `ready` what may be scheduled next, and `active` which links are still
/// waiting for their source to be scheduled.
spec fn scheduling(t: LinkTable, node: u64, walk: Seq<u64>, active: Seq<bool>, order: Seq<u64>, ready: Seq<u64>) -> bool {
    &&& active.len() == t.entries.len()
    &&& order.no_duplicates()
    &&& ready.no_duplicates()
    &&& forall|a: int, b: int| 0 <= a < order.len() && 0 <= b < ready.len() ==> order[a] != ready[b]
    &&& forall|a: int| 0 <= a < order.len() ==> walk.contains(#[trigger] order[a]) && order[a] != node
    &&& forall|a: int| 0 <= a < ready.len() ==> walk.contains(#[trigger] ready[a]) && ready[a] != node
    &&& forall|j: int| 0 <= j < t.entries.len() && !(#[trigger] active[j]) ==> order.contains(t.entries@[j].output@.0)
    &&& forall|q: int, j: int|
        0 <= q < order.len() && 0 <= j < t.entries.len() && (#[trigger] t.entries@[j]).input@.0 == #[trigger] order[q]
            ==> !active[j] && order.subrange(0, q).contains(t.entries@[j].output@.0)
    &&& forall|x: int, j: int|
        0 <= x < ready.len() && 0 <= j < t.entries.len() && #[trigger] active[j] ==> t.entries@[j].input@.0
            != #[trigger] ready[x]
    &&& forall|d: u64|
        #[trigger] walk.contains(d) && d != node && !order.contains(d) && !ready.contains(d) ==> exists|j: int|
            0 <= j < t.entries.len() && #[trigger] active[j] && t.entries@[j].input@.0 == d
}

/// Every active link into a node of the walk other than `node` comes from a
/// node that `order` does not hold yet.
spec fn waiting(t: LinkTable, node: u64, walk: Seq<u64>, active: Seq<bool>, order: Seq<u64>) -> bool {
    forall|j: int|
        0 <= j < t.entries.len() && #[trigger] active[j] && walk.contains(t.entries@[j].input@.0)
            && t.entries@[j].input@.0 != node ==> !order.contains(t.entries@[j].output@.0)
}

proof fn lemma_schedule_pop(t: LinkTable, node: u64, walk: Seq<u64>, active: Seq<bool>, order: Seq<u64>, ready: Seq<u64>)
    requires
        scheduling(t, node, walk, active, order, ready),
        ready.len() > 0,
    ensures
        scheduling(t, node, walk, active, order.push(ready.last()), ready.drop_last()),
{
    let cur = ready.last();
    let o2 = order.push(cur);
    let r2 = ready.drop_last();
    assert forall|a: int, b: int| 0 <= a < o2.len() && 0 <= b < o2.len() && a != b implies o2[a] != o2[b] by {
        if a < order.len() && b < order.len() {
        } else if a < order.len() {
            assert(order[a] != ready[ready.len() - 1]);
        } else if b < order.len() {
            assert(order[b] != ready[ready.len() - 1]);
        }
    }
    assert forall|a: int, b: int| 0 <= a < o2.len() && 0 <= b < r2.len() implies o2[a] != r2[b] by {
        if a < order.len() {
            assert(order[a] != ready[b]);
        } else {
            assert(ready[b] != ready[ready.len() - 1]);
        }
    }
    assert forall|a: int| 0 <= a < o2.len() implies walk.contains(#[trigger] o2[a]) && o2[a] != node by {
        if a < order.len() {
            assert(o2[a] == order[a]);
        } else {
            assert(o2[a] == ready[ready.len() - 1]);
        }
    }
    assert forall|a: int| 0 <= a < r2.len() implies walk.contains(#[trigger] r2[a]) && r2[a] != node by {
        assert(r2[a] == ready[a]);
    }
    assert forall|j: int| 0 <= j < t.entries.len() && !(#[trigger] active[j]) implies o2.contains(t.entries@[j].output@.0) by {
        let q = choose|q: int| 0 <= q < order.len() && order[q] == t.entries@[j].output@.0;
        assert(o2[q] == order[q]);
    }
    assert forall|q: int, j: int|
        0 <= q < o2.len() && 0 <= j < t.entries.len() && (#[trigger] t.entries@[j]).input@.0 == #[trigger] o2[q]
            implies !active[j] && o2.subrange(0, q).contains(t.entries@[j].output@.0) by {
        if q < order.len() {
            assert(o2[q] == order[q]);
            assert(o2.subrange(0, q) =~= order.subrange(0, q));
        } else {
            assert(o2[q] == ready[ready.len() - 1]);
            if active[j] {
                assert(t.entries@[j].input@.0 != ready[ready.len() - 1]);
            }
            assert(o2.subrange(0, q) =~= order);
        }
    }
    assert forall|x: int, j: int|
        0 <= x < r2.len() && 0 <= j < t.entries.len() && #[trigger] active[j] implies t.entries@[j].input@.0
            != #[trigger] r2[x] by {
        assert(r2[x] == ready[x]);
    }
    assert forall|d: u64|
        #[trigger] walk.contains(d) && d != node && !o2.contains(d) && !r2.contains(d) implies exists|j: int|
            0 <= j < t.entries.len() && #[trigger] active[j] && t.entries@[j].input@.0 == d by {
        if order.contains(d) {
            let q = choose|q: int| 0 <= q < order.len() && order[q] == d;
            assert(o2[q] == d);
        }
        if ready.contains(d) {
            let q = choose|q: int| 0 <= q < ready.len() && ready[q] == d;
            if q < r2.len() {
                assert(r2[q] == d);
            } else {
                assert(o2[order.len() as int] == d);
            }
        }
    }
}

proof fn lemma_schedule_step(
    t: LinkTable,
    node: u64,
    walk: Seq<u64>,
    active: Seq<bool>,
    active2: Seq<bool>,
    order: Seq<u64>,
    ready: Seq<u64>,
    cand: u64,
    cur: u64,
    removed: bool,
    root: bool,
)
    requires
        scheduling(t, node, walk, active, order, ready),
        walk.contains(cand),
        cand != node,
        order.contains(cur),
        active2.len() == t.entries.len(),
        forall|j: int|
            0 <= j < t.entries.len() ==> #[trigger] active2[j] == (active[j] && !(t.entries@[j].input@.0 == cand
                && t.entries@[j].output@.0 == cur)),
        removed == exists|j: int|
            0 <= j < t.entries.len() && #[trigger] active[j] && t.entries@[j].input@.0 == cand
                && t.entries@[j].output@.0 == cur,
        root == forall|j: int| 0 <= j < t.entries.len() && #[trigger] active2[j] ==> t.entries@[j].input@.0 != cand,
    ensures
        scheduling(t, node, walk, active2, order, if removed && root { ready.push(cand) } else { ready }),
{
    let r2 = if removed && root { ready.push(cand) } else { ready };
    if removed {
        let j0 = choose|j: int|
            0 <= j < t.entries.len() && #[trigger] active[j] && t.entries@[j].input@.0 == cand
                && t.entries@[j].output@.0 == cur;
        assert forall|x: int| 0 <= x < ready.len() implies ready[x] != cand by {
            assert(t.entries@[j0].input@.0 != ready[x]);
        }
        assert forall|q: int| 0 <= q < order.len() implies order[q] != cand by {
            if order[q] == cand {
                assert(!active[j0]);
            }
        }
    }
    assert forall|j: int| 0 <= j < t.entries.len() && !(#[trigger] active2[j]) implies order.contains(t.entries@[j].output@.0) by {
        if active[j] {
            assert(t.entries@[j].output@.0 == cur);
        }
    }
    assert forall|q: int, j: int|
        0 <= q < order.len() && 0 <= j < t.entries.len() && (#[trigger] t.entries@[j]).input@.0 == #[trigger] order[q]
            implies !active2[j] && order.subrange(0, q).contains(t.entries@[j].output@.0) by {}
    assert forall|x: int, j: int|
        0 <= x < r2.len() && 0 <= j < t.entries.len() && #[trigger] active2[j] implies t.entries@[j].input@.0
            != #[trigger] r2[x] by {
        if x < ready.len() {
            assert(r2[x] == ready[x]);
        }
    }
    assert forall|a: int| 0 <= a < r2.len() implies walk.contains(#[trigger] r2[a]) && r2[a] != node by {
        if a < ready.len() {
            assert(r2[a] == ready[a]);
        }
    }
    assert forall|a: int, b: int| 0 <= a < order.len() && 0 <= b < r2.len() implies order[a] != r2[b] by {
        if b < ready.len() {
            assert(r2[b] == ready[b]);
        }
    }
    assert forall|d: u64|
        #[trigger] walk.contains(d) && d != node && !order.contains(d) && !r2.contains(d) implies exists|j: int|
            0 <= j < t.entries.len() && #[trigger] active2[j] && t.entries@[j].input@.0 == d by {
        if d == cand {
            if removed && root {
                assert(r2[r2.len() - 1] == cand);
            } else if removed {
            } else {
                if ready.contains(d) {
                    let q = choose|q: int| 0 <= q < ready.len() && ready[q] == d;
                    assert(r2[q] == d);
                }
                let j = choose|j: int| 0 <= j < t.entries.len() && #[trigger] active[j] && t.entries@[j].input@.0 == d;
                assert(active2[j]);
            }
        } else {
            if ready.contains(d) {
                let q = choose|q: int| 0 <= q < ready.len() && ready[q] == d;
                assert(r2[q] == d);
            }
            let j = choose|j: int| 0 <= j < t.entries.len() && #[trigger] active[j] && t.entries@[j].input@.0 == d;
            assert(active2[j]);
        }
    }
}

proof fn lemma_all_scheduled(
    t: LinkTable,
    node: u64,
    walk: Seq<u64>,
    parents: Seq<int>,
    active: Seq<bool>,
    order: Seq<u64>,
    rank: spec_fn(u64) -> nat,
    d: u64,
)
    requires
        t.wf(),
        is_walk(t.view(), false, node, walk),
        discovered(t.view(), false, walk, parents),
        scheduling(t, node, walk, active, order, seq![]),
        waiting(t, node, walk, active, order),
        ranked(t.view(), rank, walk),
        walk.contains(d),
        d != node,
    ensures
        order.contains(d),
    decreases rank(d),
{
    if !order.contains(d) {
        assert(!seq![].contains(d));
        let j = choose|j: int| 0 <= j < t.entries.len() && #[trigger] active[j] && t.entries@[j].input@.0 == d;
        let k = t.entries@[j].input@;
        let src = t.entries@[j].output@.0;
        assert(t.view().contains_key(k));
        let i = choose|i: int| 0 <= i < walk.len() && walk[i] == d;
        assert(step(t.view(), false, walk[i], src));
        assert(walk.contains(src));
        assert(!order.contains(src));
        assert(rank(src) < rank(d));
        if src == node {
            lemma_walk_rank(t.view(), node, walk, parents, rank, i);
        } else {
            lemma_all_scheduled(t, node, walk, parents, active, order, rank, src);
        }
    }
}

impl LinkTable {
    /// Orders the nodes that `node` depends on so that each comes after the
    /// nodes it reads from, by repeatedly taking a node none of whose inputs
    /// waits on an unscheduled node; `node` itself comes last.
    fn schedule(&self, node: u64) -> (r: Vec<u64>)
        requires
            self.wf(),
        ensures
            is_schedule(self.view(), node, r@),
    {
        let walk = self.walk(node, false);
        let ghost t = *self;
        let ghost walk_v = walk@;
        let mut active: Vec<bool> = Vec::new();
        let mut j: usize = 0;
        while j < self.entries.len()
            invariant
                0 <= j <= self.entries.len(),
                active.len() == j,
                forall|i: int| 0 <= i < j ==> #[trigger] active@[i],
            decreases self.entries.len() - j,
        {
            active.push(true);
            j += 1;
        }
        let mut order: Vec<u64> = Vec::new();
        let mut ready: Vec<u64> = Vec::new();
        let mut c: usize = 1;
        while c < walk.len()
            invariant
                self.wf(),
                t == *self,
                walk_v == walk@,
                is_walk(self.view(), false, node, walk_v),
                1 <= c <= walk.len(),
                active.len() == self.entries.len(),
                forall|i: int| 0 <= i < active.len() ==> #[trigger] active@[i],
                order@.len() == 0,
                ready@.no_duplicates(),
                forall|a: int| 0 <= a < ready.len() ==> walk_v.subrange(1, c as int).contains(#[trigger] ready@[a]),
                forall|x: int, j: int|
                    0 <= x < ready.len() && 0 <= j < self.entries.len() && #[trigger] active@[j] ==> self.entries@[j].input@.0
                        != #[trigger] ready@[x],
                forall|d: u64|
                    #[trigger] walk_v.subrange(1, c as int).contains(d) && !ready@.contains(d) ==> exists|j: int|
                        0 <= j < self.entries.len() && #[trigger] active@[j] && self.entries@[j].input@.0 == d,
            decreases walk.len() - c,
        {
            let d = walk[c];
            let ghost ready0 = ready@;
            let ghost sub0 = walk_v.subrange(1, c as int);
            let root = self.is_root(&active, d);
            if root {
                ready.push(d);
            }
            proof {
                let sub1 = walk_v.subrange(1, c as int + 1);
                assert(sub1 =~= sub0.push(d));
                assert(!sub0.contains(d)) by {
                    if sub0.contains(d) {
                        let i = choose|i: int| 0 <= i < sub0.len() && sub0[i] == d;
                        assert(walk_v[i + 1] == walk_v[c as int]);
                    }
                }
                assert forall|a: int| 0 <= a < ready.len() implies sub1.contains(#[trigger] ready@[a]) by {
                    if a < ready0.len() {
                        assert(ready@[a] == ready0[a]);
                        let i = choose|i: int| 0 <= i < sub0.len() && sub0[i] == ready0[a];
                        assert(sub1[i] == ready0[a]);
                    } else {
                        assert(sub1[sub1.len() - 1] == d);
                    }
                }
                assert forall|dd: u64| #[trigger] sub1.contains(dd) && !ready@.contains(dd) implies exists|j: int|
                    0 <= j < self.entries.len() && #[trigger] active@[j] && self.entries@[j].input@.0 == dd by {
                    let i = choose|i: int| 0 <= i < sub1.len() && sub1[i] == dd;
                    if i < sub0.len() {
                        assert(sub0[i] == dd);
                        assert(sub0.contains(dd));
                        if ready0.contains(dd) {
                            let q = choose|q: int| 0 <= q < ready0.len() && ready0[q] == dd;
                            assert(ready@[q] == dd);
                        }
                    } else {
                        assert(dd == d);
                        if root {
                            assert(ready@[ready.len() - 1] == d);
                        } else {
                            let j = choose|j: int|
                                0 <= j < self.entries.len() && #[trigger] active@[j] && self.entries@[j].input@.0 == d;
                        }
                    }
                }
                assert forall|a: int, b: int| 0 <= a < ready.len() && 0 <= b < ready.len() && a != b implies ready@[a] != ready@[b] by {
                    if a < ready0.len() && b < ready0.len() {
                    } else if a < ready0.len() {
                        let i = choose|i: int| 0 <= i < sub0.len() && sub0[i] == ready0[a];
                        assert(sub0[i] != d);
                    } else if b < ready0.len() {
                        let i = choose|i: int| 0 <= i < sub0.len() && sub0[i] == ready0[b];
                        assert(sub0[i] != d);
                    }
                }
            }
            c += 1;
        }
        proof {
            assert forall|a: int| 0 <= a < ready.len() implies walk_v.contains(#[trigger] ready@[a]) && ready@[a] != node by {
                let x = ready@[a];
                let i = choose|i: int| 0 <= i < walk_v.len() - 1 && walk_v.subrange(1, walk_v.len() as int)[i] == x;
                assert(walk_v[i + 1] == x);
                assert(walk_v[0] == node);
            }
            assert forall|dd: u64|
                #[trigger] walk_v.contains(dd) && dd != node && !order@.contains(dd) && !ready@.contains(dd) implies exists|j: int|
                    0 <= j < self.entries.len() && #[trigger] active@[j] && self.entries@[j].input@.0 == dd by {
                let i = choose|i: int| 0 <= i < walk_v.len() && walk_v[i] == dd;
                assert(i != 0);
                assert(walk_v.subrange(1, walk_v.len() as int)[i - 1] == dd);
                assert(walk_v.subrange(1, walk_v.len() as int).contains(dd));
            }
            assert(scheduling(t, node, walk_v, active@, order@, ready@));
            assert(waiting(t, node, walk_v, active@, order@));
            assert forall|a: int| 0 <= a < ready.len() implies walk_v.drop_first().contains(#[trigger] ready@[a]) by {
                let x = ready@[a];
                let i = choose|i: int| 0 <= i < walk_v.len() && walk_v[i] == x;
                assert(i != 0);
                assert(walk_v.drop_first()[i - 1] == x);
            }
            lemma_no_dup_bound(ready@, walk_v.drop_first());
        }
        while ready.len() > 0
            invariant
                self.wf(),
                t == *self,
                walk_v == walk@,
                is_walk(self.view(), false, node, walk_v),
                scheduling(t, node, walk_v, active@, order@, ready@),
                waiting(t, node, walk_v, active@, order@),
                order.len() + ready.len() <= walk_v.len(),
            decreases 2 * walk_v.len() - 2 * (order.len() + ready.len()) + ready.len(),
        {
            let ghost order0 = order@;
            let ghost ready0 = ready@;
            proof {
                lemma_schedule_pop(t, node, walk_v, active@, order@, ready@);
            }
            let cur = ready.pop().unwrap();
            order.push(cur);
            assert(order@[order.len() - 1] == cur);
            let mut c: usize = 1;
            while c < walk.len()
                invariant
                    self.wf(),
                    t == *self,
                    walk_v == walk@,
                    is_walk(self.view(), false, node, walk_v),
                    1 <= c <= walk.len(),
                    order@ == order0.push(cur),
                    ready.len() + 1 >= ready0.len(),
                    scheduling(t, node, walk_v, active@, order@, ready@),
                    waiting(t, node, walk_v, active@, order0),
                    forall|j: int|
                        0 <= j < self.entries.len() && #[trigger] active@[j] && walk_v.subrange(1, c as int).contains(
                            self.entries@[j].input@.0,
                        ) ==> self.entries@[j].output@.0 != cur,
                decreases walk.len() - c,
            {
                let cand = walk[c];
                let ghost act_before = active@;
                let ghost ready_before = ready@;
                let ghost sub0 = walk_v.subrange(1, c as int);
                let removed = self.deactivate(&mut active, cand, cur);
                let root = self.is_root(&active, cand);
                proof {
                    assert(walk_v.contains(cand));
                    assert(cand != node) by {
                        assert(walk_v[0] == node);
                    }
                    assert(order@[order0.len() as int] == cur);
                    assert(order@.contains(cur));
                    lemma_schedule_step(t, node, walk_v, act_before, active@, order@, ready@, cand, cur, removed, root);
                }
                if removed && root {
                    ready.push(cand);
                }
                proof {
                    let sub1 = walk_v.subrange(1, c as int + 1);
                    assert(sub1 =~= sub0.push(cand));
                    assert forall|j: int|
                        0 <= j < self.entries.len() && #[trigger] active@[j] && sub1.contains(self.entries@[j].input@.0)
                            implies self.entries@[j].output@.0 != cur by {
                        if self.entries@[j].input@.0 != cand {
                            let i = choose|i: int| 0 <= i < sub1.len() && sub1[i] == self.entries@[j].input@.0;
                            assert(sub0[i] == self.entries@[j].input@.0);
                        }
                    }
                }
                c += 1;
            }
            proof {
                assert(walk_v.subrange(1, walk_v.len() as int) =~= walk_v.drop_first());
                assert forall|j: int|
                    0 <= j < self.entries.len() && #[trigger] active@[j] && walk_v.contains(self.entries@[j].input@.0)
                        && self.entries@[j].input@.0 != node implies !order@.contains(self.entries@[j].output@.0) by {
                    let x = self.entries@[j].input@.0;
                    let i = choose|i: int| 0 <= i < walk_v.len() && walk_v[i] == x;
                    assert(i != 0);
                    assert(walk_v.drop_first()[i - 1] == x);
                    assert(!order0.contains(self.entries@[j].output@.0));
                }
                lemma_no_dup_in_concat(order@, ready@);
                assert forall|a: int| 0 <= a < (order@ + ready@).len() implies walk_v.drop_first().contains(
                    #[trigger] (order@ + ready@)[a],
                ) by {
                    let x = (order@ + ready@)[a];
                    if a < order.len() {
                        assert(x == order@[a]);
                    } else {
                        assert(x == ready@[a - order.len()]);
                    }
                    let i = choose|i: int| 0 <= i < walk_v.len() && walk_v[i] == x;
                    assert(i != 0);
                    assert(walk_v.drop_first()[i - 1] == x);
                }
                lemma_no_dup_bound(order@ + ready@, walk_v.drop_first());
            }
        }
        let ghost scheduled = order@;
        order.push(node);
        proof {
            let o = order@;
            let parents = choose|parents: Seq<int>| discovered(self.view(), false, walk_v, parents);
            assert(o.no_duplicates()) by {
                assert forall|a: int, b: int| 0 <= a < o.len() && 0 <= b < o.len() && a != b implies o[a] != o[b] by {
                    if a < scheduled.len() && b < scheduled.len() {
                        assert(o[a] == scheduled[a] && o[b] == scheduled[b]);
                    } else if a < scheduled.len() {
                        assert(o[a] == scheduled[a]);
                    } else if b < scheduled.len() {
                        assert(o[b] == scheduled[b]);
                    }
                }
            }
            assert forall|q: int, k: PortKey|
                0 <= q < o.len() - 1 && #[trigger] self.view().contains_key(k) && k.0 == #[trigger] o[q]
                    implies o.subrange(0, q).contains(self.view()[k].0) by {
                let j = choose|j: int| 0 <= j < self.entries.len() && self.entries@[j].input@ == k;
                assert(o[q] == scheduled[q]);
                assert(o.subrange(0, q) =~= scheduled.subrange(0, q));
                assert(self.entries@[j].output@ == self.view()[k]);
            }
            assert(ordered_before(self.view(), node, o));
            assert forall|i: int| 0 <= i < o.len() implies walk_v.contains(#[trigger] o[i]) by {
                if i < scheduled.len() {
                    assert(o[i] == scheduled[i]);
                } else {
                    assert(walk_v[0] == node);
                }
            }
            assert forall|rank: spec_fn(u64) -> nat|
                #[trigger] ranked(self.view(), rank, walk_v) implies forall|i: int| 0 <= i < walk_v.len() ==> o.contains(#[trigger] walk_v[i]) by {
                assert forall|i: int| 0 <= i < walk_v.len() implies o.contains(#[trigger] walk_v[i]) by {
                    if walk_v[i] == node {
                        assert(o[o.len() - 1] == node);
                    } else if scheduled.contains(walk_v[i]) {
                        let q = choose|q: int| 0 <= q < scheduled.len() && scheduled[q] == walk_v[i];
                        assert(o[q] == walk_v[i]);
                    } else {
                        assert(walk_v.contains(walk_v[i]));
                        lemma_all_scheduled(t, node, walk_v, parents, active@, scheduled, rank, walk_v[i]);
                    }
                }
            }
            assert(is_walk(self.view(), false, node, walk_v));
        }
        order
    }
}


fn to_nodes(ids_: &Vec<u64>, from: usize) -> (r: Vec<Node>)
    requires
        from <= ids_.len(),
    ensures
        ids(r@) == ids_@.subrange(from as int, ids_.len() as int),
{
    let mut r: Vec<Node> = Vec::new();
    let mut i: usize = from;
    while i < ids_.len()
        invariant
            from <= i <= ids_.len(),
            ids(r@) == ids_@.subrange(from as int, i as int),
        decreases ids_.len() - i,
    {
        let ghost before = r@;
        let n = Node(ids_[i]);
        r.push(n);
        proof {
            assert(n@ == ids_@[i as int]);
            assert(ids(before).len() == before.len());
            assert(before.len() == i - from);
            assert(r@.len() == i + 1 - from);
            assert(ids(r@)[r@.len() - 1] == n@);
            assert forall|j: int| 0 <= j < r@.len() implies #[trigger] ids(r@)[j] == ids_@.subrange(from as int, i + 1)[j] by {
                if j < before.len() {
                    assert(r@[j] == before[j]);
                    assert(ids(before)[j] == ids_@.subrange(from as int, i as int)[j]);
                }
            }
            assert(ids(r@) =~= ids_@.subrange(from as int, i + 1));
        }
        i += 1;
    }
    r
}

impl<T, V, F: Fn(&mut T, &mut Data<V>)> Graph<T, V, F> {
    /// The nodes that `node` depends on, directly or through others, in the
    /// order a breadth-first walk back along the links finds them; `node`
    /// itself is not among them, and a node the graph does not hold depends
    /// on nothing.
    pub fn dependencies(&self, node: Node) -> (r: Vec<Node>)
        requires
            self.wf(),
        ensures
            !self@.has(node@) ==> r@.len() == 0,
            self@.has(node@) ==> is_walk(self@.held_links(), false, node@, seq![node@] + ids(r@)),
    {
        if self.slot(node).is_none() {
            return Vec::new();
        }
        let held = self.held_links();
        let walk = held.walk(node.0, false);
        let r = to_nodes(&walk, 1);
        assert(seq![node@] + ids(r@) =~= walk@);
        r
    }

    /// An order in which to run `node` and the nodes it depends on: each
    /// comes after the nodes it reads from, and `node` comes last. A node the
    /// graph does not hold depends on nothing.
    pub fn schedule(&self, node: Node) -> (r: Vec<Node>)
        requires
            self.wf(),
        ensures
            !self@.has(node@) ==> ids(r@) == seq![node@],
            self@.has(node@) ==> is_schedule(self@.held_links(), node@, ids(r@)),
    {
        if self.slot(node).is_none() {
            let mut r: Vec<Node> = Vec::new();
            r.push(node);
            assert(ids(r@) =~= seq![node@]);
            return r;
        }
        let held = self.held_links();
        let order = held.schedule(node.0);
        let r = to_nodes(&order, 0);
        assert(ids(r@) =~= order@);
        r
    }

    /// The links into inputs of nodes the graph holds.
    fn held_links(&self) -> (r: LinkTable)
        requires
            self.wf(),
        ensures
            r.wf(),
            r.view() == self@.held_links(),
    {
        let mut r = LinkTable::new();
        let mut i: usize = 0;
        while i < self.links.entries.len()
            invariant
                self.wf(),
                r.wf(),
                i <= self.links.entries.len(),
                forall|k: PortKey|
                    #[trigger] r.view().contains_key(k) <==> (self@.has(k.0) && exists|j: int|
                        0 <= j < i && self.links.entries@[j].input@ == k),
                forall|k: PortKey| #[trigger] r.view().contains_key(k) ==> r.view()[k] == self@.links[k],
            decreases self.links.entries.len() - i,
        {
            let link = self.links.entries[i];
            if self.slot(link.input.node()).is_some() {
                r.insert(link);
            }
            proof {
                assert(self@.links.contains_key(link.input@));
                assert(self@.links[link.input@] == link.output@);
                assert forall|k: PortKey|
                    #[trigger] r.view().contains_key(k) <==> (self@.has(k.0) && exists|j: int|
                        0 <= j < i + 1 && self.links.entries@[j].input@ == k) by {
                    if k == link.input@ {
                    } else if self@.has(k.0) && exists|j: int| 0 <= j < i + 1 && self.links.entries@[j].input@ == k {
                        let j = choose|j: int| 0 <= j < i + 1 && self.links.entries@[j].input@ == k;
                        assert(j < i);
                    }
                }
            }
            i += 1;
        }
        proof {
            let target = self@.held_links();
            assert forall|k: PortKey| #[trigger] r.view().contains_key(k) <==> target.contains_key(k) by {
                if self@.links.contains_key(k) {
                    let j = choose|j: int| 0 <= j < self.links.entries.len() && self.links.entries@[j].input@ == k;
                }
            }
            assert(r.view() =~= target);
        }
        r
    }
}

} // verus!
