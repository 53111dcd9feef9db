//! The dependency graph between variables and propagators, and the buffer of
//! change events that is run through it to find the propagators to wake.
//!
//! Variables stand on one side, by their identifiers, and propagators on the
//! other, by their positions. An edge carries the change class that the
//! propagator waits for on the variable.

use vstd::prelude::*;

use crate::variables::VariableState;

verus! {

/// A relation "is subsumed under" between the values of a type.
pub trait Subsumed: Sized {
    /// Whether `self` is subsumed under `val`.
    spec fn subsumed_under(&self, val: &Self) -> bool;

    /// Whether `self` is subsumed under `val`.
    fn is_subsumed_under(&self, val: &Self) -> (r: bool)
        ensures
            r == self.subsumed_under(val),
    ;
}

/// The edges that leave one variable: for each label once, the propagators
/// that wait for it, each once.
pub type EdgeList = Seq<(VariableState, Seq<usize>)>;

/// What a stored edge list stands for.
pub open spec fn edge_list_view(edges: Vec<(VariableState, Vec<usize>)>) -> EdgeList {
    edges@.map_values(|e: (VariableState, Vec<usize>)| (e.0, e.1@))
}

/// What a stored table of edge lists stands for.
pub open spec fn edges_view(edges: Seq<Vec<(VariableState, Vec<usize>)>>) -> Seq<EdgeList> {
    edges.map_values(|l: Vec<(VariableState, Vec<usize>)>| edge_list_view(l))
}

/// The position of the first entry of `s` that meets `p`, or the length of
/// `s` where none does.
pub open spec fn first_index<A>(s: Seq<A>, p: spec_fn(A) -> bool) -> int
    decreases s.len(),
{
    if s.len() == 0 {
        0
    } else if p(s[0]) {
        0
    } else {
        1 + first_index(s.drop_first(), p)
    }
}

/// The first entry that meets `p` stands at `k` when none before `k` meets
/// it and the one at `k`, if there is one, does.
pub proof fn lemma_first_index<A>(s: Seq<A>, p: spec_fn(A) -> bool, k: int)
    requires
        0 <= k <= s.len(),
        forall|i: int| 0 <= i < k ==> !p(#[trigger] s[i]),
        k < s.len() ==> p(s[k]),
    ensures
        first_index(s, p) == k,
    decreases k,
{
    if k > 0 {
        let rest = s.drop_first();
        assert(!p(s[0]));
        assert forall|i: int| 0 <= i < k - 1 implies !p(#[trigger] rest[i]) by {
            assert(rest[i] == s[i + 1]);
        }
        if k < s.len() {
            assert(rest[k - 1] == s[k]);
        }
        lemma_first_index(rest, p, k - 1);
    }
}

/// What the first index is: a place within `s` before which nothing meets
/// `p`, and which meets it unless it is the length of `s`.
pub proof fn lemma_first_index_is_first<A>(s: Seq<A>, p: spec_fn(A) -> bool)
    ensures
        0 <= first_index(s, p) <= s.len(),
        forall|i: int| 0 <= i < first_index(s, p) ==> !p(#[trigger] s[i]),
        first_index(s, p) < s.len() ==> p(s[first_index(s, p)]),
    decreases s.len(),
{
    if s.len() > 0 && !p(s[0]) {
        let rest = s.drop_first();
        lemma_first_index_is_first(rest, p);
        assert forall|i: int| 0 <= i < first_index(s, p) implies !p(#[trigger] s[i]) by {
            if i > 0 {
                assert(s[i] == rest[i - 1]);
            }
        }
        if first_index(s, p) < s.len() {
            assert(s[first_index(s, p)] == rest[first_index(rest, p)]);
        }
    }
}

/// The test for an entry with the key `key`.
pub open spec fn has_key<K>(key: K) -> spec_fn((K, Seq<usize>)) -> bool {
    |e: (K, Seq<usize>)| e.0 == key
}

/// `list` with `item` among the items kept under `key`: appended to the
/// first entry with that key unless it is there already, or in a new entry,
/// appended to the list, where no entry has that key.
pub open spec fn keyed_insert<K>(list: Seq<(K, Seq<usize>)>, key: K, item: usize) -> Seq<
    (K, Seq<usize>),
> {
    let k = first_index(list, has_key(key));
    if k >= list.len() {
        list.push((key, seq![item]))
    } else if list[k].1.contains(item) {
        list
    } else {
        list.update(k, (key, list[k].1.push(item)))
    }
}

/// The test for a label that `class` is subsumed under.
pub open spec fn subsumes(class: VariableState) -> spec_fn((VariableState, Seq<usize>)) -> bool {
    |e: (VariableState, Seq<usize>)| class.subsumed_under(&e.0)
}

/// `table` made long enough to hold an entry for `src`, the new entries empty.
pub open spec fn padded(table: Seq<EdgeList>, src: int) -> Seq<EdgeList> {
    if src < table.len() {
        table
    } else {
        table + Seq::new((src + 1 - table.len()) as nat, |i: int| Seq::empty())
    }
}

/// `table` with an edge from `src` to `dst` labelled `label`.
pub open spec fn table_insert(
    table: Seq<EdgeList>,
    src: usize,
    label: VariableState,
    dst: usize,
) -> Seq<EdgeList> {
    let wide = padded(table, src as int);
    wide.update(src as int, keyed_insert(wide[src as int], label, dst))
}

/// The propagators that a change of class `class` on the variable `src`
/// wakes: those of the first edge from `src` whose label `class` is subsumed
/// under, in the order of that edge.
pub open spec fn wakes(table: Seq<EdgeList>, src: usize, class: VariableState) -> Seq<usize> {
    if src < table.len() {
        let k = first_index(table[src as int], subsumes(class));
        if k < table[src as int].len() {
            table[src as int][k].1
        } else {
            Seq::empty()
        }
    } else {
        Seq::empty()
    }
}

/// The propagators to run in a round, in the order in which they were first
/// woken, each with the variables whose changes woke it.
pub type WorkList = Seq<(usize, Seq<usize>)>;

/// What a stored work list stands for.
pub open spec fn work_view(list: Seq<(usize, Vec<usize>)>) -> WorkList {
    list.map_values(|e: (usize, Vec<usize>)| (e.0, e.1@))
}

/// `list` after the change of the variable `src` by the propagator `from`
/// has woken the propagators `targets`, one after the other; the propagator
/// that made the change is not woken by it.
pub open spec fn wake_each(list: WorkList, targets: Seq<usize>, from: usize, src: usize) -> WorkList
    decreases targets.len(),
{
    if targets.len() == 0 {
        list
    } else {
        let rest = wake_each(list, targets.drop_last(), from, src);
        if targets.last() == from {
            rest
        } else {
            keyed_insert(rest, targets.last(), src)
        }
    }
}

/// The work list that the events `events` give when run through the edge
/// lists `table`, one event after the other.
pub open spec fn dispatch(table: Seq<EdgeList>, events: Seq<Event>) -> WorkList
    decreases events.len(),
{
    if events.len() == 0 {
        Seq::empty()
    } else {
        let e = events.last();
        wake_each(dispatch(table, events.drop_last()), wakes(table, e.src, e.event), e.from, e.src)
    }
}

/// The test for an event that `e` is subsumed under.
pub open spec fn absorbs(e: Event) -> spec_fn(Event) -> bool {
    |held: Event| e.subsumed_under(&held)
}

/// The test for an event that is subsumed under `e`.
pub open spec fn absorbed_by(e: Event) -> spec_fn(Event) -> bool {
    |held: Event| held.subsumed_under(&e)
}

/// The buffer `events` after `e` was added: unchanged where `e` is subsumed
/// under an event that is held; else with `e` in the place of the first held
/// event that is subsumed under `e`; else with `e` at the end.
pub open spec fn buffer_insert(events: Seq<Event>, e: Event) -> Seq<Event> {
    if first_index(events, absorbs(e)) < events.len() {
        events
    } else if first_index(events, absorbed_by(e)) < events.len() {
        events.update(first_index(events, absorbed_by(e)), e)
    } else {
        events.push(e)
    }
}

/// Adding an event that is subsumed under one that the buffer holds leaves
/// the buffer as it is.
pub proof fn lemma_subsumed_event_is_dropped(events: Seq<Event>, e: Event, i: int)
    requires
        0 <= i < events.len(),
        e.subsumed_under(&events[i]),
    ensures
        buffer_insert(events, e) == events,
{
    lemma_first_index_is_first(events, absorbs(e));
    if first_index(events, absorbs(e)) >= events.len() {
        assert(!absorbs(e)(events[i]));
    }
}

/// Every event is subsumed under itself, and subsumption between events
/// carries over from a first to a third by way of a second.
pub proof fn lemma_event_subsumption_order(a: Event, b: Event, c: Event)
    ensures
        a.subsumed_under(&a),
        a.subsumed_under(&b) && b.subsumed_under(&c) ==> a.subsumed_under(&c),
{
}

/// Two tests that agree on every entry of `s` are first met at the same
/// place.
pub proof fn lemma_first_index_same<A>(s: Seq<A>, p: spec_fn(A) -> bool, q: spec_fn(A) -> bool)
    requires
        forall|i: int| 0 <= i < s.len() ==> p(#[trigger] s[i]) == q(s[i]),
    ensures
        first_index(s, p) == first_index(s, q),
    decreases s.len(),
{
    if s.len() > 0 {
        assert(p(s[0]) == q(s[0]));
        let rest = s.drop_first();
        assert forall|i: int| 0 <= i < rest.len() implies p(#[trigger] rest[i]) == q(rest[i]) by {
            assert(rest[i] == s[i + 1]);
        }
        lemma_first_index_same(rest, p, q);
    }
}

/// Whether `item` is kept under `key` in `list`: in the first entry with
/// that key.
pub open spec fn keeps<K>(list: Seq<(K, Seq<usize>)>, key: K, item: usize) -> bool {
    first_index(list, has_key(key)) < list.len() && list[first_index(
        list,
        has_key(key),
    )].1.contains(item)
}

/// After an item was put under a key it is kept there, and so is what was
/// kept before, under that key or another.
pub proof fn lemma_keyed_insert<K>(
    list: Seq<(K, Seq<usize>)>,
    key: K,
    item: usize,
    other: K,
    held: usize,
)
    ensures
        keeps(keyed_insert(list, key, item), key, item),
        keeps(list, other, held) ==> keeps(keyed_insert(list, key, item), other, held),
{
    let k = first_index(list, has_key(key));
    let after = keyed_insert(list, key, item);
    lemma_first_index_is_first(list, has_key(key));
    lemma_first_index_is_first(list, has_key(other));
    if k >= list.len() {
        assert forall|i: int| 0 <= i < k implies !has_key(key)(#[trigger] after[i]) by {
            assert(after[i] == list[i]);
        }
        lemma_first_index(after, has_key(key), k);
        assert(after[k].1[0] == item);
        if keeps(list, other, held) {
            let j = first_index(list, has_key(other));
            assert forall|i: int| 0 <= i < j implies !has_key(other)(#[trigger] after[i]) by {
                assert(after[i] == list[i]);
            }
            assert(after[j] == list[j]);
            lemma_first_index(after, has_key(other), j);
        }
    } else if list[k].1.contains(item) {
    } else {
        assert forall|i: int| 0 <= i < k implies !has_key(key)(#[trigger] after[i]) by {
            assert(after[i] == list[i]);
        }
        lemma_first_index(after, has_key(key), k);
        let n = list[k].1.len() as int;
        assert(after[k].1[n] == item);
        if keeps(list, other, held) {
            let j = first_index(list, has_key(other));
            assert forall|i: int| 0 <= i < j implies !has_key(other)(#[trigger] after[i]) by {
                if i != k {
                    assert(after[i] == list[i]);
                }
            }
            lemma_first_index(after, has_key(other), j);
            if j == k {
                let m = choose|m: int| 0 <= m < list[k].1.len() && list[k].1[m] == held;
                assert(after[k].1[m] == held);
            } else {
                assert(after[j] == list[j]);
            }
        }
    }
}

/// Whether the graph `table` has the edge from the variable `src` to the
/// propagator `dst` with the label `label`.
pub open spec fn wired(table: Seq<EdgeList>, src: usize, label: VariableState, dst: usize) -> bool {
    src < table.len() && keeps(table[src as int], label, dst)
}

/// After an edge was added it is there, and so is every edge that was there
/// before.
pub proof fn lemma_table_insert(
    table: Seq<EdgeList>,
    src: usize,
    label: VariableState,
    dst: usize,
    s: usize,
    l: VariableState,
    d: usize,
)
    ensures
        wired(table_insert(table, src, label, dst), src, label, dst),
        wired(table, s, l, d) ==> wired(table_insert(table, src, label, dst), s, l, d),
{
    let wide = padded(table, src as int);
    lemma_keyed_insert(wide[src as int], label, dst, l, d);
    if wired(table, s, l, d) {
        assert(wide[s as int] == table[s as int]);
    }
}

/// Whether `class` is one of the classes that events are made of: a move of
/// one bound, or a change of values.
pub open spec fn atomic(class: VariableState) -> bool {
    class == VariableState::MinBoundChange || class == VariableState::MaxBoundChange || class
        == VariableState::ValuesChange
}

/// A change of one of the classes that events are made of wakes every
/// propagator to which an edge with that class as its label leads.
pub proof fn lemma_atomic_wakes(table: Seq<EdgeList>, src: usize, class: VariableState, dst: usize)
    requires
        wired(table, src, class, dst),
        atomic(class),
    ensures
        wakes(table, src, class).contains(dst),
{
    let edges = table[src as int];
    assert forall|i: int| 0 <= i < edges.len() implies has_key(class)(#[trigger] edges[i])
        == subsumes(class)(edges[i]) by {}
    lemma_first_index_same(edges, has_key(class), subsumes(class));
}

/// Whether the buffer `events` holds the event `e`.
pub open spec fn holds(events: Seq<Event>, e: Event) -> bool {
    exists|i: int| 0 <= i < events.len() && #[trigger] events[i] == e
}

/// Whether every event of `events` is of one of the classes that events are
/// made of.
pub open spec fn all_atomic(events: Seq<Event>) -> bool {
    forall|i: int| 0 <= i < events.len() ==> atomic((#[trigger] events[i]).event)
}

/// A buffer of events of the classes that events are made of holds an event
/// of such a class once it was added, and goes on to hold what it held.
pub proof fn lemma_buffer_insert(events: Seq<Event>, x: Event, e: Event)
    requires
        all_atomic(events),
        atomic(x.event),
    ensures
        all_atomic(buffer_insert(events, x)),
        holds(buffer_insert(events, x), x),
        holds(events, e) ==> holds(buffer_insert(events, x), e),
{
    let after = buffer_insert(events, x);
    lemma_first_index_is_first(events, absorbs(x));
    lemma_first_index_is_first(events, absorbed_by(x));
    let a = first_index(events, absorbs(x));
    let b = first_index(events, absorbed_by(x));
    if a < events.len() {
        assert(x.subsumed_under(&events[a]));
        assert(atomic(events[a].event));
        assert(events[a] == x);
    } else if b < events.len() {
        assert(events[b].subsumed_under(&x));
        assert(atomic(events[b].event));
        assert(events[b] == x);
        assert(after =~= events);
        assert(after[b] == x);
    } else {
        assert(after[events.len() as int] == x);
        assert forall|i: int| 0 <= i < after.len() implies atomic((#[trigger] after[i]).event) by {
            if i < events.len() {
                assert(after[i] == events[i]);
            }
        }
        if holds(events, e) {
            let i = choose|i: int| 0 <= i < events.len() && #[trigger] events[i] == e;
            assert(after[i] == e);
        }
    }
}

/// Whether the work list `list` has an entry for the propagator `p`.
pub open spec fn has_entry(list: WorkList, p: usize) -> bool {
    exists|k: int| 0 <= k < list.len() && (#[trigger] list[k]).0 == p
}

/// A propagator that was woken has its entry in the work list, and so has
/// every propagator that had one before.
pub proof fn lemma_wake_entry(list: WorkList, prop: usize, src: usize, p: usize)
    ensures
        has_entry(keyed_insert(list, prop, src), prop),
        has_entry(list, p) ==> has_entry(keyed_insert(list, prop, src), p),
{
    let after = keyed_insert(list, prop, src);
    let k = first_index(list, has_key(prop));
    lemma_first_index_is_first(list, has_key(prop));
    if k >= list.len() {
        assert(after[list.len() as int].0 == prop);
    } else {
        assert(after[k].0 == prop);
    }
    if has_entry(list, p) {
        let j = choose|j: int| 0 <= j < list.len() && (#[trigger] list[j]).0 == p;
        assert(after[j].0 == p);
    }
}

/// Of the propagators `targets`, each but `from` has its entry once each
/// was woken, and so has every propagator that had one before.
pub proof fn lemma_wake_each_entries(
    list: WorkList,
    targets: Seq<usize>,
    from: usize,
    src: usize,
    p: usize,
)
    ensures
        has_entry(list, p) ==> has_entry(wake_each(list, targets, from, src), p),
        targets.contains(p) && p != from ==> has_entry(wake_each(list, targets, from, src), p),
    decreases targets.len(),
{
    if targets.len() > 0 {
        let front = targets.drop_last();
        let rest = wake_each(list, front, from, src);
        lemma_wake_each_entries(list, front, from, src, p);
        if targets.last() != from {
            lemma_wake_entry(rest, targets.last(), src, p);
        }
        if targets.contains(p) && p != from {
            let j = choose|j: int| 0 <= j < targets.len() && targets[j] == p;
            if j < targets.len() - 1 {
                assert(front[j] == p);
            }
        }
    }
}

/// A propagator that an event of the buffer wakes, and that did not make
/// the event, has its entry in the work list that the buffer gives.
pub proof fn lemma_dispatch_entry(table: Seq<EdgeList>, events: Seq<Event>, i: int, p: usize)
    requires
        0 <= i < events.len(),
        wakes(table, events[i].src, events[i].event).contains(p),
        events[i].from != p,
    ensures
        has_entry(dispatch(table, events), p),
    decreases events.len(),
{
    let e = events.last();
    let front = events.drop_last();
    let rest = dispatch(table, front);
    if i < events.len() - 1 {
        assert(front[i] == events[i]);
        lemma_dispatch_entry(table, front, i, p);
    }
    lemma_wake_each_entries(rest, wakes(table, e.src, e.event), e.from, e.src, p);
}

/// A dependency graph under construction.
pub struct BipartiteGraphBuilder {
    edges1: Vec<Vec<(VariableState, Vec<usize>)>>,
}

/// A finished dependency graph: read-only from here on.
pub struct BipartiteGraph {
    edges1: Vec<Vec<(VariableState, Vec<usize>)>>,
}

/// A change of class `event` that the propagator `from` made to the variable
/// `src`.
#[derive(Clone, Copy, Debug, PartialEq, Eq, Structural)]
pub struct Event {
    pub src: usize,
    pub from: usize,
    pub event: VariableState,
}

/// The changes collected in one round of propagation, against the graph
/// that will turn them into the propagators to wake.
pub struct GraphEvents<'graph> {
    graph: &'graph BipartiteGraph,
    events: Vec<Event>,
}

impl Event {
    /// The event that `from` changed `src` in the way `event`.
    pub fn new(src: usize, from: usize, event: VariableState) -> (r: Self)
        ensures
            r == (Event { src, from, event }),
    {
        Event { src, from, event }
    }
}

impl Subsumed for Event {
    /// An event is subsumed under another of the same propagator on the same
    /// variable whose class subsumes its own.
    open spec fn subsumed_under(&self, val: &Self) -> bool {
        self.src == val.src && self.from == val.from && self.event.subsumed_under(&val.event)
    }

    fn is_subsumed_under(&self, val: &Self) -> (r: bool) {
        self.src == val.src && self.from == val.from && self.event.is_subsumed_under(&val.event)
    }
}

impl BipartiteGraphBuilder {
    /// The edge lists built so far: entry `src` holds the edges that leave
    /// the variable `src`.
    pub closed spec fn table(&self) -> Seq<EdgeList> {
        edges_view(self.edges1@)
    }

    /// A builder without edges.
    pub fn new() -> (r: Self)
        ensures
            r.table() == Seq::<EdgeList>::empty(),
    {
        let r = BipartiteGraphBuilder { edges1: Vec::new() };
        assert(r.table() =~= Seq::<EdgeList>::empty());
        r
    }

    /// Adds the edge from the variable `src` to the propagator `dst` with
    /// the label `label`; an edge that is there already is not added again.
    pub fn insert_node1_to_node2(&mut self, src: usize, label: VariableState, dst: usize)
        ensures
            final(self).table() == table_insert(old(self).table(), src, label, dst),
    {
        let ghost before = self.table();
        while self.edges1.len() <= src
            invariant
                self.edges1@.len() <= src + 1 || self.edges1@.len() == old(self).edges1@.len(),
                self.edges1@.len() >= old(self).edges1@.len(),
                before.len() == old(self).edges1@.len(),
                self.table() =~= before + Seq::new(
                    (self.edges1@.len() - before.len()) as nat,
                    |i: int| Seq::empty(),
                ),
                before == old(self).table(),
            decreases src + 1 - self.edges1@.len(),
        {
            let ghost prev = self.table();
            self.edges1.push(Vec::new());
            proof {
                let empty: Vec<(VariableState, Vec<usize>)> = self.edges1@.last();
                assert(edge_list_view(empty) =~= Seq::empty());
                assert(self.table() =~= prev.push(Seq::empty()));
            }
        }
        let ghost wide = self.table();
        assert(wide =~= padded(before, src as int));
        let ghost list = wide[src as int];
        let n: usize = self.edges1[src].len();
        let mut k: usize = 0;
        while k < n && self.edges1[src][k].0 != label
            invariant
                src < self.edges1@.len(),
                self.table() == wide,
                list == wide[src as int],
                n == list.len(),
                n == self.edges1@[src as int]@.len(),
                k <= n,
                forall|i: int| 0 <= i < k ==> (#[trigger] list[i]).0 != label,
            decreases n - k,
        {
            k = k + 1;
        }
        proof {
            if k < n {
                assert(list[k as int].0 == self.edges1@[src as int]@[k as int].0);
            }
            assert forall|i: int| 0 <= i < k implies !has_key(label)(#[trigger] list[i]) by {}
            lemma_first_index(list, has_key(label), k as int);
        }
        if k == n {
            let mut nodes: Vec<usize> = Vec::new();
            nodes.push(dst);
            self.edges1[src].push((label, nodes));
            proof {
                assert(nodes@ =~= seq![dst]);
                assert(edge_list_view(self.edges1@[src as int]) =~= list.push((label, seq![dst])));
                assert(self.table() =~= wide.update(src as int, list.push((label, seq![dst]))));
            }
        } else {
            let m: usize = self.edges1[src][k].1.len();
            let mut j: usize = 0;
            let mut found = false;
            while j < m
                invariant
                    src < self.edges1@.len(),
                    k < self.edges1@[src as int]@.len(),
                    m == self.edges1@[src as int]@[k as int].1@.len(),
                    j <= m,
                    found <==> exists|i: int|
                        0 <= i < j && self.edges1@[src as int]@[k as int].1@[i] == dst,
                decreases m - j,
            {
                if self.edges1[src][k].1[j] == dst {
                    found = true;
                }
                j = j + 1;
            }
            assert(list[k as int].1 == self.edges1@[src as int]@[k as int].1@);
            assert(found == list[k as int].1.contains(dst));
            if !found {
                self.edges1[src][k].1.push(dst);
                proof {
                    assert(edge_list_view(self.edges1@[src as int]) =~= list.update(
                        k as int,
                        (label, list[k as int].1.push(dst)),
                    ));
                    assert(self.table() =~= wide.update(
                        src as int,
                        list.update(k as int, (label, list[k as int].1.push(dst))),
                    ));
                }
            } else {
                assert(self.table() =~= wide.update(src as int, list));
            }
        }
    }

    /// The finished graph, with the edges built so far.
    pub fn finalize(self) -> (r: BipartiteGraph)
        ensures
            r.table() == self.table(),
    {
        BipartiteGraph { edges1: self.edges1 }
    }
}

impl BipartiteGraph {
    /// The edge lists: entry `src` holds the edges that leave the variable
    /// `src`.
    pub closed spec fn table(&self) -> Seq<EdgeList> {
        edges_view(self.edges1@)
    }

    /// An empty buffer of events for this graph.
    pub fn events(&self) -> (r: GraphEvents<'_>)
        ensures
            r.graph() == self,
            r.events() == Seq::<Event>::empty(),
    {
        GraphEvents { graph: self, events: Vec::new() }
    }

    /// Whether the graph has the edge from the variable `src` to the
    /// propagator `dst` with the label `label`.
    pub fn has_edge(&self, src: usize, label: VariableState, dst: usize) -> (r: bool)
        ensures
            r == wired(self.table(), src, label, dst),
    {
        if src >= self.edges1.len() {
            return false;
        }
        let ghost list = self.table()[src as int];
        let n: usize = self.edges1[src].len();
        let mut k: usize = 0;
        while k < n && self.edges1[src][k].0 != label
            invariant
                src < self.edges1@.len(),
                list == self.table()[src as int],
                n == list.len(),
                n == self.edges1@[src as int]@.len(),
                k <= n,
                forall|i: int| 0 <= i < k ==> (#[trigger] list[i]).0 != label,
            decreases n - k,
        {
            assert(list[k as int].0 == self.edges1@[src as int]@[k as int].0);
            k = k + 1;
        }
        proof {
            if k < n {
                assert(list[k as int].0 == self.edges1@[src as int]@[k as int].0);
            }
            assert forall|i: int| 0 <= i < k implies !has_key(label)(#[trigger] list[i]) by {}
            lemma_first_index(list, has_key(label), k as int);
        }
        if k == n {
            return false;
        }
        let ghost targets = list[k as int].1;
        assert(targets == self.edges1@[src as int]@[k as int].1@);
        let m: usize = self.edges1[src][k].1.len();
        let mut j: usize = 0;
        while j < m
            invariant
                src < self.edges1@.len(),
                src < self.table().len(),
                k < self.edges1@[src as int]@.len(),
                list == self.table()[src as int],
                k < list.len(),
                first_index(list, has_key(label)) == k,
                targets == list[k as int].1,
                targets == self.edges1@[src as int]@[k as int].1@,
                m == targets.len(),
                j <= m,
                forall|i: int| 0 <= i < j ==> targets[i] != dst,
            decreases m - j,
        {
            if self.edges1[src][k].1[j] == dst {
                assert(targets[j as int] == dst);
                return true;
            }
            j = j + 1;
        }
        false
    }

    /// The propagators that a change of class `class` on the variable `src`
    /// wakes.
    fn successors(&self, src: usize, class: &VariableState) -> (r: Option<&Vec<usize>>)
        ensures
            r matches Some(nodes) ==> nodes@ == wakes(self.table(), src, *class),
            r is None ==> wakes(self.table(), src, *class) == Seq::<usize>::empty(),
    {
        if src >= self.edges1.len() {
            return None;
        }
        let ghost list = self.table()[src as int];
        let n: usize = self.edges1[src].len();
        let mut k: usize = 0;
        while k < n && !class.is_subsumed_under(&self.edges1[src][k].0)
            invariant
                src < self.edges1@.len(),
                list == self.table()[src as int],
                n == list.len(),
                n == self.edges1@[src as int]@.len(),
                k <= n,
                forall|i: int| 0 <= i < k ==> !class.subsumed_under(&(#[trigger] list[i]).0),
            decreases n - k,
        {
            assert(list[k as int].0 == self.edges1@[src as int]@[k as int].0);
            k = k + 1;
        }
        proof {
            if k < n {
                assert(list[k as int].0 == self.edges1@[src as int]@[k as int].0);
            }
            assert forall|i: int| 0 <= i < k implies !subsumes(*class)(#[trigger] list[i]) by {}
            lemma_first_index(list, subsumes(*class), k as int);
        }
        if k == n {
            None
        } else {
            Some(&self.edges1[src][k].1)
        }
    }
}

/// Adds the variable `src` to what woke the propagator `prop` in `list`.
fn wake(list: &mut Vec<(usize, Vec<usize>)>, prop: usize, src: usize)
    ensures
        work_view(final(list)@) == keyed_insert(work_view(old(list)@), prop, src),
{
    let ghost before = work_view(list@);
    let n: usize = list.len();
    let mut k: usize = 0;
    while k < n && list[k].0 != prop
        invariant
            work_view(list@) == before,
            n == list@.len(),
            k <= n,
            forall|i: int| 0 <= i < k ==> (#[trigger] before[i]).0 != prop,
        decreases n - k,
    {
        assert(before[k as int].0 == list@[k as int].0);
        k = k + 1;
    }
    proof {
        if k < n {
            assert(before[k as int].0 == list@[k as int].0);
        }
        assert forall|i: int| 0 <= i < k implies !has_key(prop)(#[trigger] before[i]) by {}
        lemma_first_index(before, has_key(prop), k as int);
    }
    if k == n {
        let mut sources: Vec<usize> = Vec::new();
        sources.push(src);
        list.push((prop, sources));
        proof {
            assert(sources@ =~= seq![src]);
            assert(work_view(list@) =~= before.push((prop, seq![src])));
        }
    } else {
        let m: usize = list[k].1.len();
        let mut j: usize = 0;
        let mut found = false;
        while j < m
            invariant
                k < list@.len(),
                m == list@[k as int].1@.len(),
                j <= m,
                found <==> exists|i: int| 0 <= i < j && list@[k as int].1@[i] == src,
            decreases m - j,
        {
            if list[k].1[j] == src {
                found = true;
            }
            j = j + 1;
        }
        assert(before[k as int].1 == list@[k as int].1@);
        assert(found == before[k as int].1.contains(src));
        if !found {
            list[k].1.push(src);
            proof {
                assert(work_view(list@) =~= before.update(
                    k as int,
                    (prop, before[k as int].1.push(src)),
                ));
            }
        }
    }
}

impl<'graph> GraphEvents<'graph> {
    /// The graph that the events will be run through.
    pub closed spec fn graph(&self) -> &BipartiteGraph {
        self.graph
    }

    /// The events held, in the order in which they came to stand there.
    pub closed spec fn events(&self) -> Seq<Event> {
        self.events@
    }

    /// Adds the event that the propagator `from` changed the variable `src`
    /// in the way `cause`. Nothing is added where the event is subsumed
    /// under one that is held; else it takes the place of the first held event
    /// that is subsumed under it, or, where there is none, the place at the
    /// end.
    pub fn add_event(&mut self, src: usize, from: usize, cause: VariableState)
        ensures
            final(self).graph() == old(self).graph(),
            final(self).events() == buffer_insert(
                old(self).events(),
                Event { src, from, event: cause },
            ),
    {
        let event = Event::new(src, from, cause);
        let ghost held = self.events@;
        let n: usize = self.events.len();
        let mut k: usize = 0;
        while k < n && !event.is_subsumed_under(&self.events[k])
            invariant
                self.events@ == held,
                n == held.len(),
                k <= n,
                forall|i: int| 0 <= i < k ==> !event.subsumed_under(&#[trigger] held[i]),
            decreases n - k,
        {
            k = k + 1;
        }
        proof {
            assert forall|i: int| 0 <= i < k implies !absorbs(event)(#[trigger] held[i]) by {}
            lemma_first_index(held, absorbs(event), k as int);
        }
        if k < n {
            return ;
        }
        let mut j: usize = 0;
        while j < n && !self.events[j].is_subsumed_under(&event)
            invariant
                self.events@ == held,
                n == held.len(),
                j <= n,
                forall|i: int| 0 <= i < j ==> !(#[trigger] held[i]).subsumed_under(&event),
            decreases n - j,
        {
            j = j + 1;
        }
        proof {
            assert forall|i: int| 0 <= i < j implies !absorbed_by(event)(#[trigger] held[i]) by {}
            lemma_first_index(held, absorbed_by(event), j as int);
        }
        if j < n {
            self.events.set(j, event);
        } else {
            self.events.push(event);
        }
    }

    /// Runs the events through the graph: the propagators to wake, each with
    /// the variables whose changes woke it, or nothing where no propagator
    /// is woken.
    pub fn into_iter(self) -> (r: Option<Vec<(usize, Vec<usize>)>>)
        ensures
            r is None <==> dispatch(self.graph().table(), self.events()).len() == 0,
            r matches Some(list) ==> work_view(list@) == dispatch(
                self.graph().table(),
                self.events(),
            ),
    {
        let ghost table = self.graph.table();
        let ghost events = self.events@;
        let mut nodes: Vec<(usize, Vec<usize>)> = Vec::new();
        assert(work_view(nodes@) =~= Seq::empty());
        let n: usize = self.events.len();
        let mut k: usize = 0;
        while k < n
            invariant
                table == self.graph.table(),
                events == self.events@,
                n == events.len(),
                k <= n,
                work_view(nodes@) == dispatch(table, events.take(k as int)),
            decreases n - k,
        {
            let event = self.events[k];
            let ghost start = work_view(nodes@);
            proof {
                assert(events.take(k + 1).drop_last() =~= events.take(k as int));
                assert(events.take(k + 1).last() == event);
            }
            match self.graph.successors(event.src, &event.event) {
                None => {
                    assert(wake_each(start, Seq::empty(), event.from, event.src) == start);
                },
                Some(succs) => {
                    let ghost targets = succs@;
                    let m: usize = succs.len();
                    let mut j: usize = 0;
                    while j < m
                        invariant
                            targets == succs@,
                            m == targets.len(),
                            j <= m,
                            work_view(nodes@) == wake_each(
                                start,
                                targets.take(j as int),
                                event.from,
                                event.src,
                            ),
                        decreases m - j,
                    {
                        let succ: usize = succs[j];
                        proof {
                            assert(targets.take(j + 1).drop_last() =~= targets.take(j as int));
                            assert(targets.take(j + 1).last() == succ);
                        }
                        if succ != event.from {
                            wake(&mut nodes, succ, event.src);
                        }
                        j = j + 1;
                    }
                    assert(targets.take(m as int) =~= targets);
                },
            }
            k = k + 1;
        }
        assert(events.take(n as int) =~= events);
        if nodes.len() == 0 {
            None
        } else {
            Some(nodes)
        }
    }
}

} // verus!
