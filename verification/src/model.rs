//! The mathematical state of a scope: its nodes with their subscriber lists,
//! the running evaluations and the queue of effects, with the transitions
//! between states that the operations of a scope perform.
use vstd::prelude::*;
use crate::error::{EvalError, SignalError};

verus! {

/// What a node of the arena is.
#[derive(Clone, Copy, PartialEq, Eq, Structural, Debug)]
pub enum NodeKind {
    Signal,
    Computed,
    Effect,
    /// An effect that was disposed: its slot stays, nothing refers to it.
    Retired,
}

/// What reading a derived value gives.
#[derive(PartialEq, Eq, Debug)]
pub enum Poll<T> {
    /// The cached value is current.
    Ready(T),
    /// The value is stale. Its evaluation has begun: the caller runs the
    /// derivation and reports the result.
    Evaluate,
}

/// The mathematical state of one node.
pub struct NodeState<T> {
    pub kind: NodeKind,
    pub value: Option<T>,
    pub dirty: bool,
    pub poisoned: bool,
    /// The nodes that read this one during their last run, oldest first.
    pub subs: Seq<usize>,
}

/// The mathematical state of a scope.
pub struct ScopeState<T> {
    pub nodes: Seq<NodeState<T>>,
    /// The evaluations that are running, innermost last.
    pub stack: Seq<usize>,
    /// The effects that wait to run again, next one first.
    pub pending: Seq<usize>,
    pub disposed: bool,
    pub shared: bool,
}

/// `s` without `x`.
pub open spec fn dropped(s: Seq<usize>, x: usize) -> Seq<usize> {
    if s.contains(x) {
        s.remove(s.index_of(x))
    } else {
        s
    }
}

/// `s` with `x` at its end, unless `s` holds `x` already.
pub open spec fn linked(s: Seq<usize>, x: usize) -> Seq<usize> {
    if s.contains(x) {
        s
    } else {
        s.push(x)
    }
}

/// `q`, then each entry of `subs` that is not in the list yet, in their order.
pub open spec fn extended(q: Seq<usize>, subs: Seq<usize>) -> Seq<usize>
    decreases subs.len(),
{
    if subs.len() == 0 {
        q
    } else {
        extended(linked(q, subs.first()), subs.drop_first())
    }
}

/// Entries that are all new and all different are appended as they are.
pub proof fn lemma_extended_fresh(q: Seq<usize>, subs: Seq<usize>)
    requires
        subs.no_duplicates(),
        forall|k: int| 0 <= k < subs.len() ==> !q.contains(#[trigger] subs[k]),
    ensures
        extended(q, subs) == q + subs,
    decreases subs.len(),
{
    if subs.len() == 0 {
        assert(q + subs =~= q);
    } else {
        let q2 = q.push(subs.first());
        let rest = subs.drop_first();
        assert(!q.contains(subs[0]));
        assert forall|k: int| 0 <= k < rest.len() implies !q2.contains(#[trigger] rest[k]) by {
            assert(rest[k] == subs[k + 1]);
            assert(!q.contains(subs[k + 1]));
            if q2.contains(rest[k]) {
                let t = choose|t: int| 0 <= t < q2.len() && q2[t] == rest[k];
                if t < q.len() {
                    assert(q[t] == rest[k]);
                }
            }
        }
        lemma_extended_fresh(q2, rest);
        assert(q2 + rest =~= q + subs);
    }
}

pub proof fn lemma_dropped(s: Seq<usize>, x: usize)
    requires
        s.no_duplicates(),
    ensures
        dropped(s, x).no_duplicates(),
        !dropped(s, x).contains(x),
        forall|y: usize| y != x ==> (#[trigger] dropped(s, x).contains(y) <==> s.contains(y)),
        forall|k: int| 0 <= k < dropped(s, x).len() ==> s.contains(#[trigger] dropped(s, x)[k]),
{
    if s.contains(x) {
        let i = s.index_of(x);
        let d = s.remove(i);
        assert forall|a: int, b: int| 0 <= a < d.len() && 0 <= b < d.len() && a != b implies d[a]
            != d[b] by {
            let a2 = if a < i { a } else { a + 1 };
            let b2 = if b < i { b } else { b + 1 };
            assert(d[a] == s[a2] && d[b] == s[b2]);
        }
        assert forall|k: int| 0 <= k < d.len() implies d[k] != x && s.contains(#[trigger] d[k]) by {
            let k2 = if k < i { k } else { k + 1 };
            assert(d[k] == s[k2]);
        }
        assert forall|y: usize| y != x && s.contains(y) implies #[trigger] d.contains(y) by {
            let j = choose|j: int| 0 <= j < s.len() && s[j] == y;
            let j2 = if j < i { j } else { j - 1 };
            assert(d[j2] == y);
        }
    }
}

impl<T> NodeState<T> {
    /// Whether the node can subscribe to what it reads.
    pub open spec fn listens(self) -> bool {
        self.kind == NodeKind::Computed || self.kind == NodeKind::Effect
    }
}

impl<T> ScopeState<T> {
    pub open spec fn is(self, id: usize, kind: NodeKind) -> bool {
        id < self.nodes.len() && self.nodes[id as int].kind == kind
    }

    pub open spec fn listener(self, id: usize) -> bool {
        id < self.nodes.len() && self.nodes[id as int].listens()
    }

    /// An evaluation is running and its node still subscribes to what it reads.
    pub open spec fn tracking(self) -> bool {
        self.stack.len() > 0 && self.listener(self.stack.last())
    }

    /// The invariant of a scope.
    pub open spec fn wf(self) -> bool {
        &&& forall|i: int, j: int|
            0 <= i < self.nodes.len() && 0 <= j < self.nodes[i].subs.len() ==> self.listener(
                #[trigger] self.nodes[i].subs[j],
            )
        &&& forall|i: int|
            0 <= i < self.nodes.len() ==> (#[trigger] self.nodes[i]).subs.no_duplicates()
        &&& forall|i: int|
            0 <= i < self.nodes.len() && (#[trigger] self.nodes[i]).kind == NodeKind::Signal
                ==> self.nodes[i].value.is_some() && !self.nodes[i].dirty
        &&& forall|k: int| 0 <= k < self.stack.len() ==> #[trigger] self.stack[k] < self.nodes.len()
        &&& self.pending.no_duplicates()
        &&& forall|k: int|
            0 <= k < self.pending.len() ==> self.is(#[trigger] self.pending[k], NodeKind::Effect)
        &&& forall|e: usize|
            e < self.nodes.len() && (#[trigger] self.nodes[e as int]).kind == NodeKind::Effect ==> (
            self.nodes[e as int].dirty <==> self.pending.contains(e))
        &&& self.disposed ==> self.nodes.len() == 0 && self.stack.len() == 0 && self.pending.len()
            == 0
    }

    /// A derived value whose cache can be handed out as it is.
    pub open spec fn fresh(self, id: usize) -> bool {
        self.is(id, NodeKind::Computed) && !self.nodes[id as int].dirty
            && self.nodes[id as int].value.is_some()
    }

    /// The node at position `k` of `p` subscribes to the one before it.
    pub open spec fn hop(self, p: Seq<usize>, k: int) -> bool {
        self.nodes[p[k - 1] as int].subs.contains(p[k])
    }

    /// `p` walks along subscriber edges.
    pub open spec fn is_path(self, p: Seq<usize>) -> bool {
        &&& p.len() > 0
        &&& forall|k: int| 0 <= k < p.len() ==> #[trigger] p[k] < self.nodes.len()
        &&& forall|k: int| 0 < k < p.len() ==> #[trigger] self.hop(p, k)
    }

    /// `to` depends on `from`, directly or through derived values.
    pub open spec fn reaches(self, from: usize, to: usize) -> bool {
        exists|p: Seq<usize>| #[trigger] self.is_path(p) && p.first() == from && p.last() == to
    }

    /// The walk that starts with the list `q`, of which the first `i` entries
    /// are done: the subscribers of each further entry join the list behind
    /// it, unless they are in it, until every entry is done.
    pub open spec fn walked(self, q: Seq<usize>, i: nat, fuel: nat) -> Seq<usize>
        decreases fuel,
    {
        if fuel == 0 || i >= q.len() || q[i as int] >= self.nodes.len() {
            q
        } else {
            self.walked(
                extended(q, self.nodes[q[i as int] as int].subs),
                i + 1,
                (fuel - 1) as nat,
            )
        }
    }

    /// The node `source` and everything that depends on it, each once, in the
    /// order in which the walk along subscriber lists finds them: `source`,
    /// its subscribers in their order, then theirs, and so on.
    pub open spec fn dependents(self, source: usize) -> Seq<usize> {
        self.walked(seq![source], 0, self.nodes.len())
    }

    /// Whether the node `x`, once marked, joins the queue: an effect that is
    /// not waiting.
    pub open spec fn joins(self, x: usize) -> bool {
        self.is(x, NodeKind::Effect) && !self.nodes[x as int].dirty
    }

    /// The entries of `q` that join the queue, in their order.
    pub open spec fn joining(self, q: Seq<usize>) -> Seq<usize>
        decreases q.len(),
    {
        if q.len() == 0 {
            q
        } else if self.joins(q.last()) {
            self.joining(q.drop_last()).push(q.last())
        } else {
            self.joining(q.drop_last())
        }
    }

    /// What a write of the signal `source` appends to the queue.
    pub open spec fn newly_queued(self, source: usize) -> Seq<usize> {
        self.joining(self.dependents(source).drop_first())
    }

    // ---- transitions ----

    /// A new node at the end of the arena.
    pub open spec fn grown(self, node: NodeState<T>) -> Self {
        ScopeState { nodes: self.nodes.push(node), ..self }
    }

    /// The running evaluation has read `target`.
    pub open spec fn observed(self, target: usize) -> Self {
        if self.tracking() && target < self.nodes.len() {
            ScopeState {
                nodes: self.nodes.update(
                    target as int,
                    NodeState {
                        subs: linked(self.nodes[target as int].subs, self.stack.last()),
                        ..self.nodes[target as int]
                    },
                ),
                ..self
            }
        } else {
            self
        }
    }

    /// The nodes when `reader` has left every subscriber list.
    pub open spec fn detached(self, reader: usize) -> Seq<NodeState<T>> {
        Seq::new(
            self.nodes.len(),
            |i: int| NodeState { subs: dropped(self.nodes[i].subs, reader), ..self.nodes[i] },
        )
    }

    /// The evaluation of `id` begins: it forgets what it read last time, is no
    /// longer marked, and becomes the innermost running evaluation.
    pub open spec fn entered(self, id: usize) -> Self {
        ScopeState {
            nodes: self.detached(id).update(
                id as int,
                NodeState { dirty: false, ..self.detached(id)[id as int] },
            ),
            stack: self.stack.push(id),
            ..self
        }
    }

    /// The innermost evaluation, that of the derived value `id`, has produced
    /// `v`: the value is cached, and the evaluation that asked for it reads it.
    pub open spec fn completed(self, id: usize, v: T) -> Self {
        ScopeState {
            nodes: self.nodes.update(
                id as int,
                NodeState { value: Some(v), ..self.nodes[id as int] },
            ),
            stack: self.stack.drop_last(),
            ..self
        }.observed(id)
    }

    /// The innermost evaluation, that of the derived value `id`, gave up.
    pub open spec fn abandoned(self, id: usize) -> Self {
        ScopeState {
            nodes: self.nodes.update(
                id as int,
                NodeState { dirty: true, ..self.nodes[id as int] },
            ),
            stack: self.stack.drop_last(),
            ..self
        }
    }

    /// The innermost evaluation has ended.
    pub open spec fn left(self) -> Self {
        ScopeState { stack: self.stack.drop_last(), ..self }
    }

    /// A new effect at the end of the arena, running for the first time.
    pub open spec fn spawned(self) -> Self {
        ScopeState {
            nodes: self.nodes.push(
                NodeState {
                    kind: NodeKind::Effect,
                    value: None,
                    dirty: false,
                    poisoned: false,
                    subs: Seq::empty(),
                },
            ),
            stack: self.stack.push(self.nodes.len() as usize),
            ..self
        }
    }

    /// The first waiting effect has left the queue.
    pub open spec fn dequeued(self) -> Self {
        ScopeState {
            nodes: self.nodes.update(
                self.pending[0] as int,
                NodeState { dirty: false, ..self.nodes[self.pending[0] as int] },
            ),
            pending: self.pending.remove(0),
            ..self
        }
    }

    /// The signal `id` is poisoned.
    pub open spec fn poisoned(self, id: usize) -> Self {
        ScopeState {
            nodes: self.nodes.update(
                id as int,
                NodeState { poisoned: true, ..self.nodes[id as int] },
            ),
            ..self
        }
    }

    /// The first waiting effect starts to run.
    pub open spec fn resumed(self) -> Self {
        ScopeState { pending: self.pending.remove(0), ..self.entered(self.pending[0]) }
    }

    /// The effect `id` is disposed.
    pub open spec fn retired(self, id: usize) -> Self {
        ScopeState {
            nodes: self.detached(id).update(
                id as int,
                NodeState { kind: NodeKind::Retired, dirty: false, ..self.detached(id)[id as int] },
            ),
            pending: dropped(self.pending, id),
            ..self
        }
    }

    /// The node `x` is marked; an effect that was not waiting joins the queue.
    pub open spec fn marked(self, x: usize) -> Self {
        ScopeState {
            nodes: self.nodes.update(x as int, NodeState { dirty: true, ..self.nodes[x as int] }),
            pending: if self.nodes[x as int].kind == NodeKind::Effect && !self.nodes[x as int].dirty {
                self.pending.push(x)
            } else {
                self.pending
            },
            ..self
        }
    }

    /// The scope is disposed.
    pub open spec fn torn_down(self) -> Self {
        ScopeState {
            nodes: Seq::empty(),
            stack: Seq::empty(),
            pending: Seq::empty(),
            disposed: true,
            shared: self.shared,
        }
    }

    /// `post` is this state after the signal `source` was given the value `v`:
    /// everything that depends on the signal is marked, and the effects among
    /// them that were not waiting yet have joined the queue behind those that
    /// were, each once, in the order in which the walk finds them: first those
    /// that subscribe to the signal itself, in the order in which they
    /// subscribed, then those that depend on it only through derived values.
    /// The clauses after the first say what follows from it, in the terms
    /// that the laws use.
    pub open spec fn written(self, source: usize, v: T, post: Self) -> bool {
        &&& post.stack == self.stack
        &&& post.disposed == self.disposed
        &&& post.shared == self.shared
        &&& post.nodes.len() == self.nodes.len()
        &&& forall|i: usize|
            i < self.nodes.len() ==> (#[trigger] post.nodes[i as int]) == (NodeState {
                dirty: self.nodes[i as int].dirty || (i != source && self.reaches(source, i)),
                value: if i == source {
                    Some(v)
                } else {
                    self.nodes[i as int].value
                },
                ..self.nodes[i as int]
            })
        &&& post.pending == self.pending + self.newly_queued(source)
        &&& post.pending.no_duplicates()
        &&& self.pending.len() <= post.pending.len()
        &&& post.pending.subrange(0, self.pending.len() as int) == self.pending
        &&& forall|e: usize| #[trigger]
            post.pending.contains(e) ==> self.pending.contains(e) || (self.is(e, NodeKind::Effect)
                && self.reaches(source, e))
        &&& forall|e: usize|
            self.is(e, NodeKind::Effect) && #[trigger] self.reaches(source, e)
                ==> post.pending.contains(e)
        &&& forall|i: int, j: int, a: int, b: int|
            0 <= i < j < self.nodes[source as int].subs.len() && self.pending.len() <= a
                < post.pending.len() && self.pending.len() <= b < post.pending.len()
                && #[trigger] post.pending[a] == #[trigger] self.nodes[source as int].subs[i]
                && #[trigger] post.pending[b] == #[trigger] self.nodes[source as int].subs[j] ==> a
                < b
        &&& forall|a: int, b: int|
            self.pending.len() <= a < post.pending.len() && self.pending.len() <= b
                < post.pending.len() && self.nodes[source as int].subs.contains(
                #[trigger] post.pending[a],
            ) && !self.nodes[source as int].subs.contains(#[trigger] post.pending[b]) ==> a < b
    }

    // ---- what the operations answer ----

    pub open spec fn signal_fault(self, id: usize) -> Option<SignalError> {
        if self.disposed {
            Some(SignalError::ScopeDisposed)
        } else if !self.is(id, NodeKind::Signal) {
            Some(SignalError::Foreign)
        } else if self.nodes[id as int].poisoned {
            Some(SignalError::Lock)
        } else {
            None
        }
    }

    pub open spec fn poll_fault(self, id: usize) -> Option<EvalError> {
        if self.disposed {
            Some(EvalError::ScopeDisposed)
        } else if !self.is(id, NodeKind::Computed) {
            Some(EvalError::Foreign)
        } else if self.stack.contains(id) {
            Some(EvalError::CycleDetected)
        } else {
            None
        }
    }

    /// What reading the derived value `id` answers.
    pub open spec fn polled(self, id: usize) -> Result<Poll<T>, EvalError> {
        match self.poll_fault(id) {
            Some(e) => Err(e),
            None => if self.fresh(id) {
                Ok(Poll::Ready(self.nodes[id as int].value.unwrap()))
            } else {
                Ok(Poll::Evaluate)
            },
        }
    }

    /// The state after reading the derived value `id`.
    pub open spec fn after_poll(self, id: usize) -> Self {
        if self.poll_fault(id).is_some() {
            self
        } else if self.fresh(id) {
            self.observed(id)
        } else {
            self.entered(id)
        }
    }

    /// The value that the signal `id` holds.
    pub open spec fn signal_value(self, id: usize) -> T {
        self.nodes[id as int].value.unwrap()
    }

    /// Why the signal `id` cannot be marked as poisoned, if it cannot.
    pub open spec fn poison_fault(self, id: usize) -> Option<SignalError> {
        if self.disposed {
            Some(SignalError::ScopeDisposed)
        } else if !self.is(id, NodeKind::Signal) {
            Some(SignalError::Foreign)
        } else if !self.shared {
            Some(SignalError::NotShared)
        } else {
            None
        }
    }

    /// Why the node `id` cannot end its evaluation now, if it cannot.
    pub open spec fn finish_fault(self, id: usize, kind: NodeKind) -> Option<EvalError> {
        if self.disposed {
            Some(EvalError::ScopeDisposed)
        } else if !(self.is(id, kind) || (kind == NodeKind::Effect && self.is(
            id,
            NodeKind::Retired,
        ))) {
            Some(EvalError::Foreign)
        } else if self.stack.len() == 0 || self.stack.last() != id {
            Some(EvalError::NotRunning)
        } else {
            None
        }
    }
}

/// Whether `x` stands in `q` at a position from `lo` up to, not including, `hi`.
pub open spec fn among(q: Seq<usize>, lo: int, hi: int, x: usize) -> bool {
    exists|t: int| lo <= t < hi && t < q.len() && #[trigger] q[t] == x
}

/// A list keeps what it holds when it grows at the end.
pub proof fn lemma_push_keeps(q: Seq<usize>, s: usize)
    ensures
        forall|y: usize| q.contains(y) ==> #[trigger] q.push(s).contains(y),
        q.push(s).contains(s),
{
    assert forall|y: usize| q.contains(y) implies #[trigger] q.push(s).contains(y) by {
        let t = choose|t: int| 0 <= t < q.len() && q[t] == y;
        assert(q.push(s)[t] == y);
    }
    assert(q.push(s)[q.len() as int] == s);
}

/// A list of distinct indices below `n` has at most `n` entries.
pub proof fn lemma_bounded_distinct(q: Seq<usize>, n: usize)
    requires
        q.no_duplicates(),
        forall|k: int| 0 <= k < q.len() ==> #[trigger] q[k] < n,
    ensures
        q.len() <= n,
    decreases n,
{
    if q.len() > 0 {
        if n == 0 {
            assert(q[0] < n);
        } else {
            let x = (n - 1) as usize;
            let r = dropped(q, x);
            lemma_dropped(q, x);
            assert forall|k: int| 0 <= k < r.len() implies #[trigger] r[k] < (n - 1) as usize by {
                assert(q.contains(r[k]));
                let j = choose|j: int| 0 <= j < q.len() && q[j] == r[k];
                assert(q[j] < n);
                assert(r.contains(r[k]));
            }
            lemma_bounded_distinct(r, (n - 1) as usize);
        }
    }
}

/// One more step along a subscriber edge.
pub proof fn lemma_reach_step<T>(st: ScopeState<T>, from: usize, via: usize, to: usize)
    requires
        st.reaches(from, via),
        to < st.nodes.len(),
        st.nodes[via as int].subs.contains(to),
    ensures
        st.reaches(from, to),
{
    let p = choose|p: Seq<usize>| #[trigger] st.is_path(p) && p.first() == from && p.last() == via;
    let walk = p.push(to);
    assert forall|k: int| 0 < k < walk.len() implies #[trigger] st.hop(walk, k) by {
        if k < p.len() {
            assert(st.hop(p, k));
            assert(walk[k] == p[k] && walk[k - 1] == p[k - 1]);
        }
    }
    assert(st.is_path(walk));
    assert(walk.first() == from && walk.last() == to);
}

/// A node without subscribers reaches only itself.
pub proof fn lemma_leaf_reaches_itself<T>(st: ScopeState<T>, from: usize, to: usize)
    requires
        from < st.nodes.len(),
        st.nodes[from as int].subs.len() == 0,
        st.reaches(from, to),
    ensures
        to == from,
{
    let p = choose|p: Seq<usize>| #[trigger] st.is_path(p) && p.first() == from && p.last() == to;
    if p.len() > 1 {
        assert(st.hop(p, 1));
        let j = choose|j: int|
            0 <= j < st.nodes[from as int].subs.len() && st.nodes[from as int].subs[j] == p[1];
    }
}

/// Every node reaches itself.
pub proof fn lemma_reach_self<T>(st: ScopeState<T>, id: usize)
    requires
        id < st.nodes.len(),
    ensures
        st.reaches(id, id),
{
    let p = seq![id];
    assert(st.is_path(p));
    assert(p.first() == id && p.last() == id);
}

/// A list that holds `p`'s first node and, with each node, its subscribers
/// holds `p`'s last node.
pub proof fn lemma_closed_holds_path<T>(st: ScopeState<T>, q: Seq<usize>, p: Seq<usize>)
    requires
        st.is_path(p),
        q.contains(p.first()),
        forall|a: int, j: int|
            0 <= a < q.len() && q[a] < st.nodes.len() && 0 <= j < st.nodes[q[a] as int].subs.len()
                ==> q.contains(#[trigger] st.nodes[q[a] as int].subs[j]),
    ensures
        q.contains(p.last()),
    decreases p.len(),
{
    if p.len() > 1 {
        let walk = p.drop_last();
        assert forall|k: int| 0 < k < walk.len() implies #[trigger] st.hop(walk, k) by {
            assert(st.hop(p, k));
            assert(walk[k] == p[k] && walk[k - 1] == p[k - 1]);
        }
        assert forall|k: int| 0 <= k < walk.len() implies #[trigger] walk[k] < st.nodes.len() by {
            assert(walk[k] == p[k]);
        }
        assert(st.is_path(walk));
        assert(walk.first() == p.first());
        lemma_closed_holds_path(st, q, walk);
        let via = walk.last();
        let to = p.last();
        assert(via == p[p.len() - 2]);
        assert(st.hop(p, p.len() - 1));
        let a = choose|a: int| 0 <= a < q.len() && q[a] == via;
        let j = choose|j: int|
            0 <= j < st.nodes[via as int].subs.len() && st.nodes[via as int].subs[j] == to;
        assert(p[p.len() - 2] < st.nodes.len());
        assert(q.contains(st.nodes[q[a] as int].subs[j]));
    }
}

/// Whatever is reached over at least one edge subscribes to something.
pub proof fn lemma_reached_listens<T>(st: ScopeState<T>, from: usize, to: usize)
    requires
        st.wf(),
        st.reaches(from, to),
        from != to,
    ensures
        st.listener(to),
{
    let p = choose|p: Seq<usize>| #[trigger] st.is_path(p) && p.first() == from && p.last() == to;
    assert(p.len() > 1);
    let k = p.len() - 1;
    assert(st.hop(p, k));
    let via = p[k - 1];
    assert(via < st.nodes.len());
    let j = choose|j: int|
        0 <= j < st.nodes[via as int].subs.len() && st.nodes[via as int].subs[j] == to;
    assert(st.listener(st.nodes[via as int].subs[j]));
}

/// Taking a reader out of every subscriber list keeps the lists in order.
pub proof fn lemma_detached<T>(pre: ScopeState<T>, reader: usize)
    requires
        pre.wf(),
    ensures
        pre.detached(reader).len() == pre.nodes.len(),
        forall|i: int|
            0 <= i < pre.nodes.len() ==> (#[trigger] pre.detached(reader)[i]).subs.no_duplicates()
                && !pre.detached(reader)[i].subs.contains(reader),
        forall|i: int, j: int|
            0 <= i < pre.nodes.len() && 0 <= j < pre.detached(reader)[i].subs.len()
                ==> pre.listener(#[trigger] pre.detached(reader)[i].subs[j])
                && pre.nodes[i].subs.contains(pre.detached(reader)[i].subs[j]),
{
    let d = pre.detached(reader);
    assert forall|i: int| 0 <= i < pre.nodes.len() implies (#[trigger] d[i]).subs.no_duplicates()
        && !d[i].subs.contains(reader) by {
        assert(pre.nodes[i].subs.no_duplicates());
        lemma_dropped(pre.nodes[i].subs, reader);
    }
    assert forall|i: int, j: int| 0 <= i < pre.nodes.len() && 0 <= j < d[i].subs.len() implies pre.listener(
         #[trigger] d[i].subs[j]) && pre.nodes[i].subs.contains(d[i].subs[j]) by {
        assert(pre.nodes[i].subs.no_duplicates());
        lemma_dropped(pre.nodes[i].subs, reader);
        let x = d[i].subs[j];
        assert(pre.nodes[i].subs.contains(x));
        let k = choose|k: int| 0 <= k < pre.nodes[i].subs.len() && pre.nodes[i].subs[k] == x;
        assert(pre.listener(pre.nodes[i].subs[k]));
    }
}

/// Beginning an evaluation keeps the invariant.
pub proof fn lemma_entered_wf<T>(pre: ScopeState<T>, id: usize)
    requires
        pre.wf(),
        pre.listener(id),
        pre.is(id, NodeKind::Effect) ==> !pre.pending.contains(id),
    ensures
        pre.entered(id).wf(),
{
    let post = pre.entered(id);
    lemma_detached(pre, id);
    let d = pre.detached(id);
    assert forall|i: int, j: int|
        0 <= i < post.nodes.len() && 0 <= j < post.nodes[i].subs.len() implies post.listener(
        #[trigger] post.nodes[i].subs[j],
    ) by {
        assert(post.nodes[i].subs == d[i].subs);
        assert(pre.listener(d[i].subs[j]));
    }
    assert forall|i: int| 0 <= i < post.nodes.len() implies (#[trigger] post.nodes[i]).subs.no_duplicates() by {
        assert(post.nodes[i].subs == d[i].subs);
    }
    assert forall|i: int|
        0 <= i < post.nodes.len() && (#[trigger] post.nodes[i]).kind == NodeKind::Signal
        implies post.nodes[i].value.is_some() && !post.nodes[i].dirty by {
        assert(pre.nodes[i].kind == NodeKind::Signal);
    }
    assert forall|k: int| 0 <= k < post.pending.len() implies post.is(
        #[trigger] post.pending[k],
        NodeKind::Effect,
    ) by {
        assert(pre.is(pre.pending[k], NodeKind::Effect));
    }
    assert forall|e: usize|
        e < post.nodes.len() && (#[trigger] post.nodes[e as int]).kind == NodeKind::Effect implies (
        post.nodes[e as int].dirty <==> post.pending.contains(e)) by {
        assert(pre.nodes[e as int].kind == NodeKind::Effect);
    }
}

/// Marking a node that subscribes to something keeps the invariant.
pub proof fn lemma_marked_wf<T>(pre: ScopeState<T>, x: usize)
    requires
        pre.wf(),
        pre.listener(x),
    ensures
        pre.marked(x).wf(),
{
    let post = pre.marked(x);
    lemma_push_keeps(pre.pending, x);
    assert forall|i: int, j: int|
        0 <= i < post.nodes.len() && 0 <= j < post.nodes[i].subs.len() implies post.listener(
        #[trigger] post.nodes[i].subs[j],
    ) by {
        assert(pre.listener(pre.nodes[i].subs[j]));
    }
    assert forall|i: int| 0 <= i < post.nodes.len() implies (#[trigger] post.nodes[i]).subs.no_duplicates() by {
        assert(pre.nodes[i].subs.no_duplicates());
    }
    assert forall|i: int|
        0 <= i < post.nodes.len() && (#[trigger] post.nodes[i]).kind == NodeKind::Signal
        implies post.nodes[i].value.is_some() && !post.nodes[i].dirty by {
        assert(pre.nodes[i].kind == NodeKind::Signal);
    }
    assert forall|k: int| 0 <= k < post.pending.len() implies post.is(
        #[trigger] post.pending[k],
        NodeKind::Effect,
    ) by {
        if k < pre.pending.len() {
            assert(pre.is(pre.pending[k], NodeKind::Effect));
        }
    }
    assert(pre.nodes[x as int].kind == NodeKind::Effect ==> (pre.nodes[x as int].dirty
        <==> pre.pending.contains(x)));
    assert(post.pending.no_duplicates());
    assert forall|e: usize|
        e < post.nodes.len() && (#[trigger] post.nodes[e as int]).kind == NodeKind::Effect implies (
        post.nodes[e as int].dirty <==> post.pending.contains(e)) by {
        assert(pre.nodes[e as int].kind == NodeKind::Effect);
        if e != x && post.pending.contains(e) {
            let t = choose|t: int| 0 <= t < post.pending.len() && post.pending[t] == e;
            assert(pre.pending[t] == e);
        }
    }
}

/// Taking the first waiting effect out of the queue keeps the invariant, and
/// beginning its run from there is the same as resuming it.
pub proof fn lemma_dequeued<T>(pre: ScopeState<T>)
    requires
        pre.wf(),
        pre.pending.len() > 0,
    ensures
        pre.dequeued().wf(),
        pre.dequeued().is(pre.pending[0], NodeKind::Effect),
        !pre.dequeued().pending.contains(pre.pending[0]),
        pre.dequeued().entered(pre.pending[0]) == pre.resumed(),
{
    let e = pre.pending[0];
    let post = pre.dequeued();
    assert(pre.is(pre.pending[0], NodeKind::Effect));
    assert(pre.pending.contains(e));
    let k = pre.pending.index_of(e);
    assert(k == 0);
    assert(post.pending == dropped(pre.pending, e));
    lemma_dropped(pre.pending, e);
    assert forall|i: int, j: int|
        0 <= i < post.nodes.len() && 0 <= j < post.nodes[i].subs.len() implies post.listener(
        #[trigger] post.nodes[i].subs[j],
    ) by {
        assert(pre.listener(pre.nodes[i].subs[j]));
    }
    assert forall|i: int| 0 <= i < post.nodes.len() implies (#[trigger] post.nodes[i]).subs.no_duplicates() by {
        assert(pre.nodes[i].subs.no_duplicates());
    }
    assert forall|i: int|
        0 <= i < post.nodes.len() && (#[trigger] post.nodes[i]).kind == NodeKind::Signal
        implies post.nodes[i].value.is_some() && !post.nodes[i].dirty by {
        assert(pre.nodes[i].kind == NodeKind::Signal);
    }
    assert forall|t: int| 0 <= t < post.pending.len() implies post.is(
        #[trigger] post.pending[t],
        NodeKind::Effect,
    ) by {
        assert(post.pending[t] == pre.pending[t + 1]);
        assert(pre.is(pre.pending[t + 1], NodeKind::Effect));
    }
    assert forall|x: usize|
        x < post.nodes.len() && (#[trigger] post.nodes[x as int]).kind == NodeKind::Effect implies (
        post.nodes[x as int].dirty <==> post.pending.contains(x)) by {
        assert(pre.nodes[x as int].kind == NodeKind::Effect);
    }
    assert(post.wf());
    assert(post.entered(e).nodes =~= pre.resumed().nodes);
}

/// Disposing an effect keeps the invariant.
pub proof fn lemma_retired_wf<T>(pre: ScopeState<T>, id: usize)
    requires
        pre.wf(),
        pre.is(id, NodeKind::Effect),
    ensures
        pre.retired(id).wf(),
{
    let post = pre.retired(id);
    lemma_detached(pre, id);
    lemma_dropped(pre.pending, id);
    let d = pre.detached(id);
    assert forall|i: int, j: int|
        0 <= i < post.nodes.len() && 0 <= j < post.nodes[i].subs.len() implies post.listener(
        #[trigger] post.nodes[i].subs[j],
    ) by {
        assert(post.nodes[i].subs == d[i].subs);
        assert(pre.listener(d[i].subs[j]));
        assert(d[i].subs.contains(d[i].subs[j]));
    }
    assert forall|i: int| 0 <= i < post.nodes.len() implies (#[trigger] post.nodes[i]).subs.no_duplicates() by {
        assert(post.nodes[i].subs == d[i].subs);
    }
    assert forall|i: int|
        0 <= i < post.nodes.len() && (#[trigger] post.nodes[i]).kind == NodeKind::Signal
        implies post.nodes[i].value.is_some() && !post.nodes[i].dirty by {
        assert(pre.nodes[i].kind == NodeKind::Signal);
    }
    assert forall|t: int| 0 <= t < post.pending.len() implies post.is(
        #[trigger] post.pending[t],
        NodeKind::Effect,
    ) by {
        let x = post.pending[t];
        assert(post.pending.contains(x));
        assert(pre.pending.contains(x));
        let u = choose|u: int| 0 <= u < pre.pending.len() && pre.pending[u] == x;
        assert(pre.is(pre.pending[u], NodeKind::Effect));
    }
    assert forall|x: usize|
        x < post.nodes.len() && (#[trigger] post.nodes[x as int]).kind == NodeKind::Effect implies (
        post.nodes[x as int].dirty <==> post.pending.contains(x)) by {
        assert(pre.nodes[x as int].kind == NodeKind::Effect);
    }
}

/// A read keeps the invariant.
pub proof fn lemma_observed_wf<T>(pre: ScopeState<T>, target: usize)
    requires
        pre.wf(),
    ensures
        pre.observed(target).wf(),
{
    let post = pre.observed(target);
    if pre.tracking() && target < pre.nodes.len() {
        assert forall|i: int, j: int|
            0 <= i < post.nodes.len() && 0 <= j < post.nodes[i].subs.len() implies post.listener(
            #[trigger] post.nodes[i].subs[j],
        ) by {
            if i == target {
                if j < pre.nodes[i].subs.len() {
                    assert(pre.listener(pre.nodes[i].subs[j]));
                }
            } else {
                assert(pre.listener(pre.nodes[i].subs[j]));
            }
        }
        assert forall|i: int| 0 <= i < post.nodes.len() implies (#[trigger] post.nodes[i]).subs.no_duplicates() by {
            assert(pre.nodes[i].subs.no_duplicates());
        }
        assert forall|k: int| 0 <= k < post.pending.len() implies post.is(
            #[trigger] post.pending[k],
            NodeKind::Effect,
        ) by {
            assert(pre.is(pre.pending[k], NodeKind::Effect));
        }
        assert forall|i: int|
            0 <= i < post.nodes.len() && (#[trigger] post.nodes[i]).kind == NodeKind::Signal
            implies post.nodes[i].value.is_some() && !post.nodes[i].dirty by {
            assert(pre.nodes[i].kind == NodeKind::Signal);
        }
        assert forall|e: usize|
            e < post.nodes.len() && (#[trigger] post.nodes[e as int]).kind == NodeKind::Effect implies (
            post.nodes[e as int].dirty <==> post.pending.contains(e)) by {
            assert(pre.nodes[e as int].kind == NodeKind::Effect);
        }
    }
}

/// A change that touches neither kinds, subscriber lists nor the queue, and
/// no mark of an effect or a signal, keeps the invariant.
pub proof fn lemma_frame_wf<T>(pre: ScopeState<T>, post: ScopeState<T>)
    requires
        pre.wf(),
        post.nodes.len() == pre.nodes.len(),
        post.pending == pre.pending,
        post.disposed == pre.disposed,
        forall|k: int| 0 <= k < post.stack.len() ==> #[trigger] post.stack[k] < post.nodes.len(),
        forall|i: int|
            0 <= i < pre.nodes.len() ==> (#[trigger] post.nodes[i]).kind == pre.nodes[i].kind
                && post.nodes[i].subs == pre.nodes[i].subs,
        forall|i: int|
            0 <= i < pre.nodes.len() && pre.nodes[i].kind != NodeKind::Computed ==> (
            #[trigger] post.nodes[i]).dirty == pre.nodes[i].dirty,
        forall|i: int|
            0 <= i < pre.nodes.len() && pre.nodes[i].kind == NodeKind::Signal ==> (
            #[trigger] post.nodes[i]).value.is_some(),
    ensures
        post.wf(),
{
    if post.disposed && post.stack.len() > 0 {
        assert(post.stack[0] < post.nodes.len());
    }
    assert forall|i: int, j: int|
        0 <= i < post.nodes.len() && 0 <= j < post.nodes[i].subs.len() implies post.listener(
        #[trigger] post.nodes[i].subs[j],
    ) by {
        let x = pre.nodes[i].subs[j];
        assert(post.nodes[i].subs == pre.nodes[i].subs);
        assert(pre.listener(x));
        assert(post.nodes[x as int].kind == pre.nodes[x as int].kind);
    }
    assert forall|i: int| 0 <= i < post.nodes.len() implies (#[trigger] post.nodes[i]).subs.no_duplicates() by {
        assert(pre.nodes[i].subs.no_duplicates());
    }
    assert forall|k: int| 0 <= k < post.pending.len() implies post.is(
        #[trigger] post.pending[k],
        NodeKind::Effect,
    ) by {
        let x = pre.pending[k];
        assert(pre.is(x, NodeKind::Effect));
        assert(post.nodes[x as int].kind == pre.nodes[x as int].kind);
    }
    assert forall|i: int|
        0 <= i < post.nodes.len() && (#[trigger] post.nodes[i]).kind == NodeKind::Signal
        implies post.nodes[i].value.is_some() && !post.nodes[i].dirty by {
        assert(pre.nodes[i].kind == NodeKind::Signal);
    }
    assert forall|e: usize|
        e < post.nodes.len() && (#[trigger] post.nodes[e as int]).kind == NodeKind::Effect implies (
        post.nodes[e as int].dirty <==> post.pending.contains(e)) by {
        assert(pre.nodes[e as int].kind == NodeKind::Effect);
    }
}

} // verus!
