//! The scope and the handles of its nodes: what runs.
//!
//! A derivation or an effect body is the host's closure. The scope tracks
//! what a running evaluation reads, says when a derivation has to run
//! (`Poll::Evaluate`) and which effect has to run next (`next_effect`), and is
//! told when the run has ended (`complete`, `abandon`, `finish`). Every
//! operation states its outcome over the scope's mathematical state.
use vstd::prelude::*;
use crate::error::{EvalError, SignalError};
use crate::model::{
    among, dropped, extended, lemma_bounded_distinct, lemma_extended_fresh, lemma_closed_holds_path, lemma_entered_wf,
    lemma_dequeued, lemma_frame_wf, lemma_marked_wf, lemma_retired_wf, lemma_observed_wf, lemma_push_keeps, lemma_reach_self,
    lemma_reach_step, lemma_reached_listens, NodeKind, NodeState, Poll, ScopeState,
};

verus! {

struct Node<T> {
    kind: NodeKind,
    value: Option<T>,
    dirty: bool,
    poisoned: bool,
    subs: Vec<usize>,
}

impl<T> Node<T> {
    spec fn state(self) -> NodeState<T> {
        NodeState {
            kind: self.kind,
            value: self.value,
            dirty: self.dirty,
            poisoned: self.poisoned,
            subs: self.subs@,
        }
    }
}

/// The arena that owns every signal, derived value and effect created in it.
pub struct Scope<T> {
    nodes: Vec<Node<T>>,
    stack: Vec<usize>,
    pending: Vec<usize>,
    disposed: bool,
    shared: bool,
}

/// Handle of a signal: a mutable value, the root of dependency edges.
#[derive(Clone, Copy, PartialEq, Eq, Structural, Debug)]
pub struct Signal {
    pub id: usize,
}

/// Handle of a derived value: cached, evaluated again only when stale.
#[derive(Clone, Copy, PartialEq, Eq, Structural, Debug)]
pub struct Computed {
    pub id: usize,
}

/// Handle of an effect: run again whenever something it read has changed.
#[derive(Clone, Copy, PartialEq, Eq, Structural, Debug)]
pub struct Effect {
    pub id: usize,
}

impl<T> View for Scope<T> {
    type V = ScopeState<T>;

    closed spec fn view(&self) -> ScopeState<T> {
        ScopeState {
            nodes: Seq::new(self.nodes@.len(), |i: int| self.nodes@[i].state()),
            stack: self.stack@,
            pending: self.pending@,
            disposed: self.disposed,
            shared: self.shared,
        }
    }
}

/// Where `x` stands in `v`, if it does.
fn position(v: &Vec<usize>, x: usize) -> (r: Option<usize>)
    ensures
        match r {
            Some(i) => i < v@.len() && v@[i as int] == x,
            None => !v@.contains(x),
        },
{
    let mut i: usize = 0;
    while i < v.len()
        invariant
            i <= v@.len(),
            forall|k: int| 0 <= k < i ==> v@[k] != x,
        decreases v@.len() - i,
    {
        if v[i] == x {
            return Some(i);
        }
        i += 1;
    }
    None
}

/// Takes `x` out of `v`.
fn discard(v: &mut Vec<usize>, x: usize)
    requires
        old(v)@.no_duplicates(),
    ensures
        final(v)@ == dropped(old(v)@, x),
{
    match position(v, x) {
        Some(i) => {
            proof {
                assert(v@.contains(x));
                let k = v@.index_of(x);
                assert(v@[k] == x);
                assert(k == i);
            }
            v.remove(i);
        },
        None => {},
    }
}

impl<T: Copy> Scope<T> {
    /// An empty scope for a single owner.
    pub fn new() -> (s: Self)
        ensures
            s@.wf(),
            s@.nodes.len() == 0,
            s@.stack.len() == 0,
            s@.pending.len() == 0,
            !s@.disposed,
            !s@.shared,
    {
        Scope { nodes: Vec::new(), stack: Vec::new(), pending: Vec::new(), disposed: false, shared: false }
    }

    /// An empty scope whose signals are shared between threads by the host, so
    /// that a writer can fail and leave a signal poisoned.
    pub fn new_shared() -> (s: Self)
        ensures
            s@.wf(),
            s@.nodes.len() == 0,
            s@.stack.len() == 0,
            s@.pending.len() == 0,
            !s@.disposed,
            s@.shared,
    {
        Scope { nodes: Vec::new(), stack: Vec::new(), pending: Vec::new(), disposed: false, shared: true }
    }

    /// Whether the scope has been disposed.
    pub fn is_disposed(&self) -> (b: bool)
        ensures
            b == self@.disposed,
    {
        self.disposed
    }

    /// The number of nodes created so far.
    pub fn len(&self) -> (n: usize)
        ensures
            n == self@.nodes.len(),
    {
        self.nodes.len()
    }

    /// Whether an evaluation is running.
    pub fn is_evaluating(&self) -> (b: bool)
        ensures
            b == (self@.stack.len() > 0),
    {
        self.stack.len() > 0
    }

    /// The number of effects that wait to run again.
    pub fn pending_effects(&self) -> (n: usize)
        ensures
            n == self@.pending.len(),
    {
        self.pending.len()
    }

    /// The nodes that read `id` during their last run, oldest subscription
    /// first. A handle that names no node has none.
    pub fn subscribers(&self, id: usize) -> (subs: Vec<usize>)
        ensures
            subs@ == (if id < self@.nodes.len() {
                self@.nodes[id as int].subs
            } else {
                Seq::empty()
            }),
    {
        let mut subs: Vec<usize> = Vec::new();
        if id < self.nodes.len() {
            assert(self@.nodes[id as int] == self.nodes@[id as int].state());
            let n = self.nodes[id].subs.len();
            let mut k: usize = 0;
            while k < n
                invariant
                    id < self.nodes@.len(),
                    n == self.nodes@[id as int].subs@.len(),
                    k <= n,
                    subs@ == self.nodes@[id as int].subs@.subrange(0, k as int),
                decreases n - k,
            {
                subs.push(self.nodes[id].subs[k]);
                k += 1;
                assert(subs@ =~= self.nodes@[id as int].subs@.subrange(0, k as int));
            }
            assert(subs@ =~= self.nodes@[id as int].subs@);
        }
        subs
    }

    /// The nodes that `id` read during its last run, in the order of the
    /// arena: those that count `id` among their subscribers.
    pub fn dependencies(&self, id: usize) -> (deps: Vec<usize>)
        ensures
            forall|t: usize| #[trigger]
                deps@.contains(t) <==> (t < self@.nodes.len() && self@.nodes[t as int].subs.contains(
                    id,
                )),
            forall|a: int, b: int| 0 <= a < b < deps@.len() ==> deps@[a] < deps@[b],
    {
        let mut deps: Vec<usize> = Vec::new();
        let n = self.nodes.len();
        let mut t: usize = 0;
        while t < n
            invariant
                n == self.nodes@.len(),
                t <= n,
                forall|x: usize| #[trigger]
                    deps@.contains(x) <==> (x < t && self@.nodes[x as int].subs.contains(id)),
                forall|a: int, b: int| 0 <= a < b < deps@.len() ==> deps@[a] < deps@[b],
                forall|a: int| 0 <= a < deps@.len() ==> #[trigger] deps@[a] < t,
            decreases n - t,
        {
            assert(self@.nodes[t as int] == self.nodes@[t as int].state());
            let ghost before = deps@;
            if position(&self.nodes[t].subs, id).is_some() {
                deps.push(t);
                proof {
                    lemma_push_keeps(before, t);
                    assert forall|x: usize| #[trigger] deps@.contains(x) implies (x < t + 1
                        && self@.nodes[x as int].subs.contains(id)) by {
                        let k = choose|k: int| 0 <= k < deps@.len() && deps@[k] == x;
                        if k < before.len() {
                            assert(before[k] == x);
                            assert(before.contains(x));
                        }
                    }
                }
            }
            t += 1;
        }
        deps
    }

    /// Puts a new node at the end of the arena.
    fn add(&mut self, node: Node<T>)
        requires
            old(self)@.wf(),
            !old(self)@.disposed,
            node.subs@.len() == 0,
            node.kind == NodeKind::Signal ==> node.value.is_some() && !node.dirty,
            node.kind == NodeKind::Effect ==> !node.dirty,
        ensures
            final(self)@ == old(self)@.grown(node.state()),
            final(self)@.wf(),
    {
        self.nodes.push(node);
        proof {
            let pre = old(self)@;
            let post = self@;
            assert(post.nodes =~= pre.nodes.push(node.state()));
            assert forall|e: usize| e < post.nodes.len() && (#[trigger] post.nodes[e as int]).kind
                == NodeKind::Effect implies (post.nodes[e as int].dirty <==> post.pending.contains(e)) by {
                if e < pre.nodes.len() {
                    assert(post.nodes[e as int] == pre.nodes[e as int]);
                } else {
                    if post.pending.contains(e) {
                        let k = choose|k: int| 0 <= k < pre.pending.len() && pre.pending[k] == e;
                        assert(pre.is(pre.pending[k], NodeKind::Effect));
                    }
                }
            }
            assert forall|i: int, j: int|
                0 <= i < post.nodes.len() && 0 <= j < post.nodes[i].subs.len() implies post.listener(
                #[trigger] post.nodes[i].subs[j],
            ) by {
                assert(post.nodes[i] == pre.nodes[i]);
                assert(pre.listener(pre.nodes[i].subs[j]));
            }
            assert forall|k: int| 0 <= k < post.pending.len() implies post.is(
                #[trigger] post.pending[k],
                NodeKind::Effect,
            ) by {
                assert(pre.is(pre.pending[k], NodeKind::Effect));
            }
        }
    }

    /// Creates a signal that holds `initial`.
    pub fn signal(&mut self, initial: T) -> (r: Result<Signal, SignalError>)
        requires
            old(self)@.wf(),
        ensures
            final(self)@.wf(),
            old(self)@.disposed ==> r == Err::<Signal, SignalError>(SignalError::ScopeDisposed)
                && final(self)@ == old(self)@,
            !old(self)@.disposed ==> r == Ok::<Signal, SignalError>(
                Signal { id: old(self)@.nodes.len() as usize },
            ) && final(self)@ == old(self)@.grown(
                NodeState {
                    kind: NodeKind::Signal,
                    value: Some(initial),
                    dirty: false,
                    poisoned: false,
                    subs: Seq::empty(),
                },
            ),
    {
        if self.disposed {
            return Err(SignalError::ScopeDisposed);
        }
        let id = self.nodes.len();
        self.add(
            Node {
                kind: NodeKind::Signal,
                value: Some(initial),
                dirty: false,
                poisoned: false,
                subs: Vec::new(),
            },
        );
        Ok(Signal { id })
    }

    /// Creates a derived value. It has no value yet: the first read asks for
    /// its evaluation.
    pub fn computed(&mut self) -> (r: Result<Computed, EvalError>)
        requires
            old(self)@.wf(),
        ensures
            final(self)@.wf(),
            old(self)@.disposed ==> r == Err::<Computed, EvalError>(EvalError::ScopeDisposed)
                && final(self)@ == old(self)@,
            !old(self)@.disposed ==> r == Ok::<Computed, EvalError>(
                Computed { id: old(self)@.nodes.len() as usize },
            ) && final(self)@ == old(self)@.grown(
                NodeState {
                    kind: NodeKind::Computed,
                    value: None,
                    dirty: true,
                    poisoned: false,
                    subs: Seq::empty(),
                },
            ),
    {
        if self.disposed {
            return Err(EvalError::ScopeDisposed);
        }
        let id = self.nodes.len();
        self.add(
            Node {
                kind: NodeKind::Computed,
                value: None,
                dirty: true,
                poisoned: false,
                subs: Vec::new(),
            },
        );
        Ok(Computed { id })
    }

    /// Creates an effect. Its first run has begun: the caller runs the body
    /// and ends with `finish`.
    pub fn effect(&mut self) -> (r: Result<Effect, EvalError>)
        requires
            old(self)@.wf(),
        ensures
            final(self)@.wf(),
            old(self)@.disposed ==> r == Err::<Effect, EvalError>(EvalError::ScopeDisposed)
                && final(self)@ == old(self)@,
            !old(self)@.disposed ==> r == Ok::<Effect, EvalError>(
                Effect { id: old(self)@.nodes.len() as usize },
            ) && final(self)@ == old(self)@.spawned(),
    {
        if self.disposed {
            return Err(EvalError::ScopeDisposed);
        }
        let id = self.nodes.len();
        self.add(
            Node {
                kind: NodeKind::Effect,
                value: None,
                dirty: false,
                poisoned: false,
                subs: Vec::new(),
            },
        );
        let ghost mid = self@;
        self.stack.push(id);
        proof {
            let post = self@;
            assert forall|k: int| 0 <= k < post.stack.len() implies #[trigger] post.stack[k]
                < post.nodes.len() by {
                if k < mid.stack.len() {
                    assert(post.stack[k] == mid.stack[k]);
                }
            }
            lemma_frame_wf(mid, post);
        }
        Ok(Effect { id })
    }

    /// Hands out the effect that has to run again next, if one is waiting. Its
    /// run has begun: the caller runs the body and ends with `finish`.
    pub fn next_effect(&mut self) -> (r: Option<Effect>)
        requires
            old(self)@.wf(),
        ensures
            final(self)@.wf(),
            old(self)@.pending.len() == 0 ==> r == None::<Effect> && final(self)@ == old(self)@,
            old(self)@.pending.len() > 0 ==> r == Some(Effect { id: old(self)@.pending[0] })
                && final(self)@ == old(self)@.resumed(),
    {
        if self.pending.len() == 0 {
            return None;
        }
        let ghost pre = self@;
        let id = self.pending[0];
        assert(pre.is(pre.pending[0], NodeKind::Effect));
        self.nodes[id].dirty = false;
        self.pending.remove(0);
        proof {
            assert(self@.nodes =~= pre.dequeued().nodes);
            assert(self@ == pre.dequeued());
            lemma_dequeued(pre);
        }
        self.enter(id);
        Some(Effect { id })
    }

    /// Disposes the scope: every node is released. Whatever is asked of the
    /// scope or of one of its nodes afterwards fails.
    pub fn dispose(&mut self)
        ensures
            final(self)@ == old(self)@.torn_down(),
            final(self)@.wf(),
    {
        self.nodes.clear();
        self.stack.clear();
        self.pending.clear();
        self.disposed = true;
        proof {
            assert(self@.nodes =~= Seq::<NodeState<T>>::empty());
        }
    }

    /// Records that the running evaluation, if there is one, has read `target`.
    fn observe(&mut self, target: usize)
        requires
            old(self)@.wf(),
            target < old(self)@.nodes.len(),
        ensures
            final(self)@ == old(self)@.observed(target),
            final(self)@.wf(),
    {
        let n = self.stack.len();
        if n > 0 {
            let top = self.stack[n - 1];
            assert(top == self@.stack.last());
            assert(self@.stack[n - 1] < self@.nodes.len());
            let kind = self.nodes[top].kind;
            assert(kind == self@.nodes[top as int].kind);
            if kind == NodeKind::Computed || kind == NodeKind::Effect {
                if position(&self.nodes[target].subs, top).is_none() {
                    self.nodes[target].subs.push(top);
                }
                proof {
                    let pre = old(self)@;
                    let post = self@;
                    assert(post.nodes =~= pre.observed(target).nodes);
                    lemma_observed_wf(pre, target);
                }
            }
        }
    }

    /// The signal `source`, then its subscribers in their order, then every
    /// other node that depends on it, each once.
    fn dependents(&self, source: usize) -> (queue: Vec<usize>)
        requires
            self@.wf(),
            self@.is(source, NodeKind::Signal),
        ensures
            queue@.len() >= 1 + self@.nodes[source as int].subs.len(),
            queue@[0] == source,
            queue@.no_duplicates(),
            queue@.subrange(1, 1 + self@.nodes[source as int].subs.len() as int)
                == self@.nodes[source as int].subs,
            forall|k: int| 0 <= k < queue@.len() ==> #[trigger] queue@[k] < self@.nodes.len(),
            forall|x: usize| #[trigger] queue@.contains(x) ==> self@.reaches(source, x),
            forall|x: usize| #[trigger] self@.reaches(source, x) ==> queue@.contains(x),
            queue@ == self@.dependents(source),
    {
        let ghost st = self@;
        let n = self.nodes.len();
        let mut queue: Vec<usize> = Vec::new();
        queue.push(source);
        assert(st.nodes[source as int] == self.nodes@[source as int].state());
        let m = self.nodes[source].subs.len();
        let ghost subs = st.nodes[source as int].subs;
        let mut k: usize = 0;
        while k < m
            invariant
                st == self@,
                source < n,
                n == self.nodes@.len(),
                subs == self.nodes@[source as int].subs@,
                m == subs.len(),
                k <= m,
                queue@ == seq![source] + subs.subrange(0, k as int),
            decreases m - k,
        {
            let s = self.nodes[source].subs[k];
            queue.push(s);
            k += 1;
            assert(queue@ =~= seq![source] + subs.subrange(0, k as int));
        }
        proof {
            lemma_reach_self(st, source);
            assert(subs.subrange(0, m as int) =~= subs);
            assert(queue@ =~= seq![source] + subs);
            assert(queue@.subrange(1, 1 + m) =~= subs);
            assert(subs.no_duplicates());
            assert forall|t: int| 0 < t < queue@.len() implies #[trigger] queue@[t] < n
                && queue@[t] != source && st.reaches(source, queue@[t]) by {
                assert(queue@[t] == subs[t - 1]);
                assert(st.listener(st.nodes[source as int].subs[t - 1]));
                assert(subs.contains(subs[t - 1]));
                lemma_reach_step(st, source, source, subs[t - 1]);
            }
            assert forall|a: int, b: int|
                0 <= a < queue@.len() && 0 <= b < queue@.len() && a != b implies queue@[a]
                != queue@[b] by {
                if a > 0 && b > 0 {
                    assert(queue@[a] == subs[a - 1]);
                    assert(queue@[b] == subs[b - 1]);
                }
            }
            assert forall|a: int, j: int|
                0 <= a < 1 && 0 <= j < st.nodes[queue@[a] as int].subs.len()
                implies queue@.contains(#[trigger] st.nodes[queue@[a] as int].subs[j]) by {
                assert(queue@[j + 1] == subs[j]);
            }
            let start = seq![source];
            assert forall|t: int| 0 <= t < subs.len() implies !start.contains(#[trigger] subs[t]) by {
                assert(queue@[t + 1] == subs[t]);
                assert(queue@[t + 1] != source);
            }
            lemma_extended_fresh(start, subs);
            assert(start[0] == source);
            assert(st.dependents(source) == st.walked(extended(start, subs), 1, (n - 1) as nat));
        }
        let mut i: usize = 1;
        while i < queue.len()
            invariant
                st == self@,
                st.wf(),
                source < n,
                n == self.nodes@.len(),
                n == st.nodes.len(),
                subs == st.nodes[source as int].subs,
                m == subs.len(),
                1 <= i <= queue@.len(),
                queue@.len() >= 1 + m,
                queue@[0] == source,
                queue@.subrange(1, 1 + m) == subs,
                queue@.no_duplicates(),
                forall|t: int| 0 <= t < queue@.len() ==> #[trigger] queue@[t] < n,
                forall|t: int| 0 <= t < queue@.len() ==> st.reaches(source, #[trigger] queue@[t]),
                forall|a: int, j: int|
                    0 <= a < i && 0 <= j < st.nodes[queue@[a] as int].subs.len()
                        ==> queue@.contains(#[trigger] st.nodes[queue@[a] as int].subs[j]),
                i <= n,
                st.dependents(source) == st.walked(queue@, i as nat, (n - i) as nat),
            decreases n - i,
        {
            proof {
                lemma_bounded_distinct(queue@, n);
            }
            let ghost start = queue@;
            let x = queue[i];
            assert(st.nodes[x as int] == self.nodes@[x as int].state());
            let len = self.nodes[x].subs.len();
            assert(st.nodes[x as int].subs.subrange(0, len as int) =~= st.nodes[x as int].subs);
            let mut j: usize = 0;
            while j < len
                invariant
                    st == self@,
                    st.wf(),
                    source < n,
                    n == self.nodes@.len(),
                    n == st.nodes.len(),
                    subs == st.nodes[source as int].subs,
                    m == subs.len(),
                    1 <= i < queue@.len(),
                    i < n,
                    x == queue@[i as int],
                    x < n,
                    len == st.nodes[x as int].subs.len(),
                    len == self.nodes@[x as int].subs@.len(),
                    j <= len,
                    queue@.len() >= 1 + m,
                    queue@[0] == source,
                    queue@.subrange(1, 1 + m) == subs,
                    queue@.no_duplicates(),
                    forall|t: int| 0 <= t < queue@.len() ==> #[trigger] queue@[t] < n,
                    forall|t: int|
                        0 <= t < queue@.len() ==> st.reaches(source, #[trigger] queue@[t]),
                    forall|a: int, j: int|
                        0 <= a < i && 0 <= j < st.nodes[queue@[a] as int].subs.len()
                            ==> queue@.contains(#[trigger] st.nodes[queue@[a] as int].subs[j]),
                    forall|j2: int|
                        0 <= j2 < j ==> queue@.contains(#[trigger] st.nodes[x as int].subs[j2]),
                    extended(start, st.nodes[x as int].subs) == extended(
                        queue@,
                        st.nodes[x as int].subs.subrange(j as int, len as int),
                    ),
                decreases len - j,
            {
                let s = self.nodes[x].subs[j];
                let ghost before = queue@;
                proof {
                    let tail = st.nodes[x as int].subs.subrange(j as int, len as int);
                    assert(tail.first() == s);
                    assert(tail.drop_first() =~= st.nodes[x as int].subs.subrange(
                        j + 1,
                        len as int,
                    ));
                }
                proof {
                    assert(s == st.nodes[x as int].subs[j as int]);
                    assert(st.listener(st.nodes[x as int].subs[j as int]));
                    assert(st.nodes[x as int].subs.contains(s));
                    assert(st.reaches(source, before[i as int]));
                    lemma_reach_step(st, source, x, s);
                }
                if position(&queue, s).is_none() {
                    queue.push(s);
                    proof {
                        lemma_push_keeps(before, s);
                        assert(queue@.subrange(1, 1 + m) =~= before.subrange(1, 1 + m));
                        assert forall|a: int, j: int|
                            0 <= a < i && 0 <= j < st.nodes[queue@[a] as int].subs.len()
                            implies queue@.contains(
                            #[trigger] st.nodes[queue@[a] as int].subs[j],
                        ) by {
                            assert(queue@[a] == before[a]);
                            assert(before.contains(st.nodes[before[a] as int].subs[j]));
                        }
                        assert forall|j2: int| 0 <= j2 < j implies queue@.contains(
                            #[trigger] st.nodes[x as int].subs[j2],
                        ) by {
                            assert(before.contains(st.nodes[x as int].subs[j2]));
                        }
                    }
                }
                j += 1;
            }
            proof {
                assert(st.nodes[x as int].subs.subrange(len as int, len as int).len() == 0);
                assert(queue@ == extended(start, st.nodes[x as int].subs));
                assert(start[i as int] == x);
                assert(st.walked(start, i as nat, (n - i) as nat) == st.walked(
                    queue@,
                    (i + 1) as nat,
                    (n - i - 1) as nat,
                ));
            }
            i += 1;
        }
        proof {
            lemma_bounded_distinct(queue@, n);
            assert(st.walked(queue@, i as nat, (n - i) as nat) == queue@);
        }
        proof {
            assert forall|x: usize| #[trigger] st.reaches(source, x) implies queue@.contains(x) by {
                let p = choose|p: Seq<usize>| #[trigger]
                    st.is_path(p) && p.first() == source && p.last() == x;
                assert(queue@.contains(queue@[0]));
                lemma_closed_holds_path(st, queue@, p);
            }
            assert forall|x: usize| #[trigger] queue@.contains(x) implies st.reaches(source, x) by {
                let t = choose|t: int| 0 <= t < queue@.len() && queue@[t] == x;
                assert(st.reaches(source, queue@[t]));
            }
        }
        queue
    }

    /// Gives the signal `source` the value `v` and marks what depends on it.
    fn write(&mut self, source: usize, v: T)
        requires
            old(self)@.wf(),
            old(self)@.is(source, NodeKind::Signal),
        ensures
            old(self)@.written(source, v, final(self)@),
            final(self)@.wf(),
    {
        let ghost pre = self@;
        let queue = self.dependents(source);
        let ghost q = queue@;
        let n = self.nodes.len();
        self.nodes[source].value = Some(v);
        let ghost base = self@;
        proof {
            assert(base.nodes =~= pre.nodes.update(
                source as int,
                NodeState { value: Some(v), ..pre.nodes[source as int] },
            ));
            assert forall|t: int| 0 <= t < base.stack.len() implies #[trigger] base.stack[t]
                < base.nodes.len() by {
                assert(base.stack[t] == pre.stack[t]);
            }
            lemma_frame_wf(pre, base);
            assert forall|t: int| 1 <= t < q.len() implies pre.listener(#[trigger] q[t]) by {
                assert(q.contains(q[t]));
                lemma_reached_listens(pre, source, q[t]);
            }
        }
        let ghost mut pos: Seq<int> = Seq::empty();
        proof {
            assert(q.subrange(1, 1).len() == 0);
            assert(self@.pending =~= pre.pending + pre.joining(q.subrange(1, 1)));
        }
        let mut k: usize = 1;
        while k < queue.len()
            invariant
                q == queue@,
                1 <= k <= q.len(),
                q.no_duplicates(),
                pre.wf(),
                self@.wf(),
                n == pre.nodes.len(),
                n == self.nodes@.len(),
                source < n,
                self@.stack == pre.stack,
                self@.disposed == pre.disposed,
                self@.shared == pre.shared,
                forall|t: int| 0 <= t < q.len() ==> #[trigger] q[t] < n,
                forall|t: int| 1 <= t < q.len() ==> pre.listener(#[trigger] q[t]),
                forall|i: usize|
                    i < n ==> (#[trigger] self@.nodes[i as int]) == (NodeState {
                        dirty: pre.nodes[i as int].dirty || among(q, 1, k as int, i),
                        value: if i == source {
                            Some(v)
                        } else {
                            pre.nodes[i as int].value
                        },
                        ..pre.nodes[i as int]
                    }),
                pre.pending.len() <= self@.pending.len(),
                self@.pending.subrange(0, pre.pending.len() as int) == pre.pending,
                forall|e: usize| #[trigger]
                    self@.pending.contains(e) ==> pre.pending.contains(e) || (pre.is(
                        e,
                        NodeKind::Effect,
                    ) && among(q, 1, k as int, e)),
                forall|e: usize|
                    pre.pending.contains(e) || (pre.is(e, NodeKind::Effect) && #[trigger] among(
                        q,
                        1,
                        k as int,
                        e,
                    )) ==> self@.pending.contains(e),
                self@.pending == pre.pending + pre.joining(q.subrange(1, k as int)),
                pos.len() == self@.pending.len() - pre.pending.len(),
                forall|a: int|
                    0 <= a < pos.len() ==> 1 <= #[trigger] pos[a] < k && q[pos[a]]
                        == self@.pending[pre.pending.len() + a],
                forall|a: int, b: int|
                    0 <= a < b < pos.len() ==> #[trigger] pos[a] < #[trigger] pos[b],
            decreases q.len() - k,
        {
            let x = queue[k];
            let ghost before = self@;
            let ghost old_pos = pos;
            assert(before.nodes[x as int] == self.nodes@[x as int].state());
            let joins = match self.nodes[x].kind {
                NodeKind::Effect => !self.nodes[x].dirty,
                _ => false,
            };
            if joins {
                self.pending.push(x);
                proof {
                    pos = pos.push(k as int);
                }
            }
            self.nodes[x].dirty = true;
            proof {
                let now = self@;
                assert(now.nodes =~= before.marked(x).nodes);
                assert(now.pending == before.marked(x).pending);
                assert(before.listener(x)) by {
                    assert(pre.listener(q[k as int]));
                }
                lemma_marked_wf(before, x);
                lemma_push_keeps(before.pending, x);
                assert(!among(q, 1, k as int, x)) by {
                    if among(q, 1, k as int, x) {
                        let t = choose|t: int| 1 <= t < k && t < q.len() && q[t] == x;
                        assert(q[t] == q[k as int]);
                    }
                }
                assert(joins == pre.joins(x));
                let done = q.subrange(1, k as int);
                let more = q.subrange(1, k + 1);
                assert(more.drop_last() =~= done);
                assert(more.last() == x);
                assert(now.pending =~= pre.pending + pre.joining(more));
                assert(among(q, 1, k + 1, x)) by {
                    assert(q[k as int] == x);
                }
                assert forall|i: usize| i < n implies (#[trigger] now.nodes[i as int])
                    == (NodeState {
                    dirty: pre.nodes[i as int].dirty || among(q, 1, k + 1, i),
                    value: if i == source {
                        Some(v)
                    } else {
                        pre.nodes[i as int].value
                    },
                    ..pre.nodes[i as int]
                }) by {
                    assert(before.nodes[i as int].dirty == (pre.nodes[i as int].dirty || among(
                        q,
                        1,
                        k as int,
                        i,
                    )));
                    if among(q, 1, k as int, i) {
                        let t = choose|t: int| 1 <= t < k && t < q.len() && q[t] == i;
                        assert(1 <= t < k + 1 && q[t] == i);
                    }
                    if i != x && among(q, 1, k + 1, i) {
                        let t = choose|t: int| 1 <= t < k + 1 && t < q.len() && q[t] == i;
                        assert(t != k);
                        assert(1 <= t < k && q[t] == i);
                    }
                }
                assert(now.pending.subrange(0, pre.pending.len() as int)
                    =~= before.pending.subrange(0, pre.pending.len() as int));
                assert forall|e: usize| #[trigger] now.pending.contains(e) implies pre.pending.contains(
                    e,
                ) || (pre.is(e, NodeKind::Effect) && among(q, 1, k + 1, e)) by {
                    if e == x && !before.pending.contains(e) {
                        assert(joins);
                        assert(pre.nodes[x as int].kind == before.nodes[x as int].kind);
                    } else {
                        if !before.pending.contains(e) {
                            let t = choose|t: int| 0 <= t < now.pending.len() && now.pending[t] == e;
                            assert(before.pending[t] == e);
                        }
                        if among(q, 1, k as int, e) {
                            let t = choose|t: int| 1 <= t < k && t < q.len() && q[t] == e;
                            assert(1 <= t < k + 1 && q[t] == e);
                        }
                    }
                }
                assert forall|e: usize|
                    pre.pending.contains(e) || (pre.is(e, NodeKind::Effect) && #[trigger] among(
                        q,
                        1,
                        k + 1,
                        e,
                    )) implies now.pending.contains(e) by {
                    if pre.pending.contains(e) {
                        assert(before.pending.contains(e));
                    } else if e == x {
                        assert(before.nodes[x as int].kind == NodeKind::Effect);
                        if !joins {
                            assert(before.nodes[x as int].dirty);
                            assert(before.pending.contains(x));
                        }
                    } else {
                        let t = choose|t: int| 1 <= t < k + 1 && t < q.len() && q[t] == e;
                        assert(t != k);
                        assert(among(q, 1, k as int, e));
                        assert(before.pending.contains(e));
                    }
                }
                assert forall|a: int| 0 <= a < pos.len() implies 1 <= #[trigger] pos[a] < k + 1
                    && q[pos[a]] == now.pending[pre.pending.len() + a] by {
                    if a < old_pos.len() {
                        assert(pos[a] == old_pos[a]);
                        assert(now.pending[pre.pending.len() + a] == before.pending[pre.pending.len()
                            + a]);
                    }
                }
                assert forall|a: int, b: int| 0 <= a < b < pos.len() implies #[trigger] pos[a]
                    < #[trigger] pos[b] by {
                    if b < old_pos.len() {
                        assert(pos[a] == old_pos[a] && pos[b] == old_pos[b]);
                    } else {
                        assert(pos[a] == old_pos[a]);
                        assert(old_pos[a] < k);
                    }
                }
            }
            k += 1;
        }
        proof {
            let post = self@;
            let subs = pre.nodes[source as int].subs;
            assert(q.subrange(1, q.len() as int) =~= q.drop_first());
            assert(post.pending == pre.pending + pre.newly_queued(source));
            assert forall|i: usize| i < pre.nodes.len() implies (#[trigger] post.nodes[i as int])
                == (NodeState {
                dirty: pre.nodes[i as int].dirty || (i != source && pre.reaches(source, i)),
                value: if i == source {
                    Some(v)
                } else {
                    pre.nodes[i as int].value
                },
                ..pre.nodes[i as int]
            }) by {
                if among(q, 1, q.len() as int, i) {
                    let t = choose|t: int| 1 <= t < q.len() && t < q.len() && q[t] == i;
                    assert(q.contains(i));
                    assert(q[0] == source);
                }
                if i != source && pre.reaches(source, i) {
                    assert(q.contains(i));
                    let t = choose|t: int| 0 <= t < q.len() && q[t] == i;
                    assert(t != 0);
                    assert(among(q, 1, q.len() as int, i));
                }
            }
            assert forall|e: usize| #[trigger] post.pending.contains(e) implies pre.pending.contains(
                e,
            ) || (pre.is(e, NodeKind::Effect) && pre.reaches(source, e)) by {
                if among(q, 1, q.len() as int, e) {
                    let t = choose|t: int| 1 <= t < q.len() && t < q.len() && q[t] == e;
                    assert(q.contains(e));
                }
            }
            assert forall|e: usize| pre.is(e, NodeKind::Effect) && #[trigger] pre.reaches(source, e)
                implies post.pending.contains(e) by {
                assert(q.contains(e));
                let t = choose|t: int| 0 <= t < q.len() && q[t] == e;
                assert(t != 0);
                assert(among(q, 1, q.len() as int, e));
            }
            assert forall|i: int, j: int, a: int, b: int|
                0 <= i < j < subs.len() && pre.pending.len() <= a < post.pending.len()
                    && pre.pending.len() <= b < post.pending.len() && #[trigger] post.pending[a]
                    == #[trigger] subs[i] && #[trigger] post.pending[b] == #[trigger] subs[j]
                implies a < b by {
                let a2 = a - pre.pending.len();
                let b2 = b - pre.pending.len();
                assert(q[pos[a2]] == post.pending[a]);
                assert(q[pos[b2]] == post.pending[b]);
                assert(q.subrange(1, 1 + subs.len() as int)[i] == q[1 + i]);
                assert(q.subrange(1, 1 + subs.len() as int)[j] == q[1 + j]);
                assert(pos[a2] == 1 + i);
                assert(pos[b2] == 1 + j);
                if a2 > b2 {
                    assert(pos[b2] < pos[a2]);
                }
            }
            assert forall|a: int, b: int|
                pre.pending.len() <= a < post.pending.len() && pre.pending.len() <= b
                    < post.pending.len() && subs.contains(#[trigger] post.pending[a])
                    && !subs.contains(#[trigger] post.pending[b]) implies a < b by {
                let a2 = a - pre.pending.len();
                let b2 = b - pre.pending.len();
                assert(q[pos[a2]] == post.pending[a]);
                assert(q[pos[b2]] == post.pending[b]);
                let i = choose|i: int| 0 <= i < subs.len() && subs[i] == post.pending[a];
                assert(q.subrange(1, 1 + subs.len() as int)[i] == q[1 + i]);
                assert(pos[a2] == 1 + i);
                if 1 <= pos[b2] <= subs.len() {
                    assert(q.subrange(1, 1 + subs.len() as int)[pos[b2] - 1] == q[pos[b2]]);
                    assert(subs[pos[b2] - 1] == post.pending[b]);
                }
                assert(pos[b2] > subs.len());
                if a2 > b2 {
                    assert(pos[b2] < pos[a2]);
                }
            }
        }
    }

    /// Takes `reader` out of every subscriber list.
    fn detach(&mut self, reader: usize)
        requires
            old(self)@.wf(),
        ensures
            final(self)@ == (ScopeState { nodes: old(self)@.detached(reader), ..old(self)@ }),
    {
        let ghost pre = self@;
        let n = self.nodes.len();
        let mut i: usize = 0;
        while i < n
            invariant
                pre.wf(),
                i <= n,
                n == self.nodes@.len(),
                pre.nodes.len() == n,
                self@.stack == pre.stack,
                self@.pending == pre.pending,
                self@.disposed == pre.disposed,
                self@.shared == pre.shared,
                forall|k: int| 0 <= k < i ==> #[trigger] self@.nodes[k] == pre.detached(reader)[k],
                forall|k: int| i <= k < n ==> #[trigger] self@.nodes[k] == pre.nodes[k],
            decreases n - i,
        {
            assert(self@.nodes[i as int] == pre.nodes[i as int]);
            assert(pre.nodes[i as int].subs.no_duplicates());
            let ghost before = self@;
            discard(&mut self.nodes[i].subs, reader);
            assert(self@.nodes[i as int] == pre.detached(reader)[i as int]);
            assert forall|k: int| 0 <= k < i implies #[trigger] self@.nodes[k] == pre.detached(
                reader,
            )[k] by {
                assert(self@.nodes[k] == before.nodes[k]);
            }
            assert forall|k: int| i < k < n implies #[trigger] self@.nodes[k] == pre.nodes[k] by {
                assert(self@.nodes[k] == before.nodes[k]);
            }
            i += 1;
        }
        assert(self@.nodes =~= pre.detached(reader));
    }

    /// Begins the evaluation of `id`.
    fn enter(&mut self, id: usize)
        requires
            old(self)@.wf(),
            old(self)@.listener(id),
            old(self)@.is(id, NodeKind::Effect) ==> !old(self)@.pending.contains(id),
        ensures
            final(self)@ == old(self)@.entered(id),
            final(self)@.wf(),
    {
        let ghost pre = self@;
        self.detach(id);
        assert(self@.nodes.len() == self.nodes@.len());
        self.nodes[id].dirty = false;
        self.stack.push(id);
        proof {
            assert(self@.nodes =~= pre.entered(id).nodes);
            lemma_entered_wf(pre, id);
        }
    }
}

impl Computed {
    /// Reads the derived value. A current cache is handed out as it is, and
    /// the running evaluation, if there is one, now depends on this value. A
    /// stale one begins its evaluation: the caller runs the derivation and ends
    /// with `complete` or `abandon`.
    pub fn get<T: Copy>(&self, scope: &mut Scope<T>) -> (r: Result<Poll<T>, EvalError>)
        requires
            old(scope)@.wf(),
        ensures
            final(scope)@.wf(),
            r == old(scope)@.polled(self.id),
            final(scope)@ == old(scope)@.after_poll(self.id),
    {
        if scope.disposed {
            return Err(EvalError::ScopeDisposed);
        }
        if self.id >= scope.nodes.len() {
            return Err(EvalError::Foreign);
        }
        assert(scope@.nodes[self.id as int] == scope.nodes@[self.id as int].state());
        match scope.nodes[self.id].kind {
            NodeKind::Computed => {},
            _ => {
                return Err(EvalError::Foreign);
            },
        }
        if position(&scope.stack, self.id).is_some() {
            return Err(EvalError::CycleDetected);
        }
        if !scope.nodes[self.id].dirty {
            if let Some(v) = scope.nodes[self.id].value {
                scope.observe(self.id);
                return Ok(Poll::Ready(v));
            }
        }
        scope.enter(self.id);
        Ok(Poll::Evaluate)
    }

    /// Ends the evaluation of this value with the result `value`.
    pub fn complete<T: Copy>(&self, scope: &mut Scope<T>, value: T) -> (r: Result<(), EvalError>)
        requires
            old(scope)@.wf(),
        ensures
            final(scope)@.wf(),
            match old(scope)@.finish_fault(self.id, NodeKind::Computed) {
                Some(e) => r == Err::<(), EvalError>(e) && final(scope)@ == old(scope)@,
                None => r == Ok::<(), EvalError>(()) && final(scope)@ == old(scope)@.completed(
                    self.id,
                    value,
                ),
            },
    {
        if scope.disposed {
            return Err(EvalError::ScopeDisposed);
        }
        if self.id >= scope.nodes.len() {
            return Err(EvalError::Foreign);
        }
        assert(scope@.nodes[self.id as int] == scope.nodes@[self.id as int].state());
        match scope.nodes[self.id].kind {
            NodeKind::Computed => {},
            _ => {
                return Err(EvalError::Foreign);
            },
        }
        let n = scope.stack.len();
        if n == 0 || scope.stack[n - 1] != self.id {
            return Err(EvalError::NotRunning);
        }
        let ghost pre = scope@;
        scope.nodes[self.id].value = Some(value);
        scope.stack.pop();
        proof {
            let mid = scope@;
            assert(mid.stack =~= pre.stack.drop_last());
            assert(mid.nodes =~= pre.nodes.update(
                self.id as int,
                NodeState { value: Some(value), ..pre.nodes[self.id as int] },
            ));
            assert forall|k: int| 0 <= k < mid.stack.len() implies #[trigger] mid.stack[k]
                < mid.nodes.len() by {
                assert(mid.stack[k] == pre.stack[k]);
            }
            lemma_frame_wf(pre, mid);
        }
        scope.observe(self.id);
        Ok(())
    }

    /// Gives up the evaluation of this value: it stays stale.
    pub fn abandon<T: Copy>(&self, scope: &mut Scope<T>) -> (r: Result<(), EvalError>)
        requires
            old(scope)@.wf(),
        ensures
            final(scope)@.wf(),
            match old(scope)@.finish_fault(self.id, NodeKind::Computed) {
                Some(e) => r == Err::<(), EvalError>(e) && final(scope)@ == old(scope)@,
                None => r == Ok::<(), EvalError>(()) && final(scope)@ == old(scope)@.abandoned(
                    self.id,
                ),
            },
    {
        if scope.disposed {
            return Err(EvalError::ScopeDisposed);
        }
        if self.id >= scope.nodes.len() {
            return Err(EvalError::Foreign);
        }
        assert(scope@.nodes[self.id as int] == scope.nodes@[self.id as int].state());
        match scope.nodes[self.id].kind {
            NodeKind::Computed => {},
            _ => {
                return Err(EvalError::Foreign);
            },
        }
        let n = scope.stack.len();
        if n == 0 || scope.stack[n - 1] != self.id {
            return Err(EvalError::NotRunning);
        }
        let ghost pre = scope@;
        scope.nodes[self.id].dirty = true;
        scope.stack.pop();
        proof {
            let post = scope@;
            assert(post.stack =~= pre.stack.drop_last());
            assert(post.nodes =~= pre.abandoned(self.id).nodes);
            assert forall|k: int| 0 <= k < post.stack.len() implies #[trigger] post.stack[k]
                < post.nodes.len() by {
                assert(post.stack[k] == pre.stack[k]);
            }
            lemma_frame_wf(pre, post);
        }
        Ok(())
    }
}

impl Computed {
    /// Reads `signal` on behalf of this value's derivation, which must be the
    /// innermost running evaluation. If the signal cannot be read, the
    /// evaluation is given up and the failure is reported as its own: a
    /// poisoned signal as `Poisoned`.
    pub fn read_signal<T: Copy>(&self, scope: &mut Scope<T>, signal: Signal) -> (r: Result<
        T,
        EvalError,
    >)
        requires
            old(scope)@.wf(),
        ensures
            final(scope)@.wf(),
            match old(scope)@.finish_fault(self.id, NodeKind::Computed) {
                Some(e) => r == Err::<T, EvalError>(e) && final(scope)@ == old(scope)@,
                None => match old(scope)@.signal_fault(signal.id) {
                    Some(e) => r == Err::<T, EvalError>(EvalError::from_signal_spec(e))
                        && final(scope)@ == old(scope)@.abandoned(self.id),
                    None => r == Ok::<T, EvalError>(old(scope)@.signal_value(signal.id))
                        && final(scope)@ == old(scope)@.observed(signal.id),
                },
            },
    {
        if scope.disposed {
            return Err(EvalError::ScopeDisposed);
        }
        if self.id >= scope.nodes.len() {
            return Err(EvalError::Foreign);
        }
        assert(scope@.nodes[self.id as int] == scope.nodes@[self.id as int].state());
        match scope.nodes[self.id].kind {
            NodeKind::Computed => {},
            _ => {
                return Err(EvalError::Foreign);
            },
        }
        let n = scope.stack.len();
        if n == 0 || scope.stack[n - 1] != self.id {
            return Err(EvalError::NotRunning);
        }
        match signal.get(scope) {
            Ok(v) => Ok(v),
            Err(e) => {
                let gave_up = self.abandon(scope);
                Err(EvalError::from_signal(e))
            },
        }
    }

    /// Reads this value as what `f` makes of the signal `source`. A current
    /// cache is handed out as it is and `f` does not run. A stale value is
    /// evaluated: the signal is read under tracking, `f` runs once on its
    /// value, and the result is cached and handed out.
    pub fn get_from_signal<T: Copy, F: FnOnce(T) -> T>(
        &self,
        scope: &mut Scope<T>,
        source: Signal,
        f: F,
    ) -> (r: Result<T, EvalError>)
        requires
            old(scope)@.wf(),
            old(scope)@.signal_fault(source.id).is_none() ==> f.requires(
                (old(scope)@.signal_value(source.id),),
            ),
        ensures
            final(scope)@.wf(),
            match old(scope)@.polled(self.id) {
                Err(e) => r == Err::<T, EvalError>(e) && final(scope)@ == old(scope)@,
                Ok(Poll::Ready(v)) => r == Ok::<T, EvalError>(v) && final(scope)@ == old(scope)@.observed(self.id),
                Ok(Poll::Evaluate) => match old(scope)@.signal_fault(source.id) {
                    Some(e) => r == Err::<T, EvalError>(EvalError::from_signal_spec(e))
                        && final(scope)@ == old(scope)@.entered(self.id).abandoned(self.id),
                    None => r.is_ok() && f.ensures(
                        (old(scope)@.signal_value(source.id),),
                        r.unwrap(),
                    ) && final(scope)@ == old(scope)@.entered(self.id).observed(
                        source.id,
                    ).completed(self.id, r.unwrap()),
                },
            },
    {
        let ghost pre = scope@;
        match self.get(scope) {
            Err(e) => Err(e),
            Ok(Poll::Ready(v)) => Ok(v),
            Ok(Poll::Evaluate) => {
                let ghost s1 = scope@;
                proof {
                    assert(s1 == pre.entered(self.id));
                    assert(s1.stack.last() == self.id);
                    assert(s1.finish_fault(self.id, NodeKind::Computed).is_none());
                    assert(s1.signal_fault(source.id) == pre.signal_fault(source.id));
                    if pre.signal_fault(source.id).is_none() {
                        assert(s1.signal_value(source.id) == pre.signal_value(source.id));
                    }
                }
                match self.read_signal(scope, source) {
                    Err(e) => Err(e),
                    Ok(x) => {
                        let v = f(x);
                        let done = self.complete(scope, v);
                        proof {
                            let s2 = s1.observed(source.id);
                            assert(s2.stack.last() == self.id);
                            assert(s2.finish_fault(self.id, NodeKind::Computed).is_none());
                        }
                        Ok(v)
                    },
                }
            },
        }
    }

    /// Reads this value as what `g` makes of the derived value `inner`, which
    /// in turn is what `f` makes of the signal `source`. Whatever is current
    /// is handed out from its cache; whatever is stale is evaluated, inside
    /// out, each derivation running at most once.
    pub fn get_through<T: Copy, F: FnOnce(T) -> T, G: FnOnce(T) -> T>(
        &self,
        scope: &mut Scope<T>,
        inner: Computed,
        source: Signal,
        f: F,
        g: G,
    ) -> (r: Result<T, EvalError>)
        requires
            old(scope)@.wf(),
            old(scope)@.signal_fault(source.id).is_none() ==> f.requires(
                (old(scope)@.signal_value(source.id),),
            ),
            forall|va: T|
                (inner.id < old(scope)@.nodes.len() && old(scope)@.nodes[inner.id as int].value
                    == Some(va)) || f.ensures((old(scope)@.signal_value(source.id),), va)
                    ==> g.requires((va,)),
        ensures
            final(scope)@.wf(),
            match old(scope)@.polled(self.id) {
                Err(e) => r == Err::<T, EvalError>(e) && final(scope)@ == old(scope)@,
                Ok(Poll::Ready(v)) => r == Ok::<T, EvalError>(v) && final(scope)@ == old(scope)@.observed(self.id),
                Ok(Poll::Evaluate) => {
                    let s1 = old(scope)@.entered(self.id);
                    match s1.polled(inner.id) {
                        Err(e) => r == Err::<T, EvalError>(e) && final(scope)@ == s1.abandoned(
                            self.id,
                        ),
                        Ok(Poll::Ready(va)) => r.is_ok() && g.ensures((va,), r.unwrap())
                            && final(scope)@ == s1.observed(inner.id).completed(
                            self.id,
                            r.unwrap(),
                        ),
                        Ok(Poll::Evaluate) => match s1.signal_fault(source.id) {
                            Some(e) => r == Err::<T, EvalError>(EvalError::from_signal_spec(e))
                                && final(scope)@ == s1.entered(inner.id).abandoned(
                                inner.id,
                            ).abandoned(self.id),
                            None => r.is_ok() && exists|va: T|
                                {
                                    &&& f.ensures((s1.signal_value(source.id),), va)
                                    &&& g.ensures((va,), r.unwrap())
                                    &&& final(scope)@ == s1.entered(inner.id).observed(
                                        source.id,
                                    ).completed(inner.id, va).completed(self.id, r.unwrap())
                                },
                        },
                    }
                },
            },
    {
        let ghost pre = scope@;
        match self.get(scope) {
            Err(e) => Err(e),
            Ok(Poll::Ready(v)) => Ok(v),
            Ok(Poll::Evaluate) => {
                let ghost s1 = scope@;
                proof {
                    assert(s1 == pre.entered(self.id));
                    assert(s1.stack.last() == self.id);
                    assert(s1.signal_fault(source.id) == pre.signal_fault(source.id));
                    if pre.signal_fault(source.id).is_none() {
                        assert(s1.signal_value(source.id) == pre.signal_value(source.id));
                    }
                    if s1.polled(inner.id) matches Ok(Poll::Ready(va)) {
                        assert(inner.id != self.id);
                        assert(s1.nodes[inner.id as int].value == pre.nodes[inner.id as int].value);
                    }
                }
                match inner.get_from_signal(scope, source, f) {
                    Err(e) => {
                        proof {
                            let s2 = scope@;
                            assert(s2.stack.last() == self.id) by {
                                if s1.polled(inner.id).is_ok() {
                                    let t = s1.entered(inner.id);
                                    assert(t.stack.drop_last() =~= s1.stack);
                                }
                            }
                            assert(s2.finish_fault(self.id, NodeKind::Computed).is_none());
                        }
                        let gave_up = self.abandon(scope);
                        Err(e)
                    },
                    Ok(va) => {
                        let ghost s2 = scope@;
                        let vb = g(va);
                        proof {
                            if !(s1.polled(inner.id) matches Ok(Poll::Ready(_))) {
                                let t = s1.entered(inner.id).observed(source.id);
                                assert(t.stack == s1.stack.push(inner.id));
                                assert(t.stack.drop_last() =~= s1.stack);
                            }
                            assert(s2.stack == s1.stack);
                            assert(s2.stack.last() == self.id);
                            assert(s2.is(self.id, NodeKind::Computed));
                            assert(s2.finish_fault(self.id, NodeKind::Computed).is_none());
                        }
                        let done = self.complete(scope, vb);
                        Ok(vb)
                    },
                }
            },
        }
    }
}

impl Effect {
    /// Ends the run of this effect.
    pub fn finish<T: Copy>(&self, scope: &mut Scope<T>) -> (r: Result<(), EvalError>)
        requires
            old(scope)@.wf(),
        ensures
            final(scope)@.wf(),
            match old(scope)@.finish_fault(self.id, NodeKind::Effect) {
                Some(e) => r == Err::<(), EvalError>(e) && final(scope)@ == old(scope)@,
                None => r == Ok::<(), EvalError>(()) && final(scope)@ == old(scope)@.left(),
            },
    {
        if scope.disposed {
            return Err(EvalError::ScopeDisposed);
        }
        if self.id >= scope.nodes.len() {
            return Err(EvalError::Foreign);
        }
        assert(scope@.nodes[self.id as int] == scope.nodes@[self.id as int].state());
        match scope.nodes[self.id].kind {
            NodeKind::Effect => {},
            NodeKind::Retired => {},
            _ => {
                return Err(EvalError::Foreign);
            },
        }
        let n = scope.stack.len();
        if n == 0 || scope.stack[n - 1] != self.id {
            return Err(EvalError::NotRunning);
        }
        let ghost pre = scope@;
        scope.stack.pop();
        proof {
            let post = scope@;
            assert(post.stack =~= pre.stack.drop_last());
            assert(post.nodes =~= pre.nodes);
            assert forall|k: int| 0 <= k < post.stack.len() implies #[trigger] post.stack[k]
                < post.nodes.len() by {
                assert(post.stack[k] == pre.stack[k]);
            }
            lemma_frame_wf(pre, post);
        }
        Ok(())
    }

    /// Disposes this effect: it leaves every subscriber list and the queue,
    /// and never runs again. Disposing it once more changes nothing.
    pub fn dispose<T: Copy>(&self, scope: &mut Scope<T>) -> (r: Result<(), EvalError>)
        requires
            old(scope)@.wf(),
        ensures
            final(scope)@.wf(),
            old(scope)@.disposed ==> r == Err::<(), EvalError>(EvalError::ScopeDisposed)
                && final(scope)@ == old(scope)@,
            !old(scope)@.disposed && old(scope)@.is(self.id, NodeKind::Effect) ==> r == Ok::<
                (),
                EvalError,
            >(()) && final(scope)@ == old(scope)@.retired(self.id),
            !old(scope)@.disposed && old(scope)@.is(self.id, NodeKind::Retired) ==> r == Ok::<
                (),
                EvalError,
            >(()) && final(scope)@ == old(scope)@,
            !old(scope)@.disposed && !old(scope)@.is(self.id, NodeKind::Effect) && !old(scope)@.is(self.id, NodeKind::Retired) ==> r == Err::<(), EvalError>(EvalError::Foreign)
                && final(scope)@ == old(scope)@,
    {
        if scope.disposed {
            return Err(EvalError::ScopeDisposed);
        }
        if self.id >= scope.nodes.len() {
            return Err(EvalError::Foreign);
        }
        assert(scope@.nodes[self.id as int] == scope.nodes@[self.id as int].state());
        match scope.nodes[self.id].kind {
            NodeKind::Effect => {},
            NodeKind::Retired => {
                return Ok(());
            },
            _ => {
                return Err(EvalError::Foreign);
            },
        }
        let ghost pre = scope@;
        scope.detach(self.id);
        assert(scope@.nodes.len() == scope.nodes@.len());
        discard(&mut scope.pending, self.id);
        scope.nodes[self.id].kind = NodeKind::Retired;
        scope.nodes[self.id].dirty = false;
        proof {
            assert(scope@.nodes =~= pre.retired(self.id).nodes);
            lemma_retired_wf(pre, self.id);
        }
        Ok(())
    }
}

impl Signal {
    /// The signal's value, read from outside the graph: nothing is tracked.
    pub fn peek<T: Copy>(&self, scope: &Scope<T>) -> (r: Result<T, SignalError>)
        requires
            scope@.wf(),
        ensures
            match scope@.signal_fault(self.id) {
                Some(e) => r == Err::<T, SignalError>(e),
                None => r == Ok::<T, SignalError>(scope@.nodes[self.id as int].value.unwrap()),
            },
    {
        if scope.disposed {
            return Err(SignalError::ScopeDisposed);
        }
        if self.id >= scope.nodes.len() {
            return Err(SignalError::Foreign);
        }
        assert(scope@.nodes[self.id as int] == scope.nodes@[self.id as int].state());
        match scope.nodes[self.id].kind {
            NodeKind::Signal => {},
            _ => {
                return Err(SignalError::Foreign);
            },
        }
        if scope.nodes[self.id].poisoned {
            return Err(SignalError::Lock);
        }
        match scope.nodes[self.id].value {
            Some(v) => Ok(v),
            None => {
                proof {
                    assert(false);
                }
                Err(SignalError::Foreign)
            },
        }
    }

    /// Replaces the signal's value. Everything that depends on the signal is
    /// marked stale, and the effects among them wait to run again, each once.
    /// This happens whether or not the new value differs from the old one.
    pub fn set<T: Copy>(&self, scope: &mut Scope<T>, value: T) -> (r: Result<(), SignalError>)
        requires
            old(scope)@.wf(),
        ensures
            final(scope)@.wf(),
            match old(scope)@.signal_fault(self.id) {
                Some(e) => r == Err::<(), SignalError>(e) && final(scope)@ == old(scope)@,
                None => r == Ok::<(), SignalError>(()) && old(scope)@.written(
                    self.id,
                    value,
                    final(scope)@,
                ),
            },
    {
        if scope.disposed {
            return Err(SignalError::ScopeDisposed);
        }
        if self.id >= scope.nodes.len() {
            return Err(SignalError::Foreign);
        }
        assert(scope@.nodes[self.id as int] == scope.nodes@[self.id as int].state());
        match scope.nodes[self.id].kind {
            NodeKind::Signal => {},
            _ => {
                return Err(SignalError::Foreign);
            },
        }
        if scope.nodes[self.id].poisoned {
            return Err(SignalError::Lock);
        }
        scope.write(self.id, value);
        Ok(())
    }

    /// Replaces the signal's value by what `f` makes of it, in one step, and
    /// hands out the new value. The read is not tracked.
    pub fn update<T: Copy, F: FnOnce(T) -> T>(&self, scope: &mut Scope<T>, f: F) -> (r: Result<
        T,
        SignalError,
    >)
        requires
            old(scope)@.wf(),
            old(scope)@.signal_fault(self.id).is_none() ==> f.requires(
                (old(scope)@.nodes[self.id as int].value.unwrap(),),
            ),
        ensures
            final(scope)@.wf(),
            match old(scope)@.signal_fault(self.id) {
                Some(e) => r == Err::<T, SignalError>(e) && final(scope)@ == old(scope)@,
                None => r.is_ok() && f.ensures(
                    (old(scope)@.nodes[self.id as int].value.unwrap(),),
                    r.unwrap(),
                ) && old(scope)@.written(self.id, r.unwrap(), final(scope)@),
            },
    {
        if scope.disposed {
            return Err(SignalError::ScopeDisposed);
        }
        if self.id >= scope.nodes.len() {
            return Err(SignalError::Foreign);
        }
        assert(scope@.nodes[self.id as int] == scope.nodes@[self.id as int].state());
        match scope.nodes[self.id].kind {
            NodeKind::Signal => {},
            _ => {
                return Err(SignalError::Foreign);
            },
        }
        if scope.nodes[self.id].poisoned {
            return Err(SignalError::Lock);
        }
        let current = match scope.nodes[self.id].value {
            Some(v) => v,
            None => {
                proof {
                    assert(false);
                }
                return Err(SignalError::Foreign);
            },
        };
        let next = f(current);
        scope.write(self.id, next);
        Ok(next)
    }

    /// Records that a writer failed while it held this signal. From then on
    /// every read and write of the signal fails. Only a scope in shared mode
    /// has writers that can fail so.
    pub fn poison<T: Copy>(&self, scope: &mut Scope<T>) -> (r: Result<(), SignalError>)
        requires
            old(scope)@.wf(),
        ensures
            final(scope)@.wf(),
            match old(scope)@.poison_fault(self.id) {
                Some(e) => r == Err::<(), SignalError>(e) && final(scope)@ == old(scope)@,
                None => r == Ok::<(), SignalError>(()) && final(scope)@ == old(scope)@.poisoned(
                    self.id,
                ),
            },
    {
        if scope.disposed {
            return Err(SignalError::ScopeDisposed);
        }
        if self.id >= scope.nodes.len() {
            return Err(SignalError::Foreign);
        }
        assert(scope@.nodes[self.id as int] == scope.nodes@[self.id as int].state());
        match scope.nodes[self.id].kind {
            NodeKind::Signal => {},
            _ => {
                return Err(SignalError::Foreign);
            },
        }
        if !scope.shared {
            return Err(SignalError::NotShared);
        }
        let ghost pre = scope@;
        scope.nodes[self.id].poisoned = true;
        proof {
            let post = scope@;
            assert(post.nodes =~= pre.poisoned(self.id).nodes);
            assert forall|k: int| 0 <= k < post.stack.len() implies #[trigger] post.stack[k]
                < post.nodes.len() by {
                assert(post.stack[k] == pre.stack[k]);
            }
            lemma_frame_wf(pre, post);
        }
        Ok(())
    }

    /// The signal's value. If an evaluation is running, it now depends on the
    /// signal.
    pub fn get<T: Copy>(&self, scope: &mut Scope<T>) -> (r: Result<T, SignalError>)
        requires
            old(scope)@.wf(),
        ensures
            final(scope)@.wf(),
            match old(scope)@.signal_fault(self.id) {
                Some(e) => r == Err::<T, SignalError>(e) && final(scope)@ == old(scope)@,
                None => r == Ok::<T, SignalError>(old(scope)@.nodes[self.id as int].value.unwrap())
                    && final(scope)@ == old(scope)@.observed(self.id),
            },
    {
        if scope.disposed {
            return Err(SignalError::ScopeDisposed);
        }
        if self.id >= scope.nodes.len() {
            return Err(SignalError::Foreign);
        }
        assert(scope@.nodes[self.id as int] == scope.nodes@[self.id as int].state());
        match scope.nodes[self.id].kind {
            NodeKind::Signal => {},
            _ => {
                return Err(SignalError::Foreign);
            },
        }
        if scope.nodes[self.id].poisoned {
            return Err(SignalError::Lock);
        }
        let v = match scope.nodes[self.id].value {
            Some(v) => v,
            None => {
                proof {
                    assert(false);
                }
                return Err(SignalError::Foreign);
            },
        };
        scope.observe(self.id);
        Ok(v)
    }
}

} // verus!
