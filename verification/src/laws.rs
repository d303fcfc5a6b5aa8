//! What holds of the engine whatever the host does with it, stated over the
//! mathematical state of a scope.
use vstd::prelude::*;
use crate::error::{EvalError, SignalError};
use crate::model::{
    lemma_detached, lemma_dropped, lemma_push_keeps, lemma_reach_self, lemma_reach_step, NodeKind,
    Poll, ScopeState,
};

verus! {

/// Memoization. A derived value that is current answers a read with its cache
/// and asks for no evaluation, however often it is read; reading it, or
/// anything else, leaves it current with the same cache.
pub proof fn law_memoized<T>(s: ScopeState<T>, c: usize, other: usize)
    requires
        s.wf(),
        !s.disposed,
        s.fresh(c),
        !s.stack.contains(c),
    ensures
        s.polled(c) == Ok::<Poll<T>, EvalError>(Poll::Ready(s.nodes[c as int].value.unwrap())),
        s.after_poll(c).fresh(c),
        s.after_poll(c).polled(c) == s.polled(c),
        s.observed(other).fresh(c),
        s.observed(other).polled(c) == s.polled(c),
{
}

/// Memoization. Once its evaluation has ended with a value, and nothing it
/// read was written meanwhile, a derived value is current: the next read
/// answers with that value and asks for no evaluation.
pub proof fn law_completed_is_current<T>(s: ScopeState<T>, c: usize, v: T)
    requires
        s.wf(),
        s.finish_fault(c, NodeKind::Computed).is_none(),
        !s.nodes[c as int].dirty,
        !s.stack.drop_last().contains(c),
    ensures
        s.completed(c, v).fresh(c),
        s.completed(c, v).polled(c) == Ok::<Poll<T>, EvalError>(Poll::Ready(v)),
{
}

/// Memoization. Writing a signal leaves current every derived value that does
/// not depend on it, with its cache.
pub proof fn law_write_spares_independent<T>(
    s: ScopeState<T>,
    post: ScopeState<T>,
    signal: usize,
    v: T,
    c: usize,
)
    requires
        s.wf(),
        s.is(signal, NodeKind::Signal),
        s.written(signal, v, post),
        s.fresh(c),
        !s.reaches(signal, c),
    ensures
        post.fresh(c),
        post.nodes[c as int].value == s.nodes[c as int].value,
{
    assert(post.nodes[c as int].dirty == (s.nodes[c as int].dirty || (c != signal && s.reaches(
        signal,
        c,
    ))));
}

/// Propagation. After a signal is written, the signal holds the new value and
/// every derived value that depends on it, directly or through other derived
/// values, is stale: its next read asks for an evaluation.
pub proof fn law_write_reaches_dependents<T>(
    s: ScopeState<T>,
    post: ScopeState<T>,
    signal: usize,
    v: T,
    c: usize,
)
    requires
        s.wf(),
        !s.disposed,
        s.is(signal, NodeKind::Signal),
        s.written(signal, v, post),
        s.is(c, NodeKind::Computed),
        s.reaches(signal, c),
    ensures
        post.nodes[signal as int].value == Some(v),
        !post.fresh(c),
        !post.stack.contains(c) ==> post.polled(c) == Ok::<Poll<T>, EvalError>(Poll::Evaluate),
{
    assert(post.nodes[c as int].dirty == (s.nodes[c as int].dirty || (c != signal && s.reaches(
        signal,
        c,
    ))));
    assert(post.nodes[signal as int].value == Some(v));
}

/// Propagation along a chain. A derived value `a` reads the signal, a derived
/// value `b` reads `a`. After the signal is written both are stale.
pub proof fn law_chain_goes_stale<T>(
    s: ScopeState<T>,
    post: ScopeState<T>,
    signal: usize,
    a: usize,
    b: usize,
    v: T,
)
    requires
        s.wf(),
        !s.disposed,
        s.is(signal, NodeKind::Signal),
        s.is(a, NodeKind::Computed),
        s.is(b, NodeKind::Computed),
        s.nodes[signal as int].subs.contains(a),
        s.nodes[a as int].subs.contains(b),
        s.written(signal, v, post),
    ensures
        post.nodes[signal as int].value == Some(v),
        !post.fresh(a),
        !post.fresh(b),
{
    lemma_reach_self(s, signal);
    lemma_reach_step(s, signal, signal, a);
    lemma_reach_step(s, signal, a, b);
    law_write_reaches_dependents(s, post, signal, v, a);
    law_write_reaches_dependents(s, post, signal, v, b);
}

/// Propagation along a chain, step by step. With both derived values stale and
/// nothing running, reading `b` begins its evaluation; reading `a` from there
/// begins that of `a`; `a` reads the signal, is handed the signal's current
/// value, and ends with `fa`; `b` is handed `fa` and ends with `gb`. So `b`
/// holds what its derivation makes of what `a`'s derivation makes of the
/// signal's value. From then on both answer with their caches, so that
/// neither derivation runs again, and the edges of the chain are in place.
pub proof fn law_chain_recomputes_once<T>(
    s: ScopeState<T>,
    signal: usize,
    a: usize,
    b: usize,
    fa: T,
    gb: T,
)
    requires
        s.wf(),
        !s.disposed,
        s.stack.len() == 0,
        s.is(signal, NodeKind::Signal),
        s.is(a, NodeKind::Computed),
        s.is(b, NodeKind::Computed),
        a != b,
        !s.fresh(a),
        !s.fresh(b),
    ensures
        s.polled(b) == Ok::<Poll<T>, EvalError>(Poll::Evaluate),
        s.after_poll(b).polled(a) == Ok::<Poll<T>, EvalError>(Poll::Evaluate),
        ({
            let reading = s.after_poll(b).after_poll(a).observed(signal);
            let done = reading.completed(a, fa).completed(b, gb);
            &&& reading.signal_fault(signal).is_none() == s.signal_fault(signal).is_none()
            &&& reading.nodes[signal as int].value == s.nodes[signal as int].value
            &&& reading.finish_fault(a, NodeKind::Computed).is_none()
            &&& reading.completed(a, fa).nodes[a as int].value == Some(fa)
            &&& reading.completed(a, fa).finish_fault(b, NodeKind::Computed).is_none()
            &&& done.stack.len() == 0
            &&& done.polled(a) == Ok::<Poll<T>, EvalError>(Poll::Ready(fa))
            &&& done.polled(b) == Ok::<Poll<T>, EvalError>(Poll::Ready(gb))
            &&& done.nodes[signal as int].subs.contains(a)
            &&& done.nodes[a as int].subs.contains(b)
        }),
{
    let s1 = s.after_poll(b);
    assert(s1 == s.entered(b));
    assert(s1.stack =~= seq![b]);
    assert(!s1.stack.contains(a));
    assert(!s1.fresh(a));
    let s2 = s1.after_poll(a);
    assert(s2 == s1.entered(a));
    assert(s2.stack =~= seq![b, a]);
    let s3 = s2.observed(signal);
    assert(s3.stack == s2.stack);
    assert(s3.stack.last() == a);
    lemma_push_keeps(s2.nodes[signal as int].subs, a);
    assert(s3.nodes[signal as int].subs.contains(a));
    let s4 = s3.completed(a, fa);
    assert(s3.stack.drop_last() =~= seq![b]);
    assert(s4.stack =~= seq![b]);
    assert(s4.stack.last() == b);
    lemma_push_keeps(s3.nodes[a as int].subs, b);
    assert(s4.nodes[a as int].subs.contains(b));
    assert(s4.nodes[signal as int].subs.contains(a));
    let s5 = s4.completed(b, gb);
    assert(s4.stack.drop_last() =~= Seq::<usize>::empty());
    assert(s5.stack =~= Seq::<usize>::empty());
    assert(!s5.stack.contains(a));
    assert(!s5.stack.contains(b));
}

/// Dynamic dependencies. When an evaluation begins, its node is a subscriber
/// of nothing: what it depends on afterwards is what it reads during this run.
pub proof fn law_evaluation_forgets_dependencies<T>(s: ScopeState<T>, id: usize, target: usize)
    requires
        s.wf(),
        s.listener(id),
        target < s.nodes.len(),
    ensures
        !s.entered(id).nodes[target as int].subs.contains(id),
        s.entered(id).stack.last() == id,
        s.entered(id).tracking(),
{
    lemma_detached(s, id);
    assert(s.entered(id).nodes[target as int].subs == s.detached(id)[target as int].subs);
}

/// Dynamic dependencies. A read during an evaluation makes the running node
/// a subscriber of what it read, once, behind those that subscribed before.
pub proof fn law_read_subscribes<T>(s: ScopeState<T>, target: usize)
    requires
        s.wf(),
        s.tracking(),
        target < s.nodes.len(),
    ensures
        s.observed(target).nodes[target as int].subs.contains(s.stack.last()),
        !s.nodes[target as int].subs.contains(s.stack.last()) ==> s.observed(target).nodes[target as int].subs == s.nodes[target as int].subs.push(s.stack.last()),
        s.nodes[target as int].subs.contains(s.stack.last()) ==> s.observed(target) == s,
{
    lemma_push_keeps(s.nodes[target as int].subs, s.stack.last());
    if s.nodes[target as int].subs.contains(s.stack.last()) {
        assert(s.observed(target).nodes =~= s.nodes);
    }
}

/// A read outside of any evaluation changes nothing.
pub proof fn law_untracked_read_changes_nothing<T>(s: ScopeState<T>, target: usize)
    requires
        s.stack.len() == 0,
    ensures
        s.observed(target) == s,
{
}

/// First in, first out. Of two effects that subscribe to the written signal
/// itself and were not waiting, the one that subscribed earlier stands
/// earlier in the queue.
pub proof fn law_subscribers_queue_in_order<T>(
    s: ScopeState<T>,
    post: ScopeState<T>,
    signal: usize,
    v: T,
    i: int,
    j: int,
)
    requires
        s.wf(),
        s.is(signal, NodeKind::Signal),
        s.written(signal, v, post),
        0 <= i < j < s.nodes[signal as int].subs.len(),
        s.is(s.nodes[signal as int].subs[i], NodeKind::Effect),
        s.is(s.nodes[signal as int].subs[j], NodeKind::Effect),
        !s.pending.contains(s.nodes[signal as int].subs[i]),
        !s.pending.contains(s.nodes[signal as int].subs[j]),
    ensures
        post.pending.contains(s.nodes[signal as int].subs[i]),
        post.pending.contains(s.nodes[signal as int].subs[j]),
        post.pending.index_of(s.nodes[signal as int].subs[i]) < post.pending.index_of(
            s.nodes[signal as int].subs[j],
        ),
{
    let subs = s.nodes[signal as int].subs;
    let e1 = subs[i];
    let e2 = subs[j];
    lemma_reach_self(s, signal);
    assert(subs.contains(e1));
    assert(subs.contains(e2));
    lemma_reach_step(s, signal, signal, e1);
    lemma_reach_step(s, signal, signal, e2);
    assert(post.pending.contains(e1));
    assert(post.pending.contains(e2));
    let a = post.pending.index_of(e1);
    let b = post.pending.index_of(e2);
    assert(post.pending[a] == e1 && post.pending[b] == e2);
    if a < s.pending.len() {
        assert(post.pending.subrange(0, s.pending.len() as int)[a] == post.pending[a]);
        assert(s.pending[a] == e1);
    }
    if b < s.pending.len() {
        assert(post.pending.subrange(0, s.pending.len() as int)[b] == post.pending[b]);
        assert(s.pending[b] == e2);
    }
    assert(post.pending[a] == subs[i] && post.pending[b] == subs[j]);
}

/// Of two effects that join the queue with one write, the one that subscribes
/// to the written signal itself stands before the one that depends on it only
/// through derived values.
pub proof fn law_direct_subscribers_queue_first<T>(
    s: ScopeState<T>,
    post: ScopeState<T>,
    signal: usize,
    v: T,
    direct: usize,
    indirect: usize,
)
    requires
        s.wf(),
        s.is(signal, NodeKind::Signal),
        s.written(signal, v, post),
        s.is(direct, NodeKind::Effect),
        s.is(indirect, NodeKind::Effect),
        s.nodes[signal as int].subs.contains(direct),
        !s.nodes[signal as int].subs.contains(indirect),
        s.reaches(signal, indirect),
        !s.pending.contains(direct),
        !s.pending.contains(indirect),
    ensures
        post.pending.contains(direct),
        post.pending.contains(indirect),
        post.pending.index_of(direct) < post.pending.index_of(indirect),
{
    lemma_reach_self(s, signal);
    lemma_reach_step(s, signal, signal, direct);
    assert(post.pending.contains(direct));
    assert(post.pending.contains(indirect));
    let a = post.pending.index_of(direct);
    let b = post.pending.index_of(indirect);
    assert(post.pending[a] == direct && post.pending[b] == indirect);
    if a < s.pending.len() {
        assert(post.pending.subrange(0, s.pending.len() as int)[a] == post.pending[a]);
        assert(s.pending[a] == direct);
    }
    if b < s.pending.len() {
        assert(post.pending.subrange(0, s.pending.len() as int)[b] == post.pending[b]);
        assert(s.pending[b] == indirect);
    }
}

/// Exactly once per write. An effect that depends on the written signal, over
/// however many paths, waits in the queue after the write, and stands there
/// once.
pub proof fn law_effect_queued_once<T>(
    s: ScopeState<T>,
    post: ScopeState<T>,
    signal: usize,
    v: T,
    e: usize,
)
    requires
        s.wf(),
        s.is(signal, NodeKind::Signal),
        s.written(signal, v, post),
        s.is(e, NodeKind::Effect),
        s.reaches(signal, e),
    ensures
        post.pending.contains(e),
        forall|i: int, j: int|
            0 <= i < post.pending.len() && 0 <= j < post.pending.len() && post.pending[i] == e
                && post.pending[j] == e ==> i == j,
{
}

/// Exactly once per write, for the diamond: an effect reads two derived values
/// that both read the same signal. After one write of the signal the effect
/// stands in the queue once, not twice.
pub proof fn law_diamond_effect_queued_once<T>(
    s: ScopeState<T>,
    post: ScopeState<T>,
    signal: usize,
    v: T,
    a: usize,
    b: usize,
    e: usize,
)
    requires
        s.wf(),
        s.is(signal, NodeKind::Signal),
        s.is(e, NodeKind::Effect),
        s.nodes[signal as int].subs.contains(a),
        s.nodes[signal as int].subs.contains(b),
        a < s.nodes.len(),
        b < s.nodes.len(),
        s.nodes[a as int].subs.contains(e),
        s.nodes[b as int].subs.contains(e),
        s.written(signal, v, post),
    ensures
        post.pending.contains(e),
        forall|i: int, j: int|
            0 <= i < post.pending.len() && 0 <= j < post.pending.len() && post.pending[i] == e
                && post.pending[j] == e ==> i == j,
{
    lemma_reach_self(s, signal);
    lemma_reach_step(s, signal, signal, a);
    lemma_reach_step(s, signal, a, e);
    law_effect_queued_once(s, post, signal, v, e);
}

/// An effect that does not depend on the written signal and was not waiting
/// does not join the queue.
pub proof fn law_independent_effect_not_queued<T>(
    s: ScopeState<T>,
    post: ScopeState<T>,
    signal: usize,
    v: T,
    e: usize,
)
    requires
        s.wf(),
        s.written(signal, v, post),
        !s.reaches(signal, e),
        !s.pending.contains(e),
    ensures
        !post.pending.contains(e),
{
}

/// No stale reads. Right after a signal is written it holds the new value,
/// and it still does when the first waiting effect has begun to run: what the
/// effect reads from the signal is the new value.
pub proof fn law_no_stale_read<T>(s: ScopeState<T>, post: ScopeState<T>, signal: usize, v: T)
    requires
        s.wf(),
        post.wf(),
        s.signal_fault(signal).is_none(),
        s.written(signal, v, post),
    ensures
        post.signal_fault(signal).is_none(),
        post.nodes[signal as int].value == Some(v),
        post.observed(signal).nodes[signal as int].value == Some(v),
        post.pending.len() > 0 ==> post.resumed().signal_fault(signal).is_none()
            && post.resumed().nodes[signal as int].value == Some(v),
{
    assert(post.nodes[signal as int].value == Some(v));
    if post.pending.len() > 0 {
        assert(post.is(post.pending[0], NodeKind::Effect));
    }
}

/// Disposal. In a disposed scope every read, write, evaluation step and
/// disposal of an effect is refused for that reason, whatever the handle, and
/// no effect waits to run.
pub proof fn law_disposed_refuses_all<T>(s: ScopeState<T>, id: usize, kind: NodeKind)
    requires
        s.wf(),
        s.disposed,
    ensures
        s.signal_fault(id) == Some(SignalError::ScopeDisposed),
        s.poison_fault(id) == Some(SignalError::ScopeDisposed),
        s.poll_fault(id) == Some(EvalError::ScopeDisposed),
        s.polled(id) == Err::<Poll<T>, EvalError>(EvalError::ScopeDisposed),
        s.finish_fault(id, kind) == Some(EvalError::ScopeDisposed),
        s.pending.len() == 0,
        s.torn_down() == s,
{
    assert(s.nodes =~= Seq::empty());
    assert(s.stack =~= Seq::empty());
    assert(s.pending =~= Seq::empty());
}

/// Disposal. Disposing a scope leaves a well-formed, disposed scope, whatever
/// state it was in.
pub proof fn law_torn_down_is_disposed<T>(s: ScopeState<T>)
    ensures
        s.torn_down().wf(),
        s.torn_down().disposed,
        s.torn_down().pending.len() == 0,
{
}

/// Disposal of an effect. A disposed effect subscribes to nothing, does not
/// wait in the queue, and no later write brings it back.
pub proof fn law_retired_effect_never_queued<T>(
    s: ScopeState<T>,
    e: usize,
    post: ScopeState<T>,
    signal: usize,
    v: T,
)
    requires
        s.wf(),
        s.is(e, NodeKind::Effect),
        s.retired(e).written(signal, v, post),
    ensures
        !s.retired(e).pending.contains(e),
        !post.pending.contains(e),
{
    lemma_dropped(s.pending, e);
    assert(!s.retired(e).is(e, NodeKind::Effect));
}

/// Cycle detection. Reading a derived value while its own evaluation is
/// running, directly or from an evaluation nested in it, is refused and
/// changes nothing.
pub proof fn law_cycle_detected<T>(s: ScopeState<T>, c: usize)
    requires
        !s.disposed,
        s.is(c, NodeKind::Computed),
        s.stack.contains(c),
    ensures
        s.polled(c) == Err::<Poll<T>, EvalError>(EvalError::CycleDetected),
        s.after_poll(c) == s,
{
}

/// Cycle detection. A read that begins an evaluation puts the node among the
/// running evaluations, so that a read of the same node from inside its
/// derivation is refused.
pub proof fn law_self_read_is_a_cycle<T>(s: ScopeState<T>, c: usize)
    requires
        s.wf(),
        s.polled(c) == Ok::<Poll<T>, EvalError>(Poll::Evaluate),
    ensures
        s.after_poll(c).polled(c) == Err::<Poll<T>, EvalError>(EvalError::CycleDetected),
{
    let t = s.after_poll(c);
    assert(t == s.entered(c));
    assert(t.stack[s.stack.len() as int] == c);
    assert(t.stack.contains(c));
}

} // verus!
