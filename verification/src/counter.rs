//! Counters with derived state: the count, its square, and whether the square
//! is even.
use vstd::prelude::*;
use crate::error::EvalError;
use crate::model::{lemma_reach_self, lemma_reach_step, NodeKind, Poll, ScopeState};
use crate::scope::{Computed, Effect, Scope, Signal};

verus! {

/// The largest count whose square fits in an `i32`.
pub const MAX_COUNT: i32 = 46340;

/// Whether the square of `c` fits in an `i32`.
pub open spec fn fits(c: int) -> bool {
    -46340 <= c <= 46340
}

/// Whether `c` is a count whose square fits in an `i32`.
pub fn count_fits(c: i32) -> (b: bool)
    ensures
        b == fits(c as int),
{
    -MAX_COUNT <= c && c <= MAX_COUNT
}

pub proof fn lemma_square_fits(c: int)
    requires
        fits(c),
    ensures
        0 <= c * c <= 2147395600,
{
    assert(0 <= c * c <= 2147395600) by (nonlinear_arith)
        requires
            -46340 <= c <= 46340,
    ;
}

/// What a node of a reactive counter holds.
#[derive(Clone, Copy, PartialEq, Eq, Structural, Debug)]
pub enum CounterValue {
    Number(i32),
    Flag(bool),
}

/// What the watching effect saw on one of its runs.
#[derive(Clone, Copy, PartialEq, Eq, Structural, Debug)]
pub struct Observation {
    pub count: i32,
    pub square: i32,
    pub is_even: bool,
}

/// The observation that belongs to the count `c`.
pub open spec fn observation_of(c: int) -> Observation {
    Observation { count: c as i32, square: (c * c) as i32, is_even: (c * c) % 2 == 0 }
}

/// The mathematical state of a reactive counter.
pub struct CounterState {
    pub disposed: bool,
    pub count: int,
    /// Whether the cached square is current.
    pub square_current: bool,
    /// Whether the cached parity is current.
    pub even_current: bool,
    /// How often the square's derivation has run.
    pub square_runs: nat,
    /// How often the parity's derivation has run.
    pub even_runs: nat,
    /// Whether the watching effect exists.
    pub watched: bool,
    /// What the watching effect saw, one entry per run.
    pub log: Seq<Observation>,
}

/// A counter on the reactive engine: the count is a signal, its square and
/// the square's parity are derived values, and an effect can watch all three.
pub struct ReactiveCounter {
    scope: Scope<CounterValue>,
    count: Signal,
    square: Computed,
    is_even: Computed,
    watcher: Option<Effect>,
    square_runs: u64,
    even_runs: u64,
    log: Vec<Observation>,
}

impl CounterState {
    /// The state after the watching effect has run once.
    pub open spec fn after_run(self) -> Self {
        CounterState {
            square_current: true,
            even_current: true,
            square_runs: if self.square_current {
                self.square_runs
            } else {
                bump(self.square_runs)
            },
            even_runs: if self.even_current {
                self.even_runs
            } else {
                bump(self.even_runs)
            },
            log: self.log.push(observation_of(self.count)),
            ..self
        }
    }

    /// The state after the square was read: it is current, and its
    /// derivation has run if it was stale.
    pub open spec fn after_square_read(self) -> Self {
        CounterState {
            square_current: true,
            square_runs: if self.square_current {
                self.square_runs
            } else {
                bump(self.square_runs)
            },
            ..self
        }
    }

    /// The state after the parity was read: the parity and the square are
    /// current, and each derivation has run if its value was stale.
    pub open spec fn after_parity_read(self) -> Self {
        CounterState {
            square_current: true,
            even_current: true,
            square_runs: if self.square_current {
                self.square_runs
            } else {
                bump(self.square_runs)
            },
            even_runs: if self.even_current {
                self.even_runs
            } else {
                bump(self.even_runs)
            },
            ..self
        }
    }

    /// The state after a run of reads, oldest first: `true` stands for a read
    /// of the parity, `false` for a read of the square.
    pub open spec fn after_reads(self, reads: Seq<bool>) -> Self
        decreases reads.len(),
    {
        if reads.len() == 0 {
            self
        } else if reads.last() {
            self.after_reads(reads.drop_last()).after_parity_read()
        } else {
            self.after_reads(reads.drop_last()).after_square_read()
        }
    }

    /// The state after the count was given the value `v`: the derived values
    /// are stale, and the watching effect, if there is one, has run again.
    pub open spec fn after_write(self, v: int) -> Self {
        let stale = CounterState { count: v, square_current: false, even_current: false, ..self };
        if self.watched {
            stale.after_run()
        } else {
            stale
        }
    }
}

/// One more, as far as the counter of runs can count.
pub open spec fn bump(n: nat) -> nat {
    if n < u64::MAX {
        n + 1
    } else {
        n
    }
}

impl ReactiveCounter {
    spec fn number(self) -> int {
        match self.scope@.nodes[0].value {
            Some(CounterValue::Number(c)) => c as int,
            _ => 0,
        }
    }

    /// What holds of the graph whether or not an evaluation is running.
    spec fn settled(self) -> bool {
        let s = self.scope@;
        let c = self.number();
        &&& s.wf()
        &&& !s.disposed
        &&& s.pending.len() == 0
        &&& self.count.id == 0
        &&& self.square.id == 1
        &&& self.is_even.id == 2
        &&& s.nodes.len() == (if self.watcher.is_some() {
            4nat
        } else {
            3nat
        })
        &&& s.nodes[0].kind == NodeKind::Signal
        &&& s.nodes[1].kind == NodeKind::Computed
        &&& s.nodes[2].kind == NodeKind::Computed
        &&& !s.nodes[0].poisoned
        &&& s.nodes[0].value == Some(CounterValue::Number(c as i32))
        &&& fits(c)
        &&& s.fresh(1) && !s.stack.contains(1) ==> s.nodes[1].value == Some(
            CounterValue::Number((c * c) as i32),
        ) && s.nodes[0].subs.contains(1)
        &&& s.fresh(2) && !s.stack.contains(2) ==> s.fresh(1) && s.nodes[2].value == Some(
            CounterValue::Flag((c * c) % 2 == 0),
        ) && s.nodes[1].subs.contains(2)
        &&& match self.watcher {
            Some(w) => w.id == 3 && s.nodes[3].kind == NodeKind::Effect,
            None => true,
        }
    }

    /// The invariant of a counter.
    pub closed spec fn inv(self) -> bool {
        if self.scope@.disposed {
            self.scope@.wf()
        } else {
            &&& self.settled()
            &&& self.scope@.stack.len() == 0
            &&& self.watcher.is_some() ==> self.scope@.nodes[0].subs.contains(3)
        }
    }
}

impl View for ReactiveCounter {
    type V = CounterState;

    closed spec fn view(&self) -> CounterState {
        CounterState {
            disposed: self.scope@.disposed,
            count: if self.scope@.disposed {
                0
            } else {
                self.number()
            },
            square_current: self.scope@.fresh(1),
            even_current: self.scope@.fresh(2),
            square_runs: self.square_runs as nat,
            even_runs: self.even_runs as nat,
            watched: self.watcher.is_some(),
            log: self.log@,
        }
    }
}

impl ReactiveCounter {
    /// A counter that starts at `initial`. Nothing is derived yet.
    pub fn create(initial: i32) -> (c: Self)
        requires
            fits(initial as int),
        ensures
            c.inv(),
            c@ == (CounterState {
                disposed: false,
                count: initial as int,
                square_current: false,
                even_current: false,
                square_runs: 0,
                even_runs: 0,
                watched: false,
                log: Seq::empty(),
            }),
    {
        let mut scope: Scope<CounterValue> = Scope::new();
        let count = match scope.signal(CounterValue::Number(initial)) {
            Ok(s) => s,
            Err(_) => Signal { id: 0 },
        };
        let square = match scope.computed() {
            Ok(c) => c,
            Err(_) => Computed { id: 1 },
        };
        let is_even = match scope.computed() {
            Ok(c) => c,
            Err(_) => Computed { id: 2 },
        };
        let c = ReactiveCounter {
            scope,
            count,
            square,
            is_even,
            watcher: None,
            square_runs: 0,
            even_runs: 0,
            log: Vec::new(),
        };
        assert(c@.log =~= Seq::empty());
        c
    }

    /// The current square, through the cache: the derivation runs only when
    /// the cache is stale. The running evaluation, if any, now depends on it.
    fn read_square(&mut self) -> (v: i32)
        requires
            old(self).settled(),
            !old(self).scope@.stack.contains(1),
        ensures
            final(self).settled(),
            v == old(self).number() * old(self).number(),
            final(self).number() == old(self).number(),
            final(self).scope@.stack == old(self).scope@.stack,
            final(self).scope@.fresh(1),
            final(self).scope@.tracking() ==> final(self).scope@.nodes[1].subs.contains(
                final(self).scope@.stack.last(),
            ),
            final(self).scope@.nodes[2].dirty == old(self).scope@.nodes[2].dirty,
            final(self).scope@.nodes[2].value == old(self).scope@.nodes[2].value,
            forall|x: usize|
                x != 1 && old(self).scope@.nodes[0].subs.contains(x) ==> final(self).scope@.nodes[0].subs.contains(x),
            final(self).watcher == old(self).watcher,
            final(self).log == old(self).log,
            final(self).even_runs == old(self).even_runs,
            final(self).square_runs as nat == (if old(self).scope@.fresh(1) {
                old(self).square_runs as nat
            } else {
                bump(old(self).square_runs as nat)
            }),
    {
        let ghost pre = self.scope@;
        let ghost c = self.number();
        proof {
            lemma_square_fits(c);
        }
        match self.square.get(&mut self.scope) {
            Ok(Poll::Ready(CounterValue::Number(v))) => {
                proof {
                    if pre.tracking() {
                        crate::model::lemma_push_keeps(pre.nodes[1].subs, pre.stack.last());
                    }
                }
                v
            },
            Ok(Poll::Evaluate) => {
                let ghost s1 = self.scope@;
                proof {
                    crate::model::lemma_detached(pre, 1);
                    assert forall|x: usize| x != 1 && pre.nodes[0].subs.contains(x) implies s1.nodes[0].subs.contains(x) by {
                        crate::model::lemma_dropped(pre.nodes[0].subs, 1);
                    }
                    assert(s1.stack.last() == 1);
                }
                let n = match self.count.get(&mut self.scope) {
                    Ok(CounterValue::Number(n)) => n,
                    _ => 0,
                };
                let ghost s2 = self.scope@;
                proof {
                    assert(n == c);
                    crate::model::lemma_push_keeps(s1.nodes[0].subs, 1);
                    assert(s2.nodes[0].subs.contains(1));
                }
                let v = n * n;
                if self.square_runs < u64::MAX {
                    self.square_runs = self.square_runs + 1;
                }
                let done = self.square.complete(&mut self.scope, CounterValue::Number(v));
                proof {
                    assert(s2.stack.last() == 1);
                    assert(s2.stack.drop_last() =~= pre.stack);
                    let s3 = self.scope@;
                    if s3.tracking() {
                        crate::model::lemma_push_keeps(s2.nodes[1].subs, pre.stack.last());
                    }
                }
                v
            },
            _ => 0,
        }
    }

    /// The parity of the current square, through the cache: the derivation
    /// runs only when the cache is stale, and reads the square through its
    /// cache in turn. The running evaluation, if any, now depends on it.
    fn read_even(&mut self) -> (v: bool)
        requires
            old(self).settled(),
            !old(self).scope@.stack.contains(1),
            !old(self).scope@.stack.contains(2),
        ensures
            final(self).settled(),
            v == ((old(self).number() * old(self).number()) % 2 == 0),
            final(self).number() == old(self).number(),
            final(self).scope@.stack == old(self).scope@.stack,
            final(self).scope@.fresh(1),
            final(self).scope@.fresh(2),
            forall|x: usize|
                x != 1 && x != 2 && old(self).scope@.nodes[0].subs.contains(x) ==> final(self).scope@.nodes[0].subs.contains(x),
            final(self).watcher == old(self).watcher,
            final(self).log == old(self).log,
            final(self).square_runs as nat == (if old(self).scope@.fresh(1) {
                old(self).square_runs as nat
            } else {
                bump(old(self).square_runs as nat)
            }),
            final(self).even_runs as nat == (if old(self).scope@.fresh(2) {
                old(self).even_runs as nat
            } else {
                bump(old(self).even_runs as nat)
            }),
    {
        let ghost pre = self.scope@;
        let ghost c = self.number();
        proof {
            lemma_square_fits(c);
        }
        match self.is_even.get(&mut self.scope) {
            Ok(Poll::Ready(CounterValue::Flag(b))) => {
                proof {
                    if pre.tracking() {
                        crate::model::lemma_push_keeps(pre.nodes[2].subs, pre.stack.last());
                    }
                }
                b
            },
            Ok(Poll::Evaluate) => {
                let ghost s1 = self.scope@;
                proof {
                    crate::model::lemma_detached(pre, 2);
                    assert forall|x: usize| x != 2 && pre.nodes[0].subs.contains(x) implies s1.nodes[0].subs.contains(x) by {
                        crate::model::lemma_dropped(pre.nodes[0].subs, 2);
                    }
                    assert(s1.stack.last() == 2);
                    assert(s1.stack[pre.stack.len() as int] == 2);
                    assert(s1.stack.contains(2));
                    assert(!s1.stack.contains(1)) by {
                        if s1.stack.contains(1) {
                            let t = choose|t: int| 0 <= t < s1.stack.len() && s1.stack[t] == 1;
                            assert(pre.stack[t] == 1);
                        }
                    }
                    assert(s1.fresh(1) == pre.fresh(1));
                }
                let sq = self.read_square();
                let ghost s2 = self.scope@;
                let b = sq % 2 == 0;
                if self.even_runs < u64::MAX {
                    self.even_runs = self.even_runs + 1;
                }
                let done = self.is_even.complete(&mut self.scope, CounterValue::Flag(b));
                proof {
                    assert(s2.stack.last() == 2);
                    assert(s2.tracking());
                    assert(s2.stack.drop_last() =~= pre.stack);
                    let s3 = self.scope@;
                    assert(!s3.stack.contains(2));
                }
                b
            },
            _ => false,
        }
    }

    /// One run of the watching effect, which is the innermost running
    /// evaluation: it reads the count, the square and the parity, and notes
    /// what it saw.
    fn watch(&mut self)
        requires
            old(self).settled(),
            old(self).watcher.is_some(),
            old(self).scope@.stack =~= seq![3usize],
        ensures
            final(self).inv(),
            !final(self)@.disposed,
            final(self)@ == (CounterState {
                square_current: true,
                even_current: true,
                square_runs: if old(self).scope@.fresh(1) {
                    old(self).square_runs as nat
                } else {
                    bump(old(self).square_runs as nat)
                },
                even_runs: if old(self).scope@.fresh(2) {
                    old(self).even_runs as nat
                } else {
                    bump(old(self).even_runs as nat)
                },
                log: old(self).log@.push(observation_of(old(self).number())),
                ..old(self)@
            }),
    {
        let ghost pre = self.scope@;
        let ghost c = self.number();
        proof {
            lemma_square_fits(c);
            assert(pre.stack.last() == 3);
            assert(!pre.stack.contains(1));
            assert(!pre.stack.contains(2));
        }
        let n = match self.count.get(&mut self.scope) {
            Ok(CounterValue::Number(n)) => n,
            _ => 0,
        };
        proof {
            crate::model::lemma_push_keeps(pre.nodes[0].subs, 3);
            assert(self.scope@.nodes[0].subs.contains(3));
        }
        let square = self.read_square();
        let is_even = self.read_even();
        self.log.push(Observation { count: n, square, is_even });
        let watcher = Effect { id: 3 };
        let done = watcher.finish(&mut self.scope);
        proof {
            assert(self.scope@.stack =~= Seq::<usize>::empty());
            assert(self.log@ =~= old(self).log@.push(observation_of(c)));
        }
    }

    /// Gives the count the value `v` and lets the watching effect, if there is
    /// one, run again.
    fn write_count(&mut self, v: i32)
        requires
            old(self).inv(),
            !old(self)@.disposed,
            fits(v as int),
        ensures
            final(self).inv(),
            final(self)@ == old(self)@.after_write(v as int),
    {
        let ghost pre = self.scope@;
        let done = self.count.set(&mut self.scope, CounterValue::Number(v));
        let ghost post = self.scope@;
        proof {
            lemma_reach_self(pre, 0);
            if pre.fresh(1) {
                lemma_reach_step(pre, 0, 0, 1);
                if pre.fresh(2) {
                    lemma_reach_step(pre, 0, 1, 2);
                }
            }
            assert(post.nodes[1] == (crate::model::NodeState {
                dirty: pre.nodes[1].dirty || pre.reaches(0, 1),
                ..pre.nodes[1]
            }));
            assert(post.nodes[2] == (crate::model::NodeState {
                dirty: pre.nodes[2].dirty || pre.reaches(0, 2),
                ..pre.nodes[2]
            }));
            assert(post.nodes[0].value == Some(CounterValue::Number(v)));
            assert(post.nodes[0].kind == NodeKind::Signal);
            assert(!post.fresh(1));
            assert(!post.fresh(2));
            assert forall|t: int| 0 <= t < post.pending.len() implies self.watcher.is_some()
                && #[trigger] post.pending[t] == 3 by {
                let e = post.pending[t];
                assert(post.pending.contains(e));
                assert(pre.is(e, NodeKind::Effect));
            }
            if self.watcher.is_some() {
                assert(post.nodes[3] == (crate::model::NodeState {
                    dirty: pre.nodes[3].dirty || pre.reaches(0, 3),
                    ..pre.nodes[3]
                }));
                lemma_reach_step(pre, 0, 0, 3);
                assert(post.pending.contains(3));
                if post.pending.len() > 1 {
                    assert(post.pending[0] == 3 && post.pending[1] == 3);
                }
                assert(post.pending.len() == 1);
                assert(post.pending[0] == 3);
            } else {
                if post.pending.len() > 0 {
                    assert(post.pending[0] == 3);
                }
            }
        }
        match self.scope.next_effect() {
            Some(e) => {
                proof {
                    let s1 = self.scope@;
                    crate::model::lemma_dequeued(post);
                    assert(s1 == post.dequeued().entered(3));
                    assert(s1.pending =~= Seq::<usize>::empty());
                    assert(s1.stack =~= seq![3usize]);
                    assert(!s1.fresh(1));
                    assert(!s1.fresh(2));
                    assert(s1.nodes[0].value == post.nodes[0].value);
                }
                self.watch();
            },
            None => {},
        }
    }

    /// Creates the effect that watches the counter and runs it for the first
    /// time. A counter that is watched already stays as it is.
    pub fn initialize(&mut self) -> (r: Result<(), EvalError>)
        requires
            old(self).inv(),
        ensures
            final(self).inv(),
            old(self)@.disposed ==> r == Err::<(), EvalError>(EvalError::ScopeDisposed)
                && final(self)@ == old(self)@,
            !old(self)@.disposed ==> r == Ok::<(), EvalError>(()),
            !old(self)@.disposed && old(self)@.watched ==> final(self)@ == old(self)@,
            !old(self)@.disposed && !old(self)@.watched ==> final(self)@ == (CounterState {
                watched: true,
                ..old(self)@.after_run()
            }),
    {
        if self.scope.is_disposed() {
            return Err(EvalError::ScopeDisposed);
        }
        if self.watcher.is_some() {
            return Ok(());
        }
        let ghost pre = self.scope@;
        let made = self.scope.effect();
        self.watcher = Some(Effect { id: 3 });
        proof {
            let s1 = self.scope@;
            assert(s1.stack =~= seq![3usize]);
            assert(s1.nodes[0] == pre.nodes[0]);
            assert(s1.nodes[1] == pre.nodes[1]);
            assert(s1.nodes[2] == pre.nodes[2]);
            assert(!s1.stack.contains(1));
            assert(!s1.stack.contains(2));
        }
        self.watch();
        Ok(())
    }

    /// Sets the count to `initial`. The derived values are stale from then on,
    /// unless the counter is watched: then the effect has run again and has
    /// brought them up to date.
    pub fn update(&mut self, initial: i32) -> (r: Result<(), EvalError>)
        requires
            old(self).inv(),
            !old(self)@.disposed ==> fits(initial as int),
        ensures
            final(self).inv(),
            old(self)@.disposed ==> r == Err::<(), EvalError>(EvalError::ScopeDisposed)
                && final(self)@ == old(self)@,
            !old(self)@.disposed ==> r == Ok::<(), EvalError>(()) && final(self)@ == old(self)@.after_write(initial as int),
    {
        if self.scope.is_disposed() {
            return Err(EvalError::ScopeDisposed);
        }
        self.write_count(initial);
        Ok(())
    }

    /// Adds one to the count.
    pub fn increment(&mut self) -> (r: Result<(), EvalError>)
        requires
            old(self).inv(),
            !old(self)@.disposed ==> fits(old(self)@.count + 1),
        ensures
            final(self).inv(),
            old(self)@.disposed ==> r == Err::<(), EvalError>(EvalError::ScopeDisposed)
                && final(self)@ == old(self)@,
            !old(self)@.disposed ==> r == Ok::<(), EvalError>(()) && final(self)@ == old(self)@.after_write(old(self)@.count + 1),
    {
        let current = match self.count.peek(&self.scope) {
            Ok(CounterValue::Number(n)) => n,
            _ => {
                return Err(EvalError::ScopeDisposed);
            },
        };
        self.write_count(current + 1);
        Ok(())
    }

    /// Takes one from the count.
    pub fn decrement(&mut self) -> (r: Result<(), EvalError>)
        requires
            old(self).inv(),
            !old(self)@.disposed ==> fits(old(self)@.count - 1),
        ensures
            final(self).inv(),
            old(self)@.disposed ==> r == Err::<(), EvalError>(EvalError::ScopeDisposed)
                && final(self)@ == old(self)@,
            !old(self)@.disposed ==> r == Ok::<(), EvalError>(()) && final(self)@ == old(self)@.after_write(old(self)@.count - 1),
    {
        let current = match self.count.peek(&self.scope) {
            Ok(CounterValue::Number(n)) => n,
            _ => {
                return Err(EvalError::ScopeDisposed);
            },
        };
        self.write_count(current - 1);
        Ok(())
    }

    /// The current count. A disposed counter has none.
    pub fn get_count(&self) -> (r: Result<i32, EvalError>)
        requires
            self.inv(),
        ensures
            self@.disposed ==> r == Err::<i32, EvalError>(EvalError::ScopeDisposed),
            !self@.disposed ==> r is Ok && r.unwrap() as int == self@.count && fits(self@.count),
    {
        match self.count.peek(&self.scope) {
            Ok(CounterValue::Number(n)) => Ok(n),
            _ => Err(EvalError::ScopeDisposed),
        }
    }

    /// Whether the current square is even. The derivations of the parity and
    /// of the square run only if the count was written since they last ran.
    pub fn is_square_even(&mut self) -> (r: Result<bool, EvalError>)
        requires
            old(self).inv(),
        ensures
            final(self).inv(),
            old(self)@.disposed ==> r == Err::<bool, EvalError>(EvalError::ScopeDisposed)
                && final(self)@ == old(self)@,
            !old(self)@.disposed ==> r == Ok::<bool, EvalError>(
                (old(self)@.count * old(self)@.count) % 2 == 0,
            ) && final(self)@ == old(self)@.after_parity_read() && fits(old(self)@.count),
    {
        if self.scope.is_disposed() {
            return Err(EvalError::ScopeDisposed);
        }
        let v = self.read_even();
        Ok(v)
    }

    /// How often the square's derivation has run.
    pub fn square_runs(&self) -> (n: u64)
        ensures
            n == self@.square_runs,
    {
        self.square_runs
    }

    /// How often the parity's derivation has run.
    pub fn even_runs(&self) -> (n: u64)
        ensures
            n == self@.even_runs,
    {
        self.even_runs
    }

    /// What the watching effect saw, one entry per run, oldest first.
    pub fn observations(&self) -> (log: &Vec<Observation>)
        ensures
            log@ == self@.log,
    {
        &self.log
    }

    /// Disposes the counter's scope. Every operation fails from then on, and
    /// the watching effect never runs again.
    pub fn dispose(&mut self)
        requires
            old(self).inv(),
        ensures
            final(self).inv(),
            final(self)@ == (CounterState {
                disposed: true,
                count: 0,
                square_current: false,
                even_current: false,
                ..old(self)@
            }),
    {
        self.scope.dispose();
    }

    /// The current square. Its derivation runs only if the count was written
    /// since it last ran.
    pub fn get_square(&mut self) -> (r: Result<i32, EvalError>)
        requires
            old(self).inv(),
        ensures
            final(self).inv(),
            old(self)@.disposed ==> r == Err::<i32, EvalError>(EvalError::ScopeDisposed)
                && final(self)@ == old(self)@,
            !old(self)@.disposed ==> r is Ok && r.unwrap() as int == old(self)@.count * old(self)@.count && final(self)@ == old(self)@.after_square_read() && fits(
                old(self)@.count,
            ),
    {
        if self.scope.is_disposed() {
            return Err(EvalError::ScopeDisposed);
        }
        proof {
            lemma_square_fits(self.number());
        }
        let v = self.read_square();
        Ok(v)
    }
}

/// The count of a live counter is one whose square fits in an `i32`, and so
/// is every count that the watching effect has noted.
pub proof fn lemma_live_count_fits(c: &ReactiveCounter)
    requires
        c.inv(),
    ensures
        !c@.disposed ==> fits(c@.count),
{
}

/// The observation of a count that fits holds the count, its square and
/// whether the square is even, as they are.
pub proof fn lemma_observation_exact(c: int)
    requires
        fits(c),
    ensures
        observation_of(c).count as int == c,
        observation_of(c).square as int == c * c,
        observation_of(c).is_even == ((c * c) % 2 == 0),
{
    lemma_square_fits(c);
}

/// Memoization. Reading the square or the parity again changes nothing: the
/// derivations run on the first read after a write, and on no other.
pub proof fn law_reads_derive_once(s: CounterState)
    ensures
        s.after_square_read().after_square_read() == s.after_square_read(),
        s.after_parity_read().after_parity_read() == s.after_parity_read(),
        s.after_parity_read().after_square_read() == s.after_parity_read(),
        s.after_square_read().count == s.count,
        s.after_parity_read().count == s.count,
{
}

/// Once per write. Whatever is read after the count was written, and however
/// often, and whether or not the counter is watched, the square's derivation
/// has run exactly once more than before the write when the square has been
/// read, and so has the parity's when the parity has been read.
pub proof fn law_square_derived_once_per_write(s: CounterState, v: int)
    ensures
        s.after_write(v).after_square_read().square_runs == bump(s.square_runs),
        s.after_write(v).after_parity_read().square_runs == bump(s.square_runs),
        s.after_write(v).after_parity_read().even_runs == bump(s.even_runs),
        s.after_write(v).after_square_read().after_parity_read().square_runs == bump(
            s.square_runs,
        ),
        s.after_write(v).after_parity_read().after_square_read().square_runs == bump(
            s.square_runs,
        ),
        !s.watched ==> s.after_write(v).square_runs == s.square_runs && s.after_write(v).even_runs == s.even_runs,
{
}

/// Exactly once per write, and no stale read. A write to a watched counter
/// lets the effect run once: one observation is added, and it is that of the
/// new count, never of the count before.
pub proof fn law_watched_write_logs_once(s: CounterState, v: int)
    requires
        s.watched,
    ensures
        s.after_write(v).log == s.log.push(observation_of(v)),
        s.after_write(v).log.len() == s.log.len() + 1,
        s.after_write(v).log.last() == observation_of(v),
        s.after_write(v).count == v,
        fits(v) ==> s.after_write(v).log.last().count as int == v,
{
    if fits(v) {
        lemma_observation_exact(v);
    }
}

/// A write to a counter that is not watched adds no observation.
pub proof fn law_unwatched_write_logs_nothing(s: CounterState, v: int)
    requires
        !s.watched,
    ensures
        s.after_write(v).log == s.log,
        s.after_write(v).count == v,
{
}

/// Memoization, for every run of reads. However many reads follow one
/// another, and of whichever kind, the square's derivation runs once if the
/// square was stale and there is a read at all, and not otherwise; the count,
/// the watcher and its observations stay as they are.
pub proof fn law_reads_derive_square_at_most_once(s: CounterState, reads: Seq<bool>)
    ensures
        s.after_reads(reads).count == s.count,
        s.after_reads(reads).watched == s.watched,
        s.after_reads(reads).log == s.log,
        s.after_reads(reads).disposed == s.disposed,
        s.after_reads(reads).square_current == (s.square_current || reads.len() > 0),
        s.after_reads(reads).square_runs == (if s.square_current || reads.len() == 0 {
            s.square_runs
        } else {
            bump(s.square_runs)
        }),
    decreases reads.len(),
{
    if reads.len() > 0 {
        law_reads_derive_square_at_most_once(s, reads.drop_last());
    }
}

/// Once per value. After a write, any reads at all, of whichever kind and
/// however many, let the square's derivation run exactly once more than
/// before the write.
pub proof fn law_square_derived_once_per_value(s: CounterState, v: int, reads: Seq<bool>)
    requires
        reads.len() > 0,
    ensures
        s.after_write(v).after_reads(reads).square_runs == bump(s.square_runs),
        s.after_write(v).after_reads(reads).count == v,
{
    law_reads_derive_square_at_most_once(s.after_write(v), reads);
}

/// Two values, two derivations. A counter whose square has never been
/// derived is read, written and read again, each time by any reads at all:
/// the square's derivation has then run exactly twice, once for each value
/// of the count that was observed.
pub proof fn law_two_values_two_derivations(
    s: CounterState,
    v: int,
    first: Seq<bool>,
    second: Seq<bool>,
)
    requires
        s.square_runs == 0,
        !s.square_current,
        first.len() > 0,
        second.len() > 0,
    ensures
        s.after_reads(first).after_write(v).after_reads(second).square_runs == 2,
{
    law_reads_derive_square_at_most_once(s, first);
    law_square_derived_once_per_value(s.after_reads(first), v, second);
}

} // verus!
