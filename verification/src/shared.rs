//! A counter whose state is shared between threads by its host: each piece
//! of state is a signal of a scope in shared mode, so that a writer that
//! failed leaves that piece unreadable, and the others as they are.
use vstd::prelude::*;
use crate::counter::{fits, lemma_square_fits, CounterValue};
use crate::error::SignalError;
use crate::model::{lemma_leaf_reaches_itself, NodeKind, NodeState, ScopeState};
use crate::scope::{Scope, Signal};

verus! {

/// One piece of the counter's state.
#[derive(Clone, Copy, PartialEq, Eq, Structural, Debug)]
pub enum CounterField {
    Count,
    Square,
    IsEven,
}

/// Which piece of state could not be written.
#[derive(Clone, Copy, PartialEq, Eq, Structural, Debug)]
pub enum UpdateFailure {
    Count,
    SharedTotal,
    Square,
    IsEven,
}

/// The mathematical state of the counter. A piece that a failed writer has
/// left poisoned is `None`.
pub struct SharedState {
    pub count: Option<int>,
    pub square: Option<int>,
    pub is_even: Option<bool>,
}

impl SharedState {
    /// The state after the count has moved by `d`. A poisoned count moves
    /// nothing; otherwise each piece that can be written follows the count.
    pub open spec fn stepped(self, d: int) -> Self {
        match self.count {
            None => self,
            Some(c) => SharedState {
                count: Some(c + d),
                square: match self.square {
                    Some(_) => Some((c + d) * (c + d)),
                    None => None,
                },
                is_even: match self.is_even {
                    Some(_) => Some(((c + d) * (c + d)) % 2 == 0),
                    None => None,
                },
            },
        }
    }

    /// The shared total after this counter has moved by `d`: the total moves
    /// with the count, unless one of the two is poisoned.
    pub open spec fn total_stepped(self, total: Option<int>, d: int) -> Option<int> {
        match (self.count, total) {
            (Some(_), Some(t)) => Some(t + d),
            _ => total,
        }
    }

    /// Whether the count can move by `d` without leaving the range of `i32`,
    /// for itself, its square and the shared total.
    pub open spec fn can_step(self, total: Option<int>, d: int) -> bool {
        match self.count {
            None => true,
            Some(c) => fits(c + d) && match total {
                Some(t) => i32::MIN <= t + d <= i32::MAX,
                None => true,
            },
        }
    }

    /// The first piece that a move of the count cannot write, in the order
    /// count, shared total, square, parity, if there is one.
    pub open spec fn step_failure(self, total: Option<int>) -> Option<UpdateFailure> {
        if self.count.is_none() {
            Some(UpdateFailure::Count)
        } else if total.is_none() {
            Some(UpdateFailure::SharedTotal)
        } else if self.square.is_none() {
            Some(UpdateFailure::Square)
        } else if self.is_even.is_none() {
            Some(UpdateFailure::IsEven)
        } else {
            None
        }
    }

    /// Which piece stops an update, if one does.
    pub open spec fn update_failure(self) -> Option<UpdateFailure> {
        if self.count.is_none() {
            Some(UpdateFailure::Count)
        } else if self.square.is_none() {
            Some(UpdateFailure::Square)
        } else if self.is_even.is_none() {
            Some(UpdateFailure::IsEven)
        } else {
            None
        }
    }

    /// The state after an update to `v`: the pieces are written in the order
    /// count, square, parity, up to the first that cannot be written.
    pub open spec fn updated(self, v: int) -> Self {
        match self.update_failure() {
            Some(UpdateFailure::Count) => self,
            Some(UpdateFailure::Square) => SharedState { count: Some(v), ..self },
            Some(UpdateFailure::IsEven) => SharedState {
                count: Some(v),
                square: Some(v * v),
                ..self
            },
            _ => SharedState {
                count: Some(v),
                square: Some(v * v),
                is_even: Some((v * v) % 2 == 0),
            },
        }
    }

    /// The state after an update that moves the count by `d`.
    pub open spec fn moved(self, d: int) -> Self {
        match self.count {
            Some(c) => self.updated(c + d),
            None => self,
        }
    }

    pub open spec fn poisoned(self, field: CounterField) -> Self {
        match field {
            CounterField::Count => SharedState { count: None, ..self },
            CounterField::Square => SharedState { square: None, ..self },
            CounterField::IsEven => SharedState { is_even: None, ..self },
        }
    }
}

impl UpdateFailure {
    pub open spec fn message_spec(self) -> Seq<char> {
        match self {
            UpdateFailure::Count => "Failed to update count"@,
            UpdateFailure::SharedTotal => "Failed to update shared total"@,
            UpdateFailure::Square => "Failed to update square"@,
            UpdateFailure::IsEven => "Failed to update is_even"@,
        }
    }

    /// The text of the failure.
    pub fn message(&self) -> (r: String)
        ensures
            r@ == self.message_spec(),
    {
        match self {
            UpdateFailure::Count => "Failed to update count".to_string(),
            UpdateFailure::SharedTotal => "Failed to update shared total".to_string(),
            UpdateFailure::Square => "Failed to update square".to_string(),
            UpdateFailure::IsEven => "Failed to update is_even".to_string(),
        }
    }
}

/// A counter with a derived square and parity, each behind its own lock. It
/// adds its steps to a total that the host owns and hands to every counter
/// that shares it.
pub struct AdvancedCounter {
    scope: Scope<CounterValue>,
}

/// A total that several counters add to. The host owns it and hands it to
/// each counter's `increment` and `decrement`.
pub struct SharedTotal {
    scope: Scope<CounterValue>,
}

spec fn number_at(s: ScopeState<CounterValue>, i: int) -> Option<int> {
    if s.nodes[i].poisoned {
        None
    } else {
        match s.nodes[i].value {
            Some(CounterValue::Number(n)) => Some(n as int),
            _ => Some(0),
        }
    }
}

spec fn flag_at(s: ScopeState<CounterValue>, i: int) -> Option<bool> {
    if s.nodes[i].poisoned {
        None
    } else {
        match s.nodes[i].value {
            Some(CounterValue::Flag(b)) => Some(b),
            _ => Some(false),
        }
    }
}

/// A few signals that nothing subscribes to, and nothing running.
spec fn flat(s: ScopeState<CounterValue>) -> bool {
    &&& s.wf()
    &&& s.shared
    &&& !s.disposed
    &&& s.nodes.len() <= 4
    &&& s.stack.len() == 0
    &&& s.pending.len() == 0
    &&& forall|i: int|
        0 <= i < s.nodes.len() ==> (#[trigger] s.nodes[i]).kind == NodeKind::Signal
            && s.nodes[i].subs.len() == 0
}

/// Writes `v` to the signal `which`, unless it is poisoned.
fn store(scope: &mut Scope<CounterValue>, which: usize, v: CounterValue) -> (done: bool)
    requires
        flat(old(scope)@),
        which < old(scope)@.nodes.len(),
    ensures
        done == !old(scope)@.nodes[which as int].poisoned,
        !done ==> final(scope)@ == old(scope)@,
        done ==> final(scope)@ == (ScopeState {
            nodes: old(scope)@.nodes.update(
                which as int,
                NodeState { value: Some(v), ..old(scope)@.nodes[which as int] },
            ),
            ..old(scope)@
        }),
        flat(final(scope)@),
{
    let ghost pre = scope@;
    assert(pre.nodes[which as int].kind == NodeKind::Signal);
    let r = Signal { id: which }.set(scope, v);
    proof {
        let post = scope@;
        if !pre.nodes[which as int].poisoned {
            assert forall|i: int| 0 <= i < pre.nodes.len() implies #[trigger] post.nodes[i]
                == pre.nodes.update(
                which as int,
                NodeState { value: Some(v), ..pre.nodes[which as int] },
            )[i] by {
                let u = i as usize;
                assert(post.nodes[u as int] == (NodeState {
                    dirty: pre.nodes[u as int].dirty || (u != which && pre.reaches(which, u)),
                    value: if u == which {
                        Some(v)
                    } else {
                        pre.nodes[u as int].value
                    },
                    ..pre.nodes[u as int]
                }));
                assert(pre.nodes[which as int].subs.len() == 0);
                if u != which && pre.reaches(which, u) {
                    lemma_leaf_reaches_itself(pre, which, u);
                }
            }
            assert(post.nodes =~= pre.nodes.update(
                which as int,
                NodeState { value: Some(v), ..pre.nodes[which as int] },
            ));
            if post.pending.len() > 0 {
                let e = post.pending[0];
                assert(post.pending.contains(e));
                assert(pre.is(e, NodeKind::Effect));
                assert(pre.nodes[e as int].kind == NodeKind::Signal);
            }
            assert(post.pending =~= pre.pending);
            assert forall|i: int| 0 <= i < pre.nodes.len() implies (#[trigger] post.nodes[i]).kind
                == NodeKind::Signal && post.nodes[i].subs.len() == 0 by {
                assert(pre.nodes[i].kind == NodeKind::Signal);
            }
        }
    }
    r.is_ok()
}

/// What the signal `which` holds, if it can be read.
fn load(scope: &Scope<CounterValue>, which: usize) -> (r: Option<CounterValue>)
    requires
        flat(scope@),
        which < scope@.nodes.len(),
    ensures
        r == (if scope@.nodes[which as int].poisoned {
            None
        } else {
            scope@.nodes[which as int].value
        }),
{
    assert(scope@.nodes[which as int].kind == NodeKind::Signal);
    match (Signal { id: which }).peek(scope) {
        Ok(v) => Some(v),
        Err(_) => None,
    }
}

/// Marks the signal `which` as poisoned.
fn spoil(scope: &mut Scope<CounterValue>, which: usize)
    requires
        flat(old(scope)@),
        which < old(scope)@.nodes.len(),
    ensures
        flat(final(scope)@),
        final(scope)@ == old(scope)@.poisoned(which),
{
    let ghost pre = scope@;
    assert(pre.nodes[which as int].kind == NodeKind::Signal);
    let r = Signal { id: which }.poison(scope);
    proof {
        let post = scope@;
        assert forall|i: int| 0 <= i < post.nodes.len() implies (#[trigger] post.nodes[i]).kind
            == NodeKind::Signal && post.nodes[i].subs.len() == 0 by {
            assert(pre.nodes[i].kind == NodeKind::Signal);
        }
    }
}

impl View for SharedTotal {
    type V = Option<int>;

    closed spec fn view(&self) -> Option<int> {
        number_at(self.scope@, 0)
    }
}

impl SharedTotal {
    /// The invariant of the total.
    pub closed spec fn inv(self) -> bool {
        let s = self.scope@;
        &&& flat(s)
        &&& s.nodes.len() == 1
        &&& s.nodes[0].value is Some && s.nodes[0].value.unwrap() is Number
    }

    /// A total that starts at `initial`.
    pub fn new(initial: i32) -> (t: Self)
        ensures
            t.inv(),
            t@ == Some(initial as int),
    {
        let mut scope: Scope<CounterValue> = Scope::new_shared();
        let a = scope.signal(CounterValue::Number(initial));
        SharedTotal { scope }
    }

    /// The total, unless it is poisoned.
    pub fn get(&self) -> (r: Result<i32, SignalError>)
        requires
            self.inv(),
        ensures
            match self@ {
                Some(t) => r is Ok && r.unwrap() as int == t,
                None => r == Err::<i32, SignalError>(SignalError::Lock),
            },
    {
        match load(&self.scope, 0) {
            Some(CounterValue::Number(n)) => Ok(n),
            _ => Err(SignalError::Lock),
        }
    }

    /// Writes the total from outside the counters, unless it is poisoned.
    pub fn set(&mut self, value: i32) -> (r: Result<(), SignalError>)
        requires
            old(self).inv(),
        ensures
            final(self).inv(),
            match old(self)@ {
                Some(_) => r == Ok::<(), SignalError>(()) && final(self)@ == Some(value as int),
                None => r == Err::<(), SignalError>(SignalError::Lock) && final(self)@
                    == None::<int>,
            },
    {
        if store(&mut self.scope, 0, CounterValue::Number(value)) {
            Ok(())
        } else {
            Err(SignalError::Lock)
        }
    }

    /// Adds `d` to the total, unless it is poisoned.
    fn add(&mut self, d: i32) -> (done: bool)
        requires
            old(self).inv(),
            old(self)@ matches Some(t) ==> i32::MIN <= t + d <= i32::MAX,
        ensures
            final(self).inv(),
            done == old(self)@.is_some(),
            final(self)@ == (match old(self)@ {
                Some(t) => Some(t + d),
                None => None,
            }),
    {
        match load(&self.scope, 0) {
            Some(CounterValue::Number(t)) => store(&mut self.scope, 0, CounterValue::Number(t + d)),
            _ => false,
        }
    }

    /// Records that a writer failed while it held the total's lock: the
    /// total cannot be read or written from then on.
    pub fn poison(&mut self)
        requires
            old(self).inv(),
        ensures
            final(self).inv(),
            final(self)@ == None::<int>,
    {
        spoil(&mut self.scope, 0);
    }
}

impl View for AdvancedCounter {
    type V = SharedState;

    closed spec fn view(&self) -> SharedState {
        SharedState {
            count: number_at(self.scope@, 0),
            square: number_at(self.scope@, 1),
            is_even: flag_at(self.scope@, 2),
        }
    }
}

impl AdvancedCounter {
    /// The invariant of the counter.
    pub closed spec fn inv(self) -> bool {
        let s = self.scope@;
        &&& flat(s)
        &&& s.nodes.len() == 3
        &&& s.nodes[0].value is Some && s.nodes[0].value.unwrap() is Number
        &&& s.nodes[1].value is Some && s.nodes[1].value.unwrap() is Number
        &&& s.nodes[2].value is Some && s.nodes[2].value.unwrap() is Flag
    }

    /// A counter that starts at `initial`.
    pub fn create(initial: i32) -> (c: Self)
        requires
            fits(initial as int),
        ensures
            c.inv(),
            c@ == (SharedState {
                count: Some(initial as int),
                square: Some(initial * initial),
                is_even: Some((initial * initial) % 2 == 0),
            }),
    {
        proof {
            lemma_square_fits(initial as int);
        }
        let mut scope: Scope<CounterValue> = Scope::new_shared();
        let square = initial * initial;
        let a = scope.signal(CounterValue::Number(initial));
        let b = scope.signal(CounterValue::Number(square));
        let c = scope.signal(CounterValue::Flag(square % 2 == 0));
        AdvancedCounter { scope }
    }

    /// Moves the count by `d`, which is 1 or -1, and lets the total, the
    /// square and the parity follow, each as far as it can be written.
    fn step(&mut self, total: &mut SharedTotal, d: i32) -> (r: Result<(), UpdateFailure>)
        requires
            old(self).inv(),
            old(total).inv(),
            d == 1 || d == -1,
            old(self)@.can_step(old(total)@, d as int),
        ensures
            final(self).inv(),
            final(total).inv(),
            final(self)@ == old(self)@.stepped(d as int),
            final(total)@ == old(self)@.total_stepped(old(total)@, d as int),
            match old(self)@.step_failure(old(total)@) {
                Some(f) => r == Err::<(), UpdateFailure>(f),
                None => r == Ok::<(), UpdateFailure>(()),
            },
    {
        let current = match load(&self.scope, 0) {
            Some(CounterValue::Number(n)) => n,
            _ => {
                return Err(UpdateFailure::Count);
            },
        };
        let next = current + d;
        proof {
            lemma_square_fits(next as int);
        }
        store(&mut self.scope, 0, CounterValue::Number(next));
        let added = total.add(d);
        let square = next * next;
        let squared = store(&mut self.scope, 1, CounterValue::Number(square));
        let marked = store(&mut self.scope, 2, CounterValue::Flag(square % 2 == 0));
        if !added {
            Err(UpdateFailure::SharedTotal)
        } else if !squared {
            Err(UpdateFailure::Square)
        } else if !marked {
            Err(UpdateFailure::IsEven)
        } else {
            Ok(())
        }
    }

    /// Adds one to the count and to the shared total, and brings the square
    /// and the parity up to date. With a poisoned count nothing changes;
    /// every other piece that can be written is written. The error names the
    /// first piece that could not be written, in the order count, shared
    /// total, square, parity.
    pub fn increment(&mut self, total: &mut SharedTotal) -> (r: Result<(), UpdateFailure>)
        requires
            old(self).inv(),
            old(total).inv(),
            old(self)@.can_step(old(total)@, 1),
        ensures
            final(self).inv(),
            final(total).inv(),
            final(self)@ == old(self)@.stepped(1),
            final(total)@ == old(self)@.total_stepped(old(total)@, 1),
            match old(self)@.step_failure(old(total)@) {
                Some(f) => r == Err::<(), UpdateFailure>(f),
                None => r == Ok::<(), UpdateFailure>(()),
            },
    {
        self.step(total, 1)
    }

    /// Takes one from the count and from the shared total, and brings the
    /// square and the parity up to date. With a poisoned count nothing
    /// changes; every other piece that can be written is written. The error
    /// names the first piece that could not be written, in the order count,
    /// shared total, square, parity.
    pub fn decrement(&mut self, total: &mut SharedTotal) -> (r: Result<(), UpdateFailure>)
        requires
            old(self).inv(),
            old(total).inv(),
            old(self)@.can_step(old(total)@, -1),
        ensures
            final(self).inv(),
            final(total).inv(),
            final(self)@ == old(self)@.stepped(-1),
            final(total)@ == old(self)@.total_stepped(old(total)@, -1),
            match old(self)@.step_failure(old(total)@) {
                Some(f) => r == Err::<(), UpdateFailure>(f),
                None => r == Ok::<(), UpdateFailure>(()),
            },
    {
        self.step(total, -1)
    }

    /// Sets the count to `initial` and derives the square and the parity from
    /// it, in that order. The first piece that cannot be written stops the
    /// update; what was written before it stays.
    pub fn update(&mut self, initial: i32) -> (r: Result<(), UpdateFailure>)
        requires
            old(self).inv(),
            old(self)@.count.is_some() ==> fits(initial as int),
        ensures
            final(self).inv(),
            final(self)@ == old(self)@.updated(initial as int),
            match old(self)@.update_failure() {
                Some(f) => r == Err::<(), UpdateFailure>(f),
                None => r == Ok::<(), UpdateFailure>(()),
            },
    {
        if !store(&mut self.scope, 0, CounterValue::Number(initial)) {
            return Err(UpdateFailure::Count);
        }
        proof {
            lemma_square_fits(initial as int);
        }
        let square = initial * initial;
        if !store(&mut self.scope, 1, CounterValue::Number(square)) {
            return Err(UpdateFailure::Square);
        }
        if !store(&mut self.scope, 2, CounterValue::Flag(square % 2 == 0)) {
            return Err(UpdateFailure::IsEven);
        }
        Ok(())
    }

    /// Moves the count by `d`, which is 1 or -1, then the square, then the
    /// parity, and stops at the first piece that cannot be written.
    fn try_step(&mut self, d: i32) -> (r: Result<(), UpdateFailure>)
        requires
            old(self).inv(),
            d == 1 || d == -1,
            old(self)@.count matches Some(c) ==> fits(c + d),
        ensures
            final(self).inv(),
            final(self)@ == old(self)@.moved(d as int),
            match old(self)@.update_failure() {
                Some(f) => r == Err::<(), UpdateFailure>(f),
                None => r == Ok::<(), UpdateFailure>(()),
            },
    {
        let current = match load(&self.scope, 0) {
            Some(CounterValue::Number(n)) => n,
            _ => {
                return Err(UpdateFailure::Count);
            },
        };
        self.update(current + d)
    }

    /// Adds one to the count, then derives the square, then the parity. The
    /// first piece that cannot be written stops the step and is reported;
    /// what was written before it stays. No total is touched.
    pub fn try_increment(&mut self) -> (r: Result<(), UpdateFailure>)
        requires
            old(self).inv(),
            old(self)@.count matches Some(c) ==> fits(c + 1),
        ensures
            final(self).inv(),
            final(self)@ == old(self)@.moved(1),
            match old(self)@.update_failure() {
                Some(f) => r == Err::<(), UpdateFailure>(f),
                None => r == Ok::<(), UpdateFailure>(()),
            },
    {
        self.try_step(1)
    }

    /// Takes one from the count, then derives the square, then the parity.
    /// The first piece that cannot be written stops the step and is
    /// reported; what was written before it stays. No total is touched.
    pub fn try_decrement(&mut self) -> (r: Result<(), UpdateFailure>)
        requires
            old(self).inv(),
            old(self)@.count matches Some(c) ==> fits(c - 1),
        ensures
            final(self).inv(),
            final(self)@ == old(self)@.moved(-1),
            match old(self)@.update_failure() {
                Some(f) => r == Err::<(), UpdateFailure>(f),
                None => r == Ok::<(), UpdateFailure>(()),
            },
    {
        self.try_step(-1)
    }

    /// The count, unless it is poisoned.
    pub fn get_count(&self) -> (r: Result<i32, SignalError>)
        requires
            self.inv(),
        ensures
            match self@.count {
                Some(c) => r is Ok && r.unwrap() as int == c,
                None => r == Err::<i32, SignalError>(SignalError::Lock),
            },
    {
        match load(&self.scope, 0) {
            Some(CounterValue::Number(n)) => Ok(n),
            _ => Err(SignalError::Lock),
        }
    }

    /// The square as it was last written, unless it is poisoned.
    pub fn get_square(&self) -> (r: Result<i32, SignalError>)
        requires
            self.inv(),
        ensures
            match self@.square {
                Some(c) => r is Ok && r.unwrap() as int == c,
                None => r == Err::<i32, SignalError>(SignalError::Lock),
            },
    {
        match load(&self.scope, 1) {
            Some(CounterValue::Number(n)) => Ok(n),
            _ => Err(SignalError::Lock),
        }
    }

    /// The parity of the square as it was last written, unless it is poisoned.
    pub fn is_square_even(&self) -> (r: Result<bool, SignalError>)
        requires
            self.inv(),
        ensures
            match self@.is_even {
                Some(b) => r == Ok::<bool, SignalError>(b),
                None => r == Err::<bool, SignalError>(SignalError::Lock),
            },
    {
        match load(&self.scope, 2) {
            Some(CounterValue::Flag(b)) => Ok(b),
            _ => Err(SignalError::Lock),
        }
    }

    /// The total that this counter shares, unless it is poisoned.
    pub fn get_shared_total(&self, total: &SharedTotal) -> (r: Result<i32, SignalError>)
        requires
            total.inv(),
        ensures
            match total@ {
                Some(t) => r is Ok && r.unwrap() as int == t,
                None => r == Err::<i32, SignalError>(SignalError::Lock),
            },
    {
        total.get()
    }

    /// Records that a writer failed while it held the lock of `field`: the
    /// piece cannot be read or written from then on.
    pub fn poison(&mut self, field: CounterField)
        requires
            old(self).inv(),
        ensures
            final(self).inv(),
            final(self)@ == old(self)@.poisoned(field),
    {
        let which: usize = match field {
            CounterField::Count => 0,
            CounterField::Square => 1,
            CounterField::IsEven => 2,
        };
        spoil(&mut self.scope, which);
    }
}

/// Two counters on one total. Whichever counter steps, and in whichever
/// order, a total that can be written moves by the sum of the steps of the
/// counters whose count can be written: after one counter has added `k` and
/// another has taken `m`, both read the total they began with plus `k`
/// minus `m`.
pub proof fn law_total_is_shared(a: SharedState, b: SharedState, s: int, k: int, m: int)
    requires
        a.count.is_some(),
        b.count.is_some(),
    ensures
        b.total_stepped(a.total_stepped(Some(s), k), -m) == Some(s + k - m),
        a.total_stepped(b.total_stepped(Some(s), -m), k) == Some(s + k - m),
        a.stepped(k).count.is_some(),
        b.stepped(-m).count.is_some(),
{
}

/// A poisoned total stays as it is, and a counter with a poisoned count
/// leaves the total as it is.
pub proof fn law_poisoned_pieces_leave_the_total(a: SharedState, total: Option<int>, d: int)
    ensures
        a.total_stepped(None, d) == None::<int>,
        a.count.is_none() ==> a.total_stepped(total, d) == total && a.stepped(d) == a,
{
}

} // verus!
