//! A counter that keeps twice its count beside the count and tells a
//! listener of every change.
use vstd::prelude::*;
use crate::error::SignalError;

verus! {

/// What a counter is created and updated with.
#[derive(Debug)]
pub struct CounterProps {
    pub initial: i32,
    /// Whether the host holds a listener for changes of the count.
    pub has_on_change: bool,
}

impl Clone for CounterProps {
    /// A copy of the props. The listener cannot be copied: the copy has none.
    fn clone(&self) -> (r: Self)
        ensures
            r.initial == self.initial,
            !r.has_on_change,
    {
        CounterProps { initial: self.initial, has_on_change: false }
    }
}

/// The mathematical state of the counter.
pub struct LifecycleState {
    pub initial: int,
    pub has_on_change: bool,
    pub count: int,
    pub double_count: int,
    /// Whether a listener failed while the count was being written.
    pub poisoned: bool,
}

/// Whether twice `c` fits in an `i32`.
pub open spec fn doubles(c: int) -> bool {
    -1073741824 <= c <= 1073741823
}

/// Whether twice `c` fits in an `i32`.
pub fn can_double(c: i32) -> (b: bool)
    ensures
        b == doubles(c as int),
{
    -1073741824 <= c && c <= 1073741823
}

impl LifecycleState {
    /// The state after the count has moved by `d`.
    pub open spec fn stepped(self, d: int) -> Self {
        if self.poisoned {
            self
        } else {
            LifecycleState {
                count: self.count + d,
                double_count: 2 * (self.count + d),
                ..self
            }
        }
    }

    /// What the listener is told after the count has moved by `d`: the new
    /// count, if the count could move and there is a listener.
    pub open spec fn told(self, d: int) -> Option<int> {
        if !self.poisoned && self.has_on_change {
            Some(self.count + d)
        } else {
            None
        }
    }

    /// Whether `r` is the number `t`, or both are none.
    pub open spec fn tells(r: Option<i32>, t: Option<int>) -> bool {
        match (r, t) {
            (Some(n), Some(m)) => n as int == m,
            (None, None) => true,
            _ => false,
        }
    }

    /// Whether new props with this `initial` change the count.
    pub open spec fn resets(self, initial: int) -> bool {
        self.initial != initial
    }
}

/// A counter with a derived double count.
pub struct Counter {
    props: CounterProps,
    count: i32,
    double_count: i32,
    poisoned: bool,
}

impl View for Counter {
    type V = LifecycleState;

    closed spec fn view(&self) -> LifecycleState {
        LifecycleState {
            initial: self.props.initial as int,
            has_on_change: self.props.has_on_change,
            count: self.count as int,
            double_count: self.double_count as int,
            poisoned: self.poisoned,
        }
    }
}

impl Counter {
    /// A counter that starts at the props' initial value.
    pub fn create(props: CounterProps) -> (c: Self)
        requires
            doubles(props.initial as int),
        ensures
            c@ == (LifecycleState {
                initial: props.initial as int,
                has_on_change: props.has_on_change,
                count: props.initial as int,
                double_count: 2 * props.initial,
                poisoned: false,
            }),
    {
        let count = props.initial;
        let double_count = props.initial * 2;
        Counter { props, count, double_count, poisoned: false }
    }

    /// Takes new props. The count starts over only if the initial value has
    /// changed; the new props' listener, if there is one, is then told the
    /// new count: that is the result. A poisoned count refuses the change and
    /// keeps the old props.
    pub fn update(&mut self, props: CounterProps) -> (r: Result<Option<i32>, SignalError>)
        requires
            old(self)@.resets(props.initial as int) && !old(self)@.poisoned ==> doubles(
                props.initial as int,
            ),
        ensures
            !old(self)@.resets(props.initial as int) ==> r == Ok::<Option<i32>, SignalError>(None)
                && final(self)@ == (LifecycleState {
                has_on_change: props.has_on_change,
                ..old(self)@
            }),
            old(self)@.resets(props.initial as int) && old(self)@.poisoned ==> r == Err::<
                Option<i32>,
                SignalError,
            >(SignalError::Lock) && final(self)@ == old(self)@,
            old(self)@.resets(props.initial as int) && !old(self)@.poisoned ==> r == Ok::<
                Option<i32>,
                SignalError,
            >(
                if props.has_on_change {
                    Some(props.initial)
                } else {
                    None
                },
            ) && final(self)@ == (LifecycleState {
                initial: props.initial as int,
                has_on_change: props.has_on_change,
                count: props.initial as int,
                double_count: 2 * props.initial,
                poisoned: false,
            }),
    {
        let mut told: Option<i32> = None;
        if self.props.initial != props.initial {
            if self.poisoned {
                return Err(SignalError::Lock);
            }
            self.count = props.initial;
            self.double_count = props.initial * 2;
            if props.has_on_change {
                told = Some(props.initial);
            }
        }
        self.props = props;
        Ok(told)
    }

    /// Adds one to the count. The result is what the listener, if there is
    /// one, is told: the new count. A poisoned count refuses and stays as it
    /// is.
    pub fn increment(&mut self) -> (r: Result<Option<i32>, SignalError>)
        requires
            !old(self)@.poisoned ==> doubles(old(self)@.count + 1),
        ensures
            final(self)@ == old(self)@.stepped(1),
            old(self)@.poisoned ==> r == Err::<Option<i32>, SignalError>(SignalError::Lock),
            !old(self)@.poisoned ==> r is Ok && LifecycleState::tells(
                r.unwrap(),
                old(self)@.told(1),
            ),
    {
        if self.poisoned {
            return Err(SignalError::Lock);
        }
        self.count = self.count + 1;
        self.double_count = self.count * 2;
        if self.props.has_on_change {
            Ok(Some(self.count))
        } else {
            Ok(None)
        }
    }

    /// Takes one from the count. The result is what the listener, if there is
    /// one, is told: the new count. A poisoned count refuses and stays as it
    /// is.
    pub fn decrement(&mut self) -> (r: Result<Option<i32>, SignalError>)
        requires
            !old(self)@.poisoned ==> doubles(old(self)@.count - 1),
        ensures
            final(self)@ == old(self)@.stepped(-1),
            old(self)@.poisoned ==> r == Err::<Option<i32>, SignalError>(SignalError::Lock),
            !old(self)@.poisoned ==> r is Ok && LifecycleState::tells(
                r.unwrap(),
                old(self)@.told(-1),
            ),
    {
        if self.poisoned {
            return Err(SignalError::Lock);
        }
        self.count = self.count - 1;
        self.double_count = self.count * 2;
        if self.props.has_on_change {
            Ok(Some(self.count))
        } else {
            Ok(None)
        }
    }

    /// The count, unless a listener failed while it was being written.
    pub fn get_count(&self) -> (r: Result<i32, SignalError>)
        ensures
            self@.poisoned ==> r == Err::<i32, SignalError>(SignalError::Lock),
            !self@.poisoned ==> r is Ok && r.unwrap() as int == self@.count,
    {
        if self.poisoned {
            Err(SignalError::Lock)
        } else {
            Ok(self.count)
        }
    }

    /// Twice the count, as of the last change.
    pub fn get_double_count(&self) -> (r: i32)
        ensures
            r == self@.double_count,
    {
        self.double_count
    }

    /// Records that the listener failed while the count was being written.
    pub fn poison(&mut self)
        ensures
            final(self)@ == (LifecycleState { poisoned: true, ..old(self)@ }),
    {
        self.poisoned = true;
    }
}

} // verus!
