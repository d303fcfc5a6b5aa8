use reactive_scope::error::{EvalError, SignalError};
use reactive_scope::model::Poll;
use reactive_scope::scope::{Computed, Effect, Scope, Signal};

/// Reads `target`, running `derive` under tracking when the cache is stale.
fn read(
    scope: &mut Scope<i64>,
    target: Computed,
    runs: &mut u32,
    derive: &mut dyn FnMut(&mut Scope<i64>) -> Result<i64, EvalError>,
) -> Result<i64, EvalError> {
    match target.get(scope)? {
        Poll::Ready(v) => Ok(v),
        Poll::Evaluate => {
            *runs += 1;
            match derive(scope) {
                Ok(v) => {
                    target.complete(scope, v)?;
                    Ok(v)
                }
                Err(e) => {
                    target.abandon(scope)?;
                    Err(e)
                }
            }
        }
    }
}

fn signal_value(scope: &mut Scope<i64>, s: Signal) -> Result<i64, EvalError> {
    s.get(scope).map_err(EvalError::from_signal)
}

#[test]
fn example_scenario_square_and_parity() {
    let mut scope: Scope<i64> = Scope::new();
    let s = scope.signal(3).unwrap();
    let square = scope.computed().unwrap();
    let is_even = scope.computed().unwrap();
    let mut square_runs: u32 = 0;
    let mut even_runs: u32 = 0;

    let mut parity = |scope: &mut Scope<i64>, square_runs: &mut u32, even_runs: &mut u32| {
        read(scope, is_even, even_runs, &mut |scope| {
            let sq = read(scope, square, square_runs, &mut |scope| {
                let a = signal_value(scope, s)?;
                let b = signal_value(scope, s)?;
                Ok(a * b)
            })?;
            Ok(if sq % 2 == 0 { 1 } else { 0 })
        })
    };

    assert_eq!(parity(&mut scope, &mut square_runs, &mut even_runs), Ok(0));
    assert_eq!(square_runs, 1);
    s.set(&mut scope, 4).unwrap();
    assert_eq!(parity(&mut scope, &mut square_runs, &mut even_runs), Ok(1));
    assert_eq!(square_runs, 2);
    assert_eq!(even_runs, 2);
    assert_eq!(parity(&mut scope, &mut square_runs, &mut even_runs), Ok(1));
    assert_eq!(square_runs, 2);
    assert_eq!(even_runs, 2);
}

#[test]
fn memoization_skips_the_derivation() {
    let mut scope: Scope<i64> = Scope::new();
    let s = scope.signal(7).unwrap();
    let other = scope.signal(100).unwrap();
    let c = scope.computed().unwrap();
    let mut runs: u32 = 0;
    let mut derive = |scope: &mut Scope<i64>| Ok(signal_value(scope, s)? + 1);
    assert_eq!(read(&mut scope, c, &mut runs, &mut derive), Ok(8));
    assert_eq!(read(&mut scope, c, &mut runs, &mut derive), Ok(8));
    assert_eq!(read(&mut scope, c, &mut runs, &mut derive), Ok(8));
    assert_eq!(runs, 1);
    // a write to a signal that the derivation never read changes nothing
    other.set(&mut scope, 101).unwrap();
    assert_eq!(c.get(&mut scope), Ok(Poll::Ready(8)));
    assert_eq!(runs, 1);
    // a write to the one it read makes it stale
    s.set(&mut scope, 9).unwrap();
    assert_eq!(read(&mut scope, c, &mut runs, &mut derive), Ok(10));
    assert_eq!(runs, 2);
}

#[test]
fn a_new_derived_value_is_lazy() {
    let mut scope: Scope<i64> = Scope::new();
    let c = scope.computed().unwrap();
    assert_eq!(c.id, 0);
    assert!(!scope.is_evaluating());
    assert_eq!(c.get(&mut scope), Ok(Poll::Evaluate));
    assert!(scope.is_evaluating());
    assert_eq!(c.complete(&mut scope, 5), Ok(()));
    assert!(!scope.is_evaluating());
    assert_eq!(c.get(&mut scope), Ok(Poll::Ready(5)));
}

#[test]
fn propagation_along_a_chain() {
    let mut scope: Scope<i64> = Scope::new();
    let s = scope.signal(1).unwrap();
    let a = scope.computed().unwrap();
    let b = scope.computed().unwrap();
    let mut a_runs: u32 = 0;
    let mut b_runs: u32 = 0;
    let mut read_b = |scope: &mut Scope<i64>, a_runs: &mut u32, b_runs: &mut u32| {
        read(scope, b, b_runs, &mut |scope| {
            let x = read(scope, a, a_runs, &mut |scope| Ok(signal_value(scope, s)? + 1))?;
            Ok(x * 2)
        })
    };
    assert_eq!(read_b(&mut scope, &mut a_runs, &mut b_runs), Ok(4));
    s.set(&mut scope, 10).unwrap();
    assert_eq!(a.get(&mut scope), Ok(Poll::Evaluate));
    assert_eq!(a.abandon(&mut scope), Ok(()));
    let before: u32 = a_runs;
    assert_eq!(read_b(&mut scope, &mut a_runs, &mut b_runs), Ok(22));
    assert_eq!(a_runs - before, 1);
    assert_eq!(read_b(&mut scope, &mut a_runs, &mut b_runs), Ok(22));
    assert_eq!(a_runs - before, 1);
    assert_eq!(b_runs, 2);
}

#[test]
fn diamond_effect_runs_once_per_write() {
    let mut scope: Scope<i64> = Scope::new();
    let s = scope.signal(2).unwrap();
    let a = scope.computed().unwrap();
    let b = scope.computed().unwrap();
    let mut a_runs: u32 = 0;
    let mut b_runs: u32 = 0;
    let mut seen: Vec<i64> = Vec::new();
    let mut body = |scope: &mut Scope<i64>, a_runs: &mut u32, b_runs: &mut u32| -> i64 {
        let x = read(scope, a, a_runs, &mut |scope| Ok(signal_value(scope, s)? + 1)).unwrap();
        let y = read(scope, b, b_runs, &mut |scope| Ok(signal_value(scope, s)? * 10)).unwrap();
        x + y
    };
    let e = scope.effect().unwrap();
    seen.push(body(&mut scope, &mut a_runs, &mut b_runs));
    e.finish(&mut scope).unwrap();
    assert_eq!(seen, vec![23]);
    assert_eq!(scope.pending_effects(), 0);

    s.set(&mut scope, 3).unwrap();
    assert_eq!(scope.pending_effects(), 1);
    let mut reruns: u32 = 0;
    while let Some(next) = scope.next_effect() {
        assert_eq!(next, e);
        reruns += 1;
        seen.push(body(&mut scope, &mut a_runs, &mut b_runs));
        next.finish(&mut scope).unwrap();
    }
    assert_eq!(reruns, 1);
    assert_eq!(seen, vec![23, 34]);

    s.set(&mut scope, 4).unwrap();
    s.set(&mut scope, 5).unwrap();
    assert_eq!(scope.pending_effects(), 1);
}

#[test]
fn effect_sees_the_new_value() {
    let mut scope: Scope<i64> = Scope::new();
    let s = scope.signal(1).unwrap();
    let e = scope.effect().unwrap();
    assert_eq!(s.get(&mut scope), Ok(1));
    e.finish(&mut scope).unwrap();
    s.set(&mut scope, 42).unwrap();
    let next = scope.next_effect().unwrap();
    assert_eq!(next, e);
    assert_eq!(s.get(&mut scope), Ok(42));
    next.finish(&mut scope).unwrap();
    assert_eq!(scope.next_effect(), None);
}

#[test]
fn an_effect_that_read_nothing_is_not_run_again() {
    let mut scope: Scope<i64> = Scope::new();
    let s = scope.signal(1).unwrap();
    let e = scope.effect().unwrap();
    e.finish(&mut scope).unwrap();
    s.set(&mut scope, 2).unwrap();
    assert_eq!(scope.next_effect(), None);
}

#[test]
fn effects_run_in_the_order_they_subscribed() {
    let mut scope: Scope<i64> = Scope::new();
    let s = scope.signal(0).unwrap();
    let first = scope.effect().unwrap();
    s.get(&mut scope).unwrap();
    first.finish(&mut scope).unwrap();
    let second = scope.effect().unwrap();
    s.get(&mut scope).unwrap();
    second.finish(&mut scope).unwrap();
    let third = scope.effect().unwrap();
    s.get(&mut scope).unwrap();
    third.finish(&mut scope).unwrap();

    s.set(&mut scope, 1).unwrap();
    assert_eq!(scope.pending_effects(), 3);
    // run them without reading: they drop their subscriptions
    let mut order: Vec<usize> = Vec::new();
    while let Some(e) = scope.next_effect() {
        order.push(e.id);
        // the second and the first subscribe again, in the other order
        e.finish(&mut scope).unwrap();
    }
    assert_eq!(order, vec![first.id, second.id, third.id]);
    s.set(&mut scope, 2).unwrap();
    assert_eq!(scope.next_effect(), None);
}

#[test]
fn effects_resubscribe_on_every_run() {
    let mut scope: Scope<i64> = Scope::new();
    let flag = scope.signal(0).unwrap();
    let a = scope.signal(10).unwrap();
    let b = scope.signal(20).unwrap();
    let mut body = |scope: &mut Scope<i64>| -> i64 {
        if flag.get(scope).unwrap() == 0 {
            a.get(scope).unwrap()
        } else {
            b.get(scope).unwrap()
        }
    };
    let e = scope.effect().unwrap();
    assert_eq!(body(&mut scope), 10);
    e.finish(&mut scope).unwrap();
    // b is not read yet
    b.set(&mut scope, 21).unwrap();
    assert_eq!(scope.pending_effects(), 0);
    flag.set(&mut scope, 1).unwrap();
    let next = scope.next_effect().unwrap();
    assert_eq!(body(&mut scope), 21);
    next.finish(&mut scope).unwrap();
    // now a is no longer read, and b is
    a.set(&mut scope, 11).unwrap();
    assert_eq!(scope.pending_effects(), 0);
    b.set(&mut scope, 22).unwrap();
    assert_eq!(scope.pending_effects(), 1);
}

#[test]
fn disposed_scope_refuses_everything() {
    let mut scope: Scope<i64> = Scope::new();
    let s = scope.signal(1).unwrap();
    let c = scope.computed().unwrap();
    let e = scope.effect().unwrap();
    s.get(&mut scope).unwrap();
    e.finish(&mut scope).unwrap();
    s.set(&mut scope, 2).unwrap();
    assert_eq!(scope.pending_effects(), 1);
    assert!(!scope.is_disposed());
    scope.dispose();
    assert!(scope.is_disposed());
    assert_eq!(scope.len(), 0);
    assert_eq!(scope.pending_effects(), 0);
    assert_eq!(scope.next_effect(), None);
    assert_eq!(s.get(&mut scope), Err(SignalError::ScopeDisposed));
    assert_eq!(s.peek(&scope), Err(SignalError::ScopeDisposed));
    assert_eq!(s.set(&mut scope, 3), Err(SignalError::ScopeDisposed));
    assert_eq!(s.update(&mut scope, |v| v + 1), Err(SignalError::ScopeDisposed));
    assert_eq!(s.poison(&mut scope), Err(SignalError::ScopeDisposed));
    assert_eq!(c.get(&mut scope), Err(EvalError::ScopeDisposed));
    assert_eq!(c.complete(&mut scope, 1), Err(EvalError::ScopeDisposed));
    assert_eq!(c.abandon(&mut scope), Err(EvalError::ScopeDisposed));
    assert_eq!(e.finish(&mut scope), Err(EvalError::ScopeDisposed));
    assert_eq!(e.dispose(&mut scope), Err(EvalError::ScopeDisposed));
    assert_eq!(scope.signal(1), Err(SignalError::ScopeDisposed));
    assert_eq!(scope.computed(), Err(EvalError::ScopeDisposed));
    assert_eq!(scope.effect(), Err(EvalError::ScopeDisposed));
    assert_eq!(scope.next_effect(), None);
    scope.dispose();
    assert!(scope.is_disposed());
}

#[test]
fn self_read_is_a_cycle() {
    let mut scope: Scope<i64> = Scope::new();
    let c = scope.computed().unwrap();
    assert_eq!(c.get(&mut scope), Ok(Poll::Evaluate));
    assert_eq!(c.get(&mut scope), Err(EvalError::CycleDetected));
    assert_eq!(c.abandon(&mut scope), Ok(()));
    // the failed evaluation left it stale, not stuck
    assert_eq!(c.get(&mut scope), Ok(Poll::Evaluate));
    assert_eq!(c.complete(&mut scope, 1), Ok(()));
    assert_eq!(c.get(&mut scope), Ok(Poll::Ready(1)));
}

#[test]
fn a_cycle_through_another_value_is_detected() {
    let mut scope: Scope<i64> = Scope::new();
    let a = scope.computed().unwrap();
    let b = scope.computed().unwrap();
    assert_eq!(a.get(&mut scope), Ok(Poll::Evaluate));
    assert_eq!(b.get(&mut scope), Ok(Poll::Evaluate));
    assert_eq!(a.get(&mut scope), Err(EvalError::CycleDetected));
    assert_eq!(b.abandon(&mut scope), Ok(()));
    assert_eq!(a.abandon(&mut scope), Ok(()));
    assert!(!scope.is_evaluating());
}

#[test]
fn disposed_effect_never_runs_again() {
    let mut scope: Scope<i64> = Scope::new();
    let s = scope.signal(1).unwrap();
    let keep = scope.effect().unwrap();
    s.get(&mut scope).unwrap();
    keep.finish(&mut scope).unwrap();
    let gone = scope.effect().unwrap();
    s.get(&mut scope).unwrap();
    gone.finish(&mut scope).unwrap();

    s.set(&mut scope, 2).unwrap();
    assert_eq!(scope.pending_effects(), 2);
    assert_eq!(gone.dispose(&mut scope), Ok(()));
    assert_eq!(scope.pending_effects(), 1);
    assert_eq!(gone.dispose(&mut scope), Ok(()));
    let next = scope.next_effect().unwrap();
    assert_eq!(next, keep);
    s.get(&mut scope).unwrap();
    next.finish(&mut scope).unwrap();
    assert_eq!(scope.next_effect(), None);
    s.set(&mut scope, 3).unwrap();
    assert_eq!(scope.next_effect(), Some(keep));
    assert_eq!(keep.finish(&mut scope), Ok(()));
    assert_eq!(scope.next_effect(), None);
}

#[test]
fn an_effect_disposed_while_it_runs_subscribes_to_nothing() {
    let mut scope: Scope<i64> = Scope::new();
    let s = scope.signal(1).unwrap();
    let e = scope.effect().unwrap();
    assert_eq!(e.dispose(&mut scope), Ok(()));
    assert_eq!(s.get(&mut scope), Ok(1));
    assert_eq!(e.finish(&mut scope), Ok(()));
    s.set(&mut scope, 2).unwrap();
    assert_eq!(scope.next_effect(), None);
}

#[test]
fn set_notifies_even_when_the_value_is_the_same() {
    let mut scope: Scope<i64> = Scope::new();
    let s = scope.signal(5).unwrap();
    let c = scope.computed().unwrap();
    assert_eq!(c.get(&mut scope), Ok(Poll::Evaluate));
    assert_eq!(s.get(&mut scope), Ok(5));
    assert_eq!(c.complete(&mut scope, 5), Ok(()));
    assert_eq!(c.get(&mut scope), Ok(Poll::Ready(5)));
    s.set(&mut scope, 5).unwrap();
    assert_eq!(c.get(&mut scope), Ok(Poll::Evaluate));
    assert_eq!(c.abandon(&mut scope), Ok(()));
}

#[test]
fn update_applies_the_function_once() {
    let mut scope: Scope<i64> = Scope::new();
    let s = scope.signal(5).unwrap();
    let e = scope.effect().unwrap();
    s.get(&mut scope).unwrap();
    e.finish(&mut scope).unwrap();
    assert_eq!(s.update(&mut scope, |v| v * 3 + 1), Ok(16));
    assert_eq!(s.peek(&scope), Ok(16));
    assert_eq!(scope.pending_effects(), 1);
    assert_eq!(s.update(&mut scope, |v| v - 1), Ok(15));
    assert_eq!(scope.pending_effects(), 1);
    assert_eq!(s.peek(&scope), Ok(15));
}

#[test]
fn peek_is_not_tracked() {
    let mut scope: Scope<i64> = Scope::new();
    let s = scope.signal(5).unwrap();
    let e = scope.effect().unwrap();
    assert_eq!(s.peek(&scope), Ok(5));
    e.finish(&mut scope).unwrap();
    s.set(&mut scope, 6).unwrap();
    assert_eq!(scope.next_effect(), None);
}

#[test]
fn poisoned_signal_fails_with_lock() {
    let mut scope: Scope<i64> = Scope::new_shared();
    let s = scope.signal(5).unwrap();
    let t = scope.signal(6).unwrap();
    assert_eq!(s.poison(&mut scope), Ok(()));
    assert_eq!(s.get(&mut scope), Err(SignalError::Lock));
    assert_eq!(s.peek(&scope), Err(SignalError::Lock));
    assert_eq!(s.set(&mut scope, 1), Err(SignalError::Lock));
    assert_eq!(s.update(&mut scope, |v| v + 1), Err(SignalError::Lock));
    assert_eq!(s.poison(&mut scope), Ok(()));
    // the other signal of the scope is not touched
    assert_eq!(t.get(&mut scope), Ok(6));
    assert_eq!(t.set(&mut scope, 7), Ok(()));
    assert_eq!(t.peek(&scope), Ok(7));
}

#[test]
fn a_derivation_that_reads_a_poisoned_signal_reports_poisoned() {
    let mut scope: Scope<i64> = Scope::new_shared();
    let s = scope.signal(5).unwrap();
    let c = scope.computed().unwrap();
    s.poison(&mut scope).unwrap();
    let mut runs: u32 = 0;
    let r = read(&mut scope, c, &mut runs, &mut |scope| signal_value(scope, s));
    assert_eq!(r, Err(EvalError::Poisoned));
    assert!(!scope.is_evaluating());
    assert_eq!(c.get(&mut scope), Ok(Poll::Evaluate));
}

#[test]
fn only_a_shared_scope_can_be_poisoned() {
    let mut scope: Scope<i64> = Scope::new();
    let s = scope.signal(5).unwrap();
    assert_eq!(s.poison(&mut scope), Err(SignalError::NotShared));
    assert_eq!(s.get(&mut scope), Ok(5));
}

#[test]
fn handles_of_the_wrong_kind_are_foreign() {
    let mut scope: Scope<i64> = Scope::new_shared();
    let s = scope.signal(5).unwrap();
    let c = scope.computed().unwrap();
    let e = scope.effect().unwrap();
    e.finish(&mut scope).unwrap();
    let not_a_signal = Signal { id: c.id };
    let nowhere = Signal { id: 99 };
    assert_eq!(not_a_signal.get(&mut scope), Err(SignalError::Foreign));
    assert_eq!(not_a_signal.set(&mut scope, 1), Err(SignalError::Foreign));
    assert_eq!(not_a_signal.poison(&mut scope), Err(SignalError::Foreign));
    assert_eq!(nowhere.get(&mut scope), Err(SignalError::Foreign));
    assert_eq!(nowhere.peek(&scope), Err(SignalError::Foreign));
    assert_eq!(nowhere.update(&mut scope, |v| v), Err(SignalError::Foreign));
    assert_eq!(Computed { id: s.id }.get(&mut scope), Err(EvalError::Foreign));
    assert_eq!(Computed { id: 99 }.complete(&mut scope, 1), Err(EvalError::Foreign));
    assert_eq!(Computed { id: e.id }.abandon(&mut scope), Err(EvalError::Foreign));
    assert_eq!(Effect { id: c.id }.finish(&mut scope), Err(EvalError::Foreign));
    assert_eq!(Effect { id: 99 }.dispose(&mut scope), Err(EvalError::Foreign));
    assert_eq!(Effect { id: s.id }.dispose(&mut scope), Err(EvalError::Foreign));
}

#[test]
fn ending_an_evaluation_out_of_turn_is_refused() {
    let mut scope: Scope<i64> = Scope::new();
    let a = scope.computed().unwrap();
    let b = scope.computed().unwrap();
    assert_eq!(a.complete(&mut scope, 1), Err(EvalError::NotRunning));
    assert_eq!(a.abandon(&mut scope), Err(EvalError::NotRunning));
    assert_eq!(a.get(&mut scope), Ok(Poll::Evaluate));
    assert_eq!(b.get(&mut scope), Ok(Poll::Evaluate));
    assert_eq!(a.complete(&mut scope, 1), Err(EvalError::NotRunning));
    assert_eq!(b.complete(&mut scope, 2), Ok(()));
    assert_eq!(a.complete(&mut scope, 1), Ok(()));
    let e = scope.effect().unwrap();
    assert_eq!(e.finish(&mut scope), Ok(()));
    assert_eq!(e.finish(&mut scope), Err(EvalError::NotRunning));
}

#[test]
fn a_write_during_an_evaluation_keeps_the_value_stale() {
    let mut scope: Scope<i64> = Scope::new();
    let s = scope.signal(1).unwrap();
    let c = scope.computed().unwrap();
    assert_eq!(c.get(&mut scope), Ok(Poll::Evaluate));
    assert_eq!(s.get(&mut scope), Ok(1));
    s.set(&mut scope, 2).unwrap();
    assert_eq!(c.complete(&mut scope, 1), Ok(()));
    assert_eq!(c.get(&mut scope), Ok(Poll::Evaluate));
    assert_eq!(s.get(&mut scope), Ok(2));
    assert_eq!(c.complete(&mut scope, 2), Ok(()));
    assert_eq!(c.get(&mut scope), Ok(Poll::Ready(2)));
}

#[test]
fn handles_are_the_indices_of_creation() {
    let mut scope: Scope<i64> = Scope::new();
    assert_eq!(scope.len(), 0);
    assert_eq!(scope.signal(1), Ok(Signal { id: 0 }));
    assert_eq!(scope.computed(), Ok(Computed { id: 1 }));
    assert_eq!(scope.effect(), Ok(Effect { id: 2 }));
    assert_eq!(scope.len(), 3);
    assert!(scope.is_evaluating());
}

#[test]
fn signal_errors_map_to_evaluation_errors() {
    assert_eq!(EvalError::from_signal(SignalError::Lock), EvalError::Poisoned);
    assert_eq!(EvalError::from_signal(SignalError::ScopeDisposed), EvalError::ScopeDisposed);
    assert_eq!(EvalError::from_signal(SignalError::Foreign), EvalError::Foreign);
    assert_eq!(EvalError::from_signal(SignalError::NotShared), EvalError::Foreign);
}

#[test]
fn error_messages() {
    assert_eq!(EvalError::ScopeDisposed.message(), "scope disposed");
    assert_eq!(EvalError::CycleDetected.message(), "cycle detected");
    assert_eq!(EvalError::Poisoned.message(), "poisoned");
    assert_eq!(EvalError::Foreign.message(), "unknown node");
    assert_eq!(EvalError::NotRunning.message(), "not running");
}

#[test]
fn dependencies_are_replaced_on_every_run() {
    let mut scope: Scope<i64> = Scope::new();
    let a = scope.signal(1).unwrap();
    let b = scope.signal(2).unwrap();
    let c = scope.computed().unwrap();
    assert_eq!(c.get(&mut scope), Ok(Poll::Evaluate));
    assert_eq!(b.get(&mut scope), Ok(2));
    assert_eq!(a.get(&mut scope), Ok(1));
    assert_eq!(a.get(&mut scope), Ok(1));
    assert_eq!(c.complete(&mut scope, 3), Ok(()));
    assert_eq!(scope.dependencies(c.id), vec![a.id, b.id]);
    assert_eq!(scope.subscribers(a.id), vec![c.id]);
    assert_eq!(scope.subscribers(b.id), vec![c.id]);

    a.set(&mut scope, 5).unwrap();
    assert_eq!(c.get(&mut scope), Ok(Poll::Evaluate));
    assert_eq!(scope.dependencies(c.id), Vec::<usize>::new());
    assert_eq!(b.get(&mut scope), Ok(2));
    assert_eq!(c.complete(&mut scope, 2), Ok(()));
    assert_eq!(scope.dependencies(c.id), vec![b.id]);
    assert_eq!(scope.subscribers(a.id), Vec::<usize>::new());
    // a is no longer read: writing it leaves the cache current
    a.set(&mut scope, 6).unwrap();
    assert_eq!(c.get(&mut scope), Ok(Poll::Ready(2)));
    assert_eq!(scope.subscribers(99), Vec::<usize>::new());
    assert_eq!(scope.dependencies(99), Vec::<usize>::new());
}

#[test]
fn subscribers_keep_the_order_of_subscription() {
    let mut scope: Scope<i64> = Scope::new();
    let s = scope.signal(0).unwrap();
    let first = scope.effect().unwrap();
    first.finish(&mut scope).unwrap();
    let second = scope.effect().unwrap();
    s.get(&mut scope).unwrap();
    second.finish(&mut scope).unwrap();
    // the effect created first subscribes last
    let c = scope.computed().unwrap();
    assert_eq!(c.get(&mut scope), Ok(Poll::Evaluate));
    s.get(&mut scope).unwrap();
    assert_eq!(c.complete(&mut scope, 0), Ok(()));
    assert_eq!(scope.subscribers(s.id), vec![second.id, c.id]);
    s.set(&mut scope, 1).unwrap();
    assert_eq!(scope.next_effect(), Some(second));
    assert_eq!(second.finish(&mut scope), Ok(()));
    assert_eq!(scope.next_effect(), None);
}

#[test]
fn effects_behind_derived_values_follow_the_direct_ones() {
    let mut scope: Scope<i64> = Scope::new();
    let s = scope.signal(0).unwrap();
    let c = scope.computed().unwrap();
    // the first effect reads the signal through the derived value
    let through = scope.effect().unwrap();
    assert_eq!(c.get(&mut scope), Ok(Poll::Evaluate));
    s.get(&mut scope).unwrap();
    assert_eq!(c.complete(&mut scope, 0), Ok(()));
    through.finish(&mut scope).unwrap();
    // the second reads the signal itself
    let direct = scope.effect().unwrap();
    s.get(&mut scope).unwrap();
    direct.finish(&mut scope).unwrap();
    assert_eq!(scope.subscribers(s.id), vec![c.id, direct.id]);
    assert_eq!(scope.subscribers(c.id), vec![through.id]);

    s.set(&mut scope, 1).unwrap();
    assert_eq!(scope.pending_effects(), 2);
    assert_eq!(scope.next_effect(), Some(direct));
    assert_eq!(direct.finish(&mut scope), Ok(()));
    assert_eq!(scope.next_effect(), Some(through));
    assert_eq!(through.finish(&mut scope), Ok(()));
}

#[test]
fn chain_through_closures_equals_the_composition() {
    let mut scope: Scope<i64> = Scope::new();
    let s = scope.signal(3).unwrap();
    let a = scope.computed().unwrap();
    let b = scope.computed().unwrap();
    let mut f_runs: u32 = 0;
    let mut g_runs: u32 = 0;
    let r = b.get_through(&mut scope, a, s, |x| { f_runs += 1; x + 1 }, |x| { g_runs += 1; x * 2 });
    assert_eq!(r, Ok(8));
    let r = b.get_through(&mut scope, a, s, |x| { f_runs += 1; x + 1 }, |x| { g_runs += 1; x * 2 });
    assert_eq!(r, Ok(8));
    assert_eq!((f_runs, g_runs), (1, 1));
    assert_eq!(scope.subscribers(s.id), vec![a.id]);
    assert_eq!(scope.subscribers(a.id), vec![b.id]);

    s.set(&mut scope, 10).unwrap();
    let r = b.get_through(&mut scope, a, s, |x| { f_runs += 1; x + 1 }, |x| { g_runs += 1; x * 2 });
    assert_eq!(r, Ok(22));
    assert_eq!((f_runs, g_runs), (2, 2));
    // the inner value is current now: its derivation does not run
    let r = a.get_from_signal(&mut scope, s, |x| { f_runs += 1; x + 1 });
    assert_eq!(r, Ok(11));
    assert_eq!(f_runs, 2);
    assert!(!scope.is_evaluating());
}

#[test]
fn a_current_inner_value_is_not_derived_again() {
    let mut scope: Scope<i64> = Scope::new();
    let s = scope.signal(3).unwrap();
    let a = scope.computed().unwrap();
    let b = scope.computed().unwrap();
    let mut f_runs: u32 = 0;
    assert_eq!(a.get_from_signal(&mut scope, s, |x| { f_runs += 1; x * x }), Ok(9));
    assert_eq!(b.get_through(&mut scope, a, s, |x| { f_runs += 1; x * x }, |x| x % 2), Ok(1));
    assert_eq!(f_runs, 1);
    s.set(&mut scope, 4).unwrap();
    assert_eq!(b.get_through(&mut scope, a, s, |x| { f_runs += 1; x * x }, |x| x % 2), Ok(0));
    assert_eq!(f_runs, 2);
}

#[test]
fn closure_reads_report_failures() {
    let mut scope: Scope<i64> = Scope::new_shared();
    let s = scope.signal(3).unwrap();
    let a = scope.computed().unwrap();
    let b = scope.computed().unwrap();
    s.poison(&mut scope).unwrap();
    assert_eq!(a.get_from_signal(&mut scope, s, |x| x), Err(EvalError::Poisoned));
    assert!(!scope.is_evaluating());
    assert_eq!(b.get_through(&mut scope, a, s, |x| x, |x| x), Err(EvalError::Poisoned));
    assert!(!scope.is_evaluating());
    assert_eq!(a.get(&mut scope), Ok(Poll::Evaluate));
    assert_eq!(a.abandon(&mut scope), Ok(()));
    // a value derived from itself
    assert_eq!(b.get_through(&mut scope, b, s, |x| x, |x| x), Err(EvalError::CycleDetected));
    assert!(!scope.is_evaluating());
    // handles of the wrong kind
    assert_eq!(
        b.get_through(&mut scope, Computed { id: s.id }, s, |x| x, |x| x),
        Err(EvalError::Foreign)
    );
    assert_eq!(a.get_from_signal(&mut scope, Signal { id: b.id }, |x| x), Err(EvalError::Foreign));
    assert_eq!(Computed { id: 99 }.get_from_signal(&mut scope, s, |x| x), Err(EvalError::Foreign));
    assert!(!scope.is_evaluating());
}

#[test]
fn read_signal_needs_a_running_derivation() {
    let mut scope: Scope<i64> = Scope::new_shared();
    let s = scope.signal(3).unwrap();
    let a = scope.computed().unwrap();
    assert_eq!(a.read_signal(&mut scope, s), Err(EvalError::NotRunning));
    assert_eq!(a.get(&mut scope), Ok(Poll::Evaluate));
    assert_eq!(a.read_signal(&mut scope, s), Ok(3));
    assert_eq!(scope.subscribers(s.id), vec![a.id]);
    s.poison(&mut scope).unwrap();
    assert_eq!(a.read_signal(&mut scope, s), Err(EvalError::Poisoned));
    assert!(!scope.is_evaluating());
    assert_eq!(a.get(&mut scope), Ok(Poll::Evaluate));
}

#[test]
fn the_queue_follows_the_walk_along_subscriber_lists() {
    let mut scope: Scope<i64> = Scope::new();
    let s = scope.signal(1).unwrap();
    let a = scope.computed().unwrap();
    let b = scope.computed().unwrap();
    let c = scope.computed().unwrap();

    let e1 = scope.effect().unwrap();
    assert_eq!(a.get_from_signal(&mut scope, s, |x| x + 1), Ok(2));
    e1.finish(&mut scope).unwrap();

    let e2 = scope.effect().unwrap();
    assert_eq!(b.get_from_signal(&mut scope, s, |x| x * 10), Ok(10));
    e2.finish(&mut scope).unwrap();

    let e3 = scope.effect().unwrap();
    assert_eq!(s.get(&mut scope), Ok(1));
    e3.finish(&mut scope).unwrap();

    let e4 = scope.effect().unwrap();
    assert_eq!(c.get(&mut scope), Ok(Poll::Evaluate));
    assert_eq!(a.get(&mut scope), Ok(Poll::Ready(2)));
    assert_eq!(b.get(&mut scope), Ok(Poll::Ready(10)));
    assert_eq!(c.complete(&mut scope, 12), Ok(()));
    e4.finish(&mut scope).unwrap();

    assert_eq!(scope.subscribers(s.id), vec![a.id, b.id, e3.id]);
    assert_eq!(scope.subscribers(a.id), vec![e1.id, c.id]);
    assert_eq!(scope.subscribers(b.id), vec![e2.id, c.id]);
    assert_eq!(scope.subscribers(c.id), vec![e4.id]);
    assert_eq!(scope.dependencies(c.id), vec![a.id, b.id]);

    s.set(&mut scope, 2).unwrap();
    assert_eq!(scope.pending_effects(), 4);
    let mut order: Vec<usize> = Vec::new();
    while let Some(e) = scope.next_effect() {
        order.push(e.id);
        e.finish(&mut scope).unwrap();
    }
    assert_eq!(order, vec![e3.id, e1.id, e2.id, e4.id]);
    assert_eq!(a.get(&mut scope), Ok(Poll::Evaluate));
    assert_eq!(a.abandon(&mut scope), Ok(()));
    assert_eq!(c.get(&mut scope), Ok(Poll::Evaluate));
    assert_eq!(c.abandon(&mut scope), Ok(()));
}

#[test]
fn effects_that_wait_keep_their_place() {
    let mut scope: Scope<i64> = Scope::new();
    let s = scope.signal(1).unwrap();
    let t = scope.signal(2).unwrap();
    let on_t = scope.effect().unwrap();
    assert_eq!(t.get(&mut scope), Ok(2));
    on_t.finish(&mut scope).unwrap();
    let on_both = scope.effect().unwrap();
    assert_eq!(s.get(&mut scope), Ok(1));
    assert_eq!(t.get(&mut scope), Ok(2));
    on_both.finish(&mut scope).unwrap();
    let on_s = scope.effect().unwrap();
    assert_eq!(s.get(&mut scope), Ok(1));
    on_s.finish(&mut scope).unwrap();

    s.set(&mut scope, 5).unwrap();
    t.set(&mut scope, 6).unwrap();
    let mut order: Vec<usize> = Vec::new();
    while let Some(e) = scope.next_effect() {
        order.push(e.id);
        e.finish(&mut scope).unwrap();
    }
    assert_eq!(order, vec![on_both.id, on_s.id, on_t.id]);
}

#[test]
fn a_disposed_scope_is_not_woken_through_another_scope() {
    let mut first: Scope<i64> = Scope::new();
    let mut second: Scope<i64> = Scope::new();
    let s = first.signal(1).unwrap();
    let alias = second.signal(1).unwrap();
    assert_eq!(s, alias);
    let e = first.effect().unwrap();
    assert_eq!(s.get(&mut first), Ok(1));
    e.finish(&mut first).unwrap();
    first.dispose();
    assert_eq!(alias.set(&mut second, 2), Ok(()));
    assert_eq!(alias.peek(&second), Ok(2));
    assert_eq!(first.next_effect(), None);
    assert_eq!(s.get(&mut first), Err(SignalError::ScopeDisposed));
    assert_eq!(second.next_effect(), None);
}
