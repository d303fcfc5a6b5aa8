use reactive_scope::counter::{count_fits, CounterValue, Observation, ReactiveCounter, MAX_COUNT};
use reactive_scope::error::{EvalError, SignalError};
use reactive_scope::lifecycle::{can_double, Counter, CounterProps};
use reactive_scope::shared::{AdvancedCounter, CounterField, SharedTotal, UpdateFailure};

#[test]
fn reactive_counter_example_scenario() {
    let mut c = ReactiveCounter::create(3);
    assert_eq!(c.get_count(), Ok(3));
    assert_eq!(c.square_runs(), 0);
    assert_eq!(c.is_square_even(), Ok(false));
    assert_eq!(c.get_square(), Ok(9));
    assert_eq!(c.update(4), Ok(()));
    assert_eq!(c.is_square_even(), Ok(true));
    assert_eq!(c.get_square(), Ok(16));
    assert_eq!(c.square_runs(), 2);
    assert_eq!(c.even_runs(), 2);
}

#[test]
fn reactive_counter_memoizes() {
    let mut c = ReactiveCounter::create(5);
    assert_eq!(c.get_square(), Ok(25));
    assert_eq!(c.get_square(), Ok(25));
    assert_eq!(c.is_square_even(), Ok(false));
    assert_eq!(c.is_square_even(), Ok(false));
    assert_eq!(c.square_runs(), 1);
    assert_eq!(c.even_runs(), 1);
}

#[test]
fn reactive_counter_increment_and_decrement() {
    let mut c = ReactiveCounter::create(3);
    assert_eq!(c.increment(), Ok(()));
    assert_eq!(c.increment(), Ok(()));
    assert_eq!(c.get_count(), Ok(5));
    assert_eq!(c.square_runs(), 0);
    assert_eq!(c.decrement(), Ok(()));
    assert_eq!(c.get_count(), Ok(4));
    assert_eq!(c.get_square(), Ok(16));
    assert_eq!(c.is_square_even(), Ok(true));
    assert_eq!(c.square_runs(), 1);
}

#[test]
fn reactive_counter_negative_count() {
    let mut c = ReactiveCounter::create(0);
    assert_eq!(c.decrement(), Ok(()));
    assert_eq!(c.get_count(), Ok(-1));
    assert_eq!(c.get_square(), Ok(1));
    assert_eq!(c.is_square_even(), Ok(false));
}

#[test]
fn reactive_counter_largest_count() {
    assert!(count_fits(MAX_COUNT));
    assert!(count_fits(-MAX_COUNT));
    assert!(!count_fits(MAX_COUNT + 1));
    assert!(!count_fits(-MAX_COUNT - 1));
    let mut c = ReactiveCounter::create(MAX_COUNT);
    assert_eq!(c.get_square(), Ok(2147395600));
    assert_eq!(c.is_square_even(), Ok(true));
}

#[test]
fn watcher_runs_once_per_write() {
    let mut c = ReactiveCounter::create(5);
    assert_eq!(c.initialize(), Ok(()));
    assert_eq!(c.observations(), &vec![Observation { count: 5, square: 25, is_even: false }]);
    assert_eq!(c.square_runs(), 1);
    assert_eq!(c.increment(), Ok(()));
    assert_eq!(
        c.observations(),
        &vec![
            Observation { count: 5, square: 25, is_even: false },
            Observation { count: 6, square: 36, is_even: true },
        ]
    );
    assert_eq!(c.square_runs(), 2);
    assert_eq!(c.even_runs(), 2);
    // the effect has brought the caches up to date
    assert_eq!(c.get_square(), Ok(36));
    assert_eq!(c.square_runs(), 2);
    // a second initialize makes no second watcher
    assert_eq!(c.initialize(), Ok(()));
    assert_eq!(c.update(7), Ok(()));
    assert_eq!(c.observations().len(), 3);
    assert_eq!(c.observations()[2], Observation { count: 7, square: 49, is_even: false });
}

#[test]
fn disposed_counter_refuses() {
    let mut c = ReactiveCounter::create(5);
    assert_eq!(c.initialize(), Ok(()));
    c.dispose();
    assert_eq!(c.get_count(), Err(EvalError::ScopeDisposed));
    assert_eq!(c.get_square(), Err(EvalError::ScopeDisposed));
    assert_eq!(c.is_square_even(), Err(EvalError::ScopeDisposed));
    assert_eq!(c.update(1), Err(EvalError::ScopeDisposed));
    assert_eq!(c.increment(), Err(EvalError::ScopeDisposed));
    assert_eq!(c.decrement(), Err(EvalError::ScopeDisposed));
    assert_eq!(c.initialize(), Err(EvalError::ScopeDisposed));
    assert_eq!(c.observations().len(), 1);
}

#[test]
fn counter_values_compare() {
    assert_eq!(CounterValue::Number(3), CounterValue::Number(3));
    assert_ne!(CounterValue::Number(1), CounterValue::Flag(true));
}

#[test]
fn advanced_counter_follows_the_count() {
    let mut total = SharedTotal::new(0);
    let mut c = AdvancedCounter::create(5);
    assert_eq!(c.get_count(), Ok(5));
    assert_eq!(c.get_square(), Ok(25));
    assert_eq!(c.is_square_even(), Ok(false));
    assert_eq!(c.get_shared_total(&total), Ok(0));
    assert_eq!(c.increment(&mut total), Ok(()));
    assert_eq!(c.get_count(), Ok(6));
    assert_eq!(c.get_square(), Ok(36));
    assert_eq!(c.is_square_even(), Ok(true));
    assert_eq!(c.get_shared_total(&total), Ok(1));
    assert_eq!(c.increment(&mut total), Ok(()));
    assert_eq!(c.get_count(), Ok(7));
    assert_eq!(c.get_square(), Ok(49));
    assert_eq!(total.get(), Ok(2));
    assert_eq!(c.decrement(&mut total), Ok(()));
    assert_eq!(c.get_count(), Ok(6));
    assert_eq!(total.get(), Ok(1));
    assert_eq!(c.update(-3), Ok(()));
    assert_eq!(c.get_count(), Ok(-3));
    assert_eq!(c.get_square(), Ok(9));
    assert_eq!(c.is_square_even(), Ok(false));
    assert_eq!(total.get(), Ok(1));
}

#[test]
fn two_counters_share_one_total() {
    let mut total = SharedTotal::new(10);
    let mut first = AdvancedCounter::create(0);
    let mut second = AdvancedCounter::create(100);
    for _ in 0..3 {
        assert_eq!(first.increment(&mut total), Ok(()));
    }
    for _ in 0..2 {
        assert_eq!(second.decrement(&mut total), Ok(()));
    }
    assert_eq!(first.get_shared_total(&total), Ok(11));
    assert_eq!(second.get_shared_total(&total), Ok(11));
    assert_eq!(first.get_count(), Ok(3));
    assert_eq!(second.get_count(), Ok(98));
    // a write from outside the counters is seen by both
    assert_eq!(total.set(40), Ok(()));
    assert_eq!(first.get_shared_total(&total), Ok(40));
    assert_eq!(second.get_shared_total(&total), Ok(40));
    total.poison();
    assert_eq!(total.set(1), Err(SignalError::Lock));
    assert_eq!(first.get_shared_total(&total), Err(SignalError::Lock));
    assert_eq!(second.increment(&mut total), Err(UpdateFailure::SharedTotal));
    assert_eq!(second.get_count(), Ok(99));
    assert_eq!(second.get_square(), Ok(9801));
}

#[test]
fn advanced_counter_with_poisoned_pieces() {
    let mut total = SharedTotal::new(10);
    let mut c = AdvancedCounter::create(2);
    c.poison(CounterField::Square);
    assert_eq!(c.get_square(), Err(SignalError::Lock));
    assert_eq!(c.increment(&mut total), Err(UpdateFailure::Square));
    assert_eq!(c.get_count(), Ok(3));
    assert_eq!(c.is_square_even(), Ok(false));
    assert_eq!(total.get(), Ok(11));
    assert_eq!(c.update(4), Err(UpdateFailure::Square));
    assert_eq!(c.get_count(), Ok(4));
    // the parity was not reached
    assert_eq!(c.is_square_even(), Ok(false));

    let mut d = AdvancedCounter::create(2);
    d.poison(CounterField::IsEven);
    assert_eq!(d.update(3), Err(UpdateFailure::IsEven));
    assert_eq!(d.get_square(), Ok(9));
    assert_eq!(d.is_square_even(), Err(SignalError::Lock));
    assert_eq!(d.increment(&mut total), Err(UpdateFailure::IsEven));
    assert_eq!(d.get_count(), Ok(4));
    assert_eq!(d.get_square(), Ok(16));
    assert_eq!(total.get(), Ok(12));
    d.poison(CounterField::Count);
    assert_eq!(d.increment(&mut total), Err(UpdateFailure::Count));
    assert_eq!(d.decrement(&mut total), Err(UpdateFailure::Count));
    assert_eq!(total.get(), Ok(12));
    assert_eq!(d.get_count(), Err(SignalError::Lock));
    assert_eq!(d.get_square(), Ok(16));
    assert_eq!(d.update(1), Err(UpdateFailure::Count));
    assert_eq!(d.try_increment(), Err(UpdateFailure::Count));
    assert_eq!(d.get_square(), Ok(16));
}

#[test]
fn a_step_that_stops_at_the_first_failure() {
    let mut c = AdvancedCounter::create(3);
    assert_eq!(c.try_increment(), Ok(()));
    assert_eq!(c.get_count(), Ok(4));
    assert_eq!(c.get_square(), Ok(16));
    assert_eq!(c.is_square_even(), Ok(true));
    assert_eq!(c.try_decrement(), Ok(()));
    assert_eq!(c.try_decrement(), Ok(()));
    assert_eq!(c.get_count(), Ok(2));
    assert_eq!(c.get_square(), Ok(4));
    c.poison(CounterField::Square);
    assert_eq!(c.try_increment(), Err(UpdateFailure::Square));
    assert_eq!(c.get_count(), Ok(3));
    // the parity still belongs to the count before
    assert_eq!(c.is_square_even(), Ok(true));
    let mut d = AdvancedCounter::create(3);
    d.poison(CounterField::IsEven);
    assert_eq!(d.try_decrement(), Err(UpdateFailure::IsEven));
    assert_eq!(d.get_count(), Ok(2));
    assert_eq!(d.get_square(), Ok(4));
}

#[test]
fn update_failure_messages() {
    assert_eq!(UpdateFailure::Count.message(), "Failed to update count");
    assert_eq!(UpdateFailure::SharedTotal.message(), "Failed to update shared total");
    assert_eq!(UpdateFailure::Square.message(), "Failed to update square");
    assert_eq!(UpdateFailure::IsEven.message(), "Failed to update is_even");
}

#[test]
fn lifecycle_counter_doubles() {
    let mut c = Counter::create(CounterProps { initial: 0, has_on_change: true });
    assert_eq!(c.get_count(), Ok(0));
    assert_eq!(c.get_double_count(), 0);
    assert_eq!(c.increment(), Ok(Some(1)));
    assert_eq!(c.get_count(), Ok(1));
    assert_eq!(c.get_double_count(), 2);
    assert_eq!(c.update(CounterProps { initial: 10, has_on_change: true }), Ok(Some(10)));
    assert_eq!(c.get_count(), Ok(10));
    assert_eq!(c.get_double_count(), 20);
    assert_eq!(c.increment(), Ok(Some(11)));
    assert_eq!(c.get_double_count(), 22);
    assert_eq!(c.decrement(), Ok(Some(10)));
    assert_eq!(c.get_double_count(), 20);
    // the same initial value does not start the count over
    assert_eq!(c.increment(), Ok(Some(11)));
    assert_eq!(c.update(CounterProps { initial: 10, has_on_change: false }), Ok(None));
    assert_eq!(c.get_count(), Ok(11));
    assert_eq!(c.increment(), Ok(None));
    assert_eq!(c.get_count(), Ok(12));
    assert_eq!(c.update(CounterProps { initial: 1, has_on_change: false }), Ok(None));
    assert_eq!(c.get_count(), Ok(1));
    assert_eq!(c.get_double_count(), 2);
}

#[test]
fn lifecycle_counter_poisoned() {
    let mut c = Counter::create(CounterProps { initial: 3, has_on_change: true });
    c.poison();
    assert_eq!(c.get_count(), Err(SignalError::Lock));
    assert_eq!(c.increment(), Err(SignalError::Lock));
    assert_eq!(c.decrement(), Err(SignalError::Lock));
    assert_eq!(c.get_double_count(), 6);
    assert_eq!(c.update(CounterProps { initial: 4, has_on_change: true }), Err(SignalError::Lock));
    assert_eq!(c.update(CounterProps { initial: 3, has_on_change: false }), Ok(None));
    assert_eq!(c.get_double_count(), 6);
}

#[test]
fn cloned_props_have_no_listener() {
    let p = CounterProps { initial: 7, has_on_change: true };
    let q = p.clone();
    assert_eq!(q.initial, 7);
    assert!(!q.has_on_change);
}

#[test]
fn doubling_range() {
    assert!(can_double(1073741823));
    assert!(!can_double(1073741824));
    assert!(can_double(-1073741824));
    assert!(!can_double(-1073741825));
    let c = Counter::create(CounterProps { initial: 1073741823, has_on_change: false });
    assert_eq!(c.get_double_count(), 2147483646);
}

#[test]
fn updates_outside_the_range_are_refused_where_nothing_is_computed() {
    // no square is taken on a disposed counter, no double on a poisoned one
    let mut c = ReactiveCounter::create(1);
    c.dispose();
    assert_eq!(c.update(i32::MAX), Err(EvalError::ScopeDisposed));
    let mut d = Counter::create(CounterProps { initial: 1, has_on_change: false });
    d.poison();
    assert_eq!(
        d.update(CounterProps { initial: i32::MAX, has_on_change: false }),
        Err(SignalError::Lock)
    );
    assert_eq!(d.get_double_count(), 2);
    let mut e = AdvancedCounter::create(1);
    e.poison(CounterField::Count);
    assert_eq!(e.update(i32::MAX), Err(UpdateFailure::Count));
    assert_eq!(e.get_square(), Ok(1));
}
