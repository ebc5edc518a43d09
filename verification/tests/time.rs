use st2::{NextEpoch, Pair};
use std::time::Duration;

#[test]
fn pair_tick_epoch_advances_epoch_only() {
    let mut p = Pair::new(4u64, Duration::from_nanos(10));
    p.tick_epoch(&Duration::from_nanos(99));
    assert_eq!(p.first, 5);
    assert_eq!(p.second, Duration::from_nanos(10));
    assert_eq!(p.get_epoch(), 5);
}

#[test]
fn pair_tick_sys_sets_time_only() {
    let mut p = Pair::new(4u64, Duration::from_nanos(10));
    p.tick_sys(&Duration::from_nanos(99));
    assert_eq!(p.first, 4);
    assert_eq!(p.second, Duration::from_nanos(99));
    assert_eq!(p.get_epoch(), 4);
}

#[test]
fn duration_ticks_take_the_tuple_time() {
    let mut d = Duration::from_nanos(1);
    d.tick_epoch(&Duration::from_nanos(5));
    assert_eq!(d, Duration::from_nanos(5));
    d.tick_sys(&Duration::from_nanos(8));
    assert_eq!(d, Duration::from_nanos(8));
}
