use berlekamp_massey::Cacher;
use std::cell::Cell;

#[test]
fn value_is_calculated_once_per_argument() {
    let calls = Cell::new(0u32);
    let mut c = Cacher::new(|x: u64| {
        calls.set(calls.get() + 1);
        x * 2 + 1
    });
    assert_eq!(*c.value(3), 7);
    assert_eq!(*c.value(3), 7);
    assert_eq!(calls.get(), 1);
    assert_eq!(*c.value(10), 21);
    assert_eq!(calls.get(), 2);
    assert_eq!(*c.value(3), 7);
    assert_eq!(calls.get(), 2);
}
