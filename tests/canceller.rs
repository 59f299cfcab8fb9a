use std::sync::atomic::{AtomicBool, Ordering};
use std::sync::Arc;
use surrealdb::canceller::Canceller;

#[test]
fn cancel_is_seen_by_every_reader() {
    let flag = Arc::new(AtomicBool::new(false));
    let c = Canceller::new(flag.clone());
    let other = Canceller::new(flag.clone());
    assert!(!c.is_cancelled());
    c.cancel();
    assert!(c.is_cancelled());
    assert!(other.is_cancelled());
    assert!(flag.load(Ordering::Relaxed));
    c.cancel();
    assert!(c.is_cancelled());
    assert!(flag.load(Ordering::Relaxed));
}

#[test]
fn default_canceller_starts_clear() {
    let c = Canceller::default();
    assert!(!c.is_cancelled());
    c.cancel();
    assert!(c.is_cancelled());
}
