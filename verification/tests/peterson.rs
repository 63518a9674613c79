use rads::sync::peterson::{Peterson, PetersonA, PetersonB, Phase};
use std::sync::{
    atomic::{AtomicI32, Ordering},
    Arc,
};

const WORK: i32 = 10_000_000 / 2;

#[derive(Default)]
struct TestData(AtomicI32, AtomicI32);

impl TestData {
    // Relaxed since tests only require order within the same variable
    fn add_then_sub(&self) {
        let i = self.0.load(Ordering::Relaxed);
        let d = self.1.load(Ordering::Relaxed);
        self.0.store(i + 1, Ordering::Relaxed);
        self.1.store(d - 1, Ordering::Relaxed);
    }

    fn sub_then_add(&self) {
        let d = self.1.load(Ordering::Relaxed);
        let i = self.0.load(Ordering::Relaxed);
        self.1.store(d - 1, Ordering::Relaxed);
        self.0.store(i + 1, Ordering::Relaxed);
    }
}

#[test]
fn sequential_works() {
    let data = Arc::new(TestData::default());
    for _ in 0..WORK {
        data.add_then_sub();
    }
    for _ in 0..WORK {
        data.sub_then_add();
    }
    assert_eq!(data.0.load(Ordering::Relaxed), WORK * 2);
    assert_eq!(data.1.load(Ordering::Relaxed), -WORK * 2);
}

#[test]
fn peterson_free_lock_lets_either_role_in() {
    let mu = Arc::new(Peterson::default());
    let mut a = PetersonA::new(&mu);
    let mut b = PetersonB::new(&mu);
    for _ in 0..3 {
        a.request();
        assert!(a.try_enter());
        a.release();
        b.request();
        assert!(b.try_enter());
        b.release();
    }
    let fresh = Arc::new(Peterson::new());
    let mut b = PetersonB::new(&fresh);
    b.request();
    assert!(b.try_enter());
    b.release();
}

#[test]
fn peterson_holder_keeps_the_other_out() {
    let mu = Arc::new(Peterson::default());
    let mut a = PetersonA::new(&mu);
    let mut b = PetersonB::new(&mu);
    a.request();
    assert!(a.try_enter());
    b.request();
    for _ in 0..5 {
        assert!(!b.try_enter());
    }
    a.release();
    assert!(b.try_enter());
    // And the other way round.
    a.request();
    for _ in 0..5 {
        assert!(!a.try_enter());
    }
    b.release();
    assert!(a.try_enter());
    a.release();
}

#[test]
fn peterson_last_to_ask_waits() {
    // Both ask before either looks: the one that handed the turn over last
    // stays out.
    let mu = Arc::new(Peterson::default());
    let mut a = PetersonA::new(&mu);
    let mut b = PetersonB::new(&mu);
    a.request();
    b.request();
    assert!(!b.try_enter());
    assert!(a.try_enter());
    assert!(!b.try_enter());
    a.release();
    assert!(b.try_enter());
    b.release();

    b.request();
    a.request();
    assert!(!a.try_enter());
    assert!(b.try_enter());
    b.release();
    assert!(a.try_enter());
    a.release();
}

#[test]
fn peterson_waiting_role_is_not_overtaken_twice() {
    // A holds; B asks and is kept out; A lets go and asks again at once:
    // B gets in before A does.
    let mu = Arc::new(Peterson::default());
    let mut a = PetersonA::new(&mu);
    let mut b = PetersonB::new(&mu);
    a.request();
    assert!(a.try_enter());
    b.request();
    assert!(!b.try_enter());
    a.release();
    a.request();
    assert!(!a.try_enter());
    assert!(b.try_enter());
    assert!(!a.try_enter());
    b.release();
    assert!(a.try_enter());
    a.release();
}

#[test]
fn peterson_handles_share_one_lock() {
    let mu = Arc::new(Peterson::default());
    let other = Arc::new(Peterson::default());
    let mut a = PetersonA::new(&mu);
    let mut b_elsewhere = PetersonB::new(&other);
    let mut b = PetersonB::new(&mu);
    a.request();
    assert!(a.try_enter());
    // A lock of its own is free.
    b_elsewhere.request();
    assert!(b_elsewhere.try_enter());
    b.request();
    assert!(!b.try_enter());
    a.release();
    assert!(b.try_enter());
}

#[test]
fn peterson_locked_cycles_add_up() {
    // The two roles take the lock in turn around each cycle; every cycle
    // finds the lock free and the counters whole.
    let mu = Arc::new(Peterson::default());
    let mut a = PetersonA::new(&mu);
    let mut b = PetersonB::new(&mu);
    let data = TestData::default();
    let work = 10_000;
    for _ in 0..work {
        a.request();
        assert!(a.try_enter());
        data.add_then_sub();
        a.release();
        b.request();
        assert!(b.try_enter());
        data.sub_then_add();
        b.release();
    }
    assert_eq!(data.0.load(Ordering::Relaxed), work * 2);
    assert_eq!(data.1.load(Ordering::Relaxed), -work * 2);
}

#[test]
fn peterson_flag_down_lets_in() {
    assert_eq!(Phase::on_flag(false), Phase::Held);
    assert_eq!(Phase::on_flag(true), Phase::Checking);
}

#[test]
fn peterson_turn_decides_when_both_want() {
    assert_eq!(Phase::on_turn(true), Phase::Held);
    assert_eq!(Phase::on_turn(false), Phase::Waiting);
}
