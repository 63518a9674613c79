use rads::order::matrix_clock::{GCProcess, MatrixClock};
use rads::order::CausalOrder;
use rads::order::{GCClock, HasEvents, LogicalClock, OrdProcess};
use rand::Rng;

#[test]
fn gc_after_all_seen() {
    let mut rng = rand::thread_rng();
    let n_procs = rng.gen_range(2..=200);
    let mut ps: Vec<_> = (0..n_procs).map(|i| GCProcess::new(i, n_procs)).collect();

    // 0 does some work
    let n_events = rng.gen_range(1..=200);
    for _ in 0..n_events {
        ps[0].exec(|| {});
    }
    assert_eq!(ps[0].gc(), vec![]);
    assert_eq!(ps[0].events().len(), n_events);

    // Send from 0->1->2->...->n-1
    for (i, j) in (0..).zip(1..n_procs) {
        let mut e = None;
        ps[i].send(|ev| {
            e = Some(ev);
        });
        ps[j].recv(|| e.unwrap());
        assert_eq!(ps[0].gc(), vec![]);
        assert_eq!(ps[0].events().len(), n_events + 1); // + send event
    }

    // Send from n-1->0, can GC n_events + send event
    let mut e = None;
    ps.last_mut().unwrap().send(|ev| {
        e = Some(ev);
    });
    ps[0].recv(|| e.unwrap());
    let gc = ps[0].gc();
    assert_eq!(gc.len(), n_events + 1, "Got {gc:?}");
    assert_eq!(ps[0].events().len(), 1); // recv event only
}

#[test]
fn matrix_clock_partial_ord() {
    let e1 = MatrixClock::new(0, 2);
    assert_eq!(e1.partial_cmp(&e1), Some(std::cmp::Ordering::Equal));
    let e2 = e1.extend();
    assert_eq!(e1.partial_cmp(&e2), Some(std::cmp::Ordering::Less));
    assert_eq!(e2.partial_cmp(&e1), Some(std::cmp::Ordering::Greater));
    assert_eq!(e2.partial_cmp(&e2), Some(std::cmp::Ordering::Equal));

    let f1 = MatrixClock::new(1, 2);
    assert_eq!(e1.partial_cmp(&f1), None);
    assert_eq!(e2.partial_cmp(&f1), None);
    assert_eq!(f1.partial_cmp(&e1), None);
    assert_eq!(f1.partial_cmp(&e2), None);
    assert_eq!(f1.partial_cmp(&f1), Some(std::cmp::Ordering::Equal));
    let f2 = f1.merge(&e1);
    assert_eq!(e1.partial_cmp(&f2), Some(std::cmp::Ordering::Less));
    assert_eq!(e2.partial_cmp(&f2), None);
    assert_eq!(f1.partial_cmp(&f2), Some(std::cmp::Ordering::Less));
    assert_eq!(f2.partial_cmp(&e1), Some(std::cmp::Ordering::Greater));
    assert_eq!(f2.partial_cmp(&e2), None);
    assert_eq!(f2.partial_cmp(&f1), Some(std::cmp::Ordering::Greater));
    assert_eq!(f2.partial_cmp(&f2), Some(std::cmp::Ordering::Equal));
}

#[test]
fn matrix_clock_entries_exactly() {
    let e1 = MatrixClock::new(0, 2);
    assert_eq!(format!("{:?}", e1), "MatrixClock { i: 0, clk: [[1, 0], [0, 0]] }");
    let e2 = e1.extend();
    assert_eq!(format!("{:?}", e2), "MatrixClock { i: 0, clk: [[2, 0], [0, 0]] }");
    assert_eq!(format!("{:?}", e1), "MatrixClock { i: 0, clk: [[1, 0], [0, 0]] }");
    let f1 = MatrixClock::new(1, 2);
    assert_eq!(format!("{:?}", f1), "MatrixClock { i: 1, clk: [[0, 0], [0, 1]] }");
    // Rows take the larger entries; the owner's row takes the most of each
    // column, and counts the receipt.
    let f2 = f1.merge(&e2);
    assert_eq!(format!("{:?}", f2), "MatrixClock { i: 1, clk: [[2, 0], [2, 2]] }");
    let e3 = e2.merge(&f2);
    assert_eq!(format!("{:?}", e3), "MatrixClock { i: 0, clk: [[3, 2], [2, 2]] }");
}

#[test]
fn matrix_clock_three_processes_merge() {
    let a = MatrixClock::new(0, 3).extend();
    let b = MatrixClock::new(1, 3).merge(&a);
    assert_eq!(
        format!("{:?}", b),
        "MatrixClock { i: 1, clk: [[2, 0, 0], [2, 2, 0], [0, 0, 0]] }"
    );
    let c = MatrixClock::new(2, 3).merge(&b);
    assert_eq!(
        format!("{:?}", c),
        "MatrixClock { i: 2, clk: [[2, 0, 0], [2, 2, 0], [2, 2, 2]] }"
    );
}

#[test]
fn matrix_clock_single_process() {
    let c = MatrixClock::new(0, 1);
    assert_eq!(format!("{:?}", c), "MatrixClock { i: 0, clk: [[1]] }");
    assert!(c.gc(&c));
    assert!(!c.extend().gc(&c));
}

#[test]
fn matrix_clock_reflexive() {
    let mut c = MatrixClock::new(1, 4);
    for _ in 0..4 {
        assert_eq!(c.compare(&c), CausalOrder::Equal);
        assert!(c == c);
        assert!(c.clone() == c);
        c = c.extend();
    }
}

#[test]
fn matrix_clock_local_events_move_forward() {
    let c = MatrixClock::new(2, 3);
    let d = c.extend();
    assert_eq!(c.compare(&d), CausalOrder::Less);
    assert_eq!(d.compare(&c), CausalOrder::Greater);
    assert!(c < d);
    assert!(c != d);
}

#[test]
fn matrix_clock_fresh_clocks_are_unrelated() {
    for i in 0..3 {
        for j in 0..3 {
            let s = MatrixClock::new(i, 3);
            let t = MatrixClock::new(j, 3);
            if i == j {
                assert_eq!(s.compare(&t), CausalOrder::Equal);
            } else {
                assert_eq!(s.compare(&t), CausalOrder::Incomparable);
                assert_eq!(t.compare(&s), CausalOrder::Incomparable);
            }
        }
    }
}

#[test]
fn matrix_clock_widths_that_differ_do_not_compare() {
    let s = MatrixClock::new(0, 2);
    let t = MatrixClock::new(0, 3);
    assert_eq!(s.compare(&t), CausalOrder::Incomparable);
    assert_eq!(t.compare(&s), CausalOrder::Incomparable);
    assert_eq!(s.partial_cmp(&t), None);
    assert!(s != t);
}

#[test]
fn matrix_clock_compares_every_entry() {
    // The owners' rows alone would order these two; what each knows of the
    // other's knowledge does not.
    let a1 = MatrixClock::new(0, 2);
    let b1 = MatrixClock::new(1, 2);
    let b2 = b1.merge(&a1);
    let a2 = a1.merge(&b2);
    let b3 = b2.extend();
    assert_eq!(format!("{:?}", a2), "MatrixClock { i: 0, clk: [[2, 2], [1, 2]] }");
    assert_eq!(format!("{:?}", b3), "MatrixClock { i: 1, clk: [[1, 0], [1, 3]] }");
    assert_eq!(a2.compare(&b3), CausalOrder::Incomparable);
    let b4 = b3.merge(&a2);
    assert_eq!(format!("{:?}", b4), "MatrixClock { i: 1, clk: [[2, 2], [2, 4]] }");
    assert_eq!(a2.compare(&b4), CausalOrder::Less);
}

#[test]
fn matrix_clock_merge_dominates() {
    let e1 = MatrixClock::new(0, 3).extend();
    let f1 = MatrixClock::new(1, 3).extend().extend();
    let f2 = f1.merge(&e1);
    assert_eq!(e1.compare(&f2), CausalOrder::Less);
    assert_eq!(f1.compare(&f2), CausalOrder::Less);
    assert_eq!(f2.compare(&e1), CausalOrder::Greater);
    assert_eq!(f2.compare(&f1), CausalOrder::Greater);
    let e2 = e1.extend();
    assert_eq!(e2.compare(&f2), CausalOrder::Incomparable);
    assert_eq!(f2.compare(&e2), CausalOrder::Incomparable);
    let f3 = f2.merge(&e2);
    assert_eq!(e2.compare(&f3), CausalOrder::Less);
}

#[test]
fn matrix_clock_stability() {
    let a1 = MatrixClock::new(0, 2);
    let a2 = a1.extend();
    let b1 = MatrixClock::new(1, 2).merge(&a1);
    // B has seen a1 but A does not know that yet.
    assert!(!a1.gc(&a2));
    let a3 = a2.merge(&b1);
    assert_eq!(format!("{:?}", a3), "MatrixClock { i: 0, clk: [[3, 2], [1, 2]] }");
    assert!(a1.gc(&a3));
    assert!(!a2.gc(&a3));
    assert!(!a3.gc(&a3));
}

#[test]
fn matrix_clock_relay_chain() {
    let n = 5;
    let mut ps: Vec<GCProcess> = (0..n).map(|i| GCProcess::new(i, n)).collect();
    for p in ps.iter_mut() {
        p.exec(|| {});
    }
    for i in 0..n - 1 {
        let mut token = None;
        ps[i].send(|c| token = Some(c));
        ps[i + 1].recv(|| token.unwrap());
    }
    for i in 0..n - 1 {
        for j in i + 1..n {
            for s in ps[i].events() {
                for t in &ps[j].events()[1..] {
                    assert_eq!(s.compare(t), CausalOrder::Less);
                    assert!(s < t);
                }
            }
        }
    }
    for p in &ps {
        let log = p.events();
        assert!(log.iter().zip(&log[1..]).all(|(s, t)| s < t));
    }
}

#[test]
fn gc_of_an_empty_log_gives_nothing() {
    let mut p = GCProcess::new(0, 3);
    assert_eq!(p.gc(), vec![]);
    assert_eq!(p.events().len(), 0);
    assert_eq!(p.pid(), 0);
    assert_eq!(p.n_procs(), 3);
}

#[test]
fn gc_round_trip_of_four() {
    // Three local events, a token round 0 -> 1 -> 2 -> 3 -> 0: the three
    // events and the send are stable, the receipt stays. Each process on
    // the way counts two events of its own before it passes the token on,
    // the receipt and the send, on top of the one that its fresh clock
    // starts with.
    let n = 4;
    let m = 3;
    let mut ps: Vec<GCProcess> = (0..n).map(|i| GCProcess::new(i, n)).collect();
    for _ in 0..m {
        ps[0].advance();
    }
    assert_eq!(ps[0].gc(), vec![]);
    assert_eq!(ps[0].events().len(), m);
    let mut token = ps[0].emit();
    let kept: Vec<MatrixClock> = ps[0].events().to_vec();
    for j in 1..n {
        ps[j].absorb(&token);
        assert_eq!(ps[0].gc(), vec![]);
        token = ps[j].emit();
    }
    ps[0].absorb(&token);
    let gone = ps[0].gc();
    assert_eq!(gone.len(), m + 1);
    assert!(gone == kept);
    assert_eq!(ps[0].events().len(), 1);
    assert_eq!(
        format!("{:?}", ps[0].events()[0]),
        "MatrixClock { i: 0, clk: [[5, 3, 3, 3], [4, 3, 0, 0], [4, 3, 3, 0], [4, 3, 3, 3]] }"
    );
    // Nothing more to drop until others have seen the receipt too.
    assert_eq!(ps[0].gc(), vec![]);
    assert_eq!(ps[0].events().len(), 1);
}

#[test]
fn gc_drops_only_a_prefix() {
    // B has seen A's first two events, but not the third.
    let mut a = GCProcess::new(0, 2);
    let mut b = GCProcess::new(1, 2);
    a.advance();
    let first = a.emit();
    a.advance();
    b.absorb(&first);
    let reply = b.emit();
    a.absorb(&reply);
    assert_eq!(a.events().len(), 4);
    let gone = a.gc();
    assert_eq!(gone.len(), 2);
    assert_eq!(format!("{:?}", gone[0]), "MatrixClock { i: 0, clk: [[1, 0], [0, 0]] }");
    assert_eq!(format!("{:?}", gone[1]), "MatrixClock { i: 0, clk: [[2, 0], [0, 0]] }");
    assert_eq!(a.events().len(), 2);
    assert_eq!(format!("{:?}", a.events()[0]), "MatrixClock { i: 0, clk: [[3, 0], [0, 0]] }");
}

#[test]
fn gc_of_a_lonely_process_drops_everything() {
    let mut p = GCProcess::new(0, 1);
    p.advance();
    p.advance();
    p.advance();
    // Only the latest event is seen by all there is: the others it has
    // overtaken already count less.
    let gone = p.gc();
    assert_eq!(gone.len(), 3);
    assert_eq!(p.events().len(), 0);
}

#[test]
fn gc_process_logs_one_event_per_operation() {
    let mut p = GCProcess::new(1, 2);
    assert!(p.last_event().is_none());
    p.exec(|| {});
    let mut sent = None;
    p.send(|c| sent = Some(c));
    let sent = sent.unwrap();
    assert!(p.last_event() == Some(&sent));
    assert_eq!(format!("{:?}", sent), "MatrixClock { i: 1, clk: [[0, 0], [0, 2]] }");
    p.recv(|| MatrixClock::new(0, 2));
    assert_eq!(p.events().len(), 3);
    assert_eq!(
        format!("{:?}", p.last_event().unwrap()),
        "MatrixClock { i: 1, clk: [[1, 0], [1, 3]] }"
    );
}

#[test]
fn gc_process_push_event_appends() {
    let mut p = GCProcess::new(0, 2);
    let first = MatrixClock::new(0, 2);
    let second = first.extend();
    p.push_event(first);
    p.push_event(second);
    assert_eq!(p.events().len(), 2);
    assert!(p.events()[0] < p.events()[1]);
}
