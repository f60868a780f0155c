use stage_reservoir::control::DefaultControl;
use stage_reservoir::control::ReservoirControl;
use stage_reservoir::control::ScriptedControl;
use stage_reservoir::reservoir::StageReservoir;
use stage_reservoir::reservoir::Step;

fn mapper(s: &str) -> &str {
    // leak, for test convenience
    Box::leak(format!(":{}:", s).into_boxed_str())
}

#[test]
fn test() {
    let mut rsv = StageReservoir::with_control(7, ScriptedControl::new());
    let mut head = Vec::new();

    rsv.ctl.extend(vec![0, 1, 1, 2]);
    rsv.offer(Step(0), "zero");
    rsv.offer(Step(1), "one");
    rsv.offer(Step(2), "two");
    rsv.offer(Step(3), "three");
    rsv.commit_map(&mut head, mapper);
    assert_eq!(
        head,
        vec![
            (Step(0), ":zero:"),
            (Step(1), ":one:"),
            (Step(2), ":two:"),
            (Step(3), ":three:")
        ],
    );

    rsv.ctl.extend(vec![1, 2, 1, 3]);
    rsv.offer(Step(4), "four");
    rsv.offer(Step(5), "five");
    rsv.offer(Step(6), "six");
    rsv.offer(Step(7), "seven"); // this one exceeds capacity, evicting index 3
    rsv.commit_map(&mut head, mapper);
    assert_eq!(
        head,
        vec![
            (Step(0), ":zero:"),
            (Step(1), ":one:"),
            (Step(2), ":two:"),
            (Step(4), ":four:"),
            (Step(5), ":five:"),
            (Step(6), ":six:"),
            (Step(7), ":seven:"),
        ],
    );

    rsv.ctl.extend(vec![3, 7, 6]);
    rsv.offer(Step(8), "eight"); // evict index 3 (now "four")
    rsv.offer(Step(9), "nine"); // 7 >= 7, so drop (evict most recent)
    rsv.offer(Step(10), "ten"); // evict index 6 (now "nine")
    rsv.commit_map(&mut head, mapper);
    assert_eq!(
        head,
        vec![
            (Step(0), ":zero:"),
            (Step(1), ":one:"),
            (Step(2), ":two:"),
            (Step(5), ":five:"),
            (Step(6), ":six:"),
            (Step(7), ":seven:"),
            (Step(10), ":ten:"),
        ],
    );
}

#[test]
fn test_random() {
    // Seeded RNG, with tests for some invariants.
    let mut rsv = StageReservoir::new(10);
    let mut head = Vec::new();

    // Fill with `[i * i for i in range(1, 11)]`, exactly filling the reservoir.
    for i in 1..=10 {
        rsv.offer(Step(i * i), ());
        if i % 5 == 0 {
            rsv.commit(&mut head);
            assert_eq!(head, (1..=i).map(|j| (Step(j * j), ())).collect::<Vec<_>>());
        }
    }

    // Fill with more square numbers, keeping last but not overflowing.
    for i in 11..=16 {
        rsv.offer(Step(i * i), ());
        rsv.commit(&mut head);
        assert_eq!(head.len(), 10);
        assert_eq!(head.last(), Some(&(Step(i * i), ())));
    }
}

#[test]
fn test_deterministic_and_commit_independent() {
    let mut r1 = StageReservoir::new(10);
    let mut r2 = StageReservoir::new(10);
    let mut h1 = Vec::new();
    let mut h2 = Vec::new();
    for i in 0..100 {
        r1.offer(Step(i), ());
        r2.offer(Step(i), ());
        match i % 10 {
            2 => r1.commit(&mut h1),
            7 => r2.commit(&mut h2),
            9 => {
                r1.commit(&mut h1);
                r2.commit(&mut h2);
                assert_eq!(h1, h2);
            }
            _ => (),
        }
    }
}

#[test]
fn test_commit_idempotent_without_offers() {
    let mut rsv = StageReservoir::with_control(4, ScriptedControl::new());
    let mut head = Vec::new();
    rsv.ctl.extend(vec![0, 1, 0]);
    rsv.offer(Step(10), 'a');
    rsv.offer(Step(20), 'b');
    rsv.offer(Step(30), 'c');
    rsv.commit(&mut head);
    let snapshot = head.clone();
    rsv.commit(&mut head);
    assert_eq!(head, snapshot);
    rsv.commit(&mut head);
    assert_eq!(head, snapshot);
}

#[test]
fn test_default_control_is_deterministic() {
    let mut a = DefaultControl::new();
    let mut b = DefaultControl::new();
    let mut drawn = Vec::new();
    for n in 1..=50usize {
        let x = a.destination(n);
        let y = b.destination(n);
        assert!(x < n);
        assert_eq!(x, y);
        drawn.push(x);
    }
    // The very first draw is over `0..1`, so it must be 0.
    assert_eq!(drawn[0], 0);
    // A fresh control replays exactly the same prefix.
    let mut c = DefaultControl::new();
    for n in 1..=50usize {
        assert_eq!(c.destination(n), drawn[n - 1]);
    }
}

#[test]
fn test_capacity_one_keeps_only_latest() {
    let mut rsv = StageReservoir::with_control(1, ScriptedControl::new());
    let mut head = Vec::new();
    rsv.ctl.extend(vec![0, 0, 0]);
    rsv.offer(Step(1), "a");
    rsv.offer(Step(2), "b");
    rsv.commit(&mut head);
    assert_eq!(head, vec![(Step(2), "b")]);
    rsv.offer(Step(3), "c");
    rsv.commit(&mut head);
    assert_eq!(head, vec![(Step(3), "c")]);
}

#[test]
fn test_discard_path_replaces_latest() {
    let mut rsv = StageReservoir::with_control(2, ScriptedControl::new());
    let mut head = Vec::new();
    rsv.ctl.extend(vec![0, 1, 2]);
    rsv.offer(Step(1), "a");
    rsv.offer(Step(2), "b");
    rsv.offer(Step(3), "c"); // 2 >= 2: evict the previous latest, keep "c"
    rsv.commit(&mut head);
    assert_eq!(head, vec![(Step(1), "a"), (Step(3), "c")]);
}

#[test]
fn test_commit_on_empty_reservoir() {
    let mut rsv: StageReservoir<u32> = StageReservoir::new(5);
    let mut head = Vec::new();
    rsv.commit(&mut head);
    assert!(head.is_empty());
    assert!(rsv.staged_items().is_empty());
}

#[test]
fn test_staged_items_and_latest_retained() {
    let mut rsv = StageReservoir::new(10);
    let mut head = Vec::new();
    for i in 0..100 {
        rsv.offer(Step(i), i);
        assert_eq!(rsv.staged_items().last(), Some(&(Step(i), i)));
        rsv.commit(&mut head);
        assert!(head.len() <= 10);
        assert_eq!(head.last(), Some(&(Step(i), i)));
        assert!(rsv.staged_items().is_empty());
    }
}
