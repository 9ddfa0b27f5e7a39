use gll::automaton::{Arm, Automaton, Slot};
use gll::nodes::{Extlbl, Order, PopRec, SeenEntry, Status, Sym};
use gll::sample::{recognises, sample_automaton};
use gll::state::{run, State};

fn cs(s: &str) -> Vec<char> {
    s.chars().collect()
}

#[test]
fn recognises_empty_string() {
    assert!(recognises(cs("")));
}

#[test]
fn recognises_aad() {
    assert!(recognises(cs("aad")));
}

#[test]
fn recognises_b() {
    assert!(recognises(cs("b")));
}

#[test]
fn rejects_z() {
    assert!(!recognises(cs("z")));
}

#[test]
fn rejects_aadz() {
    assert!(!recognises(cs("aadz")));
}

#[test]
fn accepts_more_of_the_sample_language() {
    assert!(recognises(cs("ad")));
    assert!(recognises(cs("cd")));
    assert!(recognises(cs("ab")));
    assert!(recognises(cs("aabdd")));
    assert!(!recognises(cs("d")));
    assert!(!recognises(cs("ca")));
}

#[test]
fn order_independence_on_scenarios() {
    let aut = sample_automaton();
    for input in ["", "aad", "b", "z", "aadz", "ad", "ab", "aabdd", "ca"] {
        let fifo = run(&aut, cs(input), Order::Fifo, u64::MAX);
        let lifo = run(&aut, cs(input), Order::Lifo, u64::MAX);
        assert_eq!(fifo, lifo);
    }
}

#[test]
fn add_is_idempotent() {
    let aut = sample_automaton();
    let mut s = State::init(&aut, cs("aad"), Order::Fifo);
    let before_r = s.r.len();
    let before_seen = s.seen.len();
    s.add(3, Extlbl::Dollar, 1);
    assert_eq!(s.r.len(), before_r + 1);
    assert_eq!(s.seen.len(), before_seen + 1);
    s.add(3, Extlbl::Dollar, 1);
    assert_eq!(s.r.len(), before_r + 1);
    assert_eq!(s.seen.len(), before_seen + 1);
}

#[test]
fn stores_only_grow_across_steps() {
    let aut = sample_automaton();
    let mut s = State::init(&aut, cs("aad"), Order::Fifo);
    loop {
        let seen_before = s.seen.clone();
        let gss_before = s.gss.clone();
        let popped_before = s.popped.clone();
        let st = s.step(&aut);
        assert!(s.seen.len() >= seen_before.len());
        assert!(s.gss.len() >= gss_before.len());
        assert!(s.popped.len() >= popped_before.len());
        assert_eq!(&s.seen[..seen_before.len()], &seen_before[..]);
        assert_eq!(&s.gss[..gss_before.len()], &gss_before[..]);
        assert_eq!(&s.popped[..popped_before.len()], &popped_before[..]);
        match st {
            Status::Continue => {}
            _ => break,
        }
    }
}

#[test]
fn popped_is_a_set_not_a_multiset() {
    let aut = sample_automaton();
    // 'a' starts both an A- and a B-alternative, so sub-derivations share.
    let mut s = State::init(&aut, cs("aad"), Order::Fifo);
    loop {
        match s.step(&aut) {
            Status::Continue => {}
            _ => break,
        }
    }
    assert!(!s.popped.is_empty());
    for i in 0..s.popped.len() {
        for j in 0..s.popped.len() {
            if i != j {
                assert_ne!(s.popped[i], s.popped[j]);
            }
        }
    }
}

#[test]
fn acceptance_is_read_off_the_seen_set() {
    let aut = sample_automaton();
    let mut s = State::init(&aut, cs(""), Order::Fifo);
    let verdict;
    loop {
        match s.step(&aut) {
            Status::Continue => {}
            Status::Success => {
                verdict = true;
                break;
            }
            Status::Failure => {
                verdict = false;
                break;
            }
        }
    }
    assert!(verdict);
    let accept = SeenEntry { lbl: aut.accept, node: Extlbl::Dollar, pos: 0 };
    assert!(s.seen.contains(&accept));
}

#[test]
fn exhausted_fuel_is_surfaced_not_masked() {
    let aut = sample_automaton();
    assert_eq!(run(&aut, cs("a"), Order::Fifo, 0), None);
    assert_eq!(run(&aut, cs(""), Order::Fifo, 1), None);
    assert_eq!(run(&aut, cs(""), Order::Fifo, u64::MAX), Some(true));
}

#[test]
fn work_stays_within_a_polynomial_budget() {
    let aut = sample_automaton();
    for input in ["", "aad", "b", "z", "aadz", "aabdd", "aaabddd"] {
        let n = input.len() as u64;
        let nodes = 11 * (n + 1) + 1;
        let budget = 8 * nodes * nodes;
        assert!(run(&aut, cs(input), Order::Fifo, budget).is_some());
    }
}

fn left_recursive_automaton() -> Automaton {
    // E ::= E 'a' | 'x', left recursive on purpose.
    let arms = vec![
        Arm { trigger: vec![Sym::Char('x')], entry: 2 },
        Arm { trigger: vec![Sym::Char('x')], entry: 4 },
    ];
    Automaton {
        slots: vec![
            Slot::Alt(arms),
            Slot::Return,
            Slot::Call { callee: 0, ret: 3 },
            Slot::Terminal(vec![Sym::Char('a')]),
            Slot::Terminal(vec![Sym::Char('x')]),
        ],
        start: 0,
        accept: 1,
    }
}

#[test]
fn left_recursion_terminates_and_recognises() {
    let aut = left_recursive_automaton();
    assert_eq!(run(&aut, cs("x"), Order::Fifo, u64::MAX), Some(true));
    assert_eq!(run(&aut, cs("xa"), Order::Fifo, u64::MAX), Some(true));
    assert_eq!(run(&aut, cs("xaaa"), Order::Fifo, u64::MAX), Some(true));
    assert_eq!(run(&aut, cs(""), Order::Fifo, u64::MAX), Some(false));
    assert_eq!(run(&aut, cs("a"), Order::Fifo, u64::MAX), Some(false));
    assert_eq!(run(&aut, cs("ax"), Order::Fifo, u64::MAX), Some(false));
    assert_eq!(run(&aut, cs("xax"), Order::Fifo, u64::MAX), Some(false));
}

#[test]
fn order_independence_under_left_recursion() {
    let aut = left_recursive_automaton();
    for input in ["", "x", "xa", "xaaa", "ax"] {
        let fifo = run(&aut, cs(input), Order::Fifo, u64::MAX);
        let lifo = run(&aut, cs(input), Order::Lifo, u64::MAX);
        assert_eq!(fifo, lifo);
    }
}
