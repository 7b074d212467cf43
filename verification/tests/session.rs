//! Sessions with the fans.
use macfand::fan::Fan;
use macfand::guard::Round;
use macfand::session::{Next, Session, Stage};

fn session(n: usize) -> Session {
    Session::new(
        (1..=n)
            .map(|i| Fan {
                label: format!("fan{i}"),
                index: i.to_string(),
                input: format!("in{i}"),
                output: format!("out{i}"),
                control_mode: format!("mode{i}"),
                hw_min: 2000,
                hw_max: 6200,
            })
            .collect(),
    )
}

/// Makes the writes of the round under way with these outcomes, noting each attempt.
fn play(s: &mut Session, outcomes: &[bool], trace: &mut Vec<String>) -> Option<Round> {
    for ok in outcomes {
        match s.next() {
            Next::Write(w) => trace.push(format!("{}={}", w.path, w.text)),
            _ => return None,
        }
        if let Some(round) = s.wrote(if *ok { Ok(()) } else { Err("busy".to_string()) }) {
            return Some(round);
        }
    }
    None
}

/// Ends a session and plays the hand-back, with a failure for every fan whose number is `bad`.
fn finish(s: &mut Session, bad: usize, trace: &mut Vec<String>) {
    s.end();
    let mode = format!("mode{bad}");
    while let Next::Write(w) = s.next() {
        trace.push(format!("{}={}", w.path, w.text));
        let ok = w.path != mode;
        s.wrote(if ok { Ok(()) } else { Err("busy".to_string()) });
    }
    assert!(matches!(s.next(), Next::Unlock));
    s.unlocked();
    assert!(matches!(s.next(), Next::Rest));
}

/// That the last thing tried on the control mode of each fan is to give it back.
fn given_back(n: usize, trace: &[String]) {
    for i in 1..=n {
        let mode = format!("mode{i}=");
        let last = trace.iter().filter(|w| w.starts_with(&mode)).last();
        assert_eq!(last, Some(&format!("mode{i}=0")), "{trace:?}");
    }
}

#[test]
fn a_session_goes_from_the_lock_to_the_fans_and_back() {
    let mut s = session(2);
    let mut trace = Vec::new();
    assert!(matches!(s.next(), Next::Lock));
    s.locked(true);
    let round = play(&mut s, &[true, true], &mut trace).unwrap();
    assert!(round.succeeded());
    assert!(matches!(s.next(), Next::Decide));
    s.command(3000);
    assert!(play(&mut s, &[false, true, true], &mut trace).unwrap().succeeded());
    finish(&mut s, 0, &mut trace);
    assert_eq!(
        trace,
        vec![
            "mode1=1", "mode2=1", "out1=3000", "out1=3000", "out2=3000", "mode1=0", "mode2=0"
        ]
    );
}

#[test]
fn a_refused_lock_touches_nothing() {
    let mut s = session(2);
    s.locked(false);
    assert!(matches!(s.next(), Next::Rest));
    s.end();
    assert!(matches!(s.stage, Stage::Over));
    let mut s = session(2);
    s.end();
    assert!(matches!(s.next(), Next::Rest));
}

#[test]
fn a_fan_that_cannot_be_taken_over_ends_the_session_and_all_are_given_back() {
    let mut s = session(3);
    let mut trace = Vec::new();
    s.locked(true);
    let round = play(&mut s, &[true, false, false], &mut trace).unwrap();
    assert_eq!(round.failures[0].at, 1);
    assert!(matches!(s.stage, Stage::Releasing(_)));
    finish(&mut s, 0, &mut trace);
    given_back(3, &trace);
}

#[test]
fn an_ending_at_any_stage_gives_every_fan_back() {
    // Part way through taking them over, while driving, and part way through a command; each with
    // every fan failing in turn.
    for bad in 0..=3 {
        for stage in 0..3 {
            let mut s = session(3);
            let mut trace = Vec::new();
            s.locked(true);
            if stage == 0 {
                play(&mut s, &[true, false], &mut trace);
                assert!(matches!(s.stage, Stage::Engaging(_)));
            } else {
                play(&mut s, &[true, true, true], &mut trace);
                if stage == 2 {
                    s.command(6200);
                    play(&mut s, &[true, false], &mut trace);
                    assert!(matches!(s.stage, Stage::Commanding(_)));
                }
            }
            finish(&mut s, bad, &mut trace);
            given_back(3, &trace);
        }
    }
}

#[test]
fn a_hand_back_that_is_under_way_is_not_begun_again() {
    let mut s = session(2);
    let mut trace = Vec::new();
    s.locked(true);
    play(&mut s, &[true, true], &mut trace);
    s.end();
    play(&mut s, &[true], &mut trace);
    finish(&mut s, 0, &mut trace);
    assert_eq!(trace, vec!["mode1=1", "mode2=1", "mode1=0", "mode2=0"]);
}

#[test]
fn a_failed_command_leaves_the_session_driving() {
    let mut s = session(2);
    let mut trace = Vec::new();
    s.locked(true);
    play(&mut s, &[true, true], &mut trace);
    s.command(9999);
    let round = play(&mut s, &[false, false], &mut trace).unwrap();
    assert!(!round.succeeded());
    assert!(matches!(s.next(), Next::Decide));
    assert_eq!(trace.last().unwrap(), "out1=6200");
}

#[test]
fn a_session_without_fans_still_lets_go_of_the_lock() {
    let mut s = session(0);
    s.locked(true);
    assert!(matches!(s.next(), Next::Decide));
    s.command(3000);
    assert!(matches!(s.next(), Next::Decide));
    finish(&mut s, 0, &mut Vec::new());
}
