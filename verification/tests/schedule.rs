use porors::config::PauseGate;
use porors::time::Countdown;
use porors::time::Move;
use porors::time::Phase;
use porors::time::Step;
use porors::time::Timer;
use porors::time::TimerState;
use porors::time::TimerType;

fn all_steps(timer: &mut Timer) -> Vec<Step> {
    let mut steps = Vec::new();
    while let Some(step) = timer.next_step() {
        steps.push(step);
    }
    steps
}

#[test]
fn countdown_shows_each_second_down_to_zero() {
    let mut countdown = Countdown::start(5);
    assert_eq!(countdown.run_to_completion(), vec![4, 3, 2, 1, 0]);
    assert_eq!(countdown.remaining(), 0);
    assert!(countdown.is_finished());
    assert!(!countdown.is_running());
}

#[test]
fn countdown_of_one_second_shows_zero() {
    let mut countdown = Countdown::start(1);
    assert_eq!(countdown.run_to_completion(), vec![0]);
}

#[test]
fn countdown_of_no_seconds_shows_nothing() {
    let mut countdown = Countdown::start(0);
    assert!(countdown.is_finished());
    assert_eq!(countdown.run_to_completion(), Vec::<u64>::new());
}

#[test]
fn countdown_shows_as_many_values_as_it_has_seconds() {
    let mut countdown = Countdown::start(3600);
    let shown = countdown.run_to_completion();
    assert_eq!(shown.len(), 3600);
    assert_eq!(shown[0], 3599);
    assert_eq!(shown[3599], 0);
    for i in 1..shown.len() {
        assert_eq!(shown[i] + 1, shown[i - 1]);
    }
}

#[test]
fn tick_takes_one_second_off() {
    let mut countdown = Countdown::start(2);
    assert!(countdown.is_running());
    assert_eq!(countdown.tick(), Some(1));
    assert_eq!(countdown.remaining(), 1);
    assert_eq!(countdown.tick(), Some(0));
    assert_eq!(countdown.remaining(), 0);
    assert_eq!(countdown.tick(), None);
    assert_eq!(countdown.remaining(), 0);
}

#[test]
fn a_value_is_shown_once() {
    let gate = PauseGate::new();
    let mut countdown = Countdown::start(3);
    assert_eq!(countdown.next_move(&gate), Move::Wait);
    assert_eq!(countdown.tick(), Some(2));
    assert_eq!(countdown.next_move(&gate), Move::Show(2));
    assert_eq!(countdown.next_move(&gate), Move::Wait);
    assert_eq!(countdown.next_move(&gate), Move::Wait);
    assert!(!countdown.is_finished());
}

#[test]
fn after_several_ticks_the_last_value_is_shown() {
    let gate = PauseGate::new();
    let mut countdown = Countdown::start(5);
    countdown.tick();
    countdown.tick();
    countdown.tick();
    assert_eq!(countdown.next_move(&gate), Move::Show(2));
    assert_eq!(countdown.run_to_completion(), vec![1, 0]);
}

#[test]
fn a_run_picks_up_a_value_that_was_not_seen() {
    let mut countdown = Countdown::start(3);
    countdown.tick();
    assert_eq!(countdown.run_to_completion(), vec![2, 1, 0]);
}

#[test]
fn three_repetitions_are_three_sessions_and_three_breaks_in_turn() {
    let mut timer = Timer::new(1500, 300, 3);
    let steps = all_steps(&mut timer);
    let mut expected = Vec::new();
    for ordinal in 0..3 {
        expected.push(Step::Run(Phase { kind: TimerType::Session, seconds: 1500, ordinal, number: 3 }));
        expected.push(Step::Notify(TimerType::Session));
        expected.push(Step::Run(Phase { kind: TimerType::Break, seconds: 300, ordinal, number: 3 }));
        expected.push(Step::Notify(TimerType::Break));
    }
    assert_eq!(steps, expected);
    assert_eq!(steps.len(), 12);
    let sessions = steps.iter().filter(|s| matches!(s, Step::Run(Phase { kind: TimerType::Session, .. }))).count();
    let breaks = steps.iter().filter(|s| matches!(s, Step::Run(Phase { kind: TimerType::Break, .. }))).count();
    let session_ends = steps.iter().filter(|s| matches!(s, Step::Notify(TimerType::Session))).count();
    let break_ends = steps.iter().filter(|s| matches!(s, Step::Notify(TimerType::Break))).count();
    assert_eq!((sessions, breaks, session_ends, break_ends), (3, 3, 3, 3));
}

#[test]
fn each_phase_is_followed_by_its_notification() {
    let mut timer = Timer::new(2, 1, 4);
    let steps = all_steps(&mut timer);
    for pair in steps.chunks(2) {
        match (pair[0], pair[1]) {
            (Step::Run(phase), Step::Notify(kind)) => assert_eq!(phase.kind, kind),
            _ => panic!("a phase and its notification were expected"),
        }
    }
}

#[test]
fn nothing_follows_the_last_notification() {
    let mut timer = Timer::new(10, 5, 1);
    assert!(!timer.is_done());
    assert_eq!(all_steps(&mut timer).len(), 4);
    assert!(timer.is_done());
    assert_eq!(timer.next_step(), None);
    assert_eq!(timer.next_step(), None);
}

#[test]
fn no_repetition_is_no_step() {
    let mut timer = Timer::new(10, 5, 0);
    assert!(timer.is_done());
    assert_eq!(timer.next_step(), None);
}

#[test]
fn start_goes_back_to_the_first_session() {
    let mut timer = Timer::new(10, 5, 2);
    timer.next_step();
    timer.next_step();
    timer.next_step();
    assert_eq!(timer.current_sec(), 5);
    timer.start();
    assert_eq!(timer.current_sec(), 0);
    assert_eq!(
        timer.next_step(),
        Some(Step::Run(Phase { kind: TimerType::Session, seconds: 10, ordinal: 0, number: 2 }))
    );
    assert_eq!(all_steps(&mut timer).len(), 7);
}

#[test]
fn timer_keeps_what_it_was_made_with() {
    let mut timer = Timer::new(7, 3, 9);
    assert_eq!((timer.session_sec(), timer.break_sec(), timer.number()), (7, 3, 9));
    assert_eq!(timer.current_sec(), 0);
    timer.next_step();
    assert_eq!(timer.current_sec(), 7);
    timer.next_step();
    assert_eq!(timer.current_sec(), 7);
    timer.next_step();
    assert_eq!(timer.current_sec(), 3);
    assert_eq!((timer.session_sec(), timer.break_sec(), timer.number()), (7, 3, 9));
}

#[test]
fn a_run_counts_each_phase_down() {
    let mut timer = Timer::new(3, 2, 2);
    let mut shown = Vec::new();
    let mut notified = Vec::new();
    while let Some(step) = timer.next_step() {
        match step {
            Step::Run(phase) => shown.push((phase.kind, Countdown::start(phase.seconds).run_to_completion())),
            Step::Notify(kind) => notified.push(kind),
        }
    }
    assert_eq!(
        shown,
        vec![
            (TimerType::Session, vec![2, 1, 0]),
            (TimerType::Break, vec![1, 0]),
            (TimerType::Session, vec![2, 1, 0]),
            (TimerType::Break, vec![1, 0]),
        ]
    );
    assert_eq!(
        notified,
        vec![TimerType::Session, TimerType::Break, TimerType::Session, TimerType::Break]
    );
}

#[test]
fn timer_state_holds_three_numbers() {
    let state = TimerState { sec: 12, session_sec: 1500, break_sec: 300 };
    assert_eq!(state, TimerState { sec: 12, session_sec: 1500, break_sec: 300 });
    assert_eq!(state.sec + state.session_sec + state.break_sec, 1812);
}

#[test]
fn the_consumer_waits_shows_and_stops() {
    let gate = PauseGate::new();
    let mut countdown = Countdown::start(2);
    assert_eq!(countdown.next_move(&gate), Move::Wait);
    countdown.tick();
    assert_eq!(countdown.next_move(&gate), Move::Show(1));
    assert_eq!(countdown.next_move(&gate), Move::Wait);
    countdown.tick();
    assert_eq!(countdown.next_move(&gate), Move::Show(0));
    assert_eq!(countdown.next_move(&gate), Move::Stop);
    assert_eq!(countdown.next_move(&gate), Move::Stop);
}

#[test]
fn a_countdown_of_no_seconds_stops_at_once() {
    let gate = PauseGate::new();
    let mut countdown = Countdown::start(0);
    assert_eq!(countdown.next_move(&gate), Move::Stop);
}

#[test]
fn a_pause_holds_the_consumer_and_not_the_ticks() {
    let mut gate = PauseGate::new();
    let mut countdown = Countdown::start(5);
    gate.pause();
    assert_eq!(countdown.next_move(&gate), Move::Hold);
    assert_eq!(countdown.tick(), Some(4));
    assert_eq!(countdown.tick(), Some(3));
    assert_eq!(countdown.next_move(&gate), Move::Hold);
    assert_eq!(countdown.remaining(), 3);
    gate.resume();
    assert_eq!(countdown.next_move(&gate), Move::Show(3));
    assert_eq!(countdown.next_move(&gate), Move::Wait);
}

#[test]
fn a_pause_at_the_end_holds_the_last_value_back() {
    let mut gate = PauseGate::new();
    let mut countdown = Countdown::start(1);
    countdown.tick();
    gate.pause();
    assert_eq!(countdown.next_move(&gate), Move::Hold);
    assert!(!countdown.is_finished());
    gate.toggle();
    assert_eq!(countdown.next_move(&gate), Move::Show(0));
    assert_eq!(countdown.next_move(&gate), Move::Stop);
}
