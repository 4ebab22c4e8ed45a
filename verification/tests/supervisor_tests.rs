use blkbstr::supervisor::{Decision, Supervisor, MAX_RESTARTS, WINDOW_MS};

const BACKOFF_MS: [u64; 5] = [1_000, 2_000, 4_000, 8_000, 15_000];

#[test]
fn backs_off_further_on_each_restart() {
    let mut s = Supervisor::new();
    let t = 1_000_000;
    let delays: Vec<_> = (0..MAX_RESTARTS).map(|_| s.on_exit(t)).collect();
    assert_eq!(
        delays,
        BACKOFF_MS.iter().map(|d| Decision::RestartAfter(*d)).collect::<Vec<_>>()
    );
}

#[test]
fn gives_up_after_a_crash_loop() {
    let mut s = Supervisor::new();
    let t = 1_000_000;
    for _ in 0..MAX_RESTARTS {
        s.on_exit(t);
    }
    assert!(matches!(s.on_exit(t), Decision::GiveUp { .. }));
}

#[test]
fn an_old_crash_does_not_count_against_a_later_one() {
    let mut s = Supervisor::new();
    let long_ago = 1_000_000;
    for _ in 0..MAX_RESTARTS {
        s.on_exit(long_ago);
    }
    let now = long_ago + WINDOW_MS + 1_000;
    assert_eq!(s.on_exit(now), Decision::RestartAfter(BACKOFF_MS[0]));
}

#[test]
fn a_deliberate_start_forgives_the_previous_loop() {
    let mut s = Supervisor::new();
    let t = 1_000_000;
    for _ in 0..MAX_RESTARTS {
        s.on_exit(t);
    }
    s.reset();
    assert_eq!(s.on_exit(t), Decision::RestartAfter(BACKOFF_MS[0]));
}

#[test]
fn giving_up_reports_the_count_and_the_window() {
    let mut s = Supervisor::new();
    for _ in 0..MAX_RESTARTS {
        s.on_exit(5_000);
    }
    assert_eq!(s.on_exit(6_000), Decision::GiveUp { restarts: 5, window: 60_000 });
    assert_eq!(s.restarts_in_window(6_000), 5);
    assert_eq!(s.restarts_in_window(5_000 + WINDOW_MS), 0);
}
