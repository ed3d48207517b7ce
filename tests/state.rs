use ignore::state::{REPO_UPDATE_LIMIT, SECONDS_IN_DAY};
use ignore::{check_staleness, ErrorKind, Operation, State, Timestamp};

fn at(secs: u64) -> Timestamp {
    Timestamp { secs, nanos: 0 }
}

#[test]
fn stale_after_eight_days() {
    let now = at(1_700_000_000);
    let last = at(1_700_000_000 - 8 * SECONDS_IN_DAY);
    assert_eq!(check_staleness(&last, &now).unwrap(), true);
}

#[test]
fn fresh_after_one_day() {
    let now = at(1_700_000_000);
    let last = at(1_700_000_000 - SECONDS_IN_DAY);
    assert_eq!(check_staleness(&last, &now).unwrap(), false);
}

#[test]
fn staleness_limit_is_exclusive() {
    let now = at(1_700_000_000);
    assert_eq!(REPO_UPDATE_LIMIT, 7 * SECONDS_IN_DAY);
    assert_eq!(check_staleness(&at(1_700_000_000 - REPO_UPDATE_LIMIT), &now).unwrap(), false);
    let just_over = Timestamp { secs: 1_700_000_000 - REPO_UPDATE_LIMIT - 1, nanos: 999_999_999 };
    assert_eq!(check_staleness(&just_over, &now).unwrap(), true);
}

#[test]
fn equal_times_mean_never_refreshed() {
    let now = Timestamp { secs: 5, nanos: 7 };
    assert_eq!(check_staleness(&now, &now).unwrap(), true);
}

#[test]
fn clock_going_backwards_is_an_error() {
    let err = check_staleness(&at(100), &at(99)).unwrap_err();
    assert_eq!(*err.kind(), ErrorKind::ClockSkew);
}

#[test]
fn new_state_is_one_second_old() {
    let now = Timestamp { secs: 1_000, nanos: 42 };
    let state = State::new(&now);
    assert_eq!(state.last_update, Timestamp { secs: 999, nanos: 42 });
    assert_eq!(state.path(), "");
    assert_eq!(state.check_staleness(&now).unwrap(), false);
}

#[test]
fn mark_refreshed_sets_the_time() {
    let mut state = State::at_path("/c/ignore/.state".to_string(), at(10));
    state.mark_refreshed(at(20));
    assert_eq!(state.last_update, at(20));
    assert_eq!(state.path(), "/c/ignore/.state");
    assert_eq!(state.check_staleness(&at(20)).unwrap(), true);
}

#[test]
fn refresh_due_when_stale_or_forced() {
    let state = State::at_path(String::new(), at(1_000_000));
    let soon = at(1_000_000 + SECONDS_IN_DAY);
    let late = at(1_000_000 + 8 * SECONDS_IN_DAY);
    assert_eq!(state.refresh_due(&soon, Operation::GenerateGitignore).unwrap(), false);
    assert_eq!(state.refresh_due(&soon, Operation::UpdateRepositories).unwrap(), true);
    assert_eq!(state.refresh_due(&late, Operation::ListAvailableTemplates).unwrap(), true);
    assert_eq!(*state.refresh_due(&at(5), Operation::UpdateRepositories).unwrap_err().kind(), ErrorKind::ClockSkew);
}
