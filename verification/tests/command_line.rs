use tush::app::{Target, TargetError};
use tush::cli::{Period, PeriodError, SessionArgs};

fn period(number: &str, millis: bool) -> Result<Period, PeriodError> {
    Ok(Period {
        number: number.to_string(),
        millis,
    })
}

#[test]
fn a_period_is_a_number_and_a_unit() {
    assert_eq!(Period::parse("100ms"), period("100", true));
    assert_eq!(Period::parse("2s"), period("2", false));
    assert_eq!(Period::parse("  1.5 s "), period("1.5 ", false));
    assert_eq!(Period::parse("s"), period("", false));
    assert_eq!(Period::parse("ms"), period("", true));
}

/// A number with no unit is refused rather than guessed at, since the two
/// readings differ by a thousand.
#[test]
fn a_period_with_no_unit_is_refused() {
    let error = Period::parse(" 100 ").unwrap_err();
    assert_eq!(error, PeriodError::NoUnit("100".to_string()));
    assert_eq!(
        error.message(),
        "`100` has no unit; write `100ms` or `2s`"
    );
    assert_eq!(
        PeriodError::NotANumber("x".to_string()).message(),
        "`x` is not a number"
    );
    assert_eq!(
        PeriodError::NotPositive("0s".to_string()).message(),
        "a period has to be more than nothing, and `0s` is not"
    );
}

#[test]
fn a_session_is_a_file_and_what_to_start() {
    let words = vec!["web".to_string(), "group:backend".to_string()];
    let session = SessionArgs::new("tush.yaml".to_string(), &words).unwrap();
    assert_eq!(session.config, "tush.yaml");
    assert_eq!(
        session.targets,
        [
            Target::Unit("web".to_string()),
            Target::Group("backend".to_string())
        ]
    );
    assert_eq!(
        SessionArgs::new("tush.yaml".to_string(), &vec![])
            .unwrap()
            .targets,
        []
    );
}

/// The first target that cannot be read is what is wrong.
#[test]
fn an_unreadable_target_refuses_the_session() {
    let words = vec!["web".to_string(), "group:".to_string(), "".to_string()];
    assert_eq!(
        SessionArgs::new("tush.yaml".to_string(), &words).unwrap_err(),
        TargetError::EmptyGroup
    );
}
