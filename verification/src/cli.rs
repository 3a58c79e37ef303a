//! The command line, once its words have been told apart.

use crate::app::target;
use crate::app::target::TargetErrorView;
use crate::app::{Target, TargetError, TargetView};
use crate::util::text;
use crate::util::text::{strip_suffix, trim};
use vstd::prelude::*;
use vstd::string::*;

verus! {

/// A length of time, written the way a person writes one: a number, and
/// whether it counts thousandths of a second or whole ones.
///
/// Only `ms` and `s`: a screen redraws in one or the other.
#[derive(PartialEq, Eq, Debug)]
pub struct Period {
    /// The number, as it is written.
    pub number: String,
    /// Whether it counts thousandths of a second.
    pub millis: bool,
}

/// Why a length of time cannot be read.
#[derive(PartialEq, Eq, Debug)]
pub enum PeriodError {
    /// There is no unit behind it.
    NoUnit(String),
    /// What is before the unit is not a number.
    NotANumber(String),
    /// It is not more than nothing.
    NotPositive(String),
}

/// A length of time, as text.
#[verifier::ext_equal]
pub struct PeriodText {
    pub number: Seq<char>,
    pub millis: bool,
}

impl View for Period {
    type V = PeriodText;

    open spec fn view(&self) -> PeriodText {
        PeriodText { number: self.number@, millis: self.millis }
    }
}

impl PeriodError {
    /// What there is to say about it.
    pub open spec fn says(self) -> Seq<char> {
        match self {
            PeriodError::NoUnit(period) => "`"@ + period@
                + "` has no unit; write `100ms` or `2s`"@,
            PeriodError::NotANumber(number) => "`"@ + number@ + "` is not a number"@,
            PeriodError::NotPositive(period) =>
            "a period has to be more than nothing, and `"@ + period@ + "` is not"@,
        }
    }

    /// What there is to say about it.
    pub fn message(&self) -> (message: String)
        ensures
            message@ == self.says(),
    {
        match self {
            PeriodError::NoUnit(period) => text::owned("`").concat(period.as_str()).concat(
                "` has no unit; write `100ms` or `2s`",
            ),
            PeriodError::NotANumber(number) => text::owned("`").concat(number.as_str()).concat(
                "` is not a number",
            ),
            PeriodError::NotPositive(period) => text::owned(
                "a period has to be more than nothing, and `",
            ).concat(period.as_str()).concat("` is not"),
        }
    }
}

/// What a text says as a length of time. One with no unit is refused rather
/// than guessed at, since the two readings differ by a thousand.
pub open spec fn period_of(period: Seq<char>) -> Option<PeriodText> {
    let period = text::trimmed(period);
    if text::ends_with(period, "ms"@) {
        Some(PeriodText { number: period.take(period.len() - "ms"@.len()), millis: true })
    } else if text::ends_with(period, "s"@) {
        Some(PeriodText { number: period.take(period.len() - "s"@.len()), millis: false })
    } else {
        None
    }
}

impl Period {
    /// Tell the number and the unit of a length of time apart: `100ms` or
    /// `2s`.
    pub fn parse(period: &str) -> (parsed: Result<Self, PeriodError>)
        ensures
            match parsed {
                Ok(parsed) => period_of(period@) == Some(parsed@),
                Err(error) => period_of(period@) is None && (error matches PeriodError::NoUnit(
                    text,
                ) && text@ == text::trimmed(period@)),
            },
    {
        let period = trim(period);
        match strip_suffix(period, "ms") {
            Some(number) => {
                return Ok(Period { number: text::owned(number), millis: true });
            },
            None => {},
        }
        match strip_suffix(period, "s") {
            Some(number) => Ok(Period { number: text::owned(number), millis: false }),
            None => Err(PeriodError::NoUnit(text::owned(period))),
        }
    }
}

/// What makes a session: the file it is declared in, and what to start.
#[derive(PartialEq, Eq, Debug)]
pub struct SessionArgs {
    /// The config file the procs are declared in.
    pub config: String,
    /// What to start: a proc by name, or `group:name` for every proc in a
    /// group. Nothing named starts nothing.
    pub targets: Vec<Target>,
}

/// A session with no screen.
#[derive(PartialEq, Eq, Debug)]
pub struct ServeArgs {
    pub session: SessionArgs,
    /// Where to listen, as a path to a Unix socket.
    pub socket: Option<String>,
}

/// One command for a session somewhere else.
#[derive(PartialEq, Eq, Debug)]
pub struct DispatchArgs {
    /// Which session to tell, as the path to its Unix socket.
    pub socket: Option<String>,
    pub command: DispatchCommand,
}

/// What to ask of one proc.
#[derive(PartialEq, Eq, Debug)]
pub enum DispatchCommand {
    /// Start a proc, restarting it if it is already up: in a mode given by
    /// its name or its position in the list, or in whichever it is already
    /// on.
    Start { key: String, mode: Option<String> },
    /// Stop a proc, without waiting for it to be gone.
    Stop { key: String },
}

/// Every proc of a session somewhere else, as a listing.
#[derive(PartialEq, Eq, Debug)]
pub struct StatusArgs {
    /// Which session to ask, as the path to its Unix socket.
    pub socket: Option<String>,
}

/// The first of some words that cannot be read as a target, or how many there
/// are if they all can.
pub open spec fn first_unread(words: Seq<Seq<char>>, start: int) -> int
    decreases words.len() - start,
{
    if start < 0 || start >= words.len() {
        words.len() as int
    } else if target::target_of(words[start]) is Err {
        start
    } else {
        first_unread(words, start + 1)
    }
}

impl SessionArgs {
    /// Read what makes a session off the command line. The first target that
    /// cannot be read is what is wrong with it.
    pub fn new(config: String, words: &Vec<String>) -> (session: Result<Self, TargetError>)
        ensures
            match session {
                Ok(session) => {
                    &&& session.config == config
                    &&& first_unread(text::texts(words@), 0) == words@.len()
                    &&& session.targets@.len() == words@.len()
                    &&& forall|i: int|
                        0 <= i < words@.len() ==> target::target_of(words@[i]@) == Ok::<
                            TargetView,
                            TargetErrorView,
                        >((#[trigger] session.targets@[i])@)
                },
                Err(error) => {
                    let at = first_unread(text::texts(words@), 0);
                    &&& at < words@.len()
                    &&& target::target_of(words@[at]@) == Err::<TargetView, TargetErrorView>(
                        error@,
                    )
                },
            },
    {
        let mut targets: Vec<Target> = Vec::new();
        let mut i: usize = 0;
        while i < words.len()
            invariant
                i <= words@.len(),
                targets@.len() == i,
                first_unread(text::texts(words@), 0) == first_unread(
                    text::texts(words@),
                    i as int,
                ),
                forall|j: int|
                    0 <= j < i ==> target::target_of(words@[j]@) == Ok::<
                        TargetView,
                        TargetErrorView,
                    >((#[trigger] targets@[j])@),
            decreases words@.len() - i,
        {
            assert(text::texts(words@)[i as int] == words@[i as int]@);
            match Target::parse(words[i].as_str()) {
                Ok(target) => {
                    targets.push(target);
                },
                Err(error) => {
                    return Err(error);
                },
            }
            i = i + 1;
        }
        Ok(SessionArgs { config, targets })
    }
}

/// A length of time is a number and a unit: behind a number, `ms` counts
/// thousandths of a second and `s` alone whole ones, and text that ends in
/// neither is no length of time.
pub proof fn a_period_is_a_number_and_a_unit(period: Seq<char>, number: Seq<char>)
    ensures
        text::trimmed(period) == number + seq!['m', 's'] ==> period_of(period) == Some(
            PeriodText { number, millis: true },
        ),
        text::trimmed(period) == number + seq!['s'] && (number.len() == 0 || number.last() != 'm')
            ==> period_of(period) == Some(PeriodText { number, millis: false }),
        text::trimmed(period).len() == 0 || text::trimmed(period).last() != 's' ==> period_of(
            period,
        ) is None,
{
    reveal_strlit("ms");
    reveal_strlit("s");
    let core = text::trimmed(period);
    assert("ms"@ =~= seq!['m', 's']);
    assert("s"@ =~= seq!['s']);
    if core == number + seq!['m', 's'] {
        assert(core.skip(core.len() - 2) =~= seq!['m', 's']);
        assert(core.take(core.len() - 2) =~= number);
    }
    if core == number + seq!['s'] {
        assert(core.skip(core.len() - 1) =~= seq!['s']);
        assert(core.take(core.len() - 1) =~= number);
        if number.len() > 0 && number.last() != 'm' {
            assert(core.skip(core.len() - 2)[0] == number.last());
        }
    }
    if core.len() > 0 && core.last() != 's' {
        assert(core.skip(core.len() - 1).last() == core.last());
        if core.len() > 1 {
            assert(core.skip(core.len() - 2).last() == core.last());
        }
    }
}

/// What is wrong with a command line is the first word that is no target:
/// every word before it is one.
pub proof fn the_first_word_that_is_no_target_is_told(words: Seq<Seq<char>>, start: int)
    requires
        0 <= start <= words.len(),
    ensures
        start <= first_unread(words, start) <= words.len(),
        forall|i: int|
            start <= i < first_unread(words, start) ==> target::target_of(#[trigger] words[i]) is Ok,
        first_unread(words, start) < words.len() ==> target::target_of(
            words[first_unread(words, start)],
        ) is Err,
    decreases words.len() - start,
{
    if start < words.len() && target::target_of(words[start]) is Ok {
        the_first_word_that_is_no_target_is_told(words, start + 1);
    }
}

} // verus!
