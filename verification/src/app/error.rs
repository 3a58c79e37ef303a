//! What was wrong with a config, as one account of it.

use crate::error;
use crate::util::text;
use crate::util::text::decimal;
use vstd::prelude::*;
use vstd::string::*;

verus! {

/// Everything wrong with a config, reported at once.
///
/// One error rather than many so it can travel as an error, and a list rather
/// than a string so that whatever reports it — a line on stderr now, a panel
/// in the interface later — can decide how each one is shown.
#[derive(Debug)]
pub struct AppErrors {
    errors: Vec<AppError>,
}

/// One thing wrong with a config.
#[derive(Debug, PartialEq, Eq)]
pub enum AppError {
    /// A proc declared `run` and `modes` both.
    RunAndModes { proc: String },
    /// A proc depends on a name that no proc is declared under.
    UnknownDependency { proc: String, depends: String },
    /// Procs that wait on each other in a circle, so none of them can be
    /// first. A cycle of one is a proc that depends on itself.
    Cycle { procs: Vec<String> },
}

impl View for AppErrors {
    type V = Seq<AppError>;

    closed spec fn view(&self) -> Seq<AppError> {
        self.errors@
    }
}

impl AppError {
    /// The problem, in a sentence.
    pub open spec fn says(self) -> Seq<char> {
        match self {
            AppError::RunAndModes { proc } => error::ticked(proc@)
                + " declares both `run` and `modes`"@,
            AppError::UnknownDependency { proc, depends } => error::ticked(proc@)
                + " depends on "@ + error::ticked(depends@) + ", which is not a proc"@,
            AppError::Cycle { procs } => if procs@.len() == 1 {
                error::ticked(procs@[0]@) + " depends on itself"@
            } else {
                error::quoted(text::texts(procs@)) + " depend on each other in a circle"@
            },
        }
    }

    /// The problem, in a sentence.
    pub fn message(&self) -> (message: String)
        ensures
            message@ == self.says(),
    {
        let mut message = String::new();
        match self {
            AppError::RunAndModes { proc } => {
                error::append_ticked(&mut message, proc.as_str());
                message.append(" declares both `run` and `modes`");
            },
            AppError::UnknownDependency { proc, depends } => {
                error::append_ticked(&mut message, proc.as_str());
                message.append(" depends on ");
                error::append_ticked(&mut message, depends.as_str());
                message.append(", which is not a proc");
            },
            AppError::Cycle { procs } => {
                if procs.len() == 1 {
                    error::append_ticked(&mut message, procs[0].as_str());
                    message.append(" depends on itself");
                } else {
                    message.append(error::Quoted(procs).message().as_str());
                    message.append(" depend on each other in a circle");
                }
            },
        }
        assert(message@ == self.says());
        message
    }
}

/// The heading over `count` problems.
pub open spec fn heading(count: nat) -> Seq<char> {
    text::digits(count) + (if count == 1 {
        " problem with the configuration:"@
    } else {
        " problems with the configuration:"@
    })
}

impl AppErrors {
    /// The problems found while checking one config.
    pub fn new(errors: Vec<AppError>) -> (all: Self)
        ensures
            all@ == errors@,
    {
        AppErrors { errors }
    }

    /// The problems, in the order they were found: per proc as the config
    /// declares them, and then the cycles.
    pub fn errors(&self) -> (errors: &[AppError])
        ensures
            errors@ == self@,
    {
        self.errors.as_slice()
    }

    /// How many there are, and each of them on a line.
    pub fn message(&self) -> (message: String)
        ensures
            message@ == error::lines(
                heading(self@.len()),
                Seq::new(self@.len(), |i: int| self@[i].says()),
            ),
    {
        let count = self.errors.len();
        let top = decimal(count).concat(
            if count == 1 {
                " problem with the configuration:"
            } else {
                " problems with the configuration:"
            },
        );
        let mut said: Vec<String> = Vec::new();
        let mut i: usize = 0;
        while i < count
            invariant
                i <= count,
                count == self.errors@.len(),
                said@.len() == i,
                forall|j: int| 0 <= j < i ==> said@[j]@ == self@[j].says(),
            decreases count - i,
        {
            said.push(self.errors[i].message());
            i = i + 1;
        }
        assert(text::texts(said@) == Seq::new(self@.len(), |i: int| self@[i].says()));
        error::Lines(&said, top.as_str()).message()
    }
}

/// A problem names whatever it is a problem with: the proc, the name nothing
/// is declared under, every proc of a circle.
pub proof fn a_problem_names_what_it_is_about(error: AppError, i: int)
    ensures
        error matches AppError::RunAndModes { proc } ==> error::names(error.says(), proc@),
        error matches AppError::UnknownDependency { proc, depends } ==> error::names(
            error.says(),
            proc@,
        ) && error::names(error.says(), depends@),
        error matches AppError::Cycle { procs } ==> 0 <= i < procs@.len() ==> error::names(
            error.says(),
            procs@[i]@,
        ),
{
    let said = error.says();
    let none = Seq::<char>::empty();
    match error {
        AppError::RunAndModes { proc } => {
            error::lemma_ticked(proc@);
            let tail = " declares both `run` and `modes`"@;
            error::lemma_mentions(none, error::ticked(proc@), tail);
        },
        AppError::UnknownDependency { proc, depends } => {
            let first = error::ticked(proc@);
            let second = error::ticked(depends@);
            let end = ", which is not a proc"@;
            error::lemma_ticked(proc@);
            error::lemma_ticked(depends@);
            error::lemma_mentions(none, first, " depends on "@ + second + end);
            assert(first + (" depends on "@ + second + end) =~= said);
            error::lemma_mentions(first + " depends on "@, second, end);
        },
        AppError::Cycle { procs } => {
            if 0 <= i < procs@.len() {
                let all = text::texts(procs@);
                let named = seq!['`'] + procs@[i]@ + seq!['`'];
                error::lemma_ticked(procs@[i]@);
                error::lemma_mentions(none, error::ticked(procs@[i]@), " depends on itself"@);
                error::a_list_names_every_item(all, i);
                assert(all[i] == procs@[i]@);
                error::lemma_mentions_within(
                    error::quoted(all),
                    named,
                    none,
                    " depend on each other in a circle"@,
                );
            }
        },
    }
}

/// The account of several problems opens with how many there are.
pub proof fn an_account_opens_with_the_count(count: nat)
    ensures
        error::stands_at(heading(count), text::digits(count), 0),
        error::mentions(heading(count), " problem"@),
        error::mentions(heading(count), " problems"@) <== count != 1,
{
    let digits = text::digits(count);
    let one = " problem with the configuration:"@;
    let several = " problems with the configuration:"@;
    reveal_strlit(" problem with the configuration:");
    reveal_strlit(" problems with the configuration:");
    reveal_strlit(" problem");
    reveal_strlit(" problems");
    assert(heading(count).subrange(0, digits.len() as int) =~= digits);
    assert(one.subrange(0, 8) =~= " problem"@);
    assert(several.subrange(0, 8) =~= " problem"@);
    assert(several.subrange(0, 9) =~= " problems"@);
    assert(error::stands_at(one, " problem"@, 0));
    assert(error::stands_at(several, " problem"@, 0));
    assert(error::stands_at(several, " problems"@, 0));
    let none = Seq::<char>::empty();
    error::lemma_mentions_within(one, " problem"@, digits, none);
    error::lemma_mentions_within(several, " problem"@, digits, none);
    error::lemma_mentions_within(several, " problems"@, digits, none);
}

} // verus!
