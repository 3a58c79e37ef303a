//! Every error type in the library, gathered rather than kept beside the code
//! that returns them, and the sentence each one is said with.

use crate::util::text;
use crate::util::text::{decimal, one_char};
use vstd::prelude::*;
use vstd::string::*;

verus! {

/// What starting or killing a child process can fail with.
#[derive(Clone, Copy, PartialEq, Eq, Debug, Structural)]
pub enum ProcessError {
    /// It was consumed by a start that failed.
    Empty,
    /// It could not be spawned.
    SpawnError,
    /// It came without the output it was asked to have.
    InvalidStdout,
    /// It came without the error output it was asked to have.
    InvalidStderr,
    /// It was never started.
    NotRunning,
    /// It could not be signalled.
    KillError,
}

/// What supervising one run can fail with — so far, only the process itself.
#[derive(Clone, Copy, PartialEq, Eq, Debug, Structural)]
pub enum RunnerError {
    Process(ProcessError),
}

/// What starting a unit can fail with: a command with nothing in it, or the
/// run underneath.
#[derive(Clone, Copy, PartialEq, Eq, Debug, Structural)]
pub enum UnitError {
    Invalid,
    AlreadyStarted,
    Runner(RunnerError),
}

/// What takes the screen down: the terminal, never the session behind it.
#[derive(Clone, Copy, PartialEq, Eq, Debug, Structural)]
pub enum UiError {
    DrawError,
    EventError,
    Unknown,
}

/// One thing wrong with a config.
#[derive(PartialEq, Eq, Debug)]
pub enum AppConfigError {
    /// An invariant of the checking itself that did not hold, named at the
    /// place it broke. Not a mistake in the config.
    Unknown(String),
    /// A key that was interned and did not come back — the same kind of
    /// thing, said about one key.
    LogicErrorKey(String),
    /// A proc declared `run` and `modes` both.
    RunAndModes(String),
    /// A proc or a group is named with a character a command line needs for
    /// itself.
    ReservedCharacter { name: String, character: char },
    /// A proc depends on a name that no proc is declared under.
    UnknownDependency { proc: String, depends: String },
    /// Procs that wait on each other in a circle, so none of them can be
    /// first. A cycle of one is a proc that depends on itself.
    Cycle(Vec<String>),
    /// Every problem one pass over the config found, because a config with
    /// three mistakes in it is about to be fixed and one mistake per run is
    /// three runs of the same discovery.
    Errors(Vec<AppConfigError>),
}

/// What addressing a unit in a session that is already built can fail with.
///
/// Apart from [`AppConfigError`], which is everything the checking found: by
/// the time there is a session to address, those questions are answered.
#[derive(Clone, Copy, PartialEq, Eq, Debug, Structural)]
pub enum AppError {
    /// A key no unit was declared under — a mistake in a config or a command
    /// and not a state a unit can be in.
    NotFound,
    /// The unit was found and would not start.
    UnitStart(UnitError),
    /// The unit was found and would not do what was asked.
    UnitError(UnitError),
}

/// What stops a server from listening.
///
/// Never a client: one connection going wrong is that connection's problem,
/// and a session with no screen carries on without it.
#[derive(PartialEq, Eq, Debug)]
pub enum ServerError {
    /// A live server has the path.
    AlreadyRunning(String),
    /// The path could not be listened on, and why.
    Bind(String, String),
    /// Connections stopped being accepted, and why.
    Accept(String),
}

/// What stops a screen from following a session over a socket.
#[derive(PartialEq, Eq, Debug)]
pub enum ViewSocketError {
    Connect(String),
    Http(String),
    Request(String),
    Status(u16),
    Body(String),
}

/// What stops one dispatched command from being delivered.
///
/// Mostly not the socket. A key or a mode that does not exist is a typo, and
/// what answers a typo is the list the person could have typed instead — which
/// is why the modes are carried here rather than left as a status code.
#[derive(PartialEq, Eq, Debug)]
pub enum ViewDispatchError {
    Socket(ViewSocketError),
    UnknownUnit(String),
    NoModes(String),
    UnknownMode { unit: String, mode: String, modes: Vec<String> },
}

/// A list, each item in backticks: `` `a`, `b` ``.
pub struct Quoted<'a>(pub &'a Vec<String>);

/// A heading, then one indented line per item.
pub struct Lines<'a>(pub &'a Vec<String>, pub &'a str);

/// `item` in backticks.
pub open spec fn ticked(item: Seq<char>) -> Seq<char> {
    "`"@ + item + "`"@
}

/// Each item in backticks, with commas between.
pub open spec fn quoted(items: Seq<Seq<char>>) -> Seq<char>
    decreases items.len(),
{
    if items.len() == 0 {
        Seq::empty()
    } else if items.len() == 1 {
        ticked(items[0])
    } else {
        quoted(items.drop_last()) + ", "@ + ticked(items.last())
    }
}

/// A heading, and every item on a line of its own under it.
pub open spec fn lines(heading: Seq<char>, items: Seq<Seq<char>>) -> Seq<char>
    decreases items.len(),
{
    if items.len() == 0 {
        heading
    } else {
        lines(heading, items.drop_last()) + "\n  - "@ + items.last()
    }
}

/// Add `item` to `text`, in backticks.
pub(crate) fn append_ticked(text: &mut String, item: &str)
    ensures
        final(text)@ == old(text)@ + ticked(item@),
{
    text.append("`");
    text.append(item);
    text.append("`");
    assert(text@ == old(text)@ + ticked(item@));
}

impl<'a> Quoted<'a> {
    /// The list, written out.
    pub fn message(&self) -> (message: String)
        ensures
            message@ == quoted(text::texts(self.0@)),
    {
        let mut message = String::new();
        let ghost items = text::texts(self.0@);
        let mut i: usize = 0;
        while i < self.0.len()
            invariant
                i <= self.0@.len(),
                items == text::texts(self.0@),
                message@ == quoted(items.take(i as int)),
            decreases self.0@.len() - i,
        {
            assert(items.take(i + 1).drop_last() == items.take(i as int));
            if i > 0 {
                message.append(", ");
            }
            append_ticked(&mut message, self.0[i].as_str());
            assert(message@ == quoted(items.take(i + 1)));
            i = i + 1;
        }
        assert(items.take(i as int) == items);
        message
    }
}

impl<'a> Lines<'a> {
    /// The heading and the lines, written out.
    pub fn message(&self) -> (message: String)
        ensures
            message@ == lines(self.1@, text::texts(self.0@)),
    {
        let mut message = text::owned(self.1);
        let ghost items = text::texts(self.0@);
        let mut i: usize = 0;
        while i < self.0.len()
            invariant
                i <= self.0@.len(),
                items == text::texts(self.0@),
                message@ == lines(self.1@, items.take(i as int)),
            decreases self.0@.len() - i,
        {
            assert(items.take(i + 1).drop_last() == items.take(i as int));
            message.append("\n  - ");
            message.append(self.0[i].as_str());
            i = i + 1;
        }
        assert(items.take(i as int) == items);
        message
    }
}

impl ProcessError {
    /// What went wrong, where `cause` is what the system said of it.
    pub open spec fn says(self, cause: Seq<char>) -> Seq<char> {
        match self {
            ProcessError::Empty => "empty process"@,
            ProcessError::SpawnError => "error spawning process: "@ + cause,
            ProcessError::InvalidStdout => "invalid stdout"@,
            ProcessError::InvalidStderr => "invalid stderr"@,
            ProcessError::NotRunning => "process was not running"@,
            ProcessError::KillError => "error killing process: "@ + cause,
        }
    }

    /// What went wrong, where `cause` is what the system said of it.
    pub fn message(&self, cause: &str) -> (message: String)
        ensures
            message@ == self.says(cause@),
    {
        match self {
            ProcessError::Empty => text::owned("empty process"),
            ProcessError::SpawnError => text::owned("error spawning process: ").concat(cause),
            ProcessError::InvalidStdout => text::owned("invalid stdout"),
            ProcessError::InvalidStderr => text::owned("invalid stderr"),
            ProcessError::NotRunning => text::owned("process was not running"),
            ProcessError::KillError => text::owned("error killing process: ").concat(cause),
        }
    }
}

impl RunnerError {
    /// What the process underneath says.
    pub open spec fn says(self, cause: Seq<char>) -> Seq<char> {
        match self {
            RunnerError::Process(error) => error.says(cause),
        }
    }

    /// What the process underneath says.
    pub fn message(&self, cause: &str) -> (message: String)
        ensures
            message@ == self.says(cause@),
    {
        match self {
            RunnerError::Process(error) => error.message(cause),
        }
    }
}

impl UnitError {
    /// Why the unit would not start, where `cause` is what the system said.
    pub open spec fn says(self, cause: Seq<char>) -> Seq<char> {
        match self {
            UnitError::Invalid => "a command with no program in it"@,
            UnitError::AlreadyStarted => "unit already started"@,
            UnitError::Runner(error) => error.says(cause),
        }
    }

    /// Why the unit would not start, where `cause` is what the system said.
    pub fn message(&self, cause: &str) -> (message: String)
        ensures
            message@ == self.says(cause@),
    {
        match self {
            UnitError::Invalid => text::owned("a command with no program in it"),
            UnitError::AlreadyStarted => text::owned("unit already started"),
            UnitError::Runner(error) => error.message(cause),
        }
    }
}

impl UiError {
    /// What took the screen down, where `cause` is what the system said.
    pub open spec fn says(self, cause: Seq<char>) -> Seq<char> {
        match self {
            UiError::DrawError => "could not draw to the terminal: "@ + cause,
            UiError::EventError => "could not read from the terminal: "@ + cause,
            UiError::Unknown => "the screen stopped for a reason it did not name"@,
        }
    }

    /// What took the screen down, where `cause` is what the system said.
    pub fn message(&self, cause: &str) -> (message: String)
        ensures
            message@ == self.says(cause@),
    {
        match self {
            UiError::DrawError => text::owned("could not draw to the terminal: ").concat(cause),
            UiError::EventError => text::owned("could not read from the terminal: ").concat(cause),
            UiError::Unknown => text::owned("the screen stopped for a reason it did not name"),
        }
    }
}

impl AppError {
    /// What went wrong, where `cause` is what the system said of it.
    pub open spec fn says(self, cause: Seq<char>) -> Seq<char> {
        match self {
            AppError::NotFound => "unit not found"@,
            AppError::UnitStart(error) => "could not start the unit: "@ + error.says(cause),
            AppError::UnitError(error) => "error with the unit: "@ + error.says(cause),
        }
    }

    /// What went wrong, where `cause` is what the system said of it.
    pub fn message(&self, cause: &str) -> (message: String)
        ensures
            message@ == self.says(cause@),
    {
        match self {
            AppError::NotFound => text::owned("unit not found"),
            AppError::UnitStart(error) => text::owned("could not start the unit: ").concat(
                error.message(cause).as_str(),
            ),
            AppError::UnitError(error) => text::owned("error with the unit: ").concat(
                error.message(cause).as_str(),
            ),
        }
    }
}

/// A heading, and every problem on a line of its own under it.
pub open spec fn all_say(errors: Seq<AppConfigError>) -> Seq<char>
    decreases errors,
{
    if errors.len() == 0 {
        "there were problems with the configuration:"@
    } else {
        all_say(errors.drop_last()) + "\n  - "@ + errors.last().says()
    }
}

/// A list of problems is a heading with an indented line for each.
pub proof fn problems_are_lines(errors: Seq<AppConfigError>)
    ensures
        all_say(errors) == lines(
            "there were problems with the configuration:"@,
            Seq::new(errors.len(), |i: int| errors[i].says()),
        ),
    decreases errors.len(),
{
    if errors.len() > 0 {
        problems_are_lines(errors.drop_last());
        assert(Seq::new(errors.len(), |i: int| errors[i].says()).drop_last() == Seq::new(
            errors.drop_last().len(),
            |i: int| errors.drop_last()[i].says(),
        ));
    }
}

impl AppConfigError {
    /// The problem, in a sentence; or all of them, a line each.
    pub open spec fn says(self) -> Seq<char>
        decreases self,
    {
        match self {
            AppConfigError::Unknown(what) => what@,
            AppConfigError::LogicErrorKey(key) => "key "@ + ticked(key@) + " should exist"@,
            AppConfigError::RunAndModes(proc) => ticked(proc@)
                + " declares both `run` and `modes`"@,
            AppConfigError::ReservedCharacter { name, character } => ticked(name@)
                + " contains reserved "@ + ticked(seq![character]),
            AppConfigError::UnknownDependency { proc, depends } => ticked(proc@)
                + " depends on "@ + ticked(depends@) + ", which is not a proc"@,
            AppConfigError::Cycle(procs) => quoted(text::texts(procs@))
                + " depend on each other in a circle"@,
            AppConfigError::Errors(errors) => all_say(errors@),
        }
    }

    /// The problem, in a sentence; or all of them, a line each.
    pub fn message(&self) -> (message: String)
        ensures
            message@ == self.says(),
        decreases self,
    {
        let mut message = String::new();
        match self {
            AppConfigError::Unknown(what) => {
                message.append(what.as_str());
            },
            AppConfigError::LogicErrorKey(key) => {
                message.append("key ");
                append_ticked(&mut message, key.as_str());
                message.append(" should exist");
            },
            AppConfigError::RunAndModes(proc) => {
                append_ticked(&mut message, proc.as_str());
                message.append(" declares both `run` and `modes`");
            },
            AppConfigError::ReservedCharacter { name, character } => {
                append_ticked(&mut message, name.as_str());
                message.append(" contains reserved ");
                append_ticked(&mut message, one_char(*character).as_str());
            },
            AppConfigError::UnknownDependency { proc, depends } => {
                append_ticked(&mut message, proc.as_str());
                message.append(" depends on ");
                append_ticked(&mut message, depends.as_str());
                message.append(", which is not a proc");
            },
            AppConfigError::Cycle(procs) => {
                message.append(Quoted(procs).message().as_str());
                message.append(" depend on each other in a circle");
            },
            AppConfigError::Errors(errors) => {
                message.append("there were problems with the configuration:");
                let mut i: usize = 0;
                while i < errors.len()
                    invariant
                        i <= errors@.len(),
                        *self == AppConfigError::Errors(*errors),
                        message@ == all_say(errors@.take(i as int)),
                    decreases errors@.len() - i,
                {
                    assert(decreases_to!(*self => self->Errors_0));
                    assert(decreases_to!(self->Errors_0 => self->Errors_0@));
                    assert(decreases_to!(self->Errors_0@ => self->Errors_0@[i as int]));
                    assert(errors@.take(i + 1).drop_last() == errors@.take(i as int));
                    message.append("\n  - ");
                    message.append(errors[i].message().as_str());
                    i = i + 1;
                }
                assert(errors@.take(i as int) == errors@);
            },
        }
        assert(message@ == self.says());
        message
    }
}

impl ServerError {
    /// What stopped it, in a sentence.
    pub open spec fn says(self) -> Seq<char> {
        match self {
            ServerError::AlreadyRunning(path) => "a server is already listening on "@ + path@,
            ServerError::Bind(path, cause) => "could not listen on "@ + path@ + ": "@ + cause@,
            ServerError::Accept(cause) => "stopped accepting connections: "@ + cause@,
        }
    }

    /// What stopped it, in a sentence.
    pub fn message(&self) -> (message: String)
        ensures
            message@ == self.says(),
    {
        match self {
            ServerError::AlreadyRunning(path) => text::owned(
                "a server is already listening on ",
            ).concat(path.as_str()),
            ServerError::Bind(path, cause) => text::owned("could not listen on ").concat(
                path.as_str(),
            ).concat(": ").concat(cause.as_str()),
            ServerError::Accept(cause) => text::owned("stopped accepting connections: ").concat(
                cause.as_str(),
            ),
        }
    }
}

impl ViewSocketError {
    /// What stopped it, in a sentence.
    pub open spec fn says(self) -> Seq<char> {
        match self {
            ViewSocketError::Connect(cause) => "could not reach the session: "@ + cause@,
            ViewSocketError::Http(cause) => "the session answered badly: "@ + cause@,
            ViewSocketError::Request(cause) => "could not build the request: "@ + cause@,
            ViewSocketError::Status(status) => "the session answered "@ + text::digits(
                status as nat,
            ),
            ViewSocketError::Body(cause) => "could not read what the session said: "@ + cause@,
        }
    }

    /// What stopped it, in a sentence.
    pub fn message(&self) -> (message: String)
        ensures
            message@ == self.says(),
    {
        match self {
            ViewSocketError::Connect(cause) => text::owned("could not reach the session: ").concat(
                cause.as_str(),
            ),
            ViewSocketError::Http(cause) => text::owned("the session answered badly: ").concat(
                cause.as_str(),
            ),
            ViewSocketError::Request(cause) => text::owned("could not build the request: ").concat(
                cause.as_str(),
            ),
            ViewSocketError::Status(status) => text::owned("the session answered ").concat(
                decimal(*status as usize).as_str(),
            ),
            ViewSocketError::Body(cause) => text::owned(
                "could not read what the session said: ",
            ).concat(cause.as_str()),
        }
    }
}

impl ViewDispatchError {
    /// What stopped it, in a sentence.
    pub open spec fn says(self) -> Seq<char> {
        match self {
            ViewDispatchError::Socket(error) => error.says(),
            ViewDispatchError::UnknownUnit(unit) => "no proc is declared as "@ + ticked(unit@),
            ViewDispatchError::NoModes(unit) => ticked(unit@)
                + " runs one way and has no mode to pick"@,
            ViewDispatchError::UnknownMode { unit, mode, modes } => ticked(unit@)
                + " has no mode "@ + ticked(mode@) + "; it has "@ + quoted(text::texts(modes@)),
        }
    }

    /// What stopped it, in a sentence.
    pub fn message(&self) -> (message: String)
        ensures
            message@ == self.says(),
    {
        let mut message = String::new();
        match self {
            ViewDispatchError::Socket(error) => {
                message.append(error.message().as_str());
            },
            ViewDispatchError::UnknownUnit(unit) => {
                message.append("no proc is declared as ");
                append_ticked(&mut message, unit.as_str());
            },
            ViewDispatchError::NoModes(unit) => {
                append_ticked(&mut message, unit.as_str());
                message.append(" runs one way and has no mode to pick");
            },
            ViewDispatchError::UnknownMode { unit, mode, modes } => {
                append_ticked(&mut message, unit.as_str());
                message.append(" has no mode ");
                append_ticked(&mut message, mode.as_str());
                message.append("; it has ");
                message.append(Quoted(modes).message().as_str());
            },
        }
        assert(message@ == self.says());
        message
    }
}

/// Whether `item` is in `text`, from `at` on.
pub open spec fn stands_at(text: Seq<char>, item: Seq<char>, at: int) -> bool {
    0 <= at && at + item.len() <= text.len() && text.subrange(at, at + item.len()) == item
}

/// Whether `item` is somewhere in `text`.
pub open spec fn mentions(text: Seq<char>, item: Seq<char>) -> bool {
    exists|at: int| #[trigger] stands_at(text, item, at)
}

/// Whether `item` is somewhere in `text`, between backticks.
pub open spec fn names(text: Seq<char>, item: Seq<char>) -> bool {
    mentions(text, seq!['`'] + item + seq!['`'])
}

/// What is put between two texts, or beside one, is in what they make.
pub proof fn lemma_mentions(before: Seq<char>, item: Seq<char>, after: Seq<char>)
    ensures
        mentions(before + item + after, item),
        mentions(before + item, item),
        mentions(item + after, item),
        mentions(item, item),
{
    assert(stands_at(before + item + after, item, before.len() as int)) by {
        let end = (before.len() + item.len()) as int;
        assert((before + item + after).subrange(before.len() as int, end) =~= item);
    }
    assert(stands_at(before + item, item, before.len() as int)) by {
        let end = (before.len() + item.len()) as int;
        assert((before + item).subrange(before.len() as int, end) =~= item);
    }
    assert(stands_at(item + after, item, 0)) by {
        assert((item + after).subrange(0, item.len() as int) =~= item);
    }
    assert(stands_at(item, item, 0)) by {
        assert(item.subrange(0, item.len() as int) =~= item);
    }
}

/// What is in a text is in whatever that text is part of.
pub proof fn lemma_mentions_within(
    text: Seq<char>,
    item: Seq<char>,
    before: Seq<char>,
    after: Seq<char>,
)
    requires
        mentions(text, item),
    ensures
        mentions(before + text + after, item),
        mentions(text + after, item),
        mentions(before + text, item),
{
    let at = choose|at: int| #[trigger] stands_at(text, item, at);
    assert(stands_at(before + text + after, item, before.len() + at)) by {
        assert((before + text + after).subrange(
            before.len() + at,
            before.len() + at + item.len(),
        ) =~= text.subrange(at, at + item.len()));
    }
    assert(stands_at(text + after, item, at)) by {
        assert((text + after).subrange(at, at + item.len()) =~= text.subrange(
            at,
            at + item.len(),
        ));
    }
    assert(stands_at(before + text, item, before.len() + at)) by {
        assert((before + text).subrange(
            before.len() + at,
            before.len() + at + item.len(),
        ) =~= text.subrange(at, at + item.len()));
    }
}

/// What is written in backticks is named.
pub proof fn lemma_ticked(item: Seq<char>)
    ensures
        ticked(item) == seq!['`'] + item + seq!['`'],
        names(ticked(item), item),
{
    reveal_strlit("`");
    assert("`"@ =~= seq!['`']);
    lemma_mentions(Seq::empty(), ticked(item), Seq::empty());
}

/// A list written out names every item of it.
pub proof fn a_list_names_every_item(items: Seq<Seq<char>>, i: int)
    requires
        0 <= i < items.len(),
    ensures
        names(quoted(items), items[i]),
    decreases items.len(),
{
    let last = items.last();
    lemma_ticked(items[0]);
    lemma_ticked(last);
    if items.len() > 1 {
        let before = quoted(items.drop_last());
        let tail = ticked(last);
        if i < items.len() - 1 {
            a_list_names_every_item(items.drop_last(), i);
            assert(items.drop_last()[i] == items[i]);
            let named = seq!['`'] + items[i] + seq!['`'];
            lemma_mentions_within(before, named, Seq::empty(), ", "@ + tail);
            assert(before + (", "@ + tail) =~= quoted(items));
        } else {
            lemma_mentions(before + ", "@, tail, Seq::empty());
        }
    }
}

/// A heading with lines under it opens with the heading, and has every line,
/// after a new line and the mark that sets it in.
pub proof fn a_heading_has_every_line_under_it(heading: Seq<char>, items: Seq<Seq<char>>, i: int)
    requires
        0 <= i < items.len(),
    ensures
        stands_at(lines(heading, items), heading, 0),
        mentions(lines(heading, items), "\n  - "@ + items[i]),
    decreases items.len(),
{
    let all = lines(heading, items);
    let before = lines(heading, items.drop_last());
    let line = "\n  - "@ + items.last();
    assert(all =~= before + line);
    if items.len() == 1 {
        assert(before == heading);
        assert(stands_at(before, heading, 0)) by {
            assert(heading.subrange(0, heading.len() as int) =~= heading);
        }
    } else {
        a_heading_has_every_line_under_it(heading, items.drop_last(), 0);
    }
    assert(all.subrange(0, heading.len() as int) =~= before.subrange(0, heading.len() as int));
    if i < items.len() - 1 {
        a_heading_has_every_line_under_it(heading, items.drop_last(), i);
        assert(items.drop_last()[i] == items[i]);
        lemma_mentions_within(before, "\n  - "@ + items[i], Seq::empty(), line);
    } else {
        lemma_mentions(before, line, Seq::empty());
    }
}

/// A problem with a config names whatever it is a problem with: the proc, the
/// name nothing is declared under, the character, every proc of a circle. And
/// an account of several has every one of them, each on a line.
pub proof fn a_problem_names_what_it_is_about(error: AppConfigError, i: int)
    ensures
        error matches AppConfigError::LogicErrorKey(key) ==> names(error.says(), key@),
        error matches AppConfigError::RunAndModes(proc) ==> names(error.says(), proc@),
        error matches AppConfigError::ReservedCharacter { name, character } ==> names(
            error.says(),
            name@,
        ) && names(error.says(), seq![character]),
        error matches AppConfigError::UnknownDependency { proc, depends } ==> names(
            error.says(),
            proc@,
        ) && names(error.says(), depends@),
        error matches AppConfigError::Cycle(procs) ==> 0 <= i < procs@.len() ==> names(
            error.says(),
            procs@[i]@,
        ),
        error matches AppConfigError::Errors(errors) ==> 0 <= i < errors@.len() ==> mentions(
            error.says(),
            "\n  - "@ + errors@[i].says(),
        ),
{
    let said = error.says();
    let none = Seq::<char>::empty();
    match error {
        AppConfigError::Unknown(_) => {},
        AppConfigError::LogicErrorKey(key) => {
            lemma_ticked(key@);
            lemma_mentions("key "@, ticked(key@), " should exist"@);
        },
        AppConfigError::RunAndModes(proc) => {
            lemma_ticked(proc@);
            lemma_mentions(none, ticked(proc@), " declares both `run` and `modes`"@);
        },
        AppConfigError::ReservedCharacter { name, character } => {
            lemma_ticked(name@);
            lemma_ticked(seq![character]);
            let tail = " contains reserved "@ + ticked(seq![character]);
            lemma_mentions(none, ticked(name@), tail);
            assert(ticked(name@) + tail =~= said);
            lemma_mentions(
                ticked(name@) + " contains reserved "@,
                ticked(seq![character]),
                none,
            );
        },
        AppConfigError::UnknownDependency { proc, depends } => {
            lemma_ticked(proc@);
            lemma_ticked(depends@);
            let tail = " depends on "@ + ticked(depends@) + ", which is not a proc"@;
            lemma_mentions(none, ticked(proc@), tail);
            assert(ticked(proc@) + tail =~= said);
            lemma_mentions(
                ticked(proc@) + " depends on "@,
                ticked(depends@),
                ", which is not a proc"@,
            );
        },
        AppConfigError::Cycle(procs) => {
            if 0 <= i < procs@.len() {
                let all = text::texts(procs@);
                a_list_names_every_item(all, i);
                assert(all[i] == procs@[i]@);
                let named = seq!['`'] + procs@[i]@ + seq!['`'];
                lemma_mentions_within(
                    quoted(all),
                    named,
                    none,
                    " depend on each other in a circle"@,
                );
            }
        },
        AppConfigError::Errors(errors) => {
            if 0 <= i < errors@.len() {
                let heading = "there were problems with the configuration:"@;
                let all = Seq::new(errors@.len(), |i: int| errors@[i].says());
                problems_are_lines(errors@);
                a_heading_has_every_line_under_it(heading, all, i);
                assert(said == all_say(errors@));
            }
        },
    }
}

/// What answers a command that could not be delivered names the unit that was
/// asked for, and for a mode that does not exist that mode and every one that
/// does.
pub proof fn a_typo_is_answered_with_what_could_be_typed(error: ViewDispatchError, i: int)
    ensures
        error matches ViewDispatchError::UnknownUnit(unit) ==> names(error.says(), unit@),
        error matches ViewDispatchError::NoModes(unit) ==> names(error.says(), unit@),
        error matches ViewDispatchError::UnknownMode { unit, mode, modes } ==> {
            &&& names(error.says(), unit@)
            &&& names(error.says(), mode@)
            &&& 0 <= i < modes@.len() ==> names(error.says(), modes@[i]@)
        },
{
    let said = error.says();
    let none = Seq::<char>::empty();
    match error {
        ViewDispatchError::Socket(_) => {},
        ViewDispatchError::UnknownUnit(unit) => {
            lemma_ticked(unit@);
            lemma_mentions("no proc is declared as "@, ticked(unit@), none);
        },
        ViewDispatchError::NoModes(unit) => {
            lemma_ticked(unit@);
            lemma_mentions(none, ticked(unit@), " runs one way and has no mode to pick"@);
        },
        ViewDispatchError::UnknownMode { unit, mode, modes } => {
            let all = text::texts(modes@);
            lemma_ticked(unit@);
            lemma_ticked(mode@);
            let tail = " has no mode "@ + ticked(mode@) + "; it has "@ + quoted(all);
            lemma_mentions(none, ticked(unit@), tail);
            assert(ticked(unit@) + tail =~= said);
            let tail = "; it has "@ + quoted(all);
            let head = ticked(unit@) + " has no mode "@;
            lemma_mentions(head, ticked(mode@), tail);
            assert(head + ticked(mode@) + tail =~= said);
            if 0 <= i < modes@.len() {
                a_list_names_every_item(all, i);
                assert(all[i] == modes@[i]@);
                let named = seq!['`'] + modes@[i]@ + seq!['`'];
                let head = head + ticked(mode@) + "; it has "@;
                lemma_mentions_within(quoted(all), named, head, none);
                assert(head + quoted(all) =~= said);
            }
        },
    }
}

/// What went wrong underneath is passed on: where the system said why, so does
/// the account of it.
pub proof fn what_the_system_said_is_passed_on(error: ProcessError, cause: Seq<char>)
    requires
        error is SpawnError || error is KillError,
    ensures
        ({
            let unit = UnitError::Runner(RunnerError::Process(error));
            &&& mentions(error.says(cause), cause)
            &&& mentions(AppError::UnitStart(unit).says(cause), cause)
            &&& mentions(AppError::UnitError(unit).says(cause), cause)
        }),
{
    let unit = UnitError::Runner(RunnerError::Process(error));
    let none = Seq::<char>::empty();
    lemma_mentions("error spawning process: "@, cause, none);
    lemma_mentions("error killing process: "@, cause, none);
    lemma_mentions_within(unit.says(cause), cause, "could not start the unit: "@, none);
    lemma_mentions_within(unit.says(cause), cause, "error with the unit: "@, none);
}

/// A server that cannot listen says where it would have, and why where the
/// system said why.
pub proof fn a_server_says_where_it_cannot_listen(error: ServerError)
    ensures
        error matches ServerError::AlreadyRunning(path) ==> mentions(error.says(), path@),
        error matches ServerError::Bind(path, cause) ==> mentions(error.says(), path@) && mentions(
            error.says(),
            cause@,
        ),
        error matches ServerError::Accept(cause) ==> mentions(error.says(), cause@),
{
    let none = Seq::<char>::empty();
    match error {
        ServerError::AlreadyRunning(path) => {
            lemma_mentions("a server is already listening on "@, path@, none);
        },
        ServerError::Bind(path, cause) => {
            let head = "could not listen on "@;
            let tail = ": "@ + cause@;
            lemma_mentions(head, path@, tail);
            assert(head + path@ + tail =~= error.says());
            lemma_mentions(head + path@ + ": "@, cause@, none);
        },
        ServerError::Accept(cause) => {
            lemma_mentions("stopped accepting connections: "@, cause@, none);
        },
    }
}

} // verus!
