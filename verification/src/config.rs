//! The config file, as it was written.
//!
//! A [`Config`] is the procs a session is made of, each one the recipe for a
//! unit: what it waits for, what groups it answers to, and what it runs.
//!
//! This says what the file says and stops. Whether a `depends` names a proc
//! that exists, whether they form a cycle, whether a proc that declared both
//! `run` and `modes` meant to — all of that belongs to [`app`](crate::app),
//! which has a whole session to answer it against.

use crate::util::text;
use crate::util::text::copy_texts;
use vstd::prelude::*;
use vstd::string::*;

verus! {

/// How much output a log keeps when the file does not say: a mebibyte.
pub const DEFAULT_LOG_SIZE: usize = 1_048_576;

/// Whether escape sequences are read when the file does not say.
pub const DEFAULT_PARSE_ANSI: bool = true;

/// A parsed config file: every proc a session is made of.
#[derive(Debug, PartialEq, Eq)]
pub struct Config {
    /// How much output to keep per proc, in bytes.
    ///
    /// Bytes rather than lines because bytes is what the ring promises: a log
    /// of long lines remembers fewer of them than a line count would suggest.
    pub log_size: Option<ConfigSize>,
    /// Whether the procs' escape sequences are read as escape sequences.
    pub parse_ansi: Option<bool>,
    /// What the file says about the screen.
    pub ui: ConfigUi,
    /// Every proc the file declared, sorted by key.
    pub procs: Vec<ConfigProc>,
}

/// What a config says about the screen.
#[derive(Clone, Copy, PartialEq, Eq, Debug, Structural)]
pub struct ConfigUi {
    /// Whether a log is shown in the colours it was written in.
    pub colors: bool,
}

impl Default for ConfigUi {
    fn default() -> (ui: Self)
        ensures
            ui == (ConfigUi { colors: true }),
    {
        ConfigUi { colors: true }
    }
}

/// One declared process: the recipe a unit is built from.
///
/// `run` and `modes` are meant to be exclusive, and nothing here enforces it —
/// a proc that declared both, or neither, says so by what it holds.
#[derive(Debug, PartialEq, Eq)]
pub struct ConfigProc {
    /// The name it is addressed by: the key it was declared under.
    pub key: String,
    /// The name it is shown under, if it is not its key.
    pub name: Option<String>,
    /// A shorter name, for where the long one will not fit.
    pub name_short: Option<String>,
    /// The groups it belongs to, for starting several procs by one name.
    pub groups: Vec<String>,
    /// What has to be up before it may start, and the edges of the dependency
    /// graph.
    pub depends: Vec<String>,
    /// Where its commands run, or `None` to run where the session was started.
    pub working_dir: Option<String>,
    /// How much output this proc's log keeps, in bytes, or `None` to take the
    /// session's.
    pub log_size: Option<ConfigSize>,
    /// Whether its escape sequences are read, or `None` to do as the session
    /// does.
    pub parse_ansi: Option<bool>,
    /// Which of the two lists on screen it is drawn in.
    pub panel: ConfigPanel,
    /// The one way this proc runs.
    pub run: Option<ConfigUnitRun>,
    /// Several named ways to run it.
    pub modes: Option<Vec<ConfigUnitMode>>,
}

/// Which list a proc is drawn in.
#[derive(Clone, Copy, PartialEq, Eq, PartialOrd, Ord, Debug, Default, Structural)]
pub enum ConfigPanel {
    /// The list proper, which is where a proc goes unless it says otherwise.
    #[default]
    Main,
    /// The compact list under it, for what you do not sit and watch.
    Minor,
}

/// One named way to run a proc, switched between without redeclaring it.
#[derive(Debug, PartialEq, Eq)]
pub struct ConfigUnitMode {
    /// What the mode is called, and what the menu lists it as.
    pub name: String,
    /// A shorter name for it, on the same terms as a proc's.
    pub name_short: Option<String>,
    /// Where this mode runs, overriding the proc's. `None` is wherever the
    /// proc says.
    pub working_dir: Option<String>,
    /// What it runs.
    pub run: ConfigUnitRun,
}

/// What a unit executes: the commands, in the order they were written.
///
/// A command is its argv — already split — rather than a line for a shell.
#[derive(Debug, PartialEq, Eq)]
pub struct ConfigUnitRun {
    /// Each command as its argv.
    pub commands: Vec<Vec<String>>,
}

/// One element of a `run` as the file spells it.
#[derive(Debug, PartialEq, Eq)]
pub enum ConfigRunElement {
    /// A word.
    Word(String),
    /// A list of words.
    List(Vec<String>),
    /// Anything else.
    Other,
}

/// Strings, written as one or as a list.
#[derive(Debug, PartialEq, Eq)]
pub enum ConfigStrings {
    One(String),
    Many(Vec<String>),
}

/// A size in bytes.
#[derive(Clone, Copy, PartialEq, Eq, Debug, Structural)]
pub struct ConfigSize(pub usize);

/// A size, written as text or as a number.
#[derive(Debug, PartialEq, Eq)]
pub enum ConfigSizeSpelling {
    Str(String),
    U64(u64),
}

/// Why a size could not be read.
#[derive(Clone, Copy, PartialEq, Eq, Debug, Structural)]
pub enum ConfigSizeError {
    /// There was no number.
    Empty,
    /// There was a character that is part of no size.
    InvalidDigit,
    /// It is more than can be counted.
    PosOverflow,
    /// For another reason.
    Unknown,
}

/// What a list of commands says.
pub open spec fn commands_text(commands: Seq<Vec<String>>) -> Seq<Seq<Seq<char>>> {
    Seq::new(commands.len(), |i: int| text::texts(commands[i]@))
}

/// Whether the elements of a `run` are the words of one command: the first
/// one says.
pub open spec fn is_flat(elements: Seq<ConfigRunElement>) -> bool {
    elements.len() > 0 && elements[0] is Word
}

/// The first element from `start` on that is not of the kind the first one
/// is, or the number of elements if they all are.
pub open spec fn first_odd(elements: Seq<ConfigRunElement>, start: int) -> int
    decreases elements.len() - start,
{
    if start >= elements.len() {
        start
    } else if is_flat(elements) && !(elements[start] is Word) {
        start
    } else if !is_flat(elements) && !(elements[start] is List) {
        start
    } else {
        first_odd(elements, start + 1)
    }
}

/// The words among the first `end` elements.
pub open spec fn words(elements: Seq<ConfigRunElement>, end: int) -> Seq<Seq<char>>
    decreases end,
{
    if end <= 0 {
        Seq::empty()
    } else {
        match elements[end - 1] {
            ConfigRunElement::Word(word) => words(elements, end - 1).push(word@),
            _ => words(elements, end - 1),
        }
    }
}

/// The commands among the first `end` elements, without the empty ones: those
/// have no program to run.
pub open spec fn rows(elements: Seq<ConfigRunElement>, end: int) -> Seq<Seq<Seq<char>>>
    decreases end,
{
    if end <= 0 {
        Seq::empty()
    } else {
        match elements[end - 1] {
            ConfigRunElement::List(list) => if list@.len() > 0 {
                rows(elements, end - 1).push(text::texts(list@))
            } else {
                rows(elements, end - 1)
            },
            _ => rows(elements, end - 1),
        }
    }
}

/// The commands a `run` comes to: one, where its elements are words; one for
/// each element, where they are lists.
pub open spec fn run_commands(elements: Seq<ConfigRunElement>) -> Seq<Seq<Seq<char>>> {
    if is_flat(elements) {
        seq![words(elements, elements.len() as int)]
    } else {
        rows(elements, elements.len() as int)
    }
}

impl ConfigUnitRun {
    /// What it executes.
    pub open spec fn says(self) -> Seq<Seq<Seq<char>>> {
        commands_text(self.commands@)
    }

    /// Read a `run`, in either of its two spellings.
    ///
    /// ```yaml
    /// run: [bash, -c, "echo hi"]      # one command
    /// run:                            # several
    ///   - [npm, run, build]
    ///   - [npm, run, test]
    /// ```
    ///
    /// The two are told apart by the first element alone: a string means the
    /// whole sequence is one command's argv, a list means one command each.
    /// An element of the other kind is refused, by its place. A command with
    /// nothing in it is dropped, and a `run` that lists nothing runs nothing.
    pub fn from_elements(elements: &Vec<ConfigRunElement>) -> (run: Result<Self, usize>)
        ensures
            match run {
                Ok(run) => first_odd(elements@, 0) == elements@.len() && run.says()
                    == run_commands(elements@),
                Err(place) => place == first_odd(elements@, 0) && place < elements@.len(),
            },
    {
        if elements.len() == 0 {
            let run = ConfigUnitRun { commands: Vec::new() };
            assert(run.says() == run_commands(elements@));
            return Ok(run);
        }
        let flat = match &elements[0] {
            ConfigRunElement::Word(_) => true,
            _ => false,
        };
        let mut argv: Vec<String> = Vec::new();
        let mut commands: Vec<Vec<String>> = Vec::new();
        let mut i: usize = 0;
        while i < elements.len()
            invariant
                elements@.len() > 0,
                flat == is_flat(elements@),
                i <= elements@.len(),
                first_odd(elements@, 0) == first_odd(elements@, i as int),
                flat ==> text::texts(argv@) == words(elements@, i as int),
                !flat ==> commands_text(commands@) == rows(elements@, i as int),
            decreases elements@.len() - i,
        {
            match &elements[i] {
                ConfigRunElement::Word(word) => {
                    if !flat {
                        return Err(i);
                    }
                    let ghost before = text::texts(argv@);
                    argv.push(word.clone());
                    assert(text::texts(argv@) == before.push(word@));
                },
                ConfigRunElement::List(list) => {
                    if flat {
                        return Err(i);
                    }
                    if list.len() > 0 {
                        let ghost before = commands_text(commands@);
                        let row = copy_texts(list);
                        assert(text::texts(row@) == text::texts(list@));
                        commands.push(row);
                        assert(commands_text(commands@) == before.push(text::texts(list@)));
                    }
                },
                ConfigRunElement::Other => {
                    return Err(i);
                },
            }
            i = i + 1;
        }
        if flat {
            let ghost said = text::texts(argv@);
            commands = Vec::new();
            commands.push(argv);
            assert(commands_text(commands@) == seq![said]);
        }
        Ok(ConfigUnitRun { commands })
    }

    /// The same commands again.
    pub fn copy(&self) -> (copy: Self)
        ensures
            copy.says() == self.says(),
    {
        let mut commands: Vec<Vec<String>> = Vec::new();
        let mut i: usize = 0;
        while i < self.commands.len()
            invariant
                i <= self.commands@.len(),
                commands@.len() == i,
                forall|j: int| 0 <= j < i ==> (#[trigger] commands@[j])@ == self.commands@[j]@,
            decreases self.commands@.len() - i,
        {
            commands.push(copy_texts(&self.commands[i]));
            i = i + 1;
        }
        let copy = ConfigUnitRun { commands };
        assert forall|j: int| 0 <= j < i implies text::texts(copy.commands@[j]@) == text::texts(
            self.commands@[j]@,
        ) by {
            assert(copy.commands@[j]@ == self.commands@[j]@);
        }
        assert(copy.says() == self.says());
        copy
    }
}

/// No command a `run` comes to is empty: each has a program to run.
pub proof fn every_command_has_a_program(elements: Seq<ConfigRunElement>)
    requires
        first_odd(elements, 0) == elements.len(),
    ensures
        forall|i: int|
            0 <= i < run_commands(elements).len() ==> (#[trigger] run_commands(elements)[i]).len()
                > 0,
{
    if is_flat(elements) {
        lemma_words(elements, elements.len() as int);
    } else {
        lemma_rows(elements, elements.len() as int);
    }
}

proof fn lemma_words(elements: Seq<ConfigRunElement>, end: int)
    requires
        is_flat(elements),
        0 < end <= elements.len(),
    ensures
        words(elements, end).len() > 0,
    decreases end,
{
    if end > 1 {
        lemma_words(elements, end - 1);
    }
}

proof fn lemma_rows(elements: Seq<ConfigRunElement>, end: int)
    requires
        0 <= end <= elements.len(),
    ensures
        forall|i: int|
            0 <= i < rows(elements, end).len() ==> (#[trigger] rows(elements, end)[i]).len() > 0,
    decreases end,
{
    if end > 0 {
        lemma_rows(elements, end - 1);
        assert forall|i: int| 0 <= i < rows(elements, end).len() implies (#[trigger] rows(
            elements,
            end,
        )[i]).len() > 0 by {
            if i < rows(elements, end - 1).len() {
                assert(rows(elements, end - 1)[i] == rows(elements, end)[i]);
            }
        }
    }
}

proof fn lemma_first_odd(elements: Seq<ConfigRunElement>, start: int)
    requires
        0 <= start <= elements.len(),
    ensures
        start <= first_odd(elements, start) <= elements.len(),
        forall|i: int|
            start <= i < first_odd(elements, start) ==> if elements[0] is Word {
                (#[trigger] elements[i]) is Word
            } else {
                elements[i] is List
            },
        first_odd(elements, start) < elements.len() ==> {
            let odd = elements[first_odd(elements, start)];
            if elements[0] is Word {
                !(odd is Word)
            } else {
                !(odd is List)
            }
        },
    decreases elements.len() - start,
{
    if start < elements.len() && (if is_flat(elements) {
        elements[start] is Word
    } else {
        elements[start] is List
    }) {
        lemma_first_odd(elements, start + 1);
    }
}

/// A `run` is read exactly when its elements are of one kind, all words or all
/// lists; where they are not it is refused at the first that is not of the
/// kind the first one is.
pub proof fn a_run_is_of_one_kind(elements: Seq<ConfigRunElement>)
    ensures
        first_odd(elements, 0) == elements.len() <==> (forall|i: int|
            0 <= i < elements.len() ==> (#[trigger] elements[i]) is Word) || (forall|i: int|
            0 <= i < elements.len() ==> (#[trigger] elements[i]) is List),
        first_odd(elements, 0) < elements.len() ==> {
            let place = first_odd(elements, 0);
            &&& 0 <= place
            &&& (forall|i: int| 0 <= i < place ==> (#[trigger] elements[i]) is Word) || (forall|
                i: int,
            |
                0 <= i < place ==> (#[trigger] elements[i]) is List)
            &&& place > 0 && elements[0] is Word ==> !(elements[place] is Word)
            &&& place > 0 && elements[0] is List ==> !(elements[place] is List)
            &&& place == 0 ==> elements[0] is Other
        },
{
    lemma_first_odd(elements, 0);
    let place = first_odd(elements, 0);
    if place == elements.len() && place > 0 && !(elements[0] is Word) {
        assert(elements[0] is List);
        assert forall|i: int| 0 <= i < elements.len() implies (#[trigger] elements[i]) is List by {
        }
    }
    if place < elements.len() {
        if place > 0 {
            assert(elements[0] is Word || elements[0] is List);
        }
        assert(!(elements[0] is Word) ==> !(elements[place] is List));
    }
}

proof fn lemma_words_are(elements: Seq<ConfigRunElement>, end: int)
    requires
        0 <= end <= elements.len(),
        forall|i: int| 0 <= i < end ==> (#[trigger] elements[i]) is Word,
    ensures
        words(elements, end).len() == end,
        forall|i: int|
            0 <= i < end ==> #[trigger] words(elements, end)[i] == elements[i]->Word_0@,
    decreases end,
{
    if end > 0 {
        lemma_words_are(elements, end - 1);
        assert(elements[end - 1] is Word);
        assert forall|i: int| 0 <= i < end implies #[trigger] words(elements, end)[i]
            == elements[i]->Word_0@ by {
            if i < end - 1 {
                assert(words(elements, end - 1)[i] == words(elements, end)[i]);
            }
        }
    }
}

/// A `run` of words is one command, and its argv is those words, one for one
/// and in the order they are written.
pub proof fn words_are_one_command(elements: Seq<ConfigRunElement>, run: ConfigUnitRun)
    requires
        elements.len() > 0,
        forall|i: int| 0 <= i < elements.len() ==> (#[trigger] elements[i]) is Word,
        run.says() == run_commands(elements),
    ensures
        run.commands@.len() == 1,
        run.commands@[0]@.len() == elements.len(),
        forall|i: int|
            0 <= i < elements.len() ==> (#[trigger] run.commands@[0]@[i])@
                == elements[i]->Word_0@,
{
    assert(elements[0] is Word);
    lemma_words_are(elements, elements.len() as int);
    assert(run.says().len() == 1);
    let said = text::texts(run.commands@[0]@);
    assert(run.says()[0] == said);
    assert(said == words(elements, elements.len() as int));
    assert forall|i: int| 0 <= i < elements.len() implies (#[trigger] run.commands@[0]@[i])@
        == elements[i]->Word_0@ by {
        assert(said[i] == run.commands@[0]@[i]@);
    }
}

proof fn lemma_rows_are(elements: Seq<ConfigRunElement>, end: int)
    requires
        0 <= end <= elements.len(),
        forall|i: int|
            0 <= i < end ==> (#[trigger] elements[i]) is List && elements[i]->List_0@.len() > 0,
    ensures
        rows(elements, end).len() == end,
        forall|i: int|
            0 <= i < end ==> #[trigger] rows(elements, end)[i] == text::texts(
                elements[i]->List_0@,
            ),
    decreases end,
{
    if end > 0 {
        lemma_rows_are(elements, end - 1);
        assert(elements[end - 1] is List);
        assert forall|i: int| 0 <= i < end implies #[trigger] rows(elements, end)[i]
            == text::texts(elements[i]->List_0@) by {
            if i < end - 1 {
                assert(rows(elements, end - 1)[i] == rows(elements, end)[i]);
            }
        }
    }
}

/// A `run` of lists is as many commands as lists, each of them that list word
/// for word, in the order they are written.
pub proof fn every_list_is_a_command(elements: Seq<ConfigRunElement>, run: ConfigUnitRun)
    requires
        forall|i: int|
            0 <= i < elements.len() ==> (#[trigger] elements[i]) is List
                && elements[i]->List_0@.len() > 0,
        run.says() == run_commands(elements),
    ensures
        run.commands@.len() == elements.len(),
        forall|i: int|
            0 <= i < elements.len() ==> (#[trigger] run.commands@[i])@.len()
                == elements[i]->List_0@.len(),
        forall|i: int, w: int|
            0 <= i < elements.len() && 0 <= w < run.commands@[i]@.len() ==> (
            #[trigger] run.commands@[i]@[w])@ == elements[i]->List_0@[w]@,
{
    if elements.len() > 0 {
        assert(elements[0] is List);
    }
    lemma_rows_are(elements, elements.len() as int);
    assert(run.says().len() == run.commands@.len());
    assert forall|i: int| 0 <= i < elements.len() implies text::texts(
        (#[trigger] run.commands@[i])@,
    ) == text::texts(elements[i]->List_0@) by {
        assert(run.says()[i] == text::texts(run.commands@[i]@));
        assert(rows(elements, elements.len() as int)[i] == text::texts(elements[i]->List_0@));
    }
    assert forall|i: int| 0 <= i < elements.len() implies (#[trigger] run.commands@[i])@.len()
        == elements[i]->List_0@.len() by {
        assert(text::texts(run.commands@[i]@).len() == run.commands@[i]@.len());
        assert(text::texts(elements[i]->List_0@).len() == elements[i]->List_0@.len());
    }
    assert forall|i: int, w: int|
        0 <= i < elements.len() && 0 <= w < run.commands@[i]@.len() implies (
    #[trigger] run.commands@[i]@[w])@ == elements[i]->List_0@[w]@ by {
        assert(text::texts(run.commands@[i]@)[w] == run.commands@[i]@[w]@);
        assert(text::texts(elements[i]->List_0@)[w] == elements[i]->List_0@[w]@);
    }
}

proof fn lemma_rows_without(elements: Seq<ConfigRunElement>, end: int, k: int)
    requires
        0 <= k < end <= elements.len(),
        elements[k] is List && elements[k]->List_0@.len() == 0,
    ensures
        rows(elements.remove(k), end - 1) == rows(elements, end),
    decreases end,
{
    let fewer = elements.remove(k);
    if end - 1 > k {
        lemma_rows_without(elements, end - 1, k);
        assert(fewer[end - 2] == elements[end - 1]);
    } else {
        lemma_rows_agree(fewer, elements, k);
    }
}

proof fn lemma_rows_agree(a: Seq<ConfigRunElement>, b: Seq<ConfigRunElement>, end: int)
    requires
        end <= a.len(),
        end <= b.len(),
        forall|i: int| 0 <= i < end ==> a[i] == b[i],
    ensures
        rows(a, end) == rows(b, end),
    decreases end,
{
    if end > 0 {
        lemma_rows_agree(a, b, end - 1);
    }
}

/// A list with nothing in it changes nothing: a `run` of lists comes to the
/// same commands without it.
pub proof fn an_empty_list_changes_nothing(elements: Seq<ConfigRunElement>, k: int)
    requires
        forall|i: int| 0 <= i < elements.len() ==> (#[trigger] elements[i]) is List,
        0 <= k < elements.len(),
        elements[k]->List_0@.len() == 0,
    ensures
        run_commands(elements.remove(k)) == run_commands(elements),
{
    assert(elements[0] is List);
    assert(elements[k] is List);
    let fewer = elements.remove(k);
    if fewer.len() > 0 {
        assert(fewer[0] == elements[0] || fewer[0] == elements[1]);
    }
    lemma_rows_without(elements, elements.len() as int, k);
}

impl ConfigStrings {
    /// The strings, however they were written.
    pub open spec fn says(self) -> Seq<Seq<char>> {
        match self {
            ConfigStrings::One(string) => seq![string@],
            ConfigStrings::Many(strings) => text::texts(strings@),
        }
    }

    /// The strings, as a list.
    pub fn into_list(self) -> (list: Vec<String>)
        ensures
            text::texts(list@) == self.says(),
    {
        match self {
            ConfigStrings::One(string) => {
                let mut list: Vec<String> = Vec::new();
                list.push(string);
                assert(text::texts(list@) == seq![string@]);
                list
            },
            ConfigStrings::Many(strings) => strings,
        }
    }
}

/// Strings written as a list are that list, one for one and in order; one
/// written by itself is a list of one.
pub proof fn strings_are_listed_as_written(strings: ConfigStrings, list: Vec<String>)
    requires
        text::texts(list@) == strings.says(),
    ensures
        strings matches ConfigStrings::One(string) ==> list@.len() == 1 && list@[0]@ == string@,
        strings matches ConfigStrings::Many(many) ==> {
            &&& list@.len() == many@.len()
            &&& forall|i: int| 0 <= i < many@.len() ==> (#[trigger] list@[i])@ == many@[i]@
        },
{
    assert(text::texts(list@).len() == list@.len());
    assert forall|i: int| 0 <= i < list@.len() implies (#[trigger] list@[i])@
        == strings.says()[i] by {
        assert(text::texts(list@)[i] == list@[i]@);
    }
}

/// How many bytes a size written as text comes to: the name for what
/// `parse_size` answers, reading `KB`, `MB` and so on by powers of two.
pub uninterp spec fn parsed_size(size: Seq<char>) -> Result<u64, ConfigSizeError>;

/// What a digit is worth.
pub open spec fn digit_of(c: char) -> int {
    if '0' <= c <= '9' {
        c as int - '0' as int
    } else {
        -1
    }
}

/// Whether the digits of `size` from `start` on, put after those that came to
/// `value`, come to exactly the largest number there is and go on with one
/// that rounds it up.
pub open spec fn runs_over(size: Seq<char>, start: int, value: int) -> bool
    decreases size.len() - start,
{
    if start >= size.len() {
        false
    } else if digit_of(size[start]) >= 0 {
        let next = value * 10 + digit_of(size[start]);
        if next > u64::MAX {
            value == u64::MAX && digit_of(size[start]) >= 5
        } else {
            runs_over(size, start + 1, next)
        }
    } else if size[start] == '_' || size[start] == ' ' || size[start] == '.' {
        runs_over(size, start + 1, value)
    } else {
        false
    }
}

/// Whether `size` is written with more digits than can be read: its digits
/// come to exactly the largest number there is, and go on.
pub fn is_beyond_reading(size: &str) -> (beyond: bool)
    ensures
        beyond == (runs_over(size@, 0, 0) || size@.len() > i32::MAX),
{
    if size.unicode_len() > 0x7fff_ffff {
        return true;
    }
    let mut value: u64 = 0;
    let mut at: usize = 0;
    for c in chars: size.chars()
        invariant
            chars.seq() == size@,
            at == chars.index(),
            size@.len() <= i32::MAX,
            runs_over(size@, 0, 0) == runs_over(size@, at as int, value as int),
    {
        if '0' <= c && c <= '9' {
            let digit: u64 = (c as u64) - 48;
            if value > u64::MAX / 10 || digit > u64::MAX - value * 10 {
                assert(value * 10 + digit > u64::MAX);
                return value == u64::MAX && digit >= 5;
            }
            value = value * 10 + digit;
        } else if c != '_' && c != ' ' && c != '.' {
            return false;
        }
        at = at + 1;
    }
    false
}

/// Read a size, by `parse_size::Config::parse_size` under `with_binary`, whose
/// source makes the answer of the text alone.
///
/// Digits that come to exactly the largest `u64` and go on with a five or
/// more add one past it there, and the digits are counted in an `i32`; texts
/// that do either are left out.
#[verifier::external_body]
fn parse_size_binary(size: &str) -> (result: Result<u64, ConfigSizeError>)
    requires
        !runs_over(size@, 0, 0),
        size@.len() <= i32::MAX,
    ensures
        result == parsed_size(size@),
{
    parse_size::Config::new().with_binary().parse_size(size).map_err(
        |error| match error {
            parse_size::Error::Empty => ConfigSizeError::Empty,
            parse_size::Error::InvalidDigit => ConfigSizeError::InvalidDigit,
            parse_size::Error::PosOverflow => ConfigSizeError::PosOverflow,
            _ => ConfigSizeError::Unknown,
        },
    )
}

impl ConfigSizeSpelling {
    /// Whether it is written with more digits than can be read.
    pub open spec fn beyond_reading(self) -> bool {
        match self {
            ConfigSizeSpelling::Str(size) => runs_over(size@, 0, 0) || size@.len() > i32::MAX,
            ConfigSizeSpelling::U64(_) => false,
        }
    }

    /// How many bytes it comes to.
    pub open spec fn bytes(self) -> Result<u64, ConfigSizeError> {
        match self {
            ConfigSizeSpelling::Str(size) => parsed_size(size@),
            ConfigSizeSpelling::U64(bytes) => Ok(bytes),
        }
    }
}

impl ConfigSize {
    /// A size of so many bytes, as far as the machine counts.
    pub fn of(bytes: u64) -> (size: Self)
        ensures
            size.0 == bytes as usize,
    {
        ConfigSize(bytes as usize)
    }

    /// Read a size, written as text or as a number.
    pub fn from_spelling(spelling: &ConfigSizeSpelling) -> (size: Result<Self, ConfigSizeError>)
        requires
            !spelling.beyond_reading(),
        ensures
            size == match spelling.bytes() {
                Ok(bytes) => Ok::<Self, ConfigSizeError>(ConfigSize(bytes as usize)),
                Err(error) => Err::<Self, ConfigSizeError>(error),
            },
    {
        match spelling {
            ConfigSizeSpelling::U64(bytes) => Ok(ConfigSize::of(*bytes)),
            ConfigSizeSpelling::Str(size) => match parse_size_binary(size.as_str()) {
                Ok(bytes) => Ok(ConfigSize::of(bytes)),
                Err(error) => Err(error),
            },
        }
    }
}

impl ConfigSizeError {
    /// What was wrong with it, in a sentence.
    pub open spec fn says(self) -> Seq<char> {
        match self {
            ConfigSizeError::Empty => "cannot parse integer from empty string"@,
            ConfigSizeError::InvalidDigit => "invalid digit found in string"@,
            ConfigSizeError::PosOverflow => "number too large to fit in target type"@,
            ConfigSizeError::Unknown => "not a size"@,
        }
    }

    /// What was wrong with it, in a sentence.
    pub fn message(&self) -> (message: String)
        ensures
            message@ == self.says(),
    {
        text::owned(
            match self {
                ConfigSizeError::Empty => "cannot parse integer from empty string",
                ConfigSizeError::InvalidDigit => "invalid digit found in string",
                ConfigSizeError::PosOverflow => "number too large to fit in target type",
                ConfigSizeError::Unknown => "not a size",
            },
        )
    }
}

impl Config {
    /// How much output the units keep: what the file says, or a mebibyte.
    pub fn log_size(&self) -> (size: usize)
        ensures
            size == match self.log_size {
                Some(size) => size.0,
                None => DEFAULT_LOG_SIZE,
            },
    {
        match self.log_size {
            Some(size) => size.0,
            None => DEFAULT_LOG_SIZE,
        }
    }

    /// Whether the units' escape sequences are read: what the file says, or
    /// that they are.
    pub fn parse_ansi(&self) -> (parse_ansi: bool)
        ensures
            parse_ansi == match self.parse_ansi {
                Some(parse_ansi) => parse_ansi,
                None => DEFAULT_PARSE_ANSI,
            },
    {
        match self.parse_ansi {
            Some(parse_ansi) => parse_ansi,
            None => DEFAULT_PARSE_ANSI,
        }
    }
}

impl ConfigProc {
    /// How much output this proc keeps, given what the session keeps.
    ///
    /// The fallback is taken here rather than left to the caller so that
    /// there is one place the two figures meet.
    pub fn log_size(&self, session: usize) -> (size: usize)
        ensures
            size == match self.log_size {
                Some(size) => size.0,
                None => session,
            },
    {
        match self.log_size {
            Some(size) => size.0,
            None => session,
        }
    }

    /// Whether this proc's escape sequences are read, given what the session
    /// does.
    pub fn parse_ansi(&self, session: bool) -> (parse_ansi: bool)
        ensures
            parse_ansi == match self.parse_ansi {
                Some(parse_ansi) => parse_ansi,
                None => session,
            },
    {
        match self.parse_ansi {
            Some(parse_ansi) => parse_ansi,
            None => session,
        }
    }

    /// The proc under the key it was declared under.
    pub fn keyed(self, key: String) -> (proc: Self)
        ensures
            proc == (ConfigProc { key, ..self }),
    {
        ConfigProc { key, ..self }
    }
}

/// Whether `c` may stand between the digits of a size.
pub open spec fn may_part_digits(c: char) -> bool {
    c == '_' || c == ' ' || c == '.'
}

/// What the digits among the first `end` characters of `size` come to.
pub open spec fn digits_to(size: Seq<char>, end: int) -> int
    decreases end,
{
    if end <= 0 {
        0
    } else if '0' <= size[end - 1] <= '9' {
        digits_to(size, end - 1) * 10 + (size[end - 1] as int - '0' as int)
    } else {
        digits_to(size, end - 1)
    }
}

/// Whether the digits of `size` before `at` come to exactly the largest number
/// there is, and go on at `at` with one that rounds it up.
pub open spec fn goes_on_at(size: Seq<char>, at: int) -> bool {
    &&& 0 <= at < size.len()
    &&& '5' <= size[at] <= '9'
    &&& digits_to(size, at) == u64::MAX
    &&& forall|i: int|
        0 <= i < at ==> '0' <= #[trigger] size[i] <= '9' || may_part_digits(size[i])
}

proof fn lemma_digits_grow(size: Seq<char>, from: int, to: int)
    requires
        0 <= from <= to,
    ensures
        0 <= digits_to(size, from) <= digits_to(size, to),
    decreases to,
{
    if from < to {
        lemma_digits_grow(size, from, to - 1);
    } else if from > 0 {
        lemma_digits_grow(size, from - 1, from - 1);
    }
}

proof fn lemma_runs_over(size: Seq<char>, start: int)
    requires
        0 <= start <= size.len(),
        digits_to(size, start) <= u64::MAX,
        forall|i: int|
            0 <= i < start ==> '0' <= #[trigger] size[i] <= '9' || may_part_digits(size[i]),
        forall|at: int| 0 <= at < start ==> !#[trigger] goes_on_at(size, at),
    ensures
        runs_over(size, start, digits_to(size, start)) <==> exists|at: int| #[trigger]
            goes_on_at(size, at),
    decreases size.len() - start,
{
    let value = digits_to(size, start);
    lemma_digits_grow(size, 0, start);
    if start < size.len() {
        let c = size[start];
        let next = digits_to(size, start + 1);
        if '0' <= c <= '9' {
            if next > u64::MAX {
                assert forall|at: int| start < at implies !#[trigger] goes_on_at(size, at) by {
                    lemma_digits_grow(size, start + 1, at);
                }
                if value == u64::MAX && digit_of(c) >= 5 {
                    assert(goes_on_at(size, start));
                }
            } else {
                assert(!goes_on_at(size, start));
                lemma_runs_over(size, start + 1);
            }
        } else if may_part_digits(c) {
            assert(!goes_on_at(size, start));
            lemma_runs_over(size, start + 1);
        } else {
            assert forall|at: int| start <= at implies !#[trigger] goes_on_at(size, at) by {
                if goes_on_at(size, at) && at > start {
                    assert('0' <= size[start] <= '9' || may_part_digits(size[start]));
                }
            }
        }
    }
}

/// A size has more digits than can be read exactly where those before some
/// digit come to the largest number there is, and that digit rounds it up; or
/// where there are more characters than are counted. A number always can be,
/// and is that many bytes.
pub proof fn which_sizes_are_beyond_reading(size: ConfigSizeSpelling)
    ensures
        size matches ConfigSizeSpelling::Str(text) ==> (size.beyond_reading() <==> (
        exists|at: int| #[trigger] goes_on_at(text@, at)) || text@.len() > 0x7fff_ffff),
        size matches ConfigSizeSpelling::U64(number) ==> !size.beyond_reading() && size.bytes()
            == Ok::<u64, ConfigSizeError>(number),
{
    if let ConfigSizeSpelling::Str(text) = size {
        lemma_runs_over(text@, 0);
    }
}

} // verus!
