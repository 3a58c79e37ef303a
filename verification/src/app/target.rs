use crate::error;
use crate::util::text;
use crate::util::text::{same_text, split_once};
use core::str::FromStr;
use vstd::prelude::*;
use vstd::string::*;

verus! {

/// What tells one kind of target from another.
///
/// Reserved: keys and group names may not contain it, which building the
/// session refuses at the door — see
/// [`ReservedCharacter`](crate::error::AppConfigError::ReservedCharacter).
/// Otherwise `group:web` means one thing or another depending on what the
/// file happens to declare.
pub const TARGET_SEPARATOR: char = ':';

/// Something to start, named the way a command line names it.
///
/// A bare name is a proc; `group:web` is every proc declared under `web`. The
/// prefix is on the group and not on the proc because the proc is the common
/// case and the common case should be the short one.
#[derive(PartialEq, Eq, Debug)]
pub enum Target {
    /// One proc, by the key it was declared under.
    Unit(String),
    /// Every proc in a group, by the group's name.
    Group(String),
}

/// A target as text: what kind it is and what it names.
#[verifier::ext_equal]
pub enum TargetView {
    Unit(Seq<char>),
    Group(Seq<char>),
}

/// Why a target could not be read, as text.
#[verifier::ext_equal]
pub enum TargetErrorView {
    Empty,
    EmptyGroup,
    UnknownKind { kind: Seq<char>, name: Seq<char> },
}

/// Why a target could not be read.
#[derive(PartialEq, Eq, Debug)]
pub enum TargetError {
    /// There was nothing there.
    Empty,
    /// A group was asked for and not named.
    EmptyGroup,
    /// What came before the separator is no kind of target.
    UnknownKind { kind: String, name: String },
}

impl View for Target {
    type V = TargetView;

    open spec fn view(&self) -> TargetView {
        match self {
            Target::Unit(name) => TargetView::Unit(name@),
            Target::Group(name) => TargetView::Group(name@),
        }
    }
}

impl View for TargetError {
    type V = TargetErrorView;

    open spec fn view(&self) -> TargetErrorView {
        match self {
            TargetError::Empty => TargetErrorView::Empty,
            TargetError::EmptyGroup => TargetErrorView::EmptyGroup,
            TargetError::UnknownKind { kind, name } => TargetErrorView::UnknownKind {
                kind: kind@,
                name: name@,
            },
        }
    }
}

impl TargetView {
    /// The target written out, the way a command line writes it.
    pub open spec fn written(self) -> Seq<char> {
        match self {
            TargetView::Unit(name) => name,
            TargetView::Group(name) => "group:"@ + name,
        }
    }

    /// Whether a command line can name it: it says something, and a proc's
    /// name does not read as a prefix.
    pub open spec fn nameable(self) -> bool {
        match self {
            TargetView::Unit(name) => name.len() > 0 && !name.contains(TARGET_SEPARATOR),
            TargetView::Group(name) => name.len() > 0,
        }
    }
}

impl TargetError {
    /// What was wrong with it, in a sentence.
    pub open spec fn says(self) -> Seq<char> {
        match self {
            TargetError::Empty => "an empty target names nothing"@,
            TargetError::EmptyGroup => "`group:` with no group after it names nothing"@,
            TargetError::UnknownKind { kind, name } => "`"@ + kind@
                + ":` is not a kind of target; did you mean `group:"@ + name@ + "`?"@,
        }
    }

    /// What was wrong with it, in a sentence.
    pub fn message(&self) -> (message: String)
        ensures
            message@ == self.says(),
    {
        match self {
            TargetError::Empty => text::owned("an empty target names nothing"),
            TargetError::EmptyGroup => text::owned("`group:` with no group after it names nothing"),
            TargetError::UnknownKind { kind, name } => text::owned("`").concat(
                kind.as_str(),
            ).concat(":` is not a kind of target; did you mean `group:").concat(
                name.as_str(),
            ).concat("`?"),
        }
    }
}

/// What is before the first separator.
pub open spec fn kind_of(target: Seq<char>) -> Seq<char> {
    target.take(text::position(target, TARGET_SEPARATOR))
}

/// What is after the first separator.
pub open spec fn name_of(target: Seq<char>) -> Seq<char> {
    target.skip(text::position(target, TARGET_SEPARATOR) + 1)
}

/// What a text names: a bare one a proc, one after `group:` a group.
pub open spec fn target_of(target: Seq<char>) -> Result<TargetView, TargetErrorView> {
    if !target.contains(TARGET_SEPARATOR) {
        if target.len() == 0 {
            Err(TargetErrorView::Empty)
        } else {
            Ok(TargetView::Unit(target))
        }
    } else if kind_of(target) != "group"@ {
        Err(TargetErrorView::UnknownKind { kind: kind_of(target), name: name_of(target) })
    } else if name_of(target).len() == 0 {
        Err(TargetErrorView::EmptyGroup)
    } else {
        Ok(TargetView::Group(name_of(target)))
    }
}

impl Target {
    /// Read one target off a command line.
    ///
    /// An unknown prefix is refused rather than read as a proc name: those
    /// cannot contain a colon, so a colon is always a prefix and a prefix
    /// nobody knows is a typo worth naming.
    pub fn parse(target: &str) -> (result: Result<Self, TargetError>)
        ensures
            match result {
                Ok(read) => target_of(target@) == Ok::<TargetView, TargetErrorView>(read@),
                Err(error) => target_of(target@) == Err::<TargetView, TargetErrorView>(error@),
            },
    {
        match split_once(target, TARGET_SEPARATOR) {
            None => {
                if target.is_empty() {
                    return Err(TargetError::Empty);
                }
                Ok(Target::Unit(text::owned(target)))
            },
            Some((kind, name)) => {
                if !same_text(kind, "group") {
                    return Err(
                        TargetError::UnknownKind {
                            kind: text::owned(kind),
                            name: text::owned(name),
                        },
                    );
                }
                if name.is_empty() {
                    return Err(TargetError::EmptyGroup);
                }
                Ok(Target::Group(text::owned(name)))
            },
        }
    }
}

impl FromStr for Target {
    type Err = TargetError;

    fn from_str(target: &str) -> (result: Result<Self, TargetError>)
        ensures
            match result {
                Ok(read) => target_of(target@) == Ok::<TargetView, TargetErrorView>(read@),
                Err(error) => target_of(target@) == Err::<TargetView, TargetErrorView>(error@),
            },
    {
        Target::parse(target)
    }
}

/// Every target a command line can name is read back as itself from the text
/// it is written as: [`Target::parse`] succeeds on that text, and what it
/// finds is the target.
pub proof fn a_target_is_read_as_it_is_written(target: TargetView)
    requires
        target.nameable(),
    ensures
        target_of(target.written()) == Ok::<TargetView, TargetErrorView>(target),
{
    if let TargetView::Group(name) = target {
        let written = target.written();
        reveal_strlit("group:");
        reveal_strlit("group");
        assert(written[5] == TARGET_SEPARATOR);
        text::lemma_position(written, TARGET_SEPARATOR);
        assert(text::position(written, TARGET_SEPARATOR) == 5);
        assert(kind_of(written) == "group"@);
        assert(name_of(written) == name);
    }
}

/// Every text is read by what comes before its first colon: none, and it is a
/// proc's name; `group`, and what is behind it is a group's; anything else is
/// no kind of target. What names nothing is refused.
pub proof fn a_target_is_read_by_its_prefix(kind: Seq<char>, name: Seq<char>)
    requires
        !kind.contains(':'),
    ensures
        kind.len() > 0 ==> target_of(kind) == Ok::<TargetView, TargetErrorView>(
            TargetView::Unit(kind),
        ),
        kind.len() == 0 ==> target_of(kind) == Err::<TargetView, TargetErrorView>(
            TargetErrorView::Empty,
        ),
        ({
            let read = target_of(kind + seq![':'] + name);
            let group = seq!['g', 'r', 'o', 'u', 'p'];
            &&& kind == group && name.len() > 0 ==> read == Ok::<TargetView, TargetErrorView>(
                TargetView::Group(name),
            )
            &&& kind == group && name.len() == 0 ==> read == Err::<TargetView, TargetErrorView>(
                TargetErrorView::EmptyGroup,
            )
            &&& kind != group ==> read == Err::<TargetView, TargetErrorView>(
                TargetErrorView::UnknownKind { kind, name },
            )
        }),
{
    reveal_strlit("group");
    assert("group"@ =~= seq!['g', 'r', 'o', 'u', 'p']);
    let target = kind + seq![':'] + name;
    assert(target[kind.len() as int] == ':');
    assert forall|i: int| 0 <= i < kind.len() implies target[i] != ':' by {
        assert(target[i] == kind[i]);
        assert(kind.contains(kind[i]));
    }
    text::lemma_position(target, ':');
    let at = text::position(target, ':');
    if at < kind.len() {
        assert(target[at] != ':');
    }
    assert(at == kind.len());
    assert(kind_of(target) =~= kind);
    assert(name_of(target) =~= name);
}

/// A target of no known kind is answered with the kind it was given, and with
/// the name after it as a group would be written.
pub proof fn an_unknown_kind_is_answered_with_what_was_meant(kind: String, name: String)
    ensures
        ({
            let said = (TargetError::UnknownKind { kind, name }).says();
            &&& error::mentions(said, kind@)
            &&& error::mentions(said, name@)
            &&& error::mentions(said, "`group:"@ + name@)
        }),
{
    let said = (TargetError::UnknownKind { kind, name }).says();
    let middle = ":` is not a kind of target; did you mean `group:"@;
    let none = Seq::<char>::empty();
    error::lemma_mentions("`"@, kind@, middle + name@ + "`?"@);
    assert("`"@ + kind@ + (middle + name@ + "`?"@) =~= said);
    error::lemma_mentions("`"@ + kind@ + middle, name@, "`?"@);
    reveal_strlit(":` is not a kind of target; did you mean `group:");
    reveal_strlit("`group:");
    let head = middle.take(41);
    assert(middle =~= head + "`group:"@);
    let meant = "`group:"@ + name@;
    error::lemma_mentions("`"@ + kind@ + head, meant, "`?"@);
    assert("`"@ + kind@ + head + meant + "`?"@ =~= said);
}

} // verus!
