use vstd::prelude::*;

verus! {

/// Which writer produced a chunk.
///
/// A log takes from as many writers as a unit has processes, and their chunks
/// land interleaved in one ring. The stamp is what lets them be told apart
/// again afterwards — to label a line, to colour it, or to filter the history
/// down to one process.
///
/// Ids are handed out by the log, densely from zero, so they double as an
/// index into whatever a renderer keeps per writer.
#[derive(Clone, Copy, PartialEq, Eq, Hash, Debug, Structural)]
pub struct LogWriterId {
    /// One more than the index, so that zero belongs to no writer.
    /// `u32::MAX` is [`unset`](LogWriterId::unset) and belongs to none either.
    raw: u32,
}

impl LogWriterId {
    #[verifier::type_invariant]
    spec fn inv(self) -> bool {
        self.raw > 0
    }

    /// The number the id was minted from.
    pub closed spec fn raw(self) -> u32 {
        self.raw
    }

    /// An id is its number.
    pub proof fn same_number_same_id(self, other: LogWriterId)
        ensures
            self.raw() == other.raw() <==> self == other,
    {
    }

    /// The id notes are written under.
    ///
    /// Reserved rather than minted, and not for tidiness: a line split across
    /// chunks is continued by *that writer's* next chunk, so notes sharing an
    /// id with a process could be spliced into the middle of one of its
    /// lines. An id of their own is what keeps the two apart.
    pub fn notes() -> (id: Self)
        ensures
            id.raw() == 1,
    {
        Self { raw: 1 }
    }

    /// The stamp a chunk carries before any writer has claimed it.
    ///
    /// A chunk in the ring always carries a real id — it is stamped on the
    /// way in — so this only ever shows on one that has not been handed over
    /// yet, or on one that has just been reset.
    pub fn unset() -> (id: Self)
        ensures
            id.raw() == u32::MAX,
    {
        Self { raw: u32::MAX }
    }

    /// Mint the id numbered `raw`. The log is the only thing that should be
    /// choosing these.
    pub fn new(raw: u32) -> (id: Self)
        requires
            raw > 0,
        ensures
            id.raw() == raw,
    {
        Self { raw }
    }

    /// Mint the id numbered `raw`, or nothing for the number no id has.
    pub fn new_checked(raw: u32) -> (id: Option<Self>)
        ensures
            raw == 0 ==> id is None,
            raw > 0 ==> id is Some && id->0.raw() == raw,
    {
        if raw == 0 {
            None
        } else {
            Some(Self { raw })
        }
    }

    /// The number behind the id, for indexing: zero for the notes, one for
    /// the first process.
    pub fn index(&self) -> (index: usize)
        ensures
            index == self.raw() - 1,
    {
        proof {
            use_type_invariant(&*self);
        }
        (self.raw - 1) as usize
    }

    /// Whether this is the id notes are written under.
    pub fn is_note(&self) -> (result: bool)
        ensures
            result == (self.raw() == 1),
    {
        self.raw == 1
    }
}

} // verus!
