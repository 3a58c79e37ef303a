//! The lines a log's writers are part way through.

use super::id::LogWriterId;
use super::line::LOG_LINE_SIZE;
use crate::util::small;
use crate::util::small::SmallList;
use crate::util::utf8;
use crate::util::utf8::{floor_char_boundary, utf8_str};
use crate::util::bytes::same_bytes;
use vstd::prelude::*;
use vstd::slice::slice_subrange;
use vstd::string::*;
use vstd::utf8::*;

verus! {

/// How many writers may have a line in flight at once.
///
/// One per process reading into the log, and a unit runs its commands one
/// after another, so in practice this is one or two. The cap is not the
/// mechanism — a partial is retired by the writer that owns it, on every path
/// there is — it is what stops a leak from growing without bound if one ever
/// gets past that.
pub const PARTIALS_MAX: usize = 8;

/// The text of a line still being written, never longer than a line under
/// construction can be.
pub struct PartialText {
    bytes: Vec<u8>,
}

impl View for PartialText {
    type V = Seq<u8>;

    closed spec fn view(&self) -> Seq<u8> {
        self.bytes@
    }
}

/// As much of `text` as a partial line keeps, cut between characters.
pub open spec fn partial_text(text: Seq<u8>) -> Seq<u8> {
    text.take(utf8::floor_boundary(text, LOG_LINE_SIZE as int))
}

/// Text no longer than a line is kept whole, and whatever is kept is text.
pub proof fn lemma_partial_text(text: Seq<u8>)
    requires
        valid_utf8(text),
    ensures
        valid_utf8(partial_text(text)),
        partial_text(text).len() <= LOG_LINE_SIZE,
        text.len() <= LOG_LINE_SIZE ==> partial_text(text) == text,
{
    let at = utf8::floor_boundary(text, LOG_LINE_SIZE as int);
    utf8::lemma_floor_boundary(text, LOG_LINE_SIZE as int);
    valid_utf8_split(text, at);
    assert(text.take(at) =~= text.subrange(0, at));
    if text.len() <= LOG_LINE_SIZE {
        assert(text.take(at) =~= text);
    }
}

impl PartialText {
    /// An empty one.
    pub fn new() -> (text: Self)
        ensures
            text@ == Seq::<u8>::empty(),
    {
        Self { bytes: Vec::new() }
    }

    /// Take `text`, replacing whatever was here.
    ///
    /// Truncated to what fits, on a character boundary. The caller cannot
    /// overrun it — a line longer than this has already left the buffer as a
    /// fragment — but a bound that only holds because of something two
    /// modules away is a bound worth keeping anyway.
    pub fn set(&mut self, text: &str)
        ensures
            final(self)@ == partial_text(text.spec_bytes()),
            valid_utf8(final(self)@),
    {
        proof {
            encode_utf8_valid_utf8(text@);
            lemma_partial_text(text.spec_bytes());
            utf8::lemma_floor_boundary(text.spec_bytes(), LOG_LINE_SIZE as int);
        }
        let bytes = text.as_bytes();
        let len = floor_char_boundary(bytes, LOG_LINE_SIZE);
        self.bytes.clear();
        self.bytes.extend_from_slice(slice_subrange(bytes, 0, len));
        assert(self.bytes@ =~= partial_text(text.spec_bytes()));
    }

    /// The text.
    pub fn as_str(&self) -> (text: &str)
        requires
            valid_utf8(self@),
        ensures
            text.spec_bytes() == self@,
    {
        utf8_str(self.bytes.as_slice())
    }
}

/// A line that is still being written: the number of the id writing it, the
/// log's version when it last changed, and the text so far.
#[verifier::ext_equal]
pub struct PartialView {
    pub writer: u32,
    pub version: u64,
    pub text: Seq<u8>,
}

impl PartialView {
    /// Whether anybody is writing into it.
    pub open spec fn is_taken(self) -> bool {
        self.writer != u32::MAX
    }
}

/// The first slot from `from` on that belongs to `writer`, or how many slots
/// there are if none does.
pub open spec fn slot_from(lines: Seq<PartialView>, writer: u32, from: int) -> int
    decreases lines.len() - from,
{
    if from >= lines.len() {
        lines.len() as int
    } else if lines[from].writer == writer {
        from
    } else {
        slot_from(lines, writer, from + 1)
    }
}

/// Of the first `n` slots, the first of those written longest ago.
pub open spec fn oldest_of(lines: Seq<PartialView>, n: int) -> int
    decreases n,
{
    if n <= 1 {
        0
    } else {
        let best = oldest_of(lines, n - 1);
        if lines[n - 1].version < lines[best].version {
            n - 1
        } else {
            best
        }
    }
}

/// The slot a line of `writer`'s goes into: the one it already has, or a free
/// one, or — failing both — the one written longest ago.
pub open spec fn slot_for(lines: Seq<PartialView>, writer: u32) -> int {
    if slot_from(lines, writer, 0) < lines.len() {
        slot_from(lines, writer, 0)
    } else if slot_from(lines, u32::MAX, 0) < lines.len() {
        slot_from(lines, u32::MAX, 0)
    } else {
        oldest_of(lines, lines.len() as int)
    }
}

/// The slots once `writer` is part way through `text`.
pub open spec fn partials_set(
    lines: Seq<PartialView>,
    writer: u32,
    version: u64,
    text: Seq<u8>,
) -> Seq<PartialView> {
    lines.update(slot_for(lines, writer), PartialView { writer, version, text: partial_text(text) })
}

/// The slots once `writer` is part way through nothing.
pub open spec fn partials_clear(lines: Seq<PartialView>, writer: u32) -> Seq<PartialView> {
    let slot = slot_from(lines, writer, 0);
    if slot < lines.len() {
        lines.update(
            slot,
            PartialView { writer: u32::MAX, text: Seq::empty(), ..lines[slot] },
        )
    } else {
        lines
    }
}

/// What `writer` is part way through, if anything.
pub open spec fn partial_of(lines: Seq<PartialView>, writer: u32) -> Option<Seq<u8>> {
    let slot = slot_from(lines, writer, 0);
    if slot < lines.len() {
        Some(lines[slot].text)
    } else {
        None
    }
}

/// How many of `order`'s slots come before a line of `version`: those no
/// newer than it.
pub open spec fn place_in_order(lines: Seq<PartialView>, order: Seq<usize>, version: u64) -> int
    decreases order.len(),
{
    if order.len() == 0 {
        0
    } else if lines[order.last() as int].version <= version {
        order.len() as int
    } else {
        place_in_order(lines, order.drop_last(), version)
    }
}

/// The taken ones of the first `n` slots, oldest first.
pub open spec fn taken_order(lines: Seq<PartialView>, n: int) -> Seq<usize>
    decreases n,
{
    if n <= 0 {
        Seq::empty()
    } else {
        let order = taken_order(lines, n - 1);
        if lines[n - 1].is_taken() {
            order.insert(
                place_in_order(lines, order, lines[n - 1].version),
                (n - 1) as usize,
            )
        } else {
            order
        }
    }
}

/// The lines being written, oldest first: who is writing each, and its text.
pub open spec fn partials_taken(lines: Seq<PartialView>) -> Seq<(u32, Seq<u8>)> {
    taken_order(lines, lines.len() as int).map_values(
        |slot: usize| (lines[slot as int].writer, lines[slot as int].text),
    )
}

/// What holds of a log's slots: as many as there are, each holding text, and
/// no writer in two of them.
pub open spec fn partials_wf(lines: Seq<PartialView>) -> bool {
    &&& lines.len() == PARTIALS_MAX
    &&& forall|i: int|
        0 <= i < lines.len() ==> valid_utf8(#[trigger] lines[i].text) && lines[i].text.len()
            <= LOG_LINE_SIZE
    &&& forall|i: int, j: int|
        0 <= i < j < lines.len() && (#[trigger] lines[i]).is_taken() ==> lines[i].writer
            != (#[trigger] lines[j]).writer
}

pub proof fn lemma_slot_from(lines: Seq<PartialView>, writer: u32, from: int)
    requires
        0 <= from <= lines.len(),
    ensures
        from <= slot_from(lines, writer, from) <= lines.len(),
        slot_from(lines, writer, from) < lines.len() ==> lines[slot_from(
            lines,
            writer,
            from,
        )].writer == writer,
        forall|i: int|
            from <= i < slot_from(lines, writer, from) ==> (#[trigger] lines[i]).writer != writer,
    decreases lines.len() - from,
{
    if from < lines.len() && lines[from].writer != writer {
        lemma_slot_from(lines, writer, from + 1);
    }
}

proof fn lemma_oldest(lines: Seq<PartialView>, n: int)
    requires
        0 < n <= lines.len(),
    ensures
        0 <= oldest_of(lines, n) < n,
        forall|i: int|
            0 <= i < n ==> lines[oldest_of(lines, n)].version <= (#[trigger] lines[i]).version,
    decreases n,
{
    if n > 1 {
        lemma_oldest(lines, n - 1);
    }
}

/// Setting a line leaves the slots well formed, and its writer is then part
/// way through it.
pub proof fn setting_a_partial_shows_it(
    lines: Seq<PartialView>,
    writer: u32,
    version: u64,
    text: Seq<u8>,
)
    requires
        partials_wf(lines),
        writer != u32::MAX,
        valid_utf8(text),
    ensures
        partials_wf(partials_set(lines, writer, version, text)),
        partial_of(partials_set(lines, writer, version, text), writer) == Some(partial_text(text)),
{
    lemma_slot_from(lines, writer, 0);
    lemma_slot_from(lines, u32::MAX, 0);
    lemma_oldest(lines, lines.len() as int);
    lemma_partial_text(text);
    let after = partials_set(lines, writer, version, text);
    lemma_slot_from(after, writer, 0);
    let slot = slot_for(lines, writer);
    assert(after[slot].writer == writer);
}

/// Clearing a line leaves the slots well formed, and its writer is then part
/// way through nothing. No other writer's line is touched.
pub proof fn clearing_a_partial_hides_it(lines: Seq<PartialView>, writer: u32, other: u32)
    requires
        partials_wf(lines),
        writer != u32::MAX,
    ensures
        partials_wf(partials_clear(lines, writer)),
        partial_of(partials_clear(lines, writer), writer) is None,
        other != writer && other != u32::MAX ==> partial_of(partials_clear(lines, writer), other)
            == partial_of(lines, other),
{
    lemma_slot_from(lines, writer, 0);
    let after = partials_clear(lines, writer);
    lemma_slot_from(after, writer, 0);
    lemma_slot_from(lines, other, 0);
    lemma_slot_from(after, other, 0);
    let slot = slot_from(lines, writer, 0);
    let empty = Seq::<u8>::empty();
    assert(valid_utf8(empty));
    if slot < lines.len() {
        assert(lines[slot].is_taken());
        assert forall|i: int| 0 <= i < after.len() implies (#[trigger] after[i]).writer
            != writer by {
            if i > slot {
                assert(lines[slot].writer != lines[i].writer);
            } else if i < slot {
                assert(lines[i].writer != writer);
            }
        }
    }
    if other != writer && other != u32::MAX {
        let a = slot_from(lines, other, 0);
        let b = slot_from(after, other, 0);
        if a < lines.len() {
            assert(after[a].writer == other);
            if b < a {
                assert(lines[b].writer == other);
            }
            assert(b == a);
        }
        if b < after.len() {
            assert(lines[b].writer == other);
        }
    }
}

proof fn lemma_place(lines: Seq<PartialView>, order: Seq<usize>, version: u64)
    ensures
        0 <= place_in_order(lines, order, version) <= order.len(),
        forall|k: int|
            place_in_order(lines, order, version) <= k < order.len() ==> lines[#[trigger] order[k]
                as int].version > version,
        place_in_order(lines, order, version) > 0 ==> lines[order[place_in_order(
            lines,
            order,
            version,
        ) - 1] as int].version <= version,
    decreases order.len(),
{
    if order.len() > 0 && lines[order.last() as int].version > version {
        lemma_place(lines, order.drop_last(), version);
        assert forall|k: int| place_in_order(lines, order, version) <= k < order.len() implies lines[
        #[trigger] order[k] as int].version > version by {
            if k < order.len() - 1 {
                assert(order.drop_last()[k] == order[k]);
            }
        }
    }
}

/// The order is by age: it names taken slots only, each of them, and one that
/// comes earlier was written no later.
pub proof fn partials_come_oldest_first(lines: Seq<PartialView>, n: int)
    requires
        0 <= n <= lines.len() <= usize::MAX,
    ensures
        ({
            let order = taken_order(lines, n);
            &&& order.len() <= n
            &&& forall|k: int|
                0 <= k < order.len() ==> (#[trigger] order[k]) < n && lines[order[k]
                    as int].is_taken()
            &&& forall|j: int, k: int|
                0 <= j < k < order.len() ==> lines[(#[trigger] order[j]) as int].version
                    <= lines[(#[trigger] order[k]) as int].version && order[j] != order[k]
            &&& forall|i: int|
                0 <= i < n && (#[trigger] lines[i]).is_taken() ==> order.contains(i as usize)
        }),
    decreases n,
{
    if n > 0 {
        partials_come_oldest_first(lines, n - 1);
        let before = taken_order(lines, n - 1);
        let after = taken_order(lines, n);
        if lines[n - 1].is_taken() {
            let at = place_in_order(lines, before, lines[n - 1].version);
            lemma_place(lines, before, lines[n - 1].version);
            assert forall|k: int| 0 <= k < after.len() implies after[k] == if k < at {
                before[k]
            } else if k == at {
                (n - 1) as usize
            } else {
                before[k - 1]
            } by {}
            assert forall|k: int| 0 <= k < at implies lines[#[trigger] before[k] as int].version
                <= lines[n - 1].version by {
                if k < at - 1 {
                    assert(lines[before[k] as int].version <= lines[before[at - 1] as int].version);
                }
            }
            assert forall|i: int| 0 <= i < n && (#[trigger] lines[i]).is_taken() implies after.contains(
                i as usize,
            ) by {
                if i == n - 1 {
                    assert(after[at] == i as usize);
                } else {
                    assert(before.contains(i as usize));
                    let k = choose|k: int| 0 <= k < before.len() && before[k] == i as usize;
                    if k < at {
                        assert(after[k] == i as usize);
                    } else {
                        assert(after[k + 1] == i as usize);
                    }
                }
            }
        }
    }
}

/// A line that is still being written.
///
/// Copied out of the reader task rather than moved, because the task is not
/// finished with it: the next read goes on adding to the same line, and this
/// is only what it looked like when the read ran out.
pub struct Partial {
    /// Who is writing it, or nobody for a free slot.
    writer: LogWriterId,
    /// The log's version when it was last written, which is what decides
    /// which one goes if the store ever fills.
    version: u64,
    /// The text so far.
    text: PartialText,
}

impl View for Partial {
    type V = PartialView;

    closed spec fn view(&self) -> PartialView {
        PartialView { writer: self.writer.raw(), version: self.version, text: self.text@ }
    }
}

impl Partial {
    /// A free slot.
    fn new() -> (partial: Self)
        ensures
            partial@ == (PartialView { writer: u32::MAX, version: 0, text: Seq::empty() }),
    {
        Self { writer: LogWriterId::unset(), version: 0, text: PartialText::new() }
    }

    /// Whether anybody is writing into it.
    pub fn is_taken(&self) -> (result: bool)
        ensures
            result == self@.is_taken(),
    {
        let unset = LogWriterId::unset();
        proof {
            self.writer.same_number_same_id(unset);
        }
        self.writer != unset
    }

    /// Who is writing it.
    pub fn writer(&self) -> (writer: LogWriterId)
        ensures
            writer.raw() == self@.writer,
    {
        self.writer
    }

    /// The text so far.
    pub fn as_str(&self) -> (text: &str)
        requires
            valid_utf8(self@.text),
        ensures
            text.spec_bytes() == self@.text,
    {
        self.text.as_str()
    }
}

/// The lines currently being written, one per writer.
///
/// Not in the ring, because a chunk in the ring is permanent and never
/// changes and a partial is neither: it is replaced on every read and then
/// disappears when the finished line lands.
pub struct Partials {
    /// [`PARTIALS_MAX`] slots, built once and reused.
    lines: Vec<Partial>,
}

impl View for Partials {
    type V = Seq<PartialView>;

    closed spec fn view(&self) -> Seq<PartialView> {
        self.lines@.map_values(|line: Partial| line@)
    }
}

impl Partials {
    /// A store with every slot built and none of them taken.
    pub fn new() -> (partials: Self)
        ensures
            partials_wf(partials@),
            forall|writer: u32| writer != u32::MAX ==> partial_of(partials@, writer) is None,
            partials_taken(partials@) == Seq::<(u32, Seq<u8>)>::empty(),
    {
        let mut lines: Vec<Partial> = Vec::with_capacity(PARTIALS_MAX);
        let free = Ghost(PartialView { writer: u32::MAX, version: 0, text: Seq::<u8>::empty() });
        while lines.len() < PARTIALS_MAX
            invariant
                lines@.len() <= PARTIALS_MAX,
                free@ == (PartialView { writer: u32::MAX, version: 0, text: Seq::empty() }),
                forall|i: int| 0 <= i < lines@.len() ==> (#[trigger] lines@[i])@ == free@,
            decreases PARTIALS_MAX - lines@.len(),
        {
            lines.push(Partial::new());
        }
        let partials = Self { lines };
        proof {
            let view = partials@;
            assert(forall|i: int| 0 <= i < view.len() ==> #[trigger] view[i] == free@);
            assert(valid_utf8(Seq::<u8>::empty()));
            assert forall|writer: u32| writer != u32::MAX implies partial_of(
                view,
                writer,
            ) is None by {
                lemma_slot_from(view, writer, 0);
            }
            partials_come_oldest_first(view, view.len() as int);
            let order = taken_order(view, view.len() as int);
            if order.len() > 0 {
                assert(view[order[0] as int].is_taken());
            }
            assert(partials_taken(view) =~= Seq::empty());
        }
        partials
    }

    /// Whether `writer` is already showing exactly `text`.
    ///
    /// Asked before publishing, because a read that brings only the head of a
    /// character adds nothing to the line — and a version that moved for that
    /// would have every view re-copying its window because a pipe twitched.
    pub fn is(&self, writer: LogWriterId, text: &str) -> (result: bool)
        requires
            partials_wf(self@),
            writer.raw() != u32::MAX,
        ensures
            result == (partial_of(self@, writer.raw()) == Some(text.spec_bytes())),
    {
        let slot = self.slot_of(writer);
        proof {
            lemma_slot_from(self@, writer.raw(), 0);
        }
        if slot >= self.lines.len() {
            return false;
        }
        assert(self@[slot as int] == self.lines@[slot as int]@);
        same_bytes(self.lines[slot].text.bytes.as_slice(), text.as_bytes())
    }

    fn slot_of(&self, writer: LogWriterId) -> (slot: usize)
        ensures
            slot == slot_from(self@, writer.raw(), 0),
    {
        let mut slot: usize = 0;
        while slot < self.lines.len()
            invariant
                slot <= self.lines@.len(),
                slot_from(self@, writer.raw(), 0) == slot_from(self@, writer.raw(), slot as int),
            decreases self.lines@.len() - slot,
        {
            assert(self@[slot as int] == self.lines@[slot as int]@);
            proof {
                self.lines@[slot as int].writer.same_number_same_id(writer);
            }
            if self.lines[slot].writer == writer {
                return slot;
            }
            slot = slot + 1;
        }
        slot
    }

    /// Take `text` as the line `writer` is part way through.
    ///
    /// Into the slot it already has, or a free one, or — failing both — the
    /// one written longest ago, which is the one most likely to belong to a
    /// reader that is not coming back. That last case is a backstop and not
    /// the mechanism: a partial is retired by the writer that owns it, on
    /// every path there is.
    pub fn set(&mut self, writer: LogWriterId, version: u64, text: &str)
        requires
            partials_wf(old(self)@),
            writer.raw() != u32::MAX,
        ensures
            final(self)@ == partials_set(old(self)@, writer.raw(), version, text.spec_bytes()),
            partials_wf(final(self)@),
    {
        proof {
            lemma_slot_from(self@, writer.raw(), 0);
            lemma_slot_from(self@, u32::MAX, 0);
            lemma_oldest(self@, self@.len() as int);
            encode_utf8_valid_utf8(text@);
            setting_a_partial_shows_it(self@, writer.raw(), version, text.spec_bytes());
        }
        let own = self.slot_of(writer);
        let slot = if own < self.lines.len() {
            own
        } else {
            let free = self.slot_of(LogWriterId::unset());
            if free < self.lines.len() {
                free
            } else {
                self.oldest()
            }
        };
        let mut kept = PartialText::new();
        kept.set(text);
        self.lines.set(slot, Partial { writer, version, text: kept });
        assert(self@ =~= partials_set(old(self)@, writer.raw(), version, text.spec_bytes()));
    }

    fn oldest(&self) -> (slot: usize)
        requires
            self@.len() > 0,
        ensures
            slot == oldest_of(self@, self@.len() as int),
    {
        let mut best: usize = 0;
        let mut n: usize = 1;
        while n < self.lines.len()
            invariant
                1 <= n <= self.lines@.len(),
                best < n,
                best == oldest_of(self@, n as int),
            decreases self.lines@.len() - n,
        {
            assert(self@[n as int] == self.lines@[n as int]@);
            assert(self@[best as int] == self.lines@[best as int]@);
            if self.lines[n].version < self.lines[best].version {
                best = n;
            }
            n = n + 1;
        }
        best
    }

    /// Forget whatever `writer` was part way through.
    ///
    /// Reports whether there was anything, because a version that moved for a
    /// clear that cleared nothing would wake every view for no reason.
    pub fn clear(&mut self, writer: LogWriterId) -> (cleared: bool)
        requires
            partials_wf(old(self)@),
            writer.raw() != u32::MAX,
        ensures
            cleared == (partial_of(old(self)@, writer.raw()) is Some),
            final(self)@ == partials_clear(old(self)@, writer.raw()),
            partials_wf(final(self)@),
    {
        proof {
            lemma_slot_from(self@, writer.raw(), 0);
            clearing_a_partial_hides_it(self@, writer.raw(), writer.raw());
        }
        let slot = self.slot_of(writer);
        if slot >= self.lines.len() {
            return false;
        }
        assert(self@[slot as int] == self.lines@[slot as int]@);
        let version = self.lines[slot].version;
        self.lines.set(
            slot,
            Partial { writer: LogWriterId::unset(), version, text: PartialText::new() },
        );
        assert(self@ =~= partials_clear(old(self)@, writer.raw()));
        true
    }

    /// The slots of the lines being written, oldest first.
    ///
    /// By version, because slots are reused in whatever order they came free,
    /// and a list that reorders itself under a reader is a list nobody can
    /// follow.
    pub fn taken(&self) -> (order: SmallList)
        requires
            partials_wf(self@),
        ensures
            small::small_items(order) == taken_order(self@, self@.len() as int),
    {
        let mut order = SmallList::new();
        let mut n: usize = 0;
        while n < self.lines.len()
            invariant
                n <= self.lines@.len(),
                self.lines@.len() == self@.len(),
                small::small_items(order) == taken_order(self@, n as int),
            decreases self.lines@.len() - n,
        {
            assert(self@[n as int] == self.lines@[n as int]@);
            if self.lines[n].is_taken() {
                let version = self.lines[n].version;
                let mut at: usize = order.len();
                proof {
                    partials_come_oldest_first(self@, n as int);
                    assert(small::small_items(order).take(at as int)
                        =~= small::small_items(order));
                }
                while at > 0 && self.lines[order.get(at - 1)].version > version
                    invariant
                        at <= small::small_items(order).len(),
                        n < self.lines@.len(),
                        self.lines@.len() == self@.len(),
                        forall|k: int|
                            0 <= k < small::small_items(order).len() ==> (
                            #[trigger] small::small_items(order)[k]) < n,
                        place_in_order(
                            self@,
                            small::small_items(order).take(at as int),
                            version,
                        ) == place_in_order(self@, small::small_items(order), version),
                    decreases at,
                {
                    let last = order.get(at - 1);
                    assert(self@[last as int] == self.lines@[last as int]@);
                    proof {
                        let head = small::small_items(order).take(at as int);
                        assert(head.last() == last);
                        assert(head.drop_last() =~= small::small_items(order).take(at - 1));
                    }
                    at = at - 1;
                }
                proof {
                    let head = small::small_items(order).take(at as int);
                    if at > 0 {
                        let last = head.last();
                        assert(last == small::small_items(order)[at - 1]);
                        assert(self@[last as int] == self.lines@[last as int]@);
                    }
                }
                order.insert(at, n);
            }
            n = n + 1;
        }
        order
    }

    /// The line in slot `slot`.
    pub fn get(&self, slot: usize) -> (line: &Partial)
        requires
            slot < self@.len(),
        ensures
            line@ == self@[slot as int],
    {
        &self.lines[slot]
    }
}

/// Showing a line touches no other writer's, unless there is no slot to show
/// it in: then the one that goes is one that was written longest ago.
pub proof fn showing_a_partial_takes_only_the_oldest(
    lines: Seq<PartialView>,
    writer: u32,
    version: u64,
    text: Seq<u8>,
    i: int,
)
    requires
        partials_wf(lines),
        writer != u32::MAX,
        0 <= i < lines.len(),
        lines[i].is_taken(),
        lines[i].writer != writer,
    ensures
        partials_set(lines, writer, version, text)[i] == lines[i] || {
            &&& forall|j: int|
                0 <= j < lines.len() ==> (#[trigger] lines[j]).is_taken() && lines[j].writer
                    != writer && lines[i].version <= lines[j].version
        },
{
    lemma_slot_from(lines, writer, 0);
    lemma_slot_from(lines, u32::MAX, 0);
    lemma_oldest(lines, lines.len() as int);
}

/// The line that was added to last comes last, so long as its version is past
/// those of the others.
pub proof fn the_line_written_last_comes_last(
    lines: Seq<PartialView>,
    writer: u32,
    version: u64,
    text: Seq<u8>,
)
    requires
        partials_wf(lines),
        writer != u32::MAX,
        valid_utf8(text),
        forall|i: int|
            0 <= i < lines.len() && (#[trigger] lines[i]).is_taken() ==> lines[i].version
                < version,
    ensures
        ({
            let taken = partials_taken(partials_set(lines, writer, version, text));
            taken.len() > 0 && taken.last() == (writer, partial_text(text))
        }),
{
    lemma_slot_from(lines, writer, 0);
    lemma_slot_from(lines, u32::MAX, 0);
    lemma_oldest(lines, lines.len() as int);
    let slot = slot_for(lines, writer);
    let after = partials_set(lines, writer, version, text);
    partials_come_oldest_first(after, after.len() as int);
    let order = taken_order(after, after.len() as int);
    assert(after[slot].is_taken());
    assert(order.contains(slot as usize));
    let k = choose|k: int| 0 <= k < order.len() && order[k] == slot as usize;
    let last = order.last() as int;
    if last != slot {
        assert(lines[last].is_taken());
        assert(after[order[k] as int].version <= after[order.last() as int].version);
    }
}

/// Clearing a line frees the slot it was in and empties it, and touches no
/// other.
pub proof fn clearing_a_partial_frees_its_slot(lines: Seq<PartialView>, writer: u32, i: int)
    requires
        partials_wf(lines),
        writer != u32::MAX,
        0 <= i < lines.len(),
    ensures
        ({
            let after = partials_clear(lines, writer);
            &&& after.len() == lines.len()
            &&& lines[i].writer != writer ==> after[i] == lines[i]
            &&& lines[i].writer == writer ==> !after[i].is_taken() && after[i].text.len() == 0
        }),
{
    lemma_slot_from(lines, writer, 0);
    let slot = slot_from(lines, writer, 0);
    if lines[i].writer == writer && slot < i {
        assert(lines[slot].is_taken());
        assert(lines[slot].writer != lines[i].writer);
    }
}

} // verus!
