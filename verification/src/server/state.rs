//! What a connection reads the session through.

use crate::app::{AppUnitKey, AppUnitMap};
use crate::log::reader;
use crate::log::reader::ReaderView;
use crate::log::{Log, LogLine, LogLineView, LogReader, LogRegion};
use crate::ui::render::log as pane;
use crate::view;
use crate::view::{refresh_rows, rows_of, UnitNow, UnitRow, ViewUnit};
use vstd::prelude::*;

verus! {

/// The rows, as the last request left them.
///
/// Built once and refreshed in place: the set of units, their keys, names and
/// panels come from a config read before the session existed, so a request has
/// only three fields per row to look at. What that buys is the revision — a
/// refresh that finds nothing different leaves it alone, and the client can be
/// told that what it has is current.
pub struct ServerUnits {
    /// In the order they are drawn in, settled at build time.
    rows: Vec<ViewUnit>,
    /// Moved only when a refresh finds a row different.
    revision: u64,
    /// Whether the rows have been answered with yet.
    answered: bool,
}

/// The rows, the revision they are at, and whether they have been answered
/// with.
#[verifier::ext_equal]
pub struct ServerUnitsView {
    pub rows: Seq<UnitRow>,
    pub revision: u64,
    pub answered: bool,
}

/// What a request for the rows is answered with. Never that they are not
/// there: the rows are the whole session, and there is always a session.
#[derive(Clone, Copy, PartialEq, Eq, Debug, Structural)]
pub enum ServerUnitResult {
    /// The revision the client has is the one the rows are still at.
    NotModified,
    /// The rows, at this revision; `moved` if they are not what was last
    /// answered with.
    Read { revision: u64, moved: bool },
}

impl View for ServerUnits {
    type V = ServerUnitsView;

    closed spec fn view(&self) -> ServerUnitsView {
        ServerUnitsView {
            rows: view::rows(self.rows@),
            revision: self.revision,
            answered: self.answered,
        }
    }
}

impl ServerUnitsView {
    /// Whether a look finds anything to answer with that was not answered with
    /// before.
    pub open spec fn moves(self, now: Seq<UnitNow>) -> bool {
        !self.answered || view::all_refreshed(self.rows, now) != self.rows
    }

    /// The rows once they have been looked at and answered with.
    pub open spec fn looked(self, now: Seq<UnitNow>) -> ServerUnitsView {
        ServerUnitsView {
            rows: view::all_refreshed(self.rows, now),
            revision: if self.moves(now) {
                (self.revision + 1) as u64
            } else {
                self.revision
            },
            answered: true,
        }
    }

    /// What a client that has `last_revision` is answered.
    pub open spec fn answer(
        self,
        now: Seq<UnitNow>,
        last_revision: Option<u64>,
    ) -> ServerUnitResult {
        let after = self.looked(now);
        if !self.moves(now) && last_revision == Some(after.revision) {
            ServerUnitResult::NotModified
        } else {
            ServerUnitResult::Read { revision: after.revision, moved: self.moves(now) }
        }
    }
}

impl ServerUnits {
    /// The rows are in the order they are drawn in, and a revision that was
    /// answered with is not zero.
    pub closed spec fn wf(self) -> bool {
        &&& view::ordered(view::rows(self.rows@))
        &&& (self.answered ==> self.revision > 0)
    }

    /// Every unit of `map`, at a revision no client can be holding: one only
    /// reaches a client by having been answered with, and the first answer
    /// moves it.
    pub fn new(map: &AppUnitMap) -> (units: Self)
        requires
            map@.wf(),
        ensures
            units.wf(),
            units@.rows.to_multiset() == view::declared_rows(map@).to_multiset(),
            view::ordered(units@.rows),
            units@.revision == 0,
            !units@.answered,
    {
        ServerUnits { rows: rows_of(map), revision: 0, answered: false }
    }

    /// Refresh the rows, and answer with the revision they are at.
    pub fn read_units(&mut self, now: &Vec<UnitNow>, last_revision: Option<u64>) -> (answer:
        ServerUnitResult)
        requires
            old(self).wf(),
            old(self)@.revision < u64::MAX,
        ensures
            final(self).wf(),
            final(self)@ == old(self)@.looked(now@),
            answer == old(self)@.answer(now@, last_revision),
            answer matches ServerUnitResult::Read { revision, .. } ==> revision > 0,
    {
        proof {
            view::looking_again_keeps_the_order(view::rows(self.rows@), now@);
        }
        let changed = refresh_rows(&mut self.rows, now);
        // Also on the first call, where nothing has been answered with yet.
        if changed || !self.answered {
            self.revision = self.revision + 1;
            self.answered = true;
            return ServerUnitResult::Read { revision: self.revision, moved: true };
        }
        match last_revision {
            Some(last) => if last == self.revision {
                return ServerUnitResult::NotModified;
            },
            None => {},
        }
        ServerUnitResult::Read { revision: self.revision, moved: false }
    }

    /// The rows.
    pub fn rows(&self) -> (rows: &Vec<ViewUnit>)
        ensures
            view::rows(rows@) == self@.rows,
    {
        &self.rows
    }
}

/// A client that sends back the revision it was answered with is told that
/// what it has is current, for as long as the session sits still — and never
/// when a row has changed.
pub proof fn a_current_client_is_told_so(
    units: ServerUnitsView,
    now: Seq<UnitNow>,
    later: Seq<UnitNow>,
)
    requires
        units.revision < u64::MAX - 1,
    ensures
        ({
            let after = units.looked(now);
            let sent = Some(after.revision);
            &&& after.answer(now, sent) == ServerUnitResult::NotModified
            &&& view::all_refreshed(after.rows, later) != after.rows ==> after.answer(later, sent)
                == (ServerUnitResult::Read {
                revision: (after.revision + 1) as u64,
                moved: true,
            })
        }),
{
    let after = units.looked(now);
    assert(view::all_refreshed(after.rows, now) =~= after.rows) by {
        assert forall|i: int| 0 <= i < after.rows.len() implies view::refreshed(
            after.rows[i],
            now,
        ) == after.rows[i] by {
            assert(view::refreshed(after.rows[i], now) =~= after.rows[i]);
        }
    }
}

/// One unit's log, as the server follows it.
///
/// The reader is kept rather than built per request because a fresh one has
/// seen nothing: its first sync is the whole ring copied. Kept, it is nearly
/// caught up and every sync is what has arrived since.
pub struct ServerLog {
    /// This server's view of that log, on behalf of every client.
    reader: LogReader,
    /// Where a region is cut into, kept so the strings are refilled rather
    /// than a pane's worth allocated per request.
    lines: Vec<LogLine>,
}

/// What a server has of a log, and what it last cut out of it.
#[verifier::ext_equal]
pub struct ServerLogView {
    pub reader: ReaderView,
    pub lines: Seq<LogLineView>,
}

/// What a request for a log is answered with.
///
/// Answers and not failures: a caller whose copy is current and a key nothing
/// is declared under are both things the session has to say.
#[derive(Clone, Copy, PartialEq, Eq, Debug, Structural)]
pub enum ServerLogResult {
    /// The revision the client sent is the one the log is still at.
    NotModified,
    /// No unit under that key.
    NotFound,
    /// The lines, and the revision they were cut at.
    Read(u64),
}

impl View for ServerLog {
    type V = ServerLogView;

    closed spec fn view(&self) -> ServerLogView {
        ServerLogView { reader: self.reader@, lines: pane::line_views(self.lines@) }
    }
}

/// What a server has of a log once it has looked at it again; `None` for a log
/// that is gone, which has nothing new.
pub open spec fn caught_up(reader: ReaderView, log: Option<&Log>) -> ReaderView {
    match log {
        Some(log) => reader.synced(log@),
        None => reader,
    }
}

impl ServerLog {
    /// Whether its reader is sound.
    pub closed spec fn wf(self) -> bool {
        self.reader.wf()
    }

    /// Follow `log` from the start.
    pub fn new(log: &Log) -> (followed: Self)
        requires
            log.wf(),
        ensures
            followed.wf(),
            followed@ == (ServerLogView {
                reader: ReaderView::fresh(log@.capacity),
                lines: Seq::empty(),
            }),
    {
        let followed = ServerLog { reader: log.reader(), lines: Vec::new() };
        assert(followed@.lines =~= Seq::<LogLineView>::empty());
        followed
    }

    /// Cut `region` out of the log, and answer with the revision it was taken
    /// at.
    ///
    /// A log that has gone quiet reads as the lines already copied, which is
    /// what a view of a finished process should show.
    pub fn read_log(
        &mut self,
        log: Option<&Log>,
        last_revision: Option<u64>,
        region: LogRegion,
    ) -> (answer: ServerLogResult)
        requires
            old(self).wf(),
            log matches Some(log) ==> log.wf() && old(self)@.reader.seen <= log@.history.len(),
        ensures
            final(self).wf(),
            final(self)@.reader == caught_up(old(self)@.reader, log),
            ({
                let revision = final(self)@.reader.version;
                if last_revision == Some(revision) {
                    &&& answer == ServerLogResult::NotModified
                    &&& final(self)@.lines == old(self)@.lines
                } else {
                    &&& answer == ServerLogResult::Read(revision)
                    &&& final(self)@.lines == reader::region_lines(final(self)@.reader, region)
                }
            }),
    {
        self.reader.sync(log);
        let revision = self.reader.version();
        if let Some(last) = last_revision {
            if last == revision {
                return ServerLogResult::NotModified;
            }
        }
        self.reader.copy_region(region, &mut self.lines);
        assert(pane::line_views(self.lines@) =~= self.lines@.map_values(|line: LogLine| line@));
        ServerLogResult::Read(revision)
    }

    /// The lines last cut out of it.
    pub fn lines(&self) -> (lines: &Vec<LogLine>)
        ensures
            pane::line_views(lines@) == self@.lines,
    {
        &self.lines
    }
}

/// What a connection reads the session through: the rows every client polls
/// for, and one slot per unit for its log.
pub struct ServerState {
    units: ServerUnits,
    logs: Vec<ServerLog>,
}

impl ServerState {
    /// The rows.
    pub closed spec fn shown(self) -> ServerUnitsView {
        self.units@
    }

    /// What is held of each unit's log.
    pub closed spec fn held(self) -> Seq<ServerLogView> {
        Seq::new(self.logs@.len(), |i: int| self.logs@[i]@)
    }

    /// The rows and every log's reader are sound.
    pub closed spec fn wf(self) -> bool {
        &&& self.units.wf()
        &&& forall|i: int| 0 <= i < self.logs@.len() ==> (#[trigger] self.logs@[i]).wf()
    }

    /// Every unit of `map`, and `logs`, the log of each as it is followed.
    pub fn new(map: &AppUnitMap, logs: Vec<ServerLog>) -> (state: Self)
        requires
            map@.wf(),
            forall|i: int| 0 <= i < logs@.len() ==> (#[trigger] logs@[i]).wf(),
        ensures
            state.wf(),
            state.shown().rows.to_multiset() == view::declared_rows(map@).to_multiset(),
            view::ordered(state.shown().rows),
            state.shown().revision == 0,
            !state.shown().answered,
            state.held() == logs@.map_values(|log: ServerLog| log@),
    {
        let state = ServerState { units: ServerUnits::new(map), logs };
        assert(state.held() =~= logs@.map_values(|log: ServerLog| log@));
        state
    }

    /// Refresh the rows, and answer with the revision they are at.
    pub fn read_units(&mut self, now: &Vec<UnitNow>, last_revision: Option<u64>) -> (answer:
        ServerUnitResult)
        requires
            old(self).wf(),
            old(self).shown().revision < u64::MAX,
        ensures
            final(self).wf(),
            final(self).shown() == old(self).shown().looked(now@),
            final(self).held() == old(self).held(),
            answer == old(self).shown().answer(now@, last_revision),
    {
        self.units.read_units(now, last_revision)
    }

    /// The rows.
    pub fn rows(&self) -> (rows: &Vec<ViewUnit>)
        ensures
            view::rows(rows@) == self.shown().rows,
    {
        self.units.rows()
    }

    /// Cut `region` out of the log of the unit under `key`, and answer with
    /// the revision it was taken at. `log` is that log, if it is still there.
    pub fn read_log(
        &mut self,
        key: AppUnitKey,
        log: Option<&Log>,
        last_revision: Option<u64>,
        region: LogRegion,
    ) -> (answer: ServerLogResult)
        requires
            old(self).wf(),
            log matches Some(log) ==> log.wf() && (key.at() < old(self).held().len()
                ==> old(self).held()[key.at() as int].reader.seen <= log@.history.len()),
        ensures
            final(self).wf(),
            final(self).shown() == old(self).shown(),
            ({
                let at = key.at() as int;
                if at >= old(self).held().len() {
                    &&& answer == ServerLogResult::NotFound
                    &&& final(self).held() == old(self).held()
                } else {
                    let before = old(self).held()[at];
                    let reader = caught_up(before.reader, log);
                    if last_revision == Some(reader.version) {
                        &&& answer == ServerLogResult::NotModified
                        &&& final(self).held() == old(self).held().update(
                            at,
                            ServerLogView { reader, ..before },
                        )
                    } else {
                        &&& answer == ServerLogResult::Read(reader.version)
                        &&& final(self).held() == old(self).held().update(
                            at,
                            ServerLogView { reader, lines: reader::region_lines(reader, region) },
                        )
                    }
                }
            }),
    {
        let index = key.index();
        if index >= self.logs.len() {
            return ServerLogResult::NotFound;
        }
        let ghost before = self.held();
        assert(before[index as int] == self.logs@[index as int]@);
        assert(self.logs@[index as int].wf());
        let answer = self.logs[index].read_log(log, last_revision, region);
        assert(self.held() =~= before.update(index as int, self.logs@[index as int]@));
        assert(self.logs@[index as int]@ =~= (ServerLogView {
            reader: caught_up(before[index as int].reader, log),
            lines: self.logs@[index as int]@.lines,
        }));
        answer
    }

    /// The lines last cut out of the log of the unit under `key`.
    pub fn lines(&self, key: AppUnitKey) -> (lines: Option<&Vec<LogLine>>)
        ensures
            match lines {
                Some(lines) => key.at() < self.held().len() && pane::line_views(lines@)
                    == self.held()[key.at() as int].lines,
                None => key.at() >= self.held().len(),
            },
    {
        let index = key.index();
        if index < self.logs.len() {
            assert(self.held()[index as int] == self.logs@[index as int]@);
            Some(self.logs[index].lines())
        } else {
            None
        }
    }
}

/// A client is told that what it has is current only where it is: it sent the
/// revision the rows are at, and no row has changed since. Any other client is
/// sent the rows; and the revision moves with them, by one, exactly when they
/// have changed or nobody has been answered yet.
pub proof fn only_a_current_client_is_told_so(
    units: ServerUnitsView,
    now: Seq<UnitNow>,
    last_revision: Option<u64>,
)
    requires
        units.revision < u64::MAX,
    ensures
        ({
            let after = units.looked(now);
            let changed = after.rows != units.rows;
            &&& after.answered
            &&& after.rows == view::all_refreshed(units.rows, now)
            &&& after.revision == units.revision + if changed || !units.answered {
                1int
            } else {
                0
            }
            &&& units.answer(now, last_revision) == ServerUnitResult::NotModified
                <==> last_revision == Some(after.revision) && !changed && units.answered
            &&& units.answer(now, last_revision) matches ServerUnitResult::Read { revision, moved }
                ==> revision == after.revision && moved == (changed || !units.answered)
        }),
{
}

} // verus!
