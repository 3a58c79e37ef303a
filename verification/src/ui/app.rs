//! A screen's own copy of a session running in the same process.

use super::client::UiLog;
use super::render::log as pane;
use crate::app::{AppUnitKey, AppUnitMap};
use crate::log::reader;
use crate::log::reader::ReaderView;
use crate::log::{Log, LogLine, LogLineView, LogReader, LogRegion};
use crate::view;
use crate::view::{refresh_rows, rows_of, UnitNow, UnitRow, ViewUnit};
use vstd::prelude::*;

verus! {

/// The one log a screen is following, and the last rectangle read out of it.
pub struct AppLog {
    /// Which unit it belongs to. A pane moving to another one throws this
    /// away rather than re-pointing it: the revision counted against one
    /// log's chunks means nothing against another's.
    unit_key: AppUnitKey,
    /// A reader over that unit's log, which is to say a mirror of it.
    reader: LogReader,
    /// The region last asked for.
    wanted: LogRegion,
    /// The region `lines` actually is.
    region: LogRegion,
    /// What the log had written when `lines` were taken.
    revision: u64,
    /// The lines of `region`, oldest first. Kept between syncs so the strings
    /// are refilled rather than reallocated.
    lines: Vec<LogLine>,
}

/// A log being followed: whose, how far it has been read, what is wanted of
/// it, and what was last taken out of it.
#[verifier::ext_equal]
pub struct AppLogView {
    pub unit_key: AppUnitKey,
    pub reader: ReaderView,
    pub wanted: LogRegion,
    pub region: LogRegion,
    pub revision: u64,
    pub lines: Seq<LogLineView>,
}

impl View for AppLog {
    type V = AppLogView;

    closed spec fn view(&self) -> AppLogView {
        AppLogView {
            unit_key: self.unit_key,
            reader: self.reader@,
            wanted: self.wanted,
            region: self.region,
            revision: self.revision,
            lines: pane::line_views(self.lines@),
        }
    }
}

impl AppLogView {
    /// The log of `unit_key`, which keeps `capacity` chunks, followed from the
    /// start: nothing has been read of it yet.
    pub open spec fn begun(unit_key: AppUnitKey, capacity: nat, region: LogRegion) -> AppLogView {
        AppLogView {
            unit_key,
            reader: ReaderView::fresh(capacity),
            wanted: region,
            region,
            revision: 0,
            lines: Seq::empty(),
        }
    }

    /// What is taken out of a log once its reader has `reader` of it: what is
    /// wanted, unless neither that nor the log has changed.
    pub open spec fn cut(self, reader: ReaderView) -> AppLogView {
        if reader.version == self.revision && self.region == self.wanted {
            AppLogView { reader, ..self }
        } else {
            AppLogView {
                reader,
                region: self.wanted,
                revision: reader.version,
                lines: reader::region_lines(reader, self.wanted),
                ..self
            }
        }
    }
}

impl AppLog {
    /// Whether its reader is sound.
    pub closed spec fn wf(self) -> bool {
        self.reader.wf()
    }

    /// Follow `log`, the log of `unit_key`, from the start.
    pub fn new(unit_key: AppUnitKey, log: &Log, region: LogRegion) -> (followed: Self)
        requires
            log.wf(),
        ensures
            followed.wf(),
            followed@ == AppLogView::begun(unit_key, log@.capacity, region),
    {
        let followed = AppLog {
            unit_key,
            reader: log.reader(),
            wanted: region,
            region,
            revision: 0,
            lines: Vec::new(),
        };
        assert(followed@.lines =~= Seq::<LogLineView>::empty());
        followed
    }

    /// Take in what the log has, and cut the wanted rectangle out.
    ///
    /// Skipped when neither the question nor the log has changed, which is
    /// most syncs — and that test is the whole reason a revision is carried.
    pub fn sync_log(&mut self, log: Option<&Log>)
        requires
            old(self).wf(),
            log matches Some(log) ==> log.wf() && old(self)@.reader.seen <= log@.history.len(),
        ensures
            final(self).wf(),
            final(self)@ == old(self)@.cut(
                match log {
                    Some(log) => old(self)@.reader.synced(log@),
                    None => old(self)@.reader,
                },
            ),
    {
        self.reader.sync(log);
        let revision = self.reader.version();
        if revision == self.revision && self.region == self.wanted {
            return ;
        }
        self.reader.copy_region(self.wanted, &mut self.lines);
        assert(pane::line_views(self.lines@) =~= self.lines@.map_values(|line: LogLine| line@));
        self.region = self.wanted;
        self.revision = revision;
    }

    /// What there is to draw.
    pub fn log(&self) -> (log: UiLog<'_>)
        ensures
            log.region == self@.region,
            log.revision == self@.revision,
            pane::line_views(log.lines@) == self@.lines,
    {
        UiLog { region: self.region, revision: self.revision, lines: &self.lines }
    }
}

/// A screen's own copy of a session: the rows, and the log it is showing.
pub struct UiApp {
    /// The rows, built once and then written over in place.
    units: Vec<ViewUnit>,
    /// The log the pane is showing, if it is showing one.
    log: Option<AppLog>,
}

/// The rows, and the log being shown.
#[verifier::ext_equal]
pub struct UiAppView {
    pub units: Seq<UnitRow>,
    pub log: Option<AppLogView>,
}

impl View for UiApp {
    type V = UiAppView;

    closed spec fn view(&self) -> UiAppView {
        UiAppView {
            units: view::rows(self.units@),
            log: match self.log {
                Some(log) => Some(log@),
                None => None,
            },
        }
    }
}

impl UiApp {
    /// The rows are in the order they are drawn in, and the log's reader is
    /// sound.
    pub closed spec fn wf(self) -> bool {
        &&& view::ordered(view::rows(self.units@))
        &&& (self.log matches Some(log) ==> log.wf())
    }

    /// A screen's rows are in the order they are drawn in.
    pub proof fn rows_stay_in_order(self)
        requires
            self.wf(),
        ensures
            view::ordered(self@.units),
    {
    }

    /// Show the units of `map`, and no log yet.
    ///
    /// The names are taken once because a proc is not renamed — unlike the
    /// mode, which is read every sync.
    pub fn new(map: &AppUnitMap) -> (app: Self)
        requires
            map@.wf(),
        ensures
            app.wf(),
            app@.units.to_multiset() == view::declared_rows(map@).to_multiset(),
            view::ordered(app@.units),
            app@.log is None,
    {
        UiApp { units: rows_of(map), log: None }
    }

    /// Every unit, in the order they are drawn in.
    pub fn units(&self) -> (units: &Vec<ViewUnit>)
        ensures
            view::rows(units@) == self@.units,
    {
        &self.units
    }

    /// Read every state into the rows that are already there, and take in what
    /// the followed log has, so that one frame is drawn out of one moment.
    pub fn sync(&mut self, now: &Vec<UnitNow>, log: Option<&Log>)
        requires
            old(self).wf(),
            log matches Some(log) ==> log.wf() && (old(self)@.log matches Some(followed)
                ==> followed.reader.seen <= log@.history.len()),
        ensures
            final(self).wf(),
            final(self)@ == (UiAppView {
                units: view::all_refreshed(old(self)@.units, now@),
                log: match old(self)@.log {
                    Some(followed) => Some(
                        followed.cut(
                            match log {
                                Some(log) => followed.reader.synced(log@),
                                None => followed.reader,
                            },
                        ),
                    ),
                    None => None,
                },
            }),
    {
        proof {
            view::looking_again_keeps_the_order(view::rows(self.units@), now@);
        }
        refresh_rows(&mut self.units, now);
        if let Some(followed) = &mut self.log {
            followed.sync_log(log);
        }
    }

    /// Point the reader at `key`, and remember the rectangle wanted from it.
    ///
    /// A new reader only when the unit changed; `log` is the log of `key`, if
    /// it has one. `None` for the key is a pane with nothing selected, and
    /// releases whatever was held for the last one.
    pub fn set_log(&mut self, key: Option<AppUnitKey>, region: LogRegion, log: Option<&Log>)
        requires
            old(self).wf(),
            log matches Some(log) ==> log.wf(),
        ensures
            final(self).wf(),
            final(self)@.units == old(self)@.units,
            match (key, old(self)@.log, log) {
                (None, _, _) => final(self)@.log is None,
                (Some(key), Some(followed), _) if followed.unit_key == key => final(self)@.log
                    == Some(AppLogView { wanted: region, ..followed }),
                (Some(_), _, None) => final(self)@.log is None,
                (Some(key), _, Some(log)) => final(self)@.log == Some(
                    AppLogView::begun(key, log@.capacity, region),
                ),
            },
    {
        let key = match key {
            Some(key) => key,
            None => {
                self.log = None;
                return ;
            },
        };
        if let Some(followed) = &mut self.log {
            if followed.unit_key == key {
                followed.wanted = region;
                return ;
            }
        }
        self.log = match log {
            Some(log) => Some(AppLog::new(key, log, region)),
            None => None,
        };
    }

    /// What there is to draw: nothing while no log is followed, and otherwise
    /// the region it has, even when a newer one was asked for.
    pub fn log(&self) -> (log: Option<UiLog<'_>>)
        ensures
            match (log, self@.log) {
                (Some(log), Some(followed)) => {
                    &&& log.region == followed.region
                    &&& log.revision == followed.revision
                    &&& pane::line_views(log.lines@) == followed.lines
                },
                (None, None) => true,
                _ => false,
            },
    {
        match &self.log {
            Some(log) => Some(log.log()),
            None => None,
        }
    }
}

/// After a look, what there is to draw is what is wanted, as the log stands:
/// taken out of it anew when either changed, and what was there before when
/// neither did.
pub proof fn a_look_leaves_what_is_wanted(followed: AppLogView, reader: ReaderView)
    ensures
        ({
            let after = followed.cut(reader);
            &&& after.unit_key == followed.unit_key
            &&& after.reader == reader
            &&& after.wanted == followed.wanted
            &&& after.region == followed.wanted
            &&& after.revision == reader.version
            &&& followed.region != followed.wanted || followed.revision != reader.version
                ==> after.lines == reader::region_lines(reader, followed.wanted)
            &&& followed.region == followed.wanted && followed.revision == reader.version
                ==> after.lines == followed.lines
        }),
{
}

} // verus!
