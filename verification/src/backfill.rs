//! Historical message backfill: the boot-time catch-up over the downtime gap
//! and the one-time deep sweep of each channel, both paging newest-first with
//! an exclusive `before` cursor.
use vstd::prelude::*;

use crate::text::{numeric_setting, opt_chars, setting_or};

verus! {

/// The pause between two pages when none is configured.
pub const DEFAULT_PAGE_DELAY_MS: u64 = 750;

/// Discord caps a page of messages at 100; one page is one REST call.
pub const PAGE_LIMIT: u8 = 100;

/// The sweep reports progress once every this many pages.
pub const HEARTBEAT_PAGES: u64 = 25;

/// How backfill pages.
pub struct Config {
    /// The pause between two pages, in milliseconds.
    pub page_delay_ms: u64,
}

impl Config {
    /// The configuration from the setting `BACKFILL_PAGE_DELAY_MS` (`None` when
    /// unset). Never fails: an unparseable value falls back to the default, so
    /// a typo in a deploy can't silently disable backfill.
    pub fn from_setting(page_delay_ms: Option<&str>) -> (r: Config)
        ensures
            r.page_delay_ms == setting_or(opt_chars(page_delay_ms), DEFAULT_PAGE_DELAY_MS),
    {
        Config { page_delay_ms: numeric_setting(page_delay_ms, DEFAULT_PAGE_DELAY_MS) }
    }
}

/// The smallest of a non-empty list of ids.
pub open spec fn min_of(ids: Seq<i64>) -> i64
    decreases ids.len(),
{
    if ids.len() <= 1 {
        ids[0]
    } else if ids.last() < min_of(ids.drop_last()) {
        ids.last()
    } else {
        min_of(ids.drop_last())
    }
}

/// The largest of a non-empty list of ids.
pub open spec fn max_of(ids: Seq<i64>) -> i64
    decreases ids.len(),
{
    if ids.len() <= 1 {
        ids[0]
    } else if ids.last() > max_of(ids.drop_last()) {
        ids.last()
    } else {
        max_of(ids.drop_last())
    }
}

/// The smallest of a non-empty list is one of its elements and at most each of them.
pub proof fn lemma_min_of(ids: Seq<i64>)
    requires
        ids.len() > 0,
    ensures
        ids.contains(min_of(ids)),
        forall|i: int| 0 <= i < ids.len() ==> min_of(ids) <= #[trigger] ids[i],
    decreases ids.len(),
{
    if ids.len() > 1 {
        lemma_min_of(ids.drop_last());
        let m = min_of(ids.drop_last());
        let k = choose|k: int| 0 <= k < ids.drop_last().len() && ids.drop_last()[k] == m;
        assert(ids[k] == m);
        if ids.last() < m {
            assert(ids[ids.len() - 1] == ids.last());
        }
        assert forall|i: int| 0 <= i < ids.len() implies min_of(ids) <= #[trigger] ids[i] by {
            if i < ids.len() - 1 {
                assert(ids.drop_last()[i] == ids[i]);
            }
        }
    } else {
        assert(ids[0] == min_of(ids));
    }
}

/// The largest of a non-empty list is one of its elements and at least each of them.
pub proof fn lemma_max_of(ids: Seq<i64>)
    requires
        ids.len() > 0,
    ensures
        ids.contains(max_of(ids)),
        forall|i: int| 0 <= i < ids.len() ==> max_of(ids) >= #[trigger] ids[i],
    decreases ids.len(),
{
    if ids.len() > 1 {
        lemma_max_of(ids.drop_last());
        let m = max_of(ids.drop_last());
        let k = choose|k: int| 0 <= k < ids.drop_last().len() && ids.drop_last()[k] == m;
        assert(ids[k] == m);
        if ids.last() > m {
            assert(ids[ids.len() - 1] == ids.last());
        }
        assert forall|i: int| 0 <= i < ids.len() implies max_of(ids) >= #[trigger] ids[i] by {
            if i < ids.len() - 1 {
                assert(ids.drop_last()[i] == ids[i]);
            }
        }
    } else {
        assert(ids[0] == max_of(ids));
    }
}

/// The smallest id of a non-empty list.
pub fn min_id(ids: &[i64]) -> (r: i64)
    requires
        ids.len() > 0,
    ensures
        r == min_of(ids@),
{
    let mut m = ids[0];
    let mut i: usize = 1;
    while i < ids.len()
        invariant
            1 <= i <= ids.len(),
            m == min_of(ids@.take(i as int)),
        decreases ids.len() - i,
    {
        assert(ids@.take(i + 1).drop_last() =~= ids@.take(i as int));
        if ids[i] < m {
            m = ids[i];
        }
        i = i + 1;
    }
    assert(ids@.take(ids.len() as int) =~= ids@);
    m
}

/// The largest id of a non-empty list.
pub fn max_id(ids: &[i64]) -> (r: i64)
    requires
        ids.len() > 0,
    ensures
        r == max_of(ids@),
{
    let mut m = ids[0];
    let mut i: usize = 1;
    while i < ids.len()
        invariant
            1 <= i <= ids.len(),
            m == max_of(ids@.take(i as int)),
        decreases ids.len() - i,
    {
        assert(ids@.take(i + 1).drop_last() =~= ids@.take(i as int));
        if ids[i] > m {
            m = ids[i];
        }
        i = i + 1;
    }
    assert(ids@.take(ids.len() as int) =~= ids@);
    m
}


/// The stored checkpoint of a channel's sweep: the oldest message id reached
/// (if any) and whether the sweep is complete; `None` when never swept.
pub type SweepCheckpoint = Option<(Option<i64>, bool)>;

/// The one-time deep download of a channel: pages newest to oldest down to
/// the channel's start, checkpointing the oldest id reached after each page.
#[derive(Debug)]
pub struct Sweep {
    /// The `before` cursor of the next page (`None`: start at the live head).
    pub cursor: Option<i64>,
    /// An earlier boot had already swept part of the channel.
    pub partial_existed: bool,
    /// This run persisted at least one page.
    pub wrote_any: bool,
    /// Pages persisted in this run.
    pub pages: u64,
    /// Messages persisted in this run.
    pub total: u64,
    /// Where the sweep stands.
    pub phase: SweepPhase,
    /// The oldest message id of the page fetched last.
    pub page_oldest: i64,
    /// The number of messages of the page fetched last.
    pub page_len: usize,
}

/// Where a sweep stands.
#[derive(Debug, Clone, Copy, PartialEq, Eq, Structural)]
pub enum SweepPhase {
    /// Not started.
    Begin,
    /// Waiting for a page.
    AwaitPage,
    /// Waiting for the whole page fetched last to be persisted.
    AwaitPersist,
    /// Waiting for a checkpoint to be written; `true` when it marks the sweep complete.
    AwaitCheckpoint(bool),
    /// Finished for this boot.
    Done,
}

/// What happened since the last action of a sweep.
#[derive(Debug)]
pub enum SweepEvent {
    /// The sweep is to begin.
    Started,
    /// A page came back, with the ids of its messages.
    Fetched(Vec<i64>),
    FetchFailed,
    /// Every message of the page was persisted.
    Persisted,
    PersistFailed,
    Checkpointed,
    CheckpointFailed,
}

/// How a sweep ends for this boot.
#[derive(Debug, Clone, Copy, PartialEq, Eq, Structural)]
pub enum SweepEnd {
    /// The channel's start was reached and checkpointed as complete.
    Complete,
    /// A never-swept channel gave an empty first page; the next boot retries.
    LeftForRetry,
    /// A fetch, persist or checkpoint failed; the next boot resumes from the
    /// last checkpoint.
    Failed,
}

/// What a sweep asks to be done next.
#[derive(Debug, Clone, Copy, PartialEq, Eq)]
pub enum SweepAction {
    /// Fetch the page of messages before `before` (the live head for `None`),
    /// after the page delay when `wait`, after a progress line when `report`.
    Fetch { before: Option<i64>, wait: bool, report: bool },
    /// Persist every message of the page just fetched.
    Persist,
    /// Write the checkpoint: the oldest message id reached, and whether the
    /// sweep is complete.
    Checkpoint { oldest: Option<i64>, complete: bool },
    /// Stop for this boot.
    Finish(SweepEnd),
}

/// What a sweep does with a page it fetched.
#[derive(Debug, PartialEq, Eq)]
pub enum SweepStep {
    /// Persist the page, then report it with [`Sweep::page_persisted`].
    PersistPage,
    /// The channel's start is reached: checkpoint it as complete at this cursor.
    MarkComplete(Option<i64>),
    /// A never-swept channel whose very first page is empty (a permission blip
    /// or a transient empty answer): leave it un-checkpointed so the next boot
    /// retries rather than abandoning its history forever.
    LeaveForRetry,
}

/// What a sweep does with a fetched page of `page_len` messages: persist a
/// non-empty page; at the empty page past the channel's start, stamp the
/// sweep complete only if something was paged (in this run or an earlier
/// one), else leave the channel for the next boot.
pub open spec fn sweep_decision(s: Sweep, page_len: nat) -> SweepStep {
    if page_len > 0 {
        SweepStep::PersistPage
    } else if s.wrote_any || s.partial_existed {
        SweepStep::MarkComplete(s.cursor)
    } else {
        SweepStep::LeaveForRetry
    }
}

impl Sweep {
    /// Starts or resumes a channel's sweep from its checkpoint; `None` when the
    /// sweep is already complete (a silent steady-state no-op).
    pub fn start(checkpoint: SweepCheckpoint) -> (r: Option<Sweep>)
        ensures
            match checkpoint {
                Some((_, true)) => r is None,
                Some((oldest, false)) => r matches Some(s) && s.cursor == oldest && s.partial_existed
                    && !s.wrote_any && s.pages == 0 && s.total == 0 && s.phase == SweepPhase::Begin,
                None => r matches Some(s) && s.cursor is None && !s.partial_existed && !s.wrote_any
                    && s.pages == 0 && s.total == 0 && s.phase == SweepPhase::Begin,
            },
    {
        match checkpoint {
            Some((_, true)) => None,
            Some((oldest, false)) => Some(
                Sweep {
                    cursor: oldest,
                    partial_existed: true,
                    wrote_any: false,
                    pages: 0,
                    total: 0,
                    phase: SweepPhase::Begin,
                    page_oldest: 0,
                    page_len: 0,
                },
            ),
            None => Some(
                Sweep {
                    cursor: None,
                    partial_existed: false,
                    wrote_any: false,
                    pages: 0,
                    total: 0,
                    phase: SweepPhase::Begin,
                    page_oldest: 0,
                    page_len: 0,
                },
            ),
        }
    }

    /// Decides what to do with a fetched page of `page_len` messages.
    /// Completion guard: a sweep is only stamped complete when it actually
    /// paged something, in this run or an earlier one.
    pub fn on_page(&self, page_len: usize) -> (r: SweepStep)
        ensures
            r == sweep_decision(*self, page_len as nat),
    {
        if page_len > 0 {
            SweepStep::PersistPage
        } else if self.wrote_any || self.partial_existed {
            SweepStep::MarkComplete(self.cursor)
        } else {
            SweepStep::LeaveForRetry
        }
    }

    /// Takes one step (see [`sweep_step`]).
    pub fn step(&mut self, event: SweepEvent) -> (r: SweepAction)
        requires
            sweep_expects(old(self).phase, event),
            event is Persisted ==> old(self).pages < u64::MAX && old(self).total + old(self).page_len <= u64::MAX,
        ensures
            (*final(self), r) == sweep_step(*old(self), event),
    {
        match (self.phase, event) {
            (SweepPhase::Begin, SweepEvent::Started) => {
                self.phase = SweepPhase::AwaitPage;
                SweepAction::Fetch { before: self.cursor, wait: false, report: false }
            },
            (SweepPhase::AwaitPage, SweepEvent::FetchFailed) => {
                self.phase = SweepPhase::Done;
                SweepAction::Finish(SweepEnd::Failed)
            },
            (SweepPhase::AwaitPage, SweepEvent::Fetched(ids)) => match self.on_page(ids.len()) {
                SweepStep::PersistPage => {
                    self.page_oldest = min_id(ids.as_slice());
                    self.page_len = ids.len();
                    self.phase = SweepPhase::AwaitPersist;
                    SweepAction::Persist
                },
                SweepStep::MarkComplete(c) => {
                    self.phase = SweepPhase::AwaitCheckpoint(true);
                    SweepAction::Checkpoint { oldest: c, complete: true }
                },
                SweepStep::LeaveForRetry => {
                    self.phase = SweepPhase::Done;
                    SweepAction::Finish(SweepEnd::LeftForRetry)
                },
            },
            (SweepPhase::AwaitPersist, SweepEvent::PersistFailed) => {
                self.phase = SweepPhase::Done;
                SweepAction::Finish(SweepEnd::Failed)
            },
            (SweepPhase::AwaitPersist, SweepEvent::Persisted) => {
                self.wrote_any = true;
                self.pages = self.pages + 1;
                self.total = self.total + self.page_len as u64;
                self.cursor = Some(self.page_oldest);
                self.phase = SweepPhase::AwaitCheckpoint(false);
                SweepAction::Checkpoint { oldest: Some(self.page_oldest), complete: false }
            },
            (SweepPhase::AwaitCheckpoint(_), SweepEvent::CheckpointFailed) => {
                self.phase = SweepPhase::Done;
                SweepAction::Finish(SweepEnd::Failed)
            },
            (SweepPhase::AwaitCheckpoint(complete), SweepEvent::Checkpointed) => {
                if complete {
                    self.phase = SweepPhase::Done;
                    SweepAction::Finish(SweepEnd::Complete)
                } else {
                    self.phase = SweepPhase::AwaitPage;
                    SweepAction::Fetch { before: self.cursor, wait: true, report: self.pages % HEARTBEAT_PAGES == 0 }
                }
            },
            _ => SweepAction::Finish(SweepEnd::Failed),
        }
    }
}

/// The events a sweep expects in each phase.
pub open spec fn sweep_expects(phase: SweepPhase, e: SweepEvent) -> bool {
    match phase {
        SweepPhase::Begin => e is Started,
        SweepPhase::AwaitPage => e is Fetched || e is FetchFailed,
        SweepPhase::AwaitPersist => e is Persisted || e is PersistFailed,
        SweepPhase::AwaitCheckpoint(_) => e is Checkpointed || e is CheckpointFailed,
        SweepPhase::Done => false,
    }
}

/// One step of a sweep: from what happened, the next state and action. It
/// fetches from its cursor; persists a non-empty page whole; only then
/// checkpoints the page's oldest message, which becomes the cursor of the
/// next fetch (after the page delay); at the empty page past the channel's
/// start it checkpoints the sweep complete as [`sweep_decision`] allows; any
/// failure ends the sweep for this boot.
pub open spec fn sweep_step(s: Sweep, e: SweepEvent) -> (Sweep, SweepAction) {
    match (s.phase, e) {
        (SweepPhase::Begin, SweepEvent::Started) => (
            Sweep { phase: SweepPhase::AwaitPage, ..s },
            SweepAction::Fetch { before: s.cursor, wait: false, report: false },
        ),
        (SweepPhase::AwaitPage, SweepEvent::FetchFailed) => (
            Sweep { phase: SweepPhase::Done, ..s },
            SweepAction::Finish(SweepEnd::Failed),
        ),
        (SweepPhase::AwaitPage, SweepEvent::Fetched(ids)) => match sweep_decision(s, ids.len() as nat) {
            SweepStep::PersistPage => (
                Sweep { phase: SweepPhase::AwaitPersist, page_oldest: min_of(ids@), page_len: ids.len(), ..s },
                SweepAction::Persist,
            ),
            SweepStep::MarkComplete(c) => (
                Sweep { phase: SweepPhase::AwaitCheckpoint(true), ..s },
                SweepAction::Checkpoint { oldest: c, complete: true },
            ),
            SweepStep::LeaveForRetry => (
                Sweep { phase: SweepPhase::Done, ..s },
                SweepAction::Finish(SweepEnd::LeftForRetry),
            ),
        },
        (SweepPhase::AwaitPersist, SweepEvent::PersistFailed) => (
            Sweep { phase: SweepPhase::Done, ..s },
            SweepAction::Finish(SweepEnd::Failed),
        ),
        (SweepPhase::AwaitPersist, SweepEvent::Persisted) => (
            Sweep {
                phase: SweepPhase::AwaitCheckpoint(false),
                wrote_any: true,
                pages: (s.pages + 1) as u64,
                total: (s.total + s.page_len) as u64,
                cursor: Some(s.page_oldest),
                ..s
            },
            SweepAction::Checkpoint { oldest: Some(s.page_oldest), complete: false },
        ),
        (SweepPhase::AwaitCheckpoint(_), SweepEvent::CheckpointFailed) => (
            Sweep { phase: SweepPhase::Done, ..s },
            SweepAction::Finish(SweepEnd::Failed),
        ),
        (SweepPhase::AwaitCheckpoint(complete), SweepEvent::Checkpointed) => if complete {
            (Sweep { phase: SweepPhase::Done, ..s }, SweepAction::Finish(SweepEnd::Complete))
        } else {
            (
                Sweep { phase: SweepPhase::AwaitPage, ..s },
                SweepAction::Fetch { before: s.cursor, wait: true, report: s.pages % HEARTBEAT_PAGES == 0 },
            )
        },
        _ => (s, SweepAction::Finish(SweepEnd::Failed)),
    }
}

/// A sweep never stamps a channel complete unless something was paged: by
/// this run (a page persisted) or by an earlier partial sweep.
pub proof fn law_sweep_completes_only_after_paging(s: Sweep, page_len: nat)
    ensures
        sweep_decision(s, page_len) is MarkComplete ==> page_len == 0 && (s.wrote_any || s.partial_existed),
        sweep_decision(s, page_len) is LeaveForRetry ==> page_len == 0 && !s.wrote_any && !s.partial_existed,
{
}

/// A sweep writes a checkpoint that is not the final one only right after the
/// whole page fetched last was persisted.
pub proof fn law_sweep_checkpoints_only_after_persisting(s: Sweep, e: SweepEvent)
    requires
        sweep_expects(s.phase, e),
    ensures
        sweep_step(s, e).1 matches SweepAction::Checkpoint { complete, .. } && !complete ==> s.phase
            == SweepPhase::AwaitPersist && e is Persisted,
{
}

/// Over one fetched non-empty page, a sweep persists the page whole, then
/// checkpoints the page's oldest message, and fetches the next page before
/// that message; when the page holds only messages older than the cursor
/// (what `before` paging returns), the checkpoint is older than the cursor,
/// so successive checkpoints strictly decrease.
pub proof fn law_sweep_page_round(s: Sweep, page: Vec<i64>)
    requires
        s.phase == SweepPhase::AwaitPage,
        page.len() > 0,
    ensures
        sweep_step(s, SweepEvent::Fetched(page)).1 == SweepAction::Persist,
        sweep_step(sweep_step(s, SweepEvent::Fetched(page)).0, SweepEvent::Persisted).1 == (SweepAction::Checkpoint {
            oldest: Some(min_of(page@)),
            complete: false,
        }),
        sweep_step(sweep_step(sweep_step(s, SweepEvent::Fetched(page)).0, SweepEvent::Persisted).0, SweepEvent::Checkpointed).1
            matches SweepAction::Fetch { before, wait, .. } && before == Some(min_of(page@)) && wait,
        s.cursor matches Some(c) ==> ((forall|i: int| 0 <= i < page.len() ==> #[trigger] page@[i] < c) ==> min_of(
            page@,
        ) < c),
{
    if let Some(c) = s.cursor {
        if forall|i: int| 0 <= i < page.len() ==> #[trigger] page@[i] < c {
            lemma_min_of(page@);
        }
    }
}

/// Any failure (of a fetch, a persist or a checkpoint) ends the sweep for
/// this boot: nothing more is asked of the caller.
pub proof fn law_sweep_stops_on_failure(s: Sweep, e: SweepEvent)
    requires
        sweep_expects(s.phase, e),
        e is FetchFailed || e is PersistFailed || e is CheckpointFailed,
    ensures
        sweep_step(s, e).0.phase == SweepPhase::Done,
        sweep_step(s, e).1 == SweepAction::Finish(SweepEnd::Failed),
        forall|next: SweepEvent| !sweep_expects(SweepPhase::Done, next),
{
}

/// The sweep's cursor only moves towards older messages: when a page holds
/// only messages older than the cursor (what `before` paging returns), the
/// checkpoint after it is older than the cursor and no newer than any
/// message of the page, so no persisted message is skipped.
pub proof fn law_sweep_cursor_descends(cursor: i64, ids: Seq<i64>)
    requires
        ids.len() > 0,
        forall|i: int| 0 <= i < ids.len() ==> #[trigger] ids[i] < cursor,
    ensures
        min_of(ids) < cursor,
        forall|i: int| 0 <= i < ids.len() ==> min_of(ids) <= #[trigger] ids[i],
{
    lemma_min_of(ids);
}

/// The catch-up of a channel after downtime: pages from the live head down to
/// the floor (the channel's last known message id from before the gateway
/// connected), so it fetches exactly the gap (floor, head].
#[derive(Debug)]
pub struct CatchUp {
    /// The last message id known from before the downtime.
    pub floor: i64,
    /// The `before` cursor of the next page (`None`: the live head).
    pub cursor: Option<i64>,
    /// The newest message id of the first non-empty page (the live head).
    pub head: Option<i64>,
    /// Pages persisted.
    pub pages: u64,
    /// Messages persisted.
    pub total: u64,
    /// Whether paging goes on, reached its end, or failed.
    pub phase: CatchUpPhase,
}

/// Where a catch-up stands.
#[derive(Debug, Clone, Copy, PartialEq, Eq, Structural)]
pub enum CatchUpPhase {
    /// Fetching and persisting pages.
    Paging,
    /// The gap is fully paged: an empty page, or a page reaching the floor.
    Finished,
    /// A fetch or persist failed; the next boot pages the gap again.
    Failed,
}

/// What happened to a catch-up, as mathematical values.
pub enum CatchUpEvent {
    /// A page came back with these message ids.
    Fetched(Seq<i64>),
    /// The page with these ids was persisted, this many messages of it.
    Persisted(Seq<i64>, nat),
    /// A fetch or persist failed.
    Failed,
}

/// The events a catch-up accepts: only while paging, and a persisted page is non-empty.
pub open spec fn catch_up_expects(c: CatchUp, e: CatchUpEvent) -> bool {
    &&& c.phase == CatchUpPhase::Paging
    &&& match e {
        CatchUpEvent::Persisted(ids, _) => ids.len() > 0,
        _ => true,
    }
}

/// One step of a catch-up: an empty page ends the paging; a non-empty page
/// fixes the head if none is known yet; a persisted page ends the paging
/// once it reaches the floor, else moves the cursor to its oldest message; a
/// failure ends the catch-up as failed.
pub open spec fn catch_up_step(c: CatchUp, e: CatchUpEvent) -> CatchUp {
    match e {
        CatchUpEvent::Fetched(ids) => if ids.len() == 0 {
            CatchUp { phase: CatchUpPhase::Finished, ..c }
        } else {
            CatchUp { head: head_after(c.head, ids), ..c }
        },
        CatchUpEvent::Persisted(ids, n) => if min_of(ids) > c.floor {
            CatchUp { pages: (c.pages + 1) as u64, total: (c.total + n) as u64, cursor: Some(min_of(ids)), ..c }
        } else {
            CatchUp { pages: (c.pages + 1) as u64, total: (c.total + n) as u64, phase: CatchUpPhase::Finished, ..c }
        },
        CatchUpEvent::Failed => CatchUp { phase: CatchUpPhase::Failed, ..c },
    }
}

/// A catch-up after a run of events.
pub open spec fn catch_up_after(c: CatchUp, events: Seq<CatchUpEvent>) -> CatchUp
    decreases events.len(),
{
    if events.len() == 0 {
        c
    } else {
        catch_up_step(catch_up_after(c, events.drop_last()), events.last())
    }
}

/// The floor a catch-up bumps to: its head, and only once the gap is fully paged.
pub open spec fn new_floor_of(c: CatchUp) -> Option<i64> {
    if c.phase == CatchUpPhase::Finished {
        c.head
    } else {
        None
    }
}

/// The head of a catch-up after a page: the newest message of the first
/// non-empty page, unchanged by every later page.
pub open spec fn head_after(head: Option<i64>, ids: Seq<i64>) -> Option<i64> {
    if ids.len() > 0 && head is None {
        Some(max_of(ids))
    } else {
        head
    }
}

/// The positions, in order, of the ids of a page that lie above the floor.
pub open spec fn gap_positions(ids: Seq<i64>, floor: i64) -> Seq<int>
    decreases ids.len(),
{
    if ids.len() == 0 {
        seq![]
    } else {
        let p = gap_positions(ids.drop_last(), floor);
        if ids.last() > floor {
            p.push(ids.len() - 1)
        } else {
            p
        }
    }
}

impl CatchUp {
    /// Starts a catch-up down to `floor`; `None` when the floor is unknown at
    /// boot (nothing to catch up; the sweep or the next boot covers it).
    pub fn start(floor: Option<i64>) -> (r: Option<CatchUp>)
        ensures
            match floor {
                None => r is None,
                Some(f) => r matches Some(c) && c.floor == f && c.cursor is None && c.head is None
                    && c.pages == 0 && c.total == 0 && c.phase == CatchUpPhase::Paging,
            },
    {
        match floor {
            None => None,
            Some(f) => Some(CatchUp { floor: f, cursor: None, head: None, pages: 0, total: 0, phase: CatchUpPhase::Paging }),
        }
    }

    /// Takes note of a fetched page: an empty page ends the catch-up (`None`);
    /// otherwise the answer is the positions, in order, of the page's messages
    /// above the floor, which are the ones to persist (everything at or below
    /// the floor is already captured), and the first non-empty page fixes the head.
    pub fn on_page(&mut self, ids: &[i64]) -> (r: Option<Vec<usize>>)
        requires
            old(self).phase == CatchUpPhase::Paging,
        ensures
            *final(self) == catch_up_step(*old(self), CatchUpEvent::Fetched(ids@)),
            r is None <==> ids.len() == 0,
            r matches Some(pos) ==> pos@.map_values(|p: usize| p as int) == gap_positions(ids@, old(self).floor),
            final(self).floor == old(self).floor,
            final(self).cursor == old(self).cursor,
            final(self).pages == old(self).pages,
            final(self).total == old(self).total,
            final(self).head == head_after(old(self).head, ids@),
    {
        if ids.len() == 0 {
            self.phase = CatchUpPhase::Finished;
            return None;
        }
        if self.head.is_none() {
            self.head = Some(max_id(ids));
        }
        let mut pos: Vec<usize> = Vec::new();
        let mut i: usize = 0;
        while i < ids.len()
            invariant
                i <= ids.len(),
                pos@.map_values(|p: usize| p as int) == gap_positions(ids@.take(i as int), self.floor),
            decreases ids.len() - i,
        {
            assert(ids@.take(i + 1).drop_last() =~= ids@.take(i as int));
            if ids[i] > self.floor {
                pos.push(i);
                assert(pos@.map_values(|p: usize| p as int) =~= gap_positions(ids@.take(i as int), self.floor).push(
                    i as int,
                ));
            }
            i = i + 1;
        }
        assert(ids@.take(ids.len() as int) =~= ids@);
        Some(pos)
    }

    /// Counts a page whose `persisted` messages above the floor were persisted;
    /// answers whether to fetch the next one: not once the page reaches the
    /// floor (everything older is already captured); otherwise the cursor
    /// moves to its oldest message.
    pub fn page_persisted(&mut self, ids: &[i64], persisted: usize) -> (r: bool)
        requires
            old(self).phase == CatchUpPhase::Paging,
            ids.len() > 0,
            old(self).pages < u64::MAX,
            old(self).total + persisted <= u64::MAX,
        ensures
            final(self).floor == old(self).floor,
            final(self).head == old(self).head,
            final(self).pages == old(self).pages + 1,
            final(self).total == old(self).total + persisted,
            r == (min_of(ids@) > old(self).floor),
            r ==> final(self).cursor == Some(min_of(ids@)),
            !r ==> final(self).cursor == old(self).cursor,
            *final(self) == catch_up_step(*old(self), CatchUpEvent::Persisted(ids@, persisted as nat)),
    {
        self.total = self.total + persisted as u64;
        self.pages = self.pages + 1;
        let oldest = min_id(ids);
        if oldest <= self.floor {
            self.phase = CatchUpPhase::Finished;
            return false;
        }
        self.cursor = Some(oldest);
        true
    }

    /// The new floor once the gap is fully paged: the head reached, so that a
    /// quiet channel does not re-page the same gap each restart (`None` after
    /// an empty first page, and `None` unless paging ended without failure:
    /// no bump, the next boot retries).
    pub fn new_floor(&self) -> (r: Option<i64>)
        ensures
            r == new_floor_of(*self),
    {
        if self.phase == CatchUpPhase::Finished {
            self.head
        } else {
            None
        }
    }

    /// Records that a fetch or persist failed: the catch-up ends, and the
    /// floor stays where it was, so the next boot pages the gap again.
    pub fn failed(&mut self)
        requires
            old(self).phase == CatchUpPhase::Paging,
        ensures
            *final(self) == catch_up_step(*old(self), CatchUpEvent::Failed),
    {
        self.phase = CatchUpPhase::Failed;
    }

    /// Whether the catch-up is worth reporting: steady state stops in a single
    /// head page; only an actual gap is reported.
    pub fn worth_reporting(&self) -> (r: bool)
        ensures
            r == (self.head is Some && self.pages > 1),
    {
        self.head.is_some() && self.pages > 1
    }
}

/// The head that a catch-up bumps the floor to is fixed by the first non-empty
/// page (its newest message) and never moved by later pages.
pub proof fn law_catch_up_head_is_first_page_max(head: Option<i64>, ids: Seq<i64>)
    ensures
        head is Some ==> head_after(head, ids) == head,
        head is None && ids.len() > 0 ==> head_after(head, ids) == Some(max_of(ids)) && ids.contains(
            max_of(ids),
        ) && forall|i: int| 0 <= i < ids.len() ==> max_of(ids) >= #[trigger] ids[i],
{
    if ids.len() > 0 {
        lemma_max_of(ids);
    }
}

/// A catch-up persists exactly the gap: of each page, the messages it
/// persists are those above the floor, in page order, each once, and every
/// message of the page above the floor is persisted.
pub proof fn law_catch_up_persists_exactly_gap(ids: Seq<i64>, floor: i64)
    ensures
        forall|k: int|
            0 <= k < gap_positions(ids, floor).len() ==> {
                let p = #[trigger] gap_positions(ids, floor)[k];
                0 <= p < ids.len() && ids[p] > floor
            },
        forall|k: int, l: int|
            0 <= k < l < gap_positions(ids, floor).len() ==> (#[trigger] gap_positions(ids, floor)[k])
                < (#[trigger] gap_positions(ids, floor)[l]),
        forall|p: int| 0 <= p < ids.len() && #[trigger] ids[p] > floor ==> gap_positions(ids, floor).contains(p),
    decreases ids.len(),
{
    if ids.len() > 0 {
        let t = ids.drop_last();
        law_catch_up_persists_exactly_gap(t, floor);
        let q = gap_positions(t, floor);
        let r = gap_positions(ids, floor);
        assert forall|k: int| 0 <= k < q.len() implies 0 <= #[trigger] q[k] < t.len() && ids[q[k]] == t[q[k]] by {}
        assert forall|p: int| 0 <= p < ids.len() && #[trigger] ids[p] > floor implies r.contains(p) by {
            if p < ids.len() - 1 {
                assert(t[p] == ids[p]);
                assert(q.contains(p));
                let k = choose|k: int| 0 <= k < q.len() && q[k] == p;
                if ids.last() > floor {
                    assert(r[k] == p);
                }
            } else {
                assert(ids.last() == ids[p]);
                assert(r[r.len() - 1] == p);
            }
        }
    }
}

/// A catch-up never changes its floor.
proof fn lemma_catch_up_keeps_floor(c: CatchUp, events: Seq<CatchUpEvent>)
    ensures
        catch_up_after(c, events).floor == c.floor,
    decreases events.len(),
{
    if events.len() > 0 {
        lemma_catch_up_keeps_floor(c, events.drop_last());
    }
}

/// The floor advances only after the gap is fully paged. Over any run of
/// events that a catch-up accepts, a failed fetch or persist is the last
/// event and leaves no new floor; and a new floor exists only when the last
/// event ended the paging: an empty page, or a persisted page reaching the floor.
pub proof fn law_catch_up_bumps_only_after_full_paging(c: CatchUp, events: Seq<CatchUpEvent>)
    requires
        c.phase == CatchUpPhase::Paging,
        forall|i: int| 0 <= i < events.len() ==> catch_up_expects(catch_up_after(c, events.take(i)), #[trigger] events[i]),
    ensures
        forall|i: int|
            0 <= i < events.len() && (#[trigger] events[i] is Failed) ==> i == events.len() - 1 && new_floor_of(
                catch_up_after(c, events),
            ) is None,
        new_floor_of(catch_up_after(c, events)) is Some ==> events.len() > 0 && (
        (events.last() matches CatchUpEvent::Fetched(ids) && ids.len() == 0) || (events.last() matches CatchUpEvent::Persisted(
            ids,
            _,
        ) && min_of(ids) <= c.floor)),
{
    assert(events.take(events.len() as int) =~= events);
    assert forall|i: int| 0 <= i < events.len() && (#[trigger] events[i] is Failed) implies i == events.len() - 1
        && new_floor_of(catch_up_after(c, events)) is None by {
        assert(events.take(i + 1).drop_last() =~= events.take(i));
        assert(events.take(i + 1).last() == events[i]);
        if i + 1 < events.len() {
            assert(catch_up_expects(catch_up_after(c, events.take(i + 1)), events[i + 1]));
        }
    }
    if events.len() > 0 {
        let n = events.len() - 1;
        assert(events.drop_last() =~= events.take(n));
        assert(catch_up_expects(catch_up_after(c, events.take(n)), events[n]));
        lemma_catch_up_keeps_floor(c, events.take(n));
    }
}

/// A sweep after a run of events.
pub open spec fn sweep_after(s: Sweep, events: Seq<SweepEvent>) -> Sweep
    decreases events.len(),
{
    if events.len() == 0 {
        s
    } else {
        sweep_step(sweep_after(s, events.drop_last()), events.last()).0
    }
}

/// What a sweep asks for in answer to the `i`-th event of a run.
pub open spec fn sweep_action_at(s: Sweep, events: Seq<SweepEvent>, i: int) -> SweepAction {
    sweep_step(sweep_after(s, events.take(i)), events[i]).1
}

/// The oldest message id of the checkpoint (not the final one) that answers
/// the `i`-th event of a run, if that answer is such a checkpoint.
pub open spec fn checkpoint_at(s: Sweep, events: Seq<SweepEvent>, i: int) -> Option<i64> {
    match sweep_action_at(s, events, i) {
        SweepAction::Checkpoint { oldest: Some(c), complete: false } => Some(c),
        _ => None,
    }
}

/// Every event of the run is one the sweep expects at that point.
pub open spec fn sweep_run_ok(s: Sweep, events: Seq<SweepEvent>) -> bool {
    forall|i: int| 0 <= i < events.len() ==> sweep_expects(sweep_after(s, events.take(i)).phase, #[trigger] events[i])
}

/// Every fetched page holds only messages older than the cursor it was
/// fetched before (what `before` paging returns).
pub open spec fn pages_below_cursor(s: Sweep, events: Seq<SweepEvent>) -> bool {
    forall|i: int|
        0 <= i < events.len() ==> (#[trigger] events[i] matches SweepEvent::Fetched(ids) ==> (sweep_after(
            s,
            events.take(i),
        ).cursor matches Some(c) ==> forall|k: int| 0 <= k < ids.len() ==> ids@[k] < c))
}

/// The sweep after one more event of a run.
proof fn lemma_sweep_after_step(s: Sweep, events: Seq<SweepEvent>, i: int)
    requires
        0 <= i < events.len(),
    ensures
        sweep_after(s, events.take(i + 1)) == sweep_step(sweep_after(s, events.take(i)), events[i]).0,
{
    assert(events.take(i + 1).drop_last() =~= events.take(i));
    assert(events.take(i + 1).last() == events[i]);
}

/// A sweep waits to persist only right after fetching a non-empty page, whose
/// oldest message it keeps, older than the cursor the page was fetched before.
proof fn lemma_awaiting_persist(s: Sweep, events: Seq<SweepEvent>, k: int)
    requires
        s.phase == SweepPhase::Begin,
        sweep_run_ok(s, events),
        pages_below_cursor(s, events),
        0 <= k <= events.len(),
        sweep_after(s, events.take(k)).phase == SweepPhase::AwaitPersist,
    ensures
        k >= 1,
        events[k - 1] matches SweepEvent::Fetched(ids) && ids.len() > 0 && sweep_after(s, events.take(k)).page_oldest
            == min_of(ids@),
        sweep_after(s, events.take(k)).cursor == sweep_after(s, events.take(k - 1)).cursor,
        sweep_after(s, events.take(k)).cursor matches Some(c) ==> sweep_after(s, events.take(k)).page_oldest < c,
{
    if k == 0 {
        assert(events.take(0) =~= Seq::<SweepEvent>::empty());
    } else {
        lemma_sweep_after_step(s, events, k - 1);
        let prev = sweep_after(s, events.take(k - 1));
        assert(sweep_expects(prev.phase, events[k - 1]));
        if let SweepEvent::Fetched(ids) = events[k - 1] {
            if ids.len() > 0 {
                lemma_min_of(ids@);
                let m = min_of(ids@);
                let j = choose|j: int| 0 <= j < ids@.len() && ids@[j] == m;
                assert(ids@[j] == m);
            }
        }
    }
}

/// After a non-final checkpoint at `c`, the cursor never goes back above `c`.
proof fn lemma_cursor_stays_below(s: Sweep, events: Seq<SweepEvent>, i: int, c: i64, k: int)
    requires
        s.phase == SweepPhase::Begin,
        sweep_run_ok(s, events),
        pages_below_cursor(s, events),
        0 <= i < events.len(),
        sweep_action_at(s, events, i) == (SweepAction::Checkpoint { oldest: Some(c), complete: false }),
        i + 1 <= k <= events.len(),
    ensures
        sweep_after(s, events.take(k)).cursor matches Some(d) && d <= c,
    decreases k - i,
{
    if k == i + 1 {
        lemma_sweep_after_step(s, events, i);
    } else {
        lemma_cursor_stays_below(s, events, i, c, k - 1);
        lemma_sweep_after_step(s, events, k - 1);
        let prev = sweep_after(s, events.take(k - 1));
        assert(sweep_expects(prev.phase, events[k - 1]));
        if prev.phase == SweepPhase::AwaitPersist {
            lemma_awaiting_persist(s, events, k - 1);
        }
    }
}

/// Over a whole sweep, from its start and through any run of events it
/// accepts in which each page holds only messages older than the cursor it
/// was fetched before: every checkpoint that is not the final one is written
/// right after the whole page fetched just before was persisted, at that
/// page's oldest message; the next fetch starts before that message;
/// successive checkpoints strictly decrease; and a failed fetch, persist or
/// checkpoint is the last event of the run.
pub proof fn law_sweep_run(s: Sweep, events: Seq<SweepEvent>)
    requires
        s.phase == SweepPhase::Begin,
        sweep_run_ok(s, events),
        pages_below_cursor(s, events),
    ensures
        forall|i: int|
            0 <= i < events.len() && #[trigger] sweep_action_at(s, events, i) is Checkpoint && !sweep_action_at(
                s,
                events,
                i,
            )->complete ==> 1 <= i && events[i] is Persisted && (events[i - 1] matches SweepEvent::Fetched(ids)
                && ids.len() > 0 && sweep_action_at(s, events, i)->oldest == Some(min_of(ids@))),
        forall|i: int|
            0 <= i && i + 1 < events.len() && #[trigger] sweep_action_at(s, events, i) is Checkpoint
                && !sweep_action_at(s, events, i)->complete && events[i + 1] is Checkpointed ==> sweep_action_at(
                s,
                events,
                i + 1,
            ) is Fetch && sweep_action_at(s, events, i + 1)->before == sweep_action_at(s, events, i)->oldest,
        forall|i: int, j: int|
            0 <= i < j < events.len() && #[trigger] checkpoint_at(s, events, i) is Some && #[trigger] checkpoint_at(
                s,
                events,
                j,
            ) is Some ==> checkpoint_at(s, events, j)->0 < checkpoint_at(s, events, i)->0,
        forall|i: int|
            0 <= i < events.len() && (#[trigger] events[i] is FetchFailed || events[i] is PersistFailed
                || events[i] is CheckpointFailed) ==> i == events.len() - 1,
{
    assert forall|i: int|
        0 <= i < events.len() && #[trigger] sweep_action_at(s, events, i) is Checkpoint && !sweep_action_at(
            s,
            events,
            i,
        )->complete implies 1 <= i && events[i] is Persisted && (events[i - 1] matches SweepEvent::Fetched(ids)
            && ids.len() > 0 && sweep_action_at(s, events, i)->oldest == Some(min_of(ids@))) by {
        let st = sweep_after(s, events.take(i));
        assert(sweep_expects(st.phase, events[i]));
        lemma_awaiting_persist(s, events, i);
    }
    assert forall|i: int|
        0 <= i && i + 1 < events.len() && #[trigger] sweep_action_at(s, events, i) is Checkpoint
            && !sweep_action_at(s, events, i)->complete && events[i + 1] is Checkpointed implies sweep_action_at(
            s,
            events,
            i + 1,
        ) is Fetch && sweep_action_at(s, events, i + 1)->before == sweep_action_at(s, events, i)->oldest by {
        assert(sweep_expects(sweep_after(s, events.take(i)).phase, events[i]));
        lemma_sweep_after_step(s, events, i);
    }
    assert forall|i: int, j: int|
        0 <= i < j < events.len() && #[trigger] checkpoint_at(s, events, i) is Some && #[trigger] checkpoint_at(
            s,
            events,
            j,
        ) is Some implies checkpoint_at(s, events, j)->0 < checkpoint_at(s, events, i)->0 by {
        let ci = checkpoint_at(s, events, i)->0;
        assert(sweep_expects(sweep_after(s, events.take(j)).phase, events[j]));
        lemma_cursor_stays_below(s, events, i, ci, j);
        lemma_awaiting_persist(s, events, j);
    }
    assert forall|i: int|
        0 <= i < events.len() && (#[trigger] events[i] is FetchFailed || events[i] is PersistFailed
            || events[i] is CheckpointFailed) implies i == events.len() - 1 by {
        assert(sweep_expects(sweep_after(s, events.take(i)).phase, events[i]));
        lemma_sweep_after_step(s, events, i);
        if i + 1 < events.len() {
            assert(sweep_expects(sweep_after(s, events.take(i + 1)).phase, events[i + 1]));
        }
    }
}

} // verus!
