//! What the message log records: the times a message is stored under, the
//! channel and guild rows written beside it, how a reaction's emoji is
//! recorded, and how a channel's pin list is reconciled.
use vstd::prelude::*;

use std::collections::HashSet;
use crate::attachments::id_set;
use crate::text::{decimal, opt_chars, opt_text, str_eq, u64_to_decimal};

verus! {

broadcast use vstd::std_specs::hash::group_hash_axioms;

/// The earliest Unix time (in whole seconds) that chrono represents:
/// January 1 of year -262143, 00:00:00 UTC.
pub const MIN_UNIX_SECONDS: i64 = -8334601228800;

/// The latest Unix time (in whole seconds) that chrono represents:
/// December 31 of year 262142, 23:59:59 UTC.
pub const MAX_UNIX_SECONDS: i64 = 8210266876799;

/// Whether chrono represents this Unix time (in whole seconds) as a UTC date-time.
pub open spec fn representable_timestamp(secs: i64) -> bool {
    MIN_UNIX_SECONDS <= secs <= MAX_UNIX_SECONDS
}

/// Whether a Unix time is within chrono's range.
///
/// Trusted: calls `chrono::DateTime::from_timestamp(secs, 0)`, which returns
/// `None` on an out-of-range number of seconds. In chrono 0.4.45 the range is
/// that of `NaiveDate`, years `MIN_YEAR = -262143` to `MAX_YEAR = 262142`
/// (naive/date/mod.rs, checked in `from_ordinal_and_flags`): from
/// -262143-01-01 00:00:00 to 262142-12-31 23:59:59 UTC, which the contract
/// states in seconds.
#[verifier::external_body]
fn timestamp_in_range(secs: i64) -> (r: bool)
    ensures
        r == (MIN_UNIX_SECONDS <= secs <= MAX_UNIX_SECONDS),
{
    chrono::DateTime::from_timestamp(secs, 0).is_some()
}

/// The Unix times (in whole seconds) under which a message is stored.
#[derive(Debug, Clone, Copy, PartialEq, Eq)]
pub struct MessageTimes {
    pub sent: i64,
    pub edited: i64,
}

/// The edit time stored for a message: its edit time when it has a usable
/// one, else its sent time.
pub open spec fn stored_edit_time(sent: i64, edited: Option<i64>) -> i64 {
    match edited {
        Some(e) => if representable_timestamp(e) {
            e
        } else {
            sent
        },
        None => sent,
    }
}

/// The times a message is stored under, or `None` when its sent time is out
/// of range and the message is skipped (logged, never a panic). The edit time
/// defaults to the sent time when absent, and a bad edit time falls back to
/// the sent time rather than dropping an otherwise valid message.
pub fn message_times(sent: i64, edited: Option<i64>) -> (r: Option<MessageTimes>)
    ensures
        r is None <==> !representable_timestamp(sent),
        r matches Some(t) ==> t.sent == sent && t.edited == stored_edit_time(sent, edited),
{
    if !timestamp_in_range(sent) {
        return None;
    }
    let edit = match edited {
        Some(e) => if timestamp_in_range(e) {
            e
        } else {
            sent
        },
        None => sent,
    };
    Some(MessageTimes { sent, edited: edit })
}

/// What fetching a message's channel gave.
#[derive(Debug)]
pub enum ChannelLookup {
    /// A guild channel.
    Guild { guild_id: i64, name: String },
    /// A channel outside any guild (e.g. a DM).
    Other,
    /// The fetch failed.
    Failed,
}

/// A row of the channel table.
#[derive(Debug)]
pub struct ChannelRow {
    pub id: i64,
    pub name: Option<String>,
    pub guild_id: Option<i64>,
    pub first_message_id: i64,
    pub last_message_id: i64,
}

/// The rows written so that a message's channel (and guild) exist: a guild
/// row without a name (an existing name is kept), then the channel row.
#[derive(Debug)]
pub struct ChannelRows {
    pub guild: Option<i64>,
    pub channel: ChannelRow,
}

/// The rows that make a message's channel exist, from what fetching the
/// channel gave. A guild channel records its name and guild; another channel
/// gets a bare row; when the fetch failed, a degraded row still keeps the
/// message's reference valid, with the guild that the gateway reported
/// (`None` for DMs and backfilled messages). The channel upsert enriches the
/// row when a later fetch succeeds.
pub fn channel_rows(lookup: &ChannelLookup, channel_id: i64, message_id: i64, gateway_guild_id: Option<i64>) -> (r: ChannelRows)
    ensures
        r.channel.id == channel_id,
        r.channel.first_message_id == message_id,
        r.channel.last_message_id == message_id,
        match lookup {
            ChannelLookup::Guild { guild_id, name } => r.guild == Some(*guild_id) && opt_text(r.channel.name)
                == Some(name@) && r.channel.guild_id == Some(*guild_id),
            ChannelLookup::Other => r.guild is None && r.channel.name is None && r.channel.guild_id is None,
            ChannelLookup::Failed => r.guild == gateway_guild_id && r.channel.name is None
                && r.channel.guild_id == gateway_guild_id,
        },
{
    match lookup {
        ChannelLookup::Guild { guild_id, name } => ChannelRows {
            guild: Some(*guild_id),
            channel: ChannelRow {
                id: channel_id,
                name: Some(name.clone()),
                guild_id: Some(*guild_id),
                first_message_id: message_id,
                last_message_id: message_id,
            },
        },
        ChannelLookup::Other => ChannelRows {
            guild: None,
            channel: ChannelRow {
                id: channel_id,
                name: None,
                guild_id: None,
                first_message_id: message_id,
                last_message_id: message_id,
            },
        },
        ChannelLookup::Failed => ChannelRows {
            guild: gateway_guild_id,
            channel: ChannelRow {
                id: channel_id,
                name: None,
                guild_id: gateway_guild_id,
                first_message_id: message_id,
                last_message_id: message_id,
            },
        },
    }
}

/// The emoji of a reaction.
#[derive(Debug)]
pub enum EmojiKind {
    /// A custom emoji of a guild, with its id and (if known) name.
    Custom { id: u64, name: Option<String> },
    /// A Unicode emoji.
    Unicode(String),
    /// A kind of emoji that is not recorded.
    Other,
}

/// How a reaction's emoji is recorded: a custom emoji by its id (also written
/// to the emoji catalog) and its name, or its id's digits when it has none; a
/// Unicode emoji by its text alone.
#[derive(Debug)]
pub struct RecordedEmoji {
    pub id: Option<i64>,
    pub name: String,
}

/// Resolves a reaction's emoji; `None` for a kind that is skipped.
pub fn resolve_emoji(emoji: &EmojiKind) -> (r: Option<RecordedEmoji>)
    ensures
        match emoji {
            EmojiKind::Custom { id, name } => r matches Some(e) && e.id == Some(*id as i64) && e.name@ == match name {
                Some(n) => n@,
                None => decimal(*id as nat),
            },
            EmojiKind::Unicode(text) => r matches Some(e) && e.id is None && e.name@ == text@,
            EmojiKind::Other => r is None,
        },
{
    match emoji {
        EmojiKind::Custom { id, name } => {
            let shown = match name {
                Some(n) => n.clone(),
                None => u64_to_decimal(*id),
            };
            Some(RecordedEmoji { id: Some(*id as i64), name: shown })
        },
        EmojiKind::Unicode(text) => Some(RecordedEmoji { id: None, name: text.clone() }),
        EmojiKind::Other => None,
    }
}


/// The pins to record as new: the fetched pinned messages not stored as
/// pinned, in the order Discord lists them.
pub open spec fn added_pins(stored: Seq<i64>, fetched: Seq<i64>) -> Seq<i64>
    decreases fetched.len(),
{
    if fetched.len() == 0 {
        seq![]
    } else {
        let a = added_pins(stored, fetched.drop_last());
        if stored.contains(fetched.last()) {
            a
        } else {
            a.push(fetched.last())
        }
    }
}

/// The pins to record as gone: each message stored as pinned that Discord no
/// longer lists, once, in stored order.
pub open spec fn removed_pins(stored: Seq<i64>, fetched: Seq<i64>) -> Seq<i64>
    decreases stored.len(),
{
    if stored.len() == 0 {
        seq![]
    } else {
        let r = removed_pins(stored.drop_last(), fetched);
        if fetched.contains(stored.last()) || r.contains(stored.last()) {
            r
        } else {
            r.push(stored.last())
        }
    }
}

/// How a channel's pin state changes: messages newly pinned and messages unpinned.
#[derive(Debug)]
pub struct PinDiff {
    pub added: Vec<i64>,
    pub removed: Vec<i64>,
}

/// Diffs the pins stored for a channel against the pins Discord lists for it
/// (CHANNEL_PINS_UPDATE carries no message id and no pin/unpin flag, so every
/// event is answered with a full fetch and diff). Identical sets give an
/// empty diff, so repeated events and every-boot syncs write nothing.
pub fn pin_diff(stored: &Vec<i64>, fetched: &Vec<i64>) -> (r: PinDiff)
    ensures
        r.added@ == added_pins(stored@, fetched@),
        r.removed@ == removed_pins(stored@, fetched@),
{
    let stored_set = id_set(stored);
    let fetched_set = id_set(fetched);
    let mut added: Vec<i64> = Vec::new();
    let mut i: usize = 0;
    while i < fetched.len()
        invariant
            forall|x: i64| #[trigger] stored_set@.contains(x) <==> stored@.contains(x),
            i <= fetched.len(),
            added@ == added_pins(stored@, fetched@.take(i as int)),
        decreases fetched.len() - i,
    {
        assert(fetched@.take(i + 1).drop_last() =~= fetched@.take(i as int));
        if !stored_set.contains(&fetched[i]) {
            added.push(fetched[i]);
        }
        i = i + 1;
    }
    assert(fetched@.take(fetched.len() as int) =~= fetched@);
    let mut removed: Vec<i64> = Vec::new();
    let mut removed_set: HashSet<i64> = HashSet::new();
    let mut j: usize = 0;
    while j < stored.len()
        invariant
            forall|x: i64| #[trigger] fetched_set@.contains(x) <==> fetched@.contains(x),
            forall|x: i64| #[trigger] removed_set@.contains(x) <==> removed@.contains(x),
            j <= stored.len(),
            removed@ == removed_pins(stored@.take(j as int), fetched@),
        decreases stored.len() - j,
    {
        assert(stored@.take(j + 1).drop_last() =~= stored@.take(j as int));
        if !fetched_set.contains(&stored[j]) && !removed_set.contains(&stored[j]) {
            let ghost before = removed@;
            removed.push(stored[j]);
            removed_set.insert(stored[j]);
            proof {
                assert forall|x: i64| #[trigger] removed_set@.contains(x) <==> removed@.contains(x) by {
                    if before.contains(x) {
                        let k = choose|k: int| 0 <= k < before.len() && before[k] == x;
                        assert(removed@[k] == x);
                    }
                    if removed@.contains(x) && x != stored@[j as int] {
                        let k = choose|k: int| 0 <= k < removed@.len() && removed@[k] == x;
                        assert(before[k] == x);
                    }
                    assert(removed@[before.len() as int] == stored@[j as int]);
                }
            }
        }
        j = j + 1;
    }
    assert(stored@.take(stored.len() as int) =~= stored@);
    PinDiff { added, removed }
}

proof fn lemma_added_pins(stored: Seq<i64>, fetched: Seq<i64>)
    ensures
        forall|x: i64| #[trigger] added_pins(stored, fetched).contains(x) <==> (fetched.contains(x) && !stored.contains(x)),
    decreases fetched.len(),
{
    if fetched.len() > 0 {
        lemma_added_pins(stored, fetched.drop_last());
        let a = added_pins(stored, fetched.drop_last());
        assert forall|x: i64| added_pins(stored, fetched).contains(x) <==> (fetched.contains(x) && !stored.contains(x)) by {
            if fetched.contains(x) {
                let k = choose|k: int| 0 <= k < fetched.len() && fetched[k] == x;
                if k < fetched.len() - 1 {
                    assert(fetched.drop_last()[k] == x);
                }
            }
            if fetched.drop_last().contains(x) {
                let k = choose|k: int| 0 <= k < fetched.drop_last().len() && fetched.drop_last()[k] == x;
                assert(fetched[k] == x);
            }
            if !stored.contains(fetched.last()) {
                assert(a.push(fetched.last())[a.len() as int] == fetched.last());
                if a.contains(x) {
                    let k = choose|k: int| 0 <= k < a.len() && a[k] == x;
                    assert(a.push(fetched.last())[k] == x);
                }
                if a.push(fetched.last()).contains(x) && x != fetched.last() {
                    let k = choose|k: int| 0 <= k < a.len() + 1 && a.push(fetched.last())[k] == x;
                    assert(a[k] == x);
                }
            }
            assert(fetched[fetched.len() - 1] == fetched.last());
        }
    }
}

proof fn lemma_removed_pins(stored: Seq<i64>, fetched: Seq<i64>)
    ensures
        forall|x: i64| #[trigger] removed_pins(stored, fetched).contains(x) <==> (stored.contains(x) && !fetched.contains(x)),
        removed_pins(stored, fetched).no_duplicates(),
    decreases stored.len(),
{
    if stored.len() > 0 {
        lemma_removed_pins(stored.drop_last(), fetched);
        let r = removed_pins(stored.drop_last(), fetched);
        let y = stored.last();
        assert(stored[stored.len() - 1] == y);
        assert forall|x: i64| removed_pins(stored, fetched).contains(x) <==> (stored.contains(x) && !fetched.contains(x)) by {
            if stored.contains(x) {
                let k = choose|k: int| 0 <= k < stored.len() && stored[k] == x;
                if k < stored.len() - 1 {
                    assert(stored.drop_last()[k] == x);
                }
            }
            if stored.drop_last().contains(x) {
                let k = choose|k: int| 0 <= k < stored.drop_last().len() && stored.drop_last()[k] == x;
                assert(stored[k] == x);
            }
            if !(fetched.contains(y) || r.contains(y)) {
                assert(r.push(y)[r.len() as int] == y);
                if r.contains(x) {
                    let k = choose|k: int| 0 <= k < r.len() && r[k] == x;
                    assert(r.push(y)[k] == x);
                }
                if r.push(y).contains(x) && x != y {
                    let k = choose|k: int| 0 <= k < r.len() + 1 && r.push(y)[k] == x;
                    assert(r[k] == x);
                }
            }
        }
        if !(fetched.contains(y) || r.contains(y)) {
            assert forall|i: int, j: int| 0 <= i < j < r.push(y).len() implies r.push(y)[i] != r.push(y)[j] by {
                if j == r.len() {
                    assert(r[i] == r.push(y)[i]);
                }
            }
        }
    }
}

/// Reconciling pins converges on Discord's list: the stored pins, with the
/// added ones and without the removed ones, are exactly the fetched pins; no
/// pin is both added and removed, and none is removed twice.
pub proof fn law_pin_diff_reconciles(stored: Seq<i64>, fetched: Seq<i64>)
    ensures
        forall|x: i64|
            ((stored.contains(x) || #[trigger] added_pins(stored, fetched).contains(x)) && !removed_pins(stored, fetched).contains(x))
                <==> fetched.contains(x),
        forall|x: i64|
            !(#[trigger] added_pins(stored, fetched).contains(x) && removed_pins(stored, fetched).contains(x)),
        removed_pins(stored, fetched).no_duplicates(),
{
    lemma_added_pins(stored, fetched);
    lemma_removed_pins(stored, fetched);
}

/// When the stored pins and Discord's pins are the same set, the diff is
/// empty: the steady state writes no rows.
pub proof fn law_same_pins_write_nothing(stored: Seq<i64>, fetched: Seq<i64>)
    requires
        stored.to_set() == fetched.to_set(),
    ensures
        added_pins(stored, fetched).len() == 0,
        removed_pins(stored, fetched).len() == 0,
{
    lemma_added_pins(stored, fetched);
    lemma_removed_pins(stored, fetched);
    assert forall|x: i64| stored.contains(x) <==> fetched.contains(x) by {
        assert(stored.to_set().contains(x) == stored.contains(x));
        assert(fetched.to_set().contains(x) == fetched.contains(x));
    }
    let a = added_pins(stored, fetched);
    let r = removed_pins(stored, fetched);
    if a.len() > 0 {
        assert(a.contains(a[0]));
        assert(fetched.contains(a[0]) && !stored.contains(a[0]));
    }
    if r.len() > 0 {
        assert(r.contains(r[0]));
        assert(stored.contains(r[0]) && !fetched.contains(r[0]));
    }
}


/// The background tasks to start when the gateway reports ready.
#[derive(Debug, Clone, Copy, PartialEq, Eq)]
pub struct BootTasks {
    /// Start the historical backfill.
    pub backfill: bool,
    /// Start the attachment drain.
    pub drain: bool,
}

/// Decides which boot-time tasks to start. They start once per process (ready
/// re-fires on every reconnect), the backfill unless disabled with
/// `BACKFILL_DISABLE=1`, the drain when attachment storage is configured.
pub fn boot_tasks(already_started: bool, backfill_disable: Option<&str>, attachments_configured: bool) -> (r: BootTasks)
    ensures
        r.backfill == (!already_started && opt_chars(backfill_disable) != Some("1"@)),
        r.drain == (!already_started && attachments_configured),
{
    if already_started {
        return BootTasks { backfill: false, drain: false };
    }
    let disabled = match backfill_disable {
        Some(v) => str_eq(v, "1"),
        None => false,
    };
    BootTasks { backfill: !disabled, drain: attachments_configured }
}

/// The tasks that one ready event starts: [`boot_tasks`] as a spec.
pub open spec fn tasks_for(already_started: bool, backfill_disable: Option<Seq<char>>, attachments_configured: bool) -> BootTasks {
    BootTasks {
        backfill: !already_started && backfill_disable != Some("1"@),
        drain: !already_started && attachments_configured,
    }
}

/// Remembers, for the whole process, whether the boot-time tasks were started.
pub struct BootGuard {
    started: bool,
}

impl View for BootGuard {
    type V = bool;

    /// Whether the boot-time tasks were started.
    closed spec fn view(&self) -> bool {
        self.started
    }
}

impl BootGuard {
    /// A process that has started nothing yet.
    pub fn new() -> (r: BootGuard)
        ensures
            !r@,
    {
        BootGuard { started: false }
    }

    /// Whether the boot-time tasks were started.
    pub fn started(&self) -> (r: bool)
        ensures
            r == self@,
    {
        self.started
    }

    /// Answers a ready event (which re-fires on every reconnect) with the tasks
    /// to start now; from then on the tasks count as started.
    pub fn on_ready(&mut self, backfill_disable: Option<&str>, attachments_configured: bool) -> (r: BootTasks)
        ensures
            final(self)@,
            r == tasks_for(old(self)@, opt_chars(backfill_disable), attachments_configured),
    {
        let tasks = boot_tasks(self.started, backfill_disable, attachments_configured);
        self.started = true;
        tasks
    }
}

/// The tasks started by a run of ready events on a guard that started as
/// `started`, each event with the `BACKFILL_DISABLE` setting and whether
/// attachment storage is configured at that moment.
pub open spec fn ready_run(started: bool, events: Seq<(Option<Seq<char>>, bool)>) -> Seq<BootTasks>
    decreases events.len(),
{
    if events.len() == 0 {
        seq![]
    } else {
        seq![tasks_for(started, events[0].0, events[0].1)] + ready_run(true, events.drop_first())
    }
}

/// However often ready fires in a process, the backfill and the drain start
/// at most once, at the first event: the backfill exactly when
/// `BACKFILL_DISABLE` is not `1` then, the drain exactly when attachment
/// storage is configured.
pub proof fn law_boot_tasks_start_once(events: Seq<(Option<Seq<char>>, bool)>)
    requires
        events.len() > 0,
    ensures
        ready_run(false, events).len() == events.len(),
        ready_run(false, events)[0].backfill == (events[0].0 != Some("1"@)),
        ready_run(false, events)[0].drain == events[0].1,
        forall|i: int| 1 <= i < events.len() ==> !(#[trigger] ready_run(false, events)[i]).backfill
            && !ready_run(false, events)[i].drain,
{
    lemma_ready_run_after_start(events.drop_first());
    let rest = ready_run(true, events.drop_first());
    assert forall|i: int| 1 <= i < events.len() implies !(#[trigger] ready_run(false, events)[i]).backfill
        && !ready_run(false, events)[i].drain by {
        assert(ready_run(false, events)[i] == rest[i - 1]);
    }
}

/// Once started, no ready event starts anything.
proof fn lemma_ready_run_after_start(events: Seq<(Option<Seq<char>>, bool)>)
    ensures
        ready_run(true, events).len() == events.len(),
        forall|i: int| 0 <= i < events.len() ==> !(#[trigger] ready_run(true, events)[i]).backfill
            && !ready_run(true, events)[i].drain,
    decreases events.len(),
{
    if events.len() > 0 {
        lemma_ready_run_after_start(events.drop_first());
        let rest = ready_run(true, events.drop_first());
        assert forall|i: int| 0 <= i < events.len() implies !(#[trigger] ready_run(true, events)[i]).backfill
            && !ready_run(true, events)[i].drain by {
            if i > 0 {
                assert(ready_run(true, events)[i] == rest[i - 1]);
            }
        }
    }
}

} // verus!
