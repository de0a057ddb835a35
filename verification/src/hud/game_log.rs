//! In-game event log: short-lived coloured lines about what the bots do.
//!
//! Events are kept as values; a line is written out the first time it is shown, and the text
//! is kept with the event. Ages are in microseconds.
use std::collections::VecDeque;

use vstd::prelude::*;

verus! {

/// How long a line stays, in microseconds.
pub const LOG_LIFETIME_MICROS: u64 = 4_000_000;

/// Most entries kept; the oldest leave first.
pub const MAX_STORED_LOGS: usize = 256;

/// Severity of a logged event; fixes the line color.
#[derive(Debug, Clone, Copy, PartialEq, Eq, Structural)]
pub enum LogLevel {
    /// Red: something went wrong.
    Error,
    /// Yellow: a warning.
    Warn,
    /// White: neutral information.
    Info,
    /// Green: an operation completed successfully.
    Success,
    /// Light blue: an unexpected but non-fatal event.
    Unexpected,
}

impl LogLevel {
    /// The level's color, in hundredths of full red, green and blue.
    pub open spec fn hundredths(self) -> Seq<u8> {
        match self {
            LogLevel::Error => seq![95, 25, 25],
            LogLevel::Warn => seq![97, 85, 30],
            LogLevel::Info => seq![95, 96, 98],
            LogLevel::Success => seq![35, 90, 45],
            LogLevel::Unexpected => seq![55, 80, 100],
        }
    }

    /// Display color for this level, in hundredths of full red, green and blue.
    pub fn color(self) -> (color: [u8; 3])
        ensures
            color@ == self.hundredths(),
    {
        let color: [u8; 3] = match self {
            LogLevel::Error => [95, 25, 25],
            LogLevel::Warn => [97, 85, 30],
            LogLevel::Info => [95, 96, 98],
            LogLevel::Success => [35, 90, 45],
            LogLevel::Unexpected => [55, 80, 100],
        };
        assert(color@ =~= self.hundredths());
        color
    }
}

/// A single logged event.
#[derive(Debug, Clone)]
pub enum LogEntry {
    /// A bot rerouted after a head-on collision with another bot.
    BotReroute { name: String },
    /// A bot docked at a charger and started charging.
    ChargingStarted { name: String },
    /// A bot finished charging (reached full) and undocked.
    ChargingDone { name: String },
    /// A free-form message with an explicit level.
    Message { level: LogLevel, text: String },
}

impl LogEntry {
    /// Severity of an entry.
    pub open spec fn severity(self) -> LogLevel {
        match self {
            LogEntry::BotReroute { .. } => LogLevel::Unexpected,
            LogEntry::ChargingStarted { .. } => LogLevel::Info,
            LogEntry::ChargingDone { .. } => LogLevel::Success,
            LogEntry::Message { level, .. } => level,
        }
    }

    /// The line that shows an entry.
    pub open spec fn line(self) -> Seq<char> {
        match self {
            LogEntry::BotReroute { name } => name@ + " rerouting after collision"@,
            LogEntry::ChargingStarted { name } => name@ + " started charging"@,
            LogEntry::ChargingDone { name } => name@ + " finished charging"@,
            LogEntry::Message { text, .. } => text@,
        }
    }

    /// Severity of this entry.
    pub fn level(&self) -> (level: LogLevel)
        ensures
            level == self.severity(),
    {
        match self {
            LogEntry::BotReroute { .. } => LogLevel::Unexpected,
            LogEntry::ChargingStarted { .. } => LogLevel::Info,
            LogEntry::ChargingDone { .. } => LogLevel::Success,
            LogEntry::Message { level, .. } => *level,
        }
    }

    /// Writes the entry out as a display line.
    pub fn render(&self) -> (text: String)
        ensures
            text@ == self.line(),
    {
        match self {
            LogEntry::BotReroute { name } => {
                let mut text = name.clone();
                text.append(" rerouting after collision");
                text
            },
            LogEntry::ChargingStarted { name } => {
                let mut text = name.clone();
                text.append(" started charging");
                text
            },
            LogEntry::ChargingDone { name } => {
                let mut text = name.clone();
                text.append(" finished charging");
                text
            },
            LogEntry::Message { text, .. } => text.clone(),
        }
    }
}

/// One stored event with its age and, once shown, its line.
#[derive(Debug)]
pub struct StoredLog {
    pub entry: LogEntry,
    /// Microseconds this line has been alive.
    pub age: u64,
    /// The line, from the first time it is displayed.
    pub rendered: Option<String>,
}

impl StoredLog {
    /// A kept line is the entry's line.
    pub open spec fn coherent(self) -> bool {
        self.rendered matches Some(text) ==> text@ == self.entry.line()
    }
}

/// What the log overlay shows next.
#[derive(Debug)]
pub enum LogFrame {
    /// The panel is off: no lines.
    Hidden,
    /// The lines shown are still right.
    Unchanged,
    /// These lines, newest first.
    Lines(Vec<(LogLevel, String)>),
}

/// The event-log store and display toggle. Events are recorded while the panel is off, too.
#[derive(Debug)]
pub struct GameLog {
    /// When `false`, events are stored but never written out or displayed.
    pub enabled: bool,
    pub entries: VecDeque<StoredLog>,
    /// Set when the displayed entries change, until they are shown.
    pub dirty: bool,
}

impl Default for GameLog {
    fn default() -> (log: Self)
        ensures
            log.wf(),
            !log.enabled,
            log.entries@ == Seq::<StoredLog>::empty(),
            !log.dirty,
    {
        GameLog { enabled: false, entries: VecDeque::new(), dirty: false }
    }
}

/// The entries that are still young after some time has passed, with their new ages.
pub open spec fn aged(entries: Seq<StoredLog>, dt: int) -> Seq<StoredLog>
    decreases entries.len(),
{
    if entries.len() == 0 {
        entries
    } else {
        let before = aged(entries.drop_last(), dt);
        let last = entries.last();
        if last.age + dt < LOG_LIFETIME_MICROS {
            before.push(StoredLog { age: (last.age + dt) as u64, ..last })
        } else {
            before
        }
    }
}

proof fn lemma_aged(entries: Seq<StoredLog>, dt: int)
    requires
        dt >= 0,
        forall|i: int| 0 <= i < entries.len() ==> (#[trigger] entries[i]).coherent(),
    ensures
        aged(entries, dt).len() <= entries.len(),
        forall|i: int|
            0 <= i < aged(entries, dt).len() ==> (#[trigger] aged(entries, dt)[i]).coherent()
                && aged(entries, dt)[i].age < LOG_LIFETIME_MICROS,
    decreases entries.len(),
{
    if entries.len() > 0 {
        lemma_aged(entries.drop_last(), dt);
    }
}

impl GameLog {
    /// The store is within its limit and every kept line is its entry's line.
    pub open spec fn wf(self) -> bool {
        &&& self.entries@.len() <= MAX_STORED_LOGS
        &&& forall|i: int| 0 <= i < self.entries@.len() ==> (#[trigger] self.entries@[i]).coherent()
    }

    /// Records an event without writing it out. Drops the oldest entry if the store is full.
    pub fn push(&mut self, entry: LogEntry)
        requires
            old(self).wf(),
        ensures
            final(self).wf(),
            final(self).entries@ == (if old(self).entries@.len() >= MAX_STORED_LOGS {
                old(self).entries@.skip(1)
            } else {
                old(self).entries@
            }).push(StoredLog { entry, age: 0, rendered: None }),
            final(self).dirty,
            final(self).enabled == old(self).enabled,
    {
        if self.entries.len() >= MAX_STORED_LOGS {
            let _oldest = self.entries.pop_front();
            assert(self.entries@ =~= old(self).entries@.skip(1));
        }
        self.entries.push_back(StoredLog { entry, age: 0, rendered: None });
        self.dirty = true;
    }

    pub fn is_enabled(&self) -> (enabled: bool)
        ensures
            enabled == self.enabled,
    {
        self.enabled
    }

    /// Turns the panel on or off.
    pub fn toggle(&mut self)
        ensures
            final(self).enabled == !old(self).enabled,
            final(self).dirty,
            final(self).entries@ == old(self).entries@,
    {
        self.enabled = !self.enabled;
        self.dirty = true;
    }

    /// Lets time pass while the game is not paused: every line grows older by `dt`
    /// microseconds, and those past their lifetime disappear.
    pub fn age_logs(&mut self, dt: u64)
        requires
            old(self).wf(),
        ensures
            final(self).wf(),
            final(self).entries@ == if dt == 0 {
                old(self).entries@
            } else {
                aged(old(self).entries@, dt as int)
            },
            final(self).dirty == (old(self).dirty || final(self).entries@.len() != old(
                self,
            ).entries@.len()),
            final(self).enabled == old(self).enabled,
            dt > 0 ==> forall|i: int|
                0 <= i < final(self).entries@.len() ==> (#[trigger] final(self).entries@[i]).age
                    < LOG_LIFETIME_MICROS,
    {
        if dt == 0 {
            return;
        }
        let ghost all = self.entries@;
        let before: usize = self.entries.len();
        let mut kept: VecDeque<StoredLog> = VecDeque::new();
        let mut i: usize = 0;
        while i < before
            invariant
                i <= before == all.len(),
                self.entries@ == all.skip(i as int),
                self.enabled == old(self).enabled,
                self.dirty == old(self).dirty,
                kept@ == aged(all.take(i as int), dt as int),
            decreases before - i,
        {
            let ghost rest = self.entries@;
            if let Some(stored) = self.entries.pop_front() {
                assert(stored == all[i as int]);
                assert(self.entries@ =~= all.skip(i + 1));
                assert(all.take(i + 1).drop_last() =~= all.take(i as int));
                let age: u64 = stored.age.saturating_add(dt);
                if age < LOG_LIFETIME_MICROS {
                    kept.push_back(
                        StoredLog { entry: stored.entry, age, rendered: stored.rendered },
                    );
                }
            } else {
                assert(rest.len() > 0);
            }
            i += 1;
        }
        proof {
            assert(all.take(i as int) =~= all);
            lemma_aged(all, dt as int);
        }
        if kept.len() != before {
            self.dirty = true;
        }
        self.entries = kept;
    }

    /// What to show now. Lines are handed out only when they changed while the panel is on,
    /// and each entry is written out at most once.
    pub fn render_logs(&mut self) -> (frame: LogFrame)
        requires
            old(self).wf(),
        ensures
            final(self).wf(),
            final(self).enabled == old(self).enabled,
            frame is Hidden <==> !old(self).enabled,
            frame is Unchanged <==> old(self).enabled && !old(self).dirty,
            frame !is Lines ==> final(self).entries@ == old(self).entries@ && final(self).dirty
                == old(self).dirty,
            frame matches LogFrame::Lines(lines) ==> {
                let n = old(self).entries@.len();
                &&& lines@.len() == n
                &&& !final(self).dirty
                &&& final(self).entries@.len() == n
                &&& forall|i: int|
                    0 <= i < n ==> {
                        let stored = old(self).entries@[n - 1 - i];
                        (#[trigger] lines@[i]).0 == stored.entry.severity() && lines@[i].1@
                            == stored.entry.line()
                    }
                &&& forall|i: int|
                    0 <= i < n ==> {
                        let stored = #[trigger] final(self).entries@[i];
                        &&& stored.entry == old(self).entries@[i].entry
                        &&& stored.age == old(self).entries@[i].age
                        &&& stored.rendered is Some
                    }
            },
    {
        if !self.enabled {
            return LogFrame::Hidden;
        }
        if !self.dirty {
            return LogFrame::Unchanged;
        }
        self.dirty = false;
        let ghost all = self.entries@;
        let n: usize = self.entries.len();
        let mut lines: Vec<(LogLevel, String)> = Vec::new();
        let mut shown: VecDeque<StoredLog> = VecDeque::new();
        let mut i: usize = 0;
        while i < n
            invariant
                i <= n == all.len(),
                all == old(self).entries@,
                forall|k: int| 0 <= k < all.len() ==> (#[trigger] all[k]).coherent(),
                self.entries@ == all.take(n - i),
                self.enabled == old(self).enabled,
                !self.dirty,
                lines@.len() == i,
                shown@.len() == i,
                forall|k: int|
                    0 <= k < i ==> (#[trigger] lines@[k]).0 == all[n - 1 - k].entry.severity()
                        && lines@[k].1@ == all[n - 1 - k].entry.line(),
                forall|k: int|
                    0 <= k < i ==> {
                        let stored = #[trigger] shown@[k];
                        &&& stored.entry == all[n - i + k].entry
                        &&& stored.age == all[n - i + k].age
                        &&& stored.rendered is Some
                        &&& stored.coherent()
                    },
            decreases n - i,
        {
            let ghost rest = self.entries@;
            let ghost written = shown@;
            if let Some(stored) = self.entries.pop_back() {
                assert(stored == all[n - 1 - i]);
                assert(self.entries@ =~= all.take(n - (i + 1)));
                let text: String = match &stored.rendered {
                    Some(text) => text.clone(),
                    None => stored.entry.render(),
                };
                let level = stored.entry.level();
                let kept = text.clone();
                lines.push((level, text));
                shown.push_front(
                    StoredLog { entry: stored.entry, age: stored.age, rendered: Some(kept) },
                );
                proof {
                    assert forall|k: int| 0 <= k < i + 1 implies ({
                        let stored = #[trigger] shown@[k];
                        &&& stored.entry == all[n - (i + 1) + k].entry
                        &&& stored.age == all[n - (i + 1) + k].age
                        &&& stored.rendered is Some
                        &&& stored.coherent()
                    }) by {
                        if k > 0 {
                            assert(shown@[k] == written[k - 1]);
                        }
                    }
                }
            } else {
                assert(rest.len() > 0);
            }
            i += 1;
        }
        self.entries = shown;
        LogFrame::Lines(lines)
    }
}

} // verus!
