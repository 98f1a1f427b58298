//! Console log store: collects log entries and decides which ones the
//! filter settings let through. Draining a live log channel and drawing the
//! list are the host's concern.

use vstd::prelude::*;
use vstd::string::*;
use crate::text::seq_contains;

verus! {

/// Log severity level.
#[derive(Debug, Clone, Copy, PartialEq, Eq, Structural)]
pub enum LogLevel {
    Trace,
    Debug,
    Info,
    Warn,
    Error,
}

impl LogLevel {
    /// Display label of the level.
    pub fn label(&self) -> (r: &'static str)
        ensures
            r@ == spec_level_label(*self),
    {
        match self {
            LogLevel::Trace => "TRACE",
            LogLevel::Debug => "DEBUG",
            LogLevel::Info => "INFO",
            LogLevel::Warn => "WARN",
            LogLevel::Error => "ERROR",
        }
    }
}

/// Display label of a level.
pub open spec fn spec_level_label(l: LogLevel) -> Seq<char> {
    match l {
        LogLevel::Trace => "TRACE"@,
        LogLevel::Debug => "DEBUG"@,
        LogLevel::Info => "INFO"@,
        LogLevel::Warn => "WARN"@,
        LogLevel::Error => "ERROR"@,
    }
}

/// A single log entry.
#[derive(Debug)]
pub struct LogEntry {
    pub level: LogLevel,
    pub message: String,
    pub target: String,
}

/// Mathematical model of a [`LogEntry`].
#[verifier::ext_equal]
pub struct LogEntryView {
    pub level: LogLevel,
    pub message: Seq<char>,
    pub target: Seq<char>,
}

impl View for LogEntry {
    type V = LogEntryView;

    open spec fn view(&self) -> LogEntryView {
        LogEntryView { level: self.level, message: self.message@, target: self.target@ }
    }
}

pub open spec fn entries_view(s: Seq<LogEntry>) -> Seq<LogEntryView> {
    Seq::new(s.len(), |i: int| s[i]@)
}

/// How many entries of a level the log holds.
pub open spec fn count_level(s: Seq<LogEntryView>, l: LogLevel) -> nat
    decreases s.len(),
{
    if s.len() == 0 {
        0
    } else {
        count_level(s.drop_last(), l) + (if s.last().level == l { 1nat } else { 0nat })
    }
}

proof fn lemma_count_level_bound(s: Seq<LogEntryView>, l: LogLevel)
    ensures
        count_level(s, l) <= s.len(),
    decreases s.len(),
{
    if s.len() > 0 {
        lemma_count_level_bound(s.drop_last(), l);
    }
}

/// What a lowercased text holds. Relied on through [`lowercase`]; the result
/// of lowercasing depends on the characters alone.
pub uninterp spec fn lower_of(s: Seq<char>) -> Seq<char>;

/// Relies on str::to_lowercase: the Unicode lowercase of the text, a
/// function of the characters alone.
#[verifier::external_body]
fn lowercase(s: &str) -> (r: String)
    ensures
        r@ == lower_of(s@),
{
    s.to_lowercase()
}

/// The level filters let this level through; trace and debug entries are
/// never shown in the console list.
pub open spec fn spec_level_shown(l: LogLevel, show_info: bool, show_warn: bool, show_error: bool) -> bool {
    match l {
        LogLevel::Trace => false,
        LogLevel::Debug => false,
        LogLevel::Info => show_info,
        LogLevel::Warn => show_warn,
        LogLevel::Error => show_error,
    }
}

/// The filter settings let this entry through: its level is shown, and the
/// lowercased filter text, when there is one, occurs in the lowercased
/// message or target.
pub open spec fn spec_entry_visible(e: LogEntryView, show_info: bool, show_warn: bool, show_error: bool, filter: Seq<char>) -> bool {
    &&& spec_level_shown(e.level, show_info, show_warn, show_error)
    &&& (lower_of(filter).len() == 0
        || seq_contains(lower_of(e.message), lower_of(filter))
        || seq_contains(lower_of(e.target), lower_of(filter)))
}

/// The console's log store and filter settings.
#[derive(Debug)]
pub struct ConsoleState {
    pub logs: Vec<LogEntry>,
    pub auto_scroll: bool,
    pub show_info: bool,
    pub show_warn: bool,
    pub show_error: bool,
    pub filter_text: String,
    /// Whether to clear the log when entering Play mode.
    pub auto_clear_on_play: bool,
    /// Entries counted per level for badge display.
    pub info_count: usize,
    pub warn_count: usize,
    pub error_count: usize,
}

impl ConsoleState {
    /// The per-level counters match the stored entries.
    pub open spec fn counts_ok(self) -> bool {
        &&& self.info_count == count_level(entries_view(self.logs@), LogLevel::Info)
        &&& self.warn_count == count_level(entries_view(self.logs@), LogLevel::Warn)
        &&& self.error_count == count_level(entries_view(self.logs@), LogLevel::Error)
    }

    /// An empty console: no entries, every level shown, no filter text,
    /// auto-scroll on.
    pub fn new() -> (s: Self)
        ensures
            s.logs@.len() == 0,
            s.auto_scroll,
            s.show_info,
            s.show_warn,
            s.show_error,
            s.filter_text@.len() == 0,
            !s.auto_clear_on_play,
            s.counts_ok(),
    {
        let s = ConsoleState {
            logs: Vec::new(),
            auto_scroll: true,
            show_info: true,
            show_warn: true,
            show_error: true,
            filter_text: String::new(),
            auto_clear_on_play: false,
            info_count: 0,
            warn_count: 0,
            error_count: 0,
        };
        proof {
            assert(entries_view(s.logs@) =~= Seq::<LogEntryView>::empty());
        }
        s
    }

    /// Appends a log entry and counts it. The per-level counters track the
    /// entries exactly as long as they did before.
    pub fn push(&mut self, level: LogLevel, target: &str, message: String)
        ensures
            old(self).counts_ok() ==> final(self).counts_ok(),
            entries_view(final(self).logs@) == entries_view(old(self).logs@).push(LogEntryView {
                level,
                message: message@,
                target: target@,
            }),
            final(self).auto_scroll == old(self).auto_scroll,
            final(self).show_info == old(self).show_info,
            final(self).show_warn == old(self).show_warn,
            final(self).show_error == old(self).show_error,
            final(self).filter_text == old(self).filter_text,
            final(self).auto_clear_on_play == old(self).auto_clear_on_play,
    {
        let ghost pre = entries_view(self.logs@);
        proof {
            lemma_count_level_bound(pre, LogLevel::Info);
            lemma_count_level_bound(pre, LogLevel::Warn);
            lemma_count_level_bound(pre, LogLevel::Error);
        }
        let entry = LogEntry { level, message, target: target.to_owned() };
        self.logs.push(entry);
        let ghost post = entries_view(self.logs@);
        let n = self.logs.len();
        proof {
            assert(post =~= pre.push(LogEntryView { level, message: message@, target: target@ }));
            assert(post.drop_last() =~= pre);
            assert(pre.len() == n - 1);
        }
        match level {
            LogLevel::Info => {
                if self.info_count < usize::MAX {
                    self.info_count = self.info_count + 1;
                }
            },
            LogLevel::Warn => {
                if self.warn_count < usize::MAX {
                    self.warn_count = self.warn_count + 1;
                }
            },
            LogLevel::Error => {
                if self.error_count < usize::MAX {
                    self.error_count = self.error_count + 1;
                }
            },
            _ => {},
        }
    }

    /// Clears all entries and the counters; the filter settings stay.
    pub fn clear(&mut self)
        ensures
            final(self).counts_ok(),
            final(self).logs@.len() == 0,
            final(self).auto_scroll == old(self).auto_scroll,
            final(self).show_info == old(self).show_info,
            final(self).show_warn == old(self).show_warn,
            final(self).show_error == old(self).show_error,
            final(self).filter_text == old(self).filter_text,
            final(self).auto_clear_on_play == old(self).auto_clear_on_play,
    {
        self.logs.clear();
        self.info_count = 0;
        self.warn_count = 0;
        self.error_count = 0;
        proof {
            assert(entries_view(self.logs@) =~= Seq::<LogEntryView>::empty());
        }
    }

    /// Whether the current filter settings let an entry through.
    pub fn entry_visible(&self, entry: &LogEntry) -> (r: bool)
        ensures
            r == spec_entry_visible(entry@, self.show_info, self.show_warn, self.show_error, self.filter_text@),
    {
        let shown = match entry.level {
            LogLevel::Trace => false,
            LogLevel::Debug => false,
            LogLevel::Info => self.show_info,
            LogLevel::Warn => self.show_warn,
            LogLevel::Error => self.show_error,
        };
        if !shown {
            return false;
        }
        let filter_lower = lowercase(self.filter_text.as_str());
        if filter_lower.as_str().is_empty() {
            return true;
        }
        let message_lower = lowercase(entry.message.as_str());
        if crate::text::contains_sub(message_lower.as_str(), filter_lower.as_str()) {
            return true;
        }
        let target_lower = lowercase(entry.target.as_str());
        crate::text::contains_sub(target_lower.as_str(), filter_lower.as_str())
    }
}

} // verus!
