//! Splits captured serial output into a main log file and a separate
//! stats file for `/* ... */`-delimited packets, mirroring how the board's
//! regular console output and periodic system-stat packets are meant to be
//! consumed separately.

use crate::paths::stats_path_for;
use crate::text::joined;
use std::path::PathBuf;
use vstd::prelude::*;

verus! {

/// The files of a log that has been started.
#[derive(Debug)]
pub struct FileLogInfo {
    pub path: PathBuf,
    pub stats_path: PathBuf,
}

impl Clone for FileLogInfo {
    fn clone(&self) -> (copy: Self)
        ensures
            copy == *self,
    {
        FileLogInfo { path: self.path.clone(), stats_path: self.stats_path.clone() }
    }
}

/// The files of a log that has been stopped, and how many lines went into the main one.
#[derive(Debug)]
pub struct FileLogSummary {
    pub path: PathBuf,
    pub stats_path: PathBuf,
    pub lines_written: usize,
}

impl Clone for FileLogSummary {
    fn clone(&self) -> (copy: Self)
        ensures
            copy == *self,
    {
        FileLogSummary {
            path: self.path.clone(),
            stats_path: self.stats_path.clone(),
            lines_written: self.lines_written,
        }
    }
}

/// How a file is to be opened.
#[derive(Debug, Clone, Copy, PartialEq, Eq, Structural)]
pub struct OpenFlags {
    pub create: bool,
    pub write: bool,
    pub append: bool,
    pub truncate: bool,
}

/// The files that starting a log has to open, and how.
#[derive(Debug)]
pub struct FileLogPlan {
    pub path: PathBuf,
    pub log_flags: OpenFlags,
    pub stats_path: PathBuf,
    pub stats_flags: OpenFlags,
}

/// Which of a log's two files a text goes to.
#[derive(Debug, Clone, Copy, PartialEq, Eq, Structural)]
pub enum LogFile {
    Main,
    Stats,
}

/// A text to be added to one of a log's files.
#[derive(Debug)]
pub struct FileWrite {
    pub file: LogFile,
    pub text: String,
}

/// What a write says.
pub struct FileWriteView {
    pub file: LogFile,
    pub text: Seq<char>,
}

impl View for FileWrite {
    type V = FileWriteView;

    open spec fn view(&self) -> FileWriteView {
        FileWriteView { file: self.file, text: self.text@ }
    }
}

/// A log that has been stopped: what to report of it, and whether its stats file is to be
/// removed.
#[derive(Debug)]
pub struct ClosedFileLog {
    pub summary: FileLogSummary,
    pub remove_stats_file: bool,
}

/// The line that `text` is written as.
pub open spec fn as_line(text: Seq<char>) -> Seq<char> {
    text + "\n"@
}

/// A log to files that is under way.
#[derive(Debug)]
pub struct FileLog {
    pub log_path: PathBuf,
    pub stats_path: PathBuf,
    /// Whether the stats file held nothing when it was opened.
    pub stats_was_empty: bool,
    pub lines_written: usize,
    pub stats_lines_written: usize,
}

impl FileLog {
    /// The files that a log at `path` has to open. The main file is appended to or
    /// started afresh, as `append` says; the stats file beside it is always appended to.
    pub fn plan(path: PathBuf, append: bool) -> (plan: FileLogPlan)
        ensures
            plan.path == path,
            plan.log_flags == (OpenFlags { create: true, write: true, append, truncate: !append }),
            plan.stats_path == crate::paths::stats_path_of(path),
            plan.stats_flags == (OpenFlags {
                create: true,
                write: false,
                append: true,
                truncate: false,
            }),
    {
        let stats_path = stats_path_for(&path);
        FileLogPlan {
            path,
            log_flags: OpenFlags { create: true, write: true, append, truncate: !append },
            stats_path,
            stats_flags: OpenFlags { create: true, write: false, append: true, truncate: false },
        }
    }

    /// The log whose files have been opened as planned. `stats_was_empty` says whether the
    /// stats file held nothing yet.
    pub fn open(plan: FileLogPlan, stats_was_empty: bool) -> (log: Self)
        ensures
            log.log_path == plan.path,
            log.stats_path == plan.stats_path,
            log.stats_was_empty == stats_was_empty,
            log.lines_written == 0,
            log.stats_lines_written == 0,
    {
        FileLog {
            log_path: plan.path,
            stats_path: plan.stats_path,
            stats_was_empty,
            lines_written: 0,
            stats_lines_written: 0,
        }
    }

    /// An ordinary line: it goes to the main file.
    pub fn write_line(&mut self, line: &str) -> (write: FileWrite)
        requires
            old(self).lines_written < usize::MAX,
        ensures
            write@ == (FileWriteView { file: LogFile::Main, text: as_line(line@) }),
            *final(self) == (FileLog {
                lines_written: (old(self).lines_written + 1) as usize,
                ..*old(self)
            }),
    {
        self.lines_written = self.lines_written + 1;
        FileWrite { file: LogFile::Main, text: joined(line, "\n") }
    }

    /// A stat packet: it goes to the stats file.
    pub fn write_stat(&mut self, stat: &str) -> (write: FileWrite)
        requires
            old(self).stats_lines_written < usize::MAX,
        ensures
            write@ == (FileWriteView { file: LogFile::Stats, text: as_line(stat@) }),
            *final(self) == (FileLog {
                stats_lines_written: (old(self).stats_lines_written + 1) as usize,
                ..*old(self)
            }),
    {
        self.stats_lines_written = self.stats_lines_written + 1;
        FileWrite { file: LogFile::Stats, text: joined(stat, "\n") }
    }

    /// Stops the log. The stats file is to be removed if nothing was ever
    /// written to it, so an empty `*.stats.*` file doesn't linger for a
    /// session that never emitted a stat packet. What an earlier session
    /// wrote to it stays.
    pub fn close(self) -> (closed: ClosedFileLog)
        ensures
            closed == (ClosedFileLog {
                summary: FileLogSummary {
                    path: self.log_path,
                    stats_path: self.stats_path,
                    lines_written: self.lines_written,
                },
                remove_stats_file: self.stats_lines_written == 0 && self.stats_was_empty,
            }),
    {
        ClosedFileLog {
            remove_stats_file: self.stats_lines_written == 0 && self.stats_was_empty,
            summary: FileLogSummary {
                path: self.log_path,
                stats_path: self.stats_path,
                lines_written: self.lines_written,
            },
        }
    }
}

/// Nothing is lost in a file: what is written for a text is all its characters, in order, and
/// one line feed.
pub proof fn a_text_is_written_whole(text: Seq<char>)
    ensures
        as_line(text).len() == text.len() + 1,
        as_line(text).take(text.len() as int) == text,
        as_line(text).last() == '\n',
{
    reveal_strlit("\n");
    assert(as_line(text).take(text.len() as int) =~= text);
}

/// A write says which file it goes to and what is added to it.
pub proof fn a_write_says_what_is_added(write: FileWrite)
    ensures
        write@.file == write.file,
        write@.text == write.text@,
{
}

} // verus!
