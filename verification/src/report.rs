//! What a run prints: one line per Host, plus a summary of the run.
//!
//! stdout carries one line per Host and stderr carries the human chrome, so the
//! two are coloured independently: stdout is often a pipe while stderr is a
//! terminal.

use vstd::prelude::*;

use crate::cause::{cause_word, Cause};
use crate::run::outcome::{status_word, statuses, Outcome, OutcomeModel, Status};
use crate::style::{
    bold, bold_color, bold_style, dim, dim_style, law_a_style_adds_nothing_to_read, left_inside,
    lemma_plain_is_visible, lemma_visible_in_turn, loud, of_status, paint, status_style, styled,
    visible, Color,
};
use crate::text::{
    chars_of, contains_char, decimal, join, joined, law_a_number_is_written_in_decimal,
    law_filling_puts_spaces_after, lemma_lines_are_lines, lemma_pieces_join, lemma_pieces_one,
    lines, lines_of, lossy, opt_text, pad, padded, pieces, read_lossy, slice_to, string_of, texts,
    write_decimal,
};

verus! {

/// `--color`'s values.
#[derive(Debug, Clone, Copy, PartialEq, Eq, Structural)]
pub enum ColorWhen {
    /// Colour when the stream is a terminal and `NO_COLOR` is unset (default).
    Auto,
    /// Always colour, even into a pipe.
    Always,
    /// Never colour.
    Never,
}

/// Which streams the report shows.
#[derive(Debug, Clone, Copy, PartialEq, Eq, Structural)]
pub struct Detail {
    /// Show stdout. Without it no Host's stdout is shown, whatever its status.
    pub stdout: bool,
    /// Show the stderr of a Host that is `ok`. A Host that is not `ok` always
    /// shows its stderr, because that is where the reason is.
    pub stderr: bool,
}

impl Default for Detail {
    fn default() -> (r: Detail)
        ensures
            !r.stdout,
            !r.stderr,
    {
        Detail { stdout: false, stderr: false }
    }
}

/// How a Host's result is written.
#[derive(Debug, Clone, Copy, PartialEq, Eq, Structural)]
pub enum Format {
    /// One line per Host, with its output as an indented block.
    Plain,
    /// One JSON object per Host, per line.
    Json,
}

/// Said once, under the summary, when a run stopped waiting for anything.
pub const UNFINISHED_NOTE: &'static str =
    "cancelled and timeout mean rshx stopped waiting; the remote commands may still be running";

/// Said instead when rshx stopped some of the commands it cut short: the rest
/// are Hosts it could not reach again, and their commands are still there.
pub const PARTLY_STOPPED_NOTE: &'static str =
    "rshx stopped the remote commands it cut short, except where it says otherwise above";

/// The width the status column is padded to: the longest status, so a run with
/// mixed outcomes still lines its durations and output up. Static, so the
/// report can be written as Hosts settle rather than buffered to measure them.
pub const STATUS_WIDTH: usize = 11;

/// Written where a stream lost bytes to rshx's cap.
pub const TRUNCATED: &'static str = "[output truncated]";

/// The longest stream that still folds onto the status line. Anything longer
/// is a block like any other, so a megabyte never lands on one line.
pub const FOLD_LIMIT: usize = 200;

// ---------------------------------------------------------------------------
// Output on the status line, and below it
// ---------------------------------------------------------------------------

/// A text without one line feed at its end.
pub open spec fn without_newline(text: Seq<char>) -> Seq<char> {
    if text.len() > 0 && text.last() == '\n' {
        text.drop_last()
    } else {
        text
    }
}

/// A stream that is exactly one line: how long it is in bytes, and the text it
/// reads as.
pub open spec fn folded(len: int, text: Seq<char>) -> Option<Seq<char>> {
    let line = without_newline(text);
    if len > FOLD_LIMIT || line.len() == 0 || line.contains('\n') || line.contains('\r') {
        None
    } else {
        Some(line)
    }
}

/// A stream of `len` bytes that reads as `text`, where it is exactly one line,
/// with no trailing newline, else `None`.
pub fn single_line(len: usize, text: &str) -> (r: Option<String>)
    ensures
        opt_text(r) == folded(len as int, text@),
{
    if len > FOLD_LIMIT {
        return None;
    }
    let cs = chars_of(text);
    let end: usize = if cs.len() > 0 && cs[cs.len() - 1] == '\n' {
        cs.len() - 1
    } else {
        cs.len()
    };
    let line = slice_to(cs.as_slice(), 0, end);
    assert(line@ =~= without_newline(text@));
    if line.len() == 0 || contains_char(line.as_slice(), '\n') || contains_char(
        line.as_slice(),
        '\r',
    ) {
        return None;
    }
    Some(string_of(line.as_slice()))
}

/// Lines as an indented block.
pub open spec fn block(lines: Seq<Seq<char>>) -> Seq<char>
    decreases lines.len(),
{
    if lines.len() == 0 {
        Seq::empty()
    } else {
        block(lines.drop_last()) + "  "@ + lines.last() + "\n"@
    }
}

/// Writes a stream that reads as `text` as an indented block beneath its Host's
/// line.
pub fn write_block(text: &str) -> (r: String)
    ensures
        r@ == block(lines_of(text@)),
{
    let all = lines(text);
    let ghost every = lines_of(text@);
    let mut out = String::new();
    let mut i: usize = 0;
    while i < all.len()
        invariant
            i <= all@.len(),
            texts(all@) == every,
            out@ == block(every.take(i as int)),
        decreases all@.len() - i,
    {
        out.append("  ");
        out.append(all[i].as_str());
        out.append("\n");
        i += 1;
        proof {
            assert(every[i - 1] == all@[i - 1]@);
            assert(every.take(i as int).drop_last() == every.take(i - 1));
            assert(every.take(i as int).last() == every[i - 1]);
        }
    }
    assert(every.take(every.len() as int) == every);
    out
}

/// What follows a stream that lost bytes to rshx's cap.
pub open spec fn truncation(truncated: bool) -> Seq<char> {
    if truncated {
        "  "@ + TRUNCATED@ + "\n"@
    } else {
        Seq::empty()
    }
}

fn write_truncation(truncated: bool) -> (r: String)
    ensures
        r@ == truncation(truncated),
{
    let mut s = String::new();
    if truncated {
        s.append("  ");
        s.append(TRUNCATED);
        s.append("\n");
        assert(s@ =~= "  "@ + TRUNCATED@ + "\n"@);
    }
    s
}

// ---------------------------------------------------------------------------
// One Host
// ---------------------------------------------------------------------------

/// The one line that carries a Host's name, status, duration and cause, with
/// the duration as it is shown, in seconds.
pub open spec fn host_line(o: OutcomeModel, seconds: Seq<char>) -> Seq<char> {
    let pid = match o.pid {
        Some(pid) => " "@ + styled(dim_style(), "pid "@ + decimal(pid as int)),
        None => Seq::empty(),
    };
    let cause = match o.cause {
        Some(cause) => " "@ + styled(dim_style(), "("@ + cause_word(cause) + ")"@),
        None => Seq::empty(),
    };
    styled(bold_style(), o.host) + " "@ + styled(
        status_style(o.status),
        padded(status_word(o.status), STATUS_WIDTH as int),
    ) + " "@ + styled(dim_style(), seconds + "s"@) + pid + cause
}

/// One Host, as a line plus an indented block. `out` and `err` are what its
/// streams read as.
pub open spec fn plain_report(
    detail: Detail,
    o: OutcomeModel,
    seconds: Seq<char>,
    out: Seq<char>,
    err: Seq<char>,
) -> Seq<char> {
    let show_stderr = detail.stderr || o.status != Status::Okay;
    let fold = if detail.stdout {
        folded(o.stdout.len() as int, out)
    } else {
        None
    };
    let first = match fold {
        Some(text) => host_line(o, seconds) + "  "@ + text + "\n"@,
        None => host_line(o, seconds) + "\n"@,
    };
    let below = if detail.stdout && fold is None {
        block(lines_of(out)) + truncation(o.stdout_truncated)
    } else {
        Seq::empty()
    };
    let errors = if show_stderr {
        block(lines_of(err)) + truncation(o.stderr_truncated)
    } else {
        Seq::empty()
    };
    first + below + errors
}

/// One Host's result, as it appears under `--json`. Field order is the
/// documented one; absent fields are omitted rather than written as `null`.
#[derive(Debug)]
pub struct JsonLine {
    pub host: String,
    pub status: &'static str,
    /// Absent when rshx killed the child: there is no exit code to report.
    pub exit_code: Option<i32>,
    /// Absent unless rshx recognised one.
    pub cause: Option<&'static str>,
    pub duration_ms: u64,
    /// The pid of the shell running the Host's command, when rshx knows it.
    pub pid: Option<u32>,
    pub stdout: String,
    pub stderr: String,
    /// Whether either stream lost bytes to rshx's cap.
    pub truncated: bool,
    /// Whether rshx stopped the Host's remote command. `false` on a `cancelled`
    /// or `timeout` Host means its command may still be running there.
    pub remote_stopped: bool,
}

/// One Host's result, as its format has it.
#[derive(Debug)]
pub enum Report {
    /// Text, complete with its line ends.
    Text(String),
    /// A line still to be encoded.
    Json(JsonLine),
}

/// What a line of JSON says of an outcome whose streams read as `out` and
/// `err`.
pub open spec fn says_of(line: JsonLine, o: OutcomeModel, out: Seq<char>, err: Seq<char>) -> bool {
    &&& line.host@ == o.host
    &&& line.status@ == status_word(o.status)
    &&& line.exit_code == o.exit_code
    &&& match o.cause {
        Some(cause) => line.cause is Some && line.cause->Some_0@ == cause_word(cause),
        None => line.cause is None,
    }
    &&& line.duration_ms == (o.duration / 1_000_000) % 0x1_0000_0000_0000_0000
    &&& line.pid == o.pid
    &&& line.stdout@ == out
    &&& line.stderr@ == err
    &&& line.truncated == (o.stdout_truncated || o.stderr_truncated)
    &&& line.remote_stopped == o.remote_stopped
}

/// One Host, as a line of JSON, with its streams as they read.
pub fn json_line(outcome: &Outcome, stdout: String, stderr: String) -> (r: JsonLine)
    ensures
        says_of(r, outcome@, stdout@, stderr@),
{
    JsonLine {
        host: outcome.host.clone(),
        status: outcome.status.as_str(),
        exit_code: outcome.exit_code,
        cause: match outcome.cause {
            Some(cause) => Some(cause.as_str()),
            None => None,
        },
        duration_ms: (outcome.duration / 1_000_000 % 0x1_0000_0000_0000_0000) as u64,
        pid: outcome.pid,
        stdout,
        stderr,
        truncated: outcome.stdout_truncated || outcome.stderr_truncated,
        remote_stopped: outcome.remote_stopped,
    }
}

/// What is said where a result cannot be encoded.
pub fn not_encoded(err: &str) -> (r: String)
    ensures
        r@ == "rshx: could not encode a result: "@ + err@ + "\n"@,
{
    let mut s = "rshx: could not encode a result: ".to_string();
    s.append(err);
    s.append("\n");
    s
}

// ---------------------------------------------------------------------------
// The run
// ---------------------------------------------------------------------------

/// A line about rshx's own doing.
pub open spec fn own_line(color: Color, word: Seq<char>, message: Seq<char>) -> Seq<char> {
    "rshx: "@ + styled(loud(color), word) + " "@ + message + "\n"@
}

fn write_own_line(color: Color, word: &str, message: &str) -> (r: String)
    ensures
        r@ == own_line(color, word@, message@),
{
    let mut s = "rshx: ".to_string();
    let token = paint(bold_color(color), word);
    s.append(token.as_str());
    s.append(" ");
    s.append(message);
    s.append("\n");
    s
}

/// The line that names a host file nobody asked for. `path` is what the file's
/// path reads as.
pub open spec fn found_line(path: Seq<char>) -> Seq<char> {
    own_line(Color::Blue, "info:"@, "host file "@ + path)
}

/// A host file rshx found for itself is named before anything runs: the report
/// is about Hosts, and which host file they came from is not in it.
pub fn host_file_found(path: &[u8], when: ColorWhen) -> (r: String)
    ensures
        r@ == found_line(lossy(path@)),
{
    let shown = read_lossy(path);
    host_file_found_as(shown.as_str(), when)
}

/// The line of `host_file_found`, given what the file's path reads as.
pub fn host_file_found_as(path: &str, when: ColorWhen) -> (r: String)
    ensures
        r@ == found_line(path@),
{
    let mut message = "host file ".to_string();
    message.append(path);
    Reporter::new(when, Detail { stdout: false, stderr: false }, Format::Plain, false).info(
        message.as_str(),
    )
}

/// `host` or `hosts`.
pub open spec fn host_word(n: int) -> Seq<char> {
    if n == 1 {
        "host"@
    } else {
        "hosts"@
    }
}

fn write_host_word(n: usize) -> (r: &'static str)
    ensures
        r@ == host_word(n as int),
{
    if n == 1 {
        "host"
    } else {
        "hosts"
    }
}

/// One line naming what is about to run. The fanout is only worth saying when
/// it is the fanout, not the number of Hosts, that decides how many run at
/// once.
pub open spec fn heading_line(command: Seq<Seq<char>>, hosts: int, fanout: int) -> Seq<char> {
    let rest = "  \u{b7}  "@ + decimal(hosts) + " "@ + host_word(hosts) + (if fanout < hosts {
        ", fanout "@ + decimal(fanout)
    } else {
        Seq::empty()
    });
    styled(bold_style(), joined(command, " "@)) + styled(dim_style(), rest) + "\n"@
}

/// How many outcomes have the status.
pub open spec fn tally(all: Seq<Status>, status: Status) -> int
    decreases all.len(),
{
    if all.len() == 0 {
        0
    } else {
        tally(all.drop_last(), status) + (if all.last() == status {
            1int
        } else {
            0
        })
    }
}

/// Counts the outcomes with the status.
fn count_status(outcomes: &[Outcome], status: Status) -> (r: usize)
    ensures
        r == tally(statuses(outcomes@), status),
        r <= outcomes@.len(),
{
    let mut n: usize = 0;
    let mut i: usize = 0;
    let ghost all = statuses(outcomes@);
    while i < outcomes.len()
        invariant
            n <= i <= outcomes@.len(),
            all == statuses(outcomes@),
            n == tally(all.take(i as int), status),
        decreases outcomes@.len() - i,
    {
        if outcomes[i].status == status {
            n += 1;
        }
        i += 1;
        proof {
            assert(all[i - 1] == outcomes@[i - 1].status);
            assert(all.take(i as int).drop_last() == all.take(i - 1));
            assert(all.take(i as int).last() == all[i - 1]);
        }
    }
    assert(all.take(all.len() as int) == all);
    n
}

/// The part of the summary that counts one status, where it is shown: `ok`
/// always is, the others only when they happened.
pub open spec fn status_part(all: Seq<Status>, status: Status) -> Seq<Seq<char>> {
    if status == Status::Okay || tally(all, status) > 0 {
        seq![
            decimal(tally(all, status)) + " "@ + styled(status_style(status), status_word(status)),
        ]
    } else {
        Seq::empty()
    }
}

/// The parts of the summary that count. A Host that never started is not a
/// status: its command never ran, so the counts need it spelled out to add up
/// to the Hosts selected.
pub open spec fn summary_parts(all: Seq<Status>, not_started: int) -> Seq<Seq<char>> {
    status_part(all, Status::Okay) + status_part(all, Status::Failed) + status_part(
        all,
        Status::Running,
    ) + status_part(all, Status::Unreachable) + status_part(all, Status::Timeout) + status_part(
        all,
        Status::Cancelled,
    ) + (if not_started > 0 {
        seq![decimal(not_started) + " not started"@]
    } else {
        Seq::empty()
    })
}

/// The run's outcome. Only the counts carry colour, so the line still reads as
/// plain text when stripped; the elapsed time is dimmed.
pub open spec fn summary_text(all: Seq<Status>, not_started: int, elapsed: Seq<char>) -> Seq<char> {
    let total = all.len() + not_started;
    decimal(total) + " "@ + host_word(total) + ": "@ + joined(
        summary_parts(all, not_started),
        ", "@,
    ) + " "@ + styled(dim_style(), "in "@ + elapsed + "s"@)
}

/// Whether rshx stopped waiting for the Host.
pub open spec fn unfinished(o: Outcome) -> bool {
    o.status == Status::Timeout || o.status == Status::Cancelled
}

/// The note under the summary, where one is owed. A run cut short must not read
/// as though the remote work stopped. rshx stops every command it cut short, so
/// the note is only owed for the Hosts it could not: one that never started has
/// nothing running, and a Host whose ssh rshx never got a marker for never ran
/// anything.
pub open spec fn note(outcomes: Seq<Outcome>) -> Option<Seq<char>> {
    let left = exists|i: int|
        0 <= i < outcomes.len() && unfinished(#[trigger] outcomes[i])
            && !outcomes[i].remote_stopped;
    let stopped = exists|i: int|
        0 <= i < outcomes.len() && unfinished(#[trigger] outcomes[i])
            && outcomes[i].remote_stopped;
    if !left {
        None
    } else if !stopped {
        Some(UNFINISHED_NOTE@)
    } else {
        Some(PARTLY_STOPPED_NOTE@)
    }
}

/// Finds the note under the summary.
pub fn find_note(outcomes: &[Outcome]) -> (r: Option<&'static str>)
    ensures
        match r {
            Some(text) => note(outcomes@) == Some(text@),
            None => note(outcomes@) is None,
        },
{
    let mut left = false;
    let mut stopped = false;
    let mut i: usize = 0;
    while i < outcomes.len()
        invariant
            i <= outcomes@.len(),
            left == exists|j: int|
                0 <= j < i && unfinished(#[trigger] outcomes@[j]) && !outcomes@[j].remote_stopped,
            stopped == exists|j: int|
                0 <= j < i && unfinished(#[trigger] outcomes@[j]) && outcomes@[j].remote_stopped,
        decreases outcomes@.len() - i,
    {
        if outcomes[i].status.is_unfinished() {
            assert(unfinished(outcomes@[i as int]));
            if outcomes[i].remote_stopped {
                stopped = true;
            } else {
                left = true;
            }
        }
        i += 1;
    }
    if !left {
        None
    } else if !stopped {
        Some(UNFINISHED_NOTE)
    } else {
        Some(PARTLY_STOPPED_NOTE)
    }
}

/// Prints a run's report. What goes to which stream, and in which words; the
/// streams themselves colour or strip what they are given.
#[derive(Debug, Clone, Copy)]
pub struct Reporter {
    pub when: ColorWhen,
    pub detail: Detail,
    pub format: Format,
    /// Whether the run's chrome — the heading, and the heartbeat the caller
    /// draws — belongs on stderr. True only when stderr is a terminal: a
    /// redirected stderr is a file a heading would only pollute.
    pub chrome: bool,
}

impl Reporter {
    pub fn new(when: ColorWhen, detail: Detail, format: Format, chrome: bool) -> (r: Reporter)
        ensures
            r == (Reporter { when, detail, format, chrome }),
    {
        Reporter { when, detail, format, chrome }
    }

    pub fn chrome(&self) -> (r: bool)
        ensures
            r == self.chrome,
    {
        self.chrome
    }

    /// When stdout is coloured. JSON is consumed by a program, so it is never
    /// coloured, whatever the terminal it happens to be written to.
    pub fn stdout_color(&self) -> (r: ColorWhen)
        ensures
            r == if self.format == Format::Json {
                ColorWhen::Never
            } else {
                self.when
            },
    {
        match self.format {
            Format::Json => ColorWhen::Never,
            Format::Plain => self.when,
        }
    }

    /// One line about rshx's own doing, before anything has run, on stderr. Not
    /// chrome: the heading is about the run and is dropped when nobody is
    /// watching, while a warning is about the command rshx was asked to run.
    pub fn warning(&self, message: &str) -> (r: String)
        ensures
            r@ == own_line(Color::Yellow, "warning:"@, message@),
    {
        write_own_line(Color::Yellow, "warning:", message)
    }

    /// One line of what rshx has to say, on stderr.
    pub fn info(&self, message: &str) -> (r: String)
        ensures
            r@ == own_line(Color::Blue, "info:"@, message@),
    {
        write_own_line(Color::Blue, "info:", message)
    }

    /// One line about what went wrong in rshx itself, on stderr.
    pub fn error(&self, message: &str) -> (r: String)
        ensures
            r@ == own_line(Color::Red, "error:"@, message@),
    {
        write_own_line(Color::Red, "error:", message)
    }

    /// One line naming what is about to run, so the report has a heading.
    /// Chrome, not report: stderr, and only when stderr is a terminal. It also
    /// says how many Hosts the run selected, which `-g` can leave unclear.
    pub fn heading(&self, command: &[String], hosts: usize, fanout: u32) -> (r: Option<String>)
        ensures
            opt_text(r) == (if self.chrome {
                Some(heading_line(texts(command@), hosts as int, fanout as int))
            } else {
                None
            }),
    {
        if !self.chrome {
            return None;
        }
        let mut rest = "  \u{b7}  ".to_string();
        let number = write_decimal(hosts as u64);
        rest.append(number.as_str());
        rest.append(" ");
        rest.append(write_host_word(hosts));
        let ghost so_far = rest@;
        if (fanout as u64) < (hosts as u64) {
            rest.append(", fanout ");
            let width = write_decimal(fanout as u64);
            rest.append(width.as_str());
            assert(rest@ =~= so_far + (", fanout "@ + decimal(fanout as int)));
        } else {
            assert(rest@ =~= so_far + Seq::<char>::empty());
        }
        let words = join(command, " ");
        let mut line = paint(bold(), words.as_str());
        let tail = paint(dim(), rest.as_str());
        line.append(tail.as_str());
        line.append("\n");
        Some(line)
    }

    /// One Host's result, as soon as that Host settles, with its duration as it
    /// is shown, in seconds.
    pub fn outcome(&self, outcome: &Outcome, seconds: &str) -> (r: Report)
        ensures
            match self.format {
                Format::Plain => r is Text && r->Text_0@ == plain_report(
                    self.detail,
                    outcome@,
                    seconds@,
                    lossy(outcome.stdout@),
                    lossy(outcome.stderr@),
                ),
                Format::Json => r is Json && says_of(
                    r->Json_0,
                    outcome@,
                    lossy(outcome.stdout@),
                    lossy(outcome.stderr@),
                ),
            },
    {
        match self.format {
            Format::Plain => Report::Text(self.plain(outcome, seconds)),
            Format::Json => Report::Json(self.json(outcome)),
        }
    }

    /// One Host, as a line of JSON, on stdout.
    ///
    /// Lossy: a stream is remote bytes, and the alternative is failing the
    /// whole run on one stray byte.
    fn json(&self, outcome: &Outcome) -> (r: JsonLine)
        ensures
            says_of(r, outcome@, lossy(outcome.stdout@), lossy(outcome.stderr@)),
    {
        let stdout = read_lossy(outcome.stdout.as_slice());
        let stderr = read_lossy(outcome.stderr.as_slice());
        json_line(outcome, stdout, stderr)
    }

    /// One Host, as a line plus an indented block, on stdout.
    fn plain(&self, outcome: &Outcome, seconds: &str) -> (r: String)
        ensures
            r@ == plain_report(
                self.detail,
                outcome@,
                seconds@,
                lossy(outcome.stdout@),
                lossy(outcome.stderr@),
            ),
    {
        let stdout = read_lossy(outcome.stdout.as_slice());
        let stderr = read_lossy(outcome.stderr.as_slice());
        self.plain_as(outcome, seconds, stdout.as_str(), stderr.as_str())
    }

    /// One Host, as a line plus an indented block, with its streams as they
    /// read.
    pub fn plain_as(
        &self,
        outcome: &Outcome,
        seconds: &str,
        stdout: &str,
        stderr: &str,
    ) -> (r: String)
        ensures
            r@ == plain_report(self.detail, outcome@, seconds@, stdout@, stderr@),
    {
        let show_stdout = self.detail.stdout;
        let show_stderr = self.detail.stderr || outcome.status != Status::Okay;
        let mut out = self.line(outcome, seconds);
        // A single-line stream folds onto the status line. Anything longer is
        // an indented block below, so a chatty Host cannot wreck the shape.
        let folded = if show_stdout {
            single_line(outcome.stdout.len(), stdout)
        } else {
            None
        };
        let alone = folded.is_none();
        if let Some(text) = folded {
            out.append("  ");
            out.append(text.as_str());
        }
        out.append("\n");
        let mut below = String::new();
        if show_stdout && alone {
            let shown = write_block(stdout);
            below.append(shown.as_str());
            let cut = write_truncation(outcome.stdout_truncated);
            below.append(cut.as_str());
            assert(below@ =~= block(lines_of(stdout@)) + truncation(outcome.stdout_truncated));
        }
        let mut errors = String::new();
        if show_stderr {
            let shown = write_block(stderr);
            errors.append(shown.as_str());
            let cut = write_truncation(outcome.stderr_truncated);
            errors.append(cut.as_str());
            assert(errors@ =~= block(lines_of(stderr@)) + truncation(outcome.stderr_truncated));
        }
        out.append(below.as_str());
        out.append(errors.as_str());
        out
    }

    /// The one line that carries a Host's name, status, duration and cause.
    /// Only rshx's own tokens are styled: a Host's output is remote bytes rshx
    /// cannot interpret, so it passes through uncoloured.
    fn line(&self, outcome: &Outcome, seconds: &str) -> (r: String)
        ensures
            r@ == host_line(outcome@, seconds@),
    {
        let mut line = paint(bold(), outcome.host.as_str());
        // Padded to the longest status, so the columns line up. Spaces have no
        // colour, so the reset lands where the next column starts.
        line.append(" ");
        let word = pad(outcome.status.as_str(), STATUS_WIDTH);
        let status = paint(of_status(outcome.status), word.as_str());
        line.append(status.as_str());
        line.append(" ");
        let mut time = seconds.to_string();
        time.append("s");
        let shown = paint(dim(), time.as_str());
        line.append(shown.as_str());
        // The pid of the shell running the command, when rshx knows it: a
        // detached run is told it, and it is the Host's own number.
        let mut pid_part = String::new();
        if let Some(pid) = outcome.pid {
            let mut text = "pid ".to_string();
            let number = write_decimal(pid as u64);
            text.append(number.as_str());
            let shown = paint(dim(), text.as_str());
            pid_part.append(" ");
            pid_part.append(shown.as_str());
            assert(pid_part@ =~= " "@ + styled(dim_style(), "pid "@ + decimal(pid as int)));
        }
        let mut cause_part = String::new();
        if let Some(cause) = outcome.cause {
            let mut text = "(".to_string();
            text.append(cause.as_str());
            text.append(")");
            let shown = paint(dim(), text.as_str());
            cause_part.append(" ");
            cause_part.append(shown.as_str());
            assert(cause_part@ =~= " "@ + styled(dim_style(), "("@ + cause_word(cause) + ")"@));
        }
        line.append(pid_part.as_str());
        line.append(cause_part.as_str());
        line
    }

    /// The run's outcome, on stderr so that stdout stays one line per Host,
    /// with the elapsed time as it is shown, in seconds.
    pub fn summary(&self, outcomes: &[Outcome], not_started: usize, elapsed: &str) -> (r: String)
        requires
            outcomes@.len() + not_started <= usize::MAX,
        ensures
            r@ == summary_text(statuses(outcomes@), not_started as int, elapsed@) + "\n"@ + (
            match note(outcomes@) {
                Some(text) => styled(status_style(Status::Cancelled), text) + "\n"@,
                None => Seq::empty(),
            }),
    {
        let mut out = self.summary_line(outcomes, not_started, elapsed);
        out.append("\n");
        let mut below = String::new();
        if let Some(text) = find_note(outcomes) {
            let shown = paint(of_status(Status::Cancelled), text);
            below.append(shown.as_str());
            below.append("\n");
            assert(below@ =~= styled(status_style(Status::Cancelled), text@) + "\n"@);
        }
        out.append(below.as_str());
        out
    }

    /// The run's outcome. Only the counts carry colour, so the line still reads
    /// as plain text when stripped; the elapsed time is dimmed.
    fn summary_line(&self, outcomes: &[Outcome], not_started: usize, elapsed: &str) -> (r: String)
        requires
            outcomes@.len() + not_started <= usize::MAX,
        ensures
            r@ == summary_text(statuses(outcomes@), not_started as int, elapsed@),
    {
        let total: usize = outcomes.len() + not_started;
        let mut parts: Vec<String> = Vec::new();
        assert(texts(parts@) =~= Seq::<Seq<char>>::empty());
        push_part(&mut parts, outcomes, Status::Okay);
        push_part(&mut parts, outcomes, Status::Failed);
        push_part(&mut parts, outcomes, Status::Running);
        push_part(&mut parts, outcomes, Status::Unreachable);
        push_part(&mut parts, outcomes, Status::Timeout);
        push_part(&mut parts, outcomes, Status::Cancelled);
        let ghost counted = texts(parts@);
        if not_started > 0 {
            let mut part = write_decimal(not_started as u64);
            part.append(" not started");
            let ghost made = part@;
            parts.push(part);
            assert(texts(parts@) =~= counted + seq![made]);
        } else {
            assert(texts(parts@) =~= counted + Seq::<Seq<char>>::empty());
        }
        assert(texts(parts@) =~= summary_parts(statuses(outcomes@), not_started as int));
        let mut line = write_decimal(total as u64);
        line.append(" ");
        line.append(write_host_word(total));
        line.append(": ");
        let list = join(parts.as_slice(), ", ");
        line.append(list.as_str());
        line.append(" ");
        let mut time = "in ".to_string();
        time.append(elapsed);
        time.append("s");
        let shown = paint(dim(), time.as_str());
        line.append(shown.as_str());
        line
    }
}

/// Adds the part of the summary that counts one status.
fn push_part(parts: &mut Vec<String>, outcomes: &[Outcome], status: Status)
    ensures
        texts(final(parts)@) == texts(old(parts)@) + status_part(statuses(outcomes@), status),
{
    let n = count_status(outcomes, status);
    let ghost before = parts@;
    if status == Status::Okay || n > 0 {
        let mut part = write_decimal(n as u64);
        part.append(" ");
        let word = paint(of_status(status), status.as_str());
        part.append(word.as_str());
        let ghost made = part@;
        parts.push(part);
        assert(texts(parts@) =~= texts(before) + seq![made]);
    } else {
        assert(texts(parts@) =~= texts(before) + Seq::<Seq<char>>::empty());
    }
}

// ---------------------------------------------------------------------------
// What holds of a report
// ---------------------------------------------------------------------------

/// The counts of a summary add up: every Host has exactly one status, so with
/// those that never started they make the Hosts selected.
pub proof fn law_the_counts_add_up(all: Seq<Status>)
    ensures
        tally(all, Status::Okay) + tally(all, Status::Failed) + tally(all, Status::Running) + tally(
            all,
            Status::Unreachable,
        ) + tally(all, Status::Timeout) + tally(all, Status::Cancelled) == all.len(),
    decreases all.len(),
{
    if all.len() > 0 {
        law_the_counts_add_up(all.drop_last());
    }
}

/// Every status fits its column, so the columns after it line up.
pub proof fn law_the_status_column_lines_up(status: Status)
    ensures
        padded(status_word(status), STATUS_WIDTH as int).len() == STATUS_WIDTH,
{
    reveal_strlit("ok");
    reveal_strlit("failed");
    reveal_strlit("running");
    reveal_strlit("unreachable");
    reveal_strlit("timeout");
    reveal_strlit("cancelled");
}

/// A Host that is not `ok` shows its stderr whatever was asked, because that is
/// where the reason is: asking for it or not makes no difference.
pub proof fn law_a_host_that_is_not_ok_shows_its_stderr(
    stdout: bool,
    o: OutcomeModel,
    seconds: Seq<char>,
    out: Seq<char>,
    err: Seq<char>,
)
    requires
        o.status != Status::Okay,
    ensures
        plain_report(Detail { stdout, stderr: false }, o, seconds, out, err) == plain_report(
            Detail { stdout, stderr: true },
            o,
            seconds,
            out,
            err,
        ),
{
}

/// A quiet `ok` Host is its status line and nothing else, whatever it printed.
pub proof fn law_a_quiet_ok_host_is_one_line(
    o: OutcomeModel,
    seconds: Seq<char>,
    out: Seq<char>,
    err: Seq<char>,
)
    requires
        o.status == Status::Okay,
    ensures
        plain_report(Detail { stdout: false, stderr: false }, o, seconds, out, err) == host_line(
            o,
            seconds,
        ) + "\n"@,
{
    let line = host_line(o, seconds) + "\n"@;
    assert(line + Seq::<char>::empty() + Seq::<char>::empty() =~= line);
}

/// Without stdout asked for, a Host of any status is its status line, followed,
/// where its stderr is shown, by that stderr and its truncation mark. Nothing of
/// its stdout shows: not what was captured, nor how it reads, nor whether it
/// was cut short.
pub proof fn law_a_quiet_host_hides_its_stdout(
    stderr: bool,
    o: OutcomeModel,
    other: OutcomeModel,
    seconds: Seq<char>,
    out: Seq<char>,
    other_out: Seq<char>,
    err: Seq<char>,
)
    requires
        other == (OutcomeModel {
            stdout: other.stdout,
            stdout_truncated: other.stdout_truncated,
            ..o
        }),
    ensures
        plain_report(Detail { stdout: false, stderr }, o, seconds, out, err) == host_line(
            o,
            seconds,
        ) + "\n"@ + (if stderr || o.status != Status::Okay {
            block(lines_of(err)) + truncation(o.stderr_truncated)
        } else {
            Seq::empty()
        }),
        plain_report(Detail { stdout: false, stderr }, other, seconds, other_out, err)
            == plain_report(Detail { stdout: false, stderr }, o, seconds, out, err),
{
    let line = host_line(o, seconds) + "\n"@;
    assert(line + Seq::<char>::empty() =~= line);
    assert(host_line(other, seconds) == host_line(o, seconds));
}

/// Lines, each indented.
pub open spec fn indented(lines: Seq<Seq<char>>) -> Seq<Seq<char>> {
    lines.map_values(|line: Seq<char>| "  "@ + line)
}

/// A chatty Host cannot wreck the shape of a report: its output below the
/// status line is its lines, each indented, with nothing between or after them.
pub proof fn law_every_line_of_a_block_is_indented(text: Seq<char>)
    ensures
        pieces(block(lines_of(text)), '\n') == indented(lines_of(text)).push(Seq::empty()),
{
    lemma_lines_are_lines(text);
    lemma_block_is_lines(lines_of(text));
}

proof fn lemma_block_is_lines(lines: Seq<Seq<char>>)
    requires
        forall|i: int| 0 <= i < lines.len() ==> !(#[trigger] lines[i]).contains('\n'),
    ensures
        pieces(block(lines), '\n') == indented(lines).push(Seq::empty()),
        lines.len() > 0 ==> block(lines).len() > 0 && block(lines).last() == '\n',
    decreases lines.len(),
{
    let none = Seq::<char>::empty();
    lemma_pieces_one(none, '\n');
    if lines.len() == 0 {
        assert(indented(lines).push(none) =~= seq![none]);
    } else {
        reveal_strlit("  ");
        reveal_strlit("\n");
        let before = lines.drop_last();
        let last = "  "@ + lines.last();
        assert(lines.last() == lines[lines.len() - 1]);
        assert(!last.contains('\n')) by {
            if last.contains('\n') {
                let j = choose|j: int| 0 <= j < last.len() && last[j] == '\n';
                assert(j >= 2);
                assert(lines.last()[j - 2] == '\n');
            }
        }
        assert forall|i: int| 0 <= i < before.len() implies !(#[trigger] before[i]).contains(
            '\n',
        ) by {
            assert(before[i] == lines[i]);
        }
        lemma_block_is_lines(before);
        lemma_pieces_one(last, '\n');
        let body = block(before) + last;
        assert(block(lines) =~= body.push('\n') + none);
        lemma_pieces_join(body, none, '\n');
        assert(pieces(body, '\n') == indented(before) + seq![last]) by {
            if before.len() > 0 {
                let start = block(before).drop_last();
                assert(block(before) =~= start.push('\n') + none);
                lemma_pieces_join(start, none, '\n');
                assert(body =~= start.push('\n') + last);
                lemma_pieces_join(start, last, '\n');
                assert(pieces(start, '\n') + seq![none] == indented(before).push(none));
                assert((pieces(start, '\n') + seq![none]).drop_last() =~= pieces(start, '\n'));
                assert(indented(before).push(none).drop_last() =~= indented(before));
            } else {
                assert(body =~= last);
                assert(indented(before) + seq![last] =~= seq![last]);
            }
        }
        assert(indented(lines) =~= indented(before) + seq![last]);
        assert(indented(lines).push(none) =~= indented(before) + seq![last] + seq![none]);
    }
}

/// A run that stopped every command it cut short owes no note.
pub proof fn law_no_note_where_everything_was_stopped(outcomes: Seq<Outcome>)
    requires
        forall|i: int|
            0 <= i < outcomes.len() && unfinished(#[trigger] outcomes[i])
                ==> outcomes[i].remote_stopped,
    ensures
        note(outcomes) is None,
{
}

// ---------------------------------------------------------------------------
// What a report reads as
// ---------------------------------------------------------------------------

/// What is shown of a Host's stderr.
pub open spec fn stderr_part(stderr: bool, o: OutcomeModel, err: Seq<char>) -> Seq<char> {
    if stderr || o.status != Status::Okay {
        block(lines_of(err)) + truncation(o.stderr_truncated)
    } else {
        Seq::empty()
    }
}

/// Where stdout is asked for, a Host of any status shows all of it: on its
/// status line where it is one short line, and otherwise as a block below, with
/// the mark where it was cut. Its stderr follows.
pub proof fn law_a_hosts_stdout_is_shown_whatever_its_status(
    stderr: bool,
    o: OutcomeModel,
    seconds: Seq<char>,
    out: Seq<char>,
    err: Seq<char>,
)
    ensures
        ({
            let report = plain_report(Detail { stdout: true, stderr }, o, seconds, out, err);
            match folded(o.stdout.len() as int, out) {
                Some(line) => report == host_line(o, seconds) + "  "@ + line + "\n"@ + stderr_part(
                    stderr,
                    o,
                    err,
                ),
                None => report == host_line(o, seconds) + "\n"@ + block(lines_of(out))
                    + truncation(o.stdout_truncated) + stderr_part(stderr, o, err),
            }
        }),
{
    let report = plain_report(Detail { stdout: true, stderr }, o, seconds, out, err);
    match folded(o.stdout.len() as int, out) {
        Some(line) => {
            let first = host_line(o, seconds) + "  "@ + line + "\n"@;
            assert(first + Seq::<char>::empty() =~= first);
        },
        None => {
            assert(report =~= host_line(o, seconds) + "\n"@ + block(lines_of(out)) + truncation(
                o.stdout_truncated,
            ) + stderr_part(stderr, o, err));
        },
    }
}

/// Output goes on the status line exactly when it is one line that holds
/// anything, ended or not, of at most 200 bytes.
pub proof fn law_one_short_line_goes_on_the_status_line(
    len: int,
    text: Seq<char>,
    line: Seq<char>,
)
    ensures
        folded(len, text) == Some(line) <==> {
            &&& len <= 200
            &&& line.len() > 0
            &&& !line.contains('\n')
            &&& !line.contains('\r')
            &&& text == line || text == line.push('\n')
        },
{
    if text.len() > 0 && text.last() == '\n' {
        assert(text =~= text.drop_last().push('\n'));
        assert(text[text.len() - 1] == '\n');
        if text == line {
            assert(line.contains('\n'));
        }
    }
    assert(line.push('\n').drop_last() =~= line);
    if line.len() > 0 {
        assert(line.contains(line[line.len() - 1]));
    }
}

/// A stream that was cut says so on a line of its own, and one that was not
/// says nothing.
pub proof fn law_a_cut_stream_is_marked()
    ensures
        truncation(true) == "  [output truncated]\n"@,
        truncation(false).len() == 0,
{
    reveal_strlit("  ");
    reveal_strlit("[output truncated]");
    reveal_strlit("\n");
    reveal_strlit("  [output truncated]\n");
    assert(truncation(true) =~= "  [output truncated]\n"@);
}

proof fn lemma_reads_on(a: Seq<char>, b: Seq<char>)
    requires
        !left_inside(a, false),
    ensures
        visible(a + b, false) == visible(a, false) + visible(b, false),
        left_inside(a + b, false) == left_inside(b, false),
{
    lemma_visible_in_turn(a, b, false);
}

proof fn lemma_digits_are_plain(n: int)
    requires
        0 <= n,
    ensures
        !decimal(n).contains('\x1b'),
{
    law_a_number_is_written_in_decimal(n);
    if decimal(n).contains('\x1b') {
        let i = choose|i: int| 0 <= i < decimal(n).len() && decimal(n)[i] == '\x1b';
        assert('0' <= decimal(n)[i] <= '9');
    }
}

proof fn lemma_plain_together(a: Seq<char>, b: Seq<char>)
    requires
        !a.contains('\x1b'),
        !b.contains('\x1b'),
    ensures
        !(a + b).contains('\x1b'),
{
    if (a + b).contains('\x1b') {
        let i = choose|i: int| 0 <= i < (a + b).len() && (a + b)[i] == '\x1b';
        if i < a.len() {
            assert(a[i] == '\x1b');
        } else {
            assert(b[i - a.len()] == '\x1b');
        }
    }
}

proof fn lemma_words_are_plain(status: Status)
    ensures
        !status_word(status).contains('\x1b'),
        !padded(status_word(status), 11).contains('\x1b'),
{
    reveal_strlit("ok");
    reveal_strlit("failed");
    reveal_strlit("running");
    reveal_strlit("unreachable");
    reveal_strlit("timeout");
    reveal_strlit("cancelled");
    let word = padded(status_word(status), 11);
    if word.contains('\x1b') {
        let i = choose|i: int| 0 <= i < word.len() && word[i] == '\x1b';
        law_filling_puts_spaces_after(status_word(status), 11, i);
        assert(i < status_word(status).len());
    }
}

/// A Host's line reads as its name, its status in a column of eleven, and how
/// long it took, then the pid it told and the cause that was recognised, where
/// there is one.
pub proof fn law_a_status_line_reads_as_what_happened(o: OutcomeModel, seconds: Seq<char>)
    requires
        !o.host.contains('\x1b'),
        !seconds.contains('\x1b'),
    ensures
        visible(host_line(o, seconds), false) == o.host + " "@ + padded(status_word(o.status), 11)
            + " "@ + seconds + "s"@ + (match o.pid {
            Some(pid) => " pid "@ + decimal(pid as int),
            None => Seq::empty(),
        }) + (match o.cause {
            Some(Cause::Auth) => " (auth)"@,
            Some(Cause::Dns) => " (dns)"@,
            Some(Cause::Connect) => " (connect)"@,
            None => Seq::empty(),
        }),
        !left_inside(host_line(o, seconds), false),
{
    reveal_strlit(" ");
    reveal_strlit("s");
    reveal_strlit("pid ");
    reveal_strlit(" pid ");
    reveal_strlit("(");
    reveal_strlit(")");
    reveal_strlit("auth");
    reveal_strlit("dns");
    reveal_strlit("connect");
    reveal_strlit(" (auth)");
    reveal_strlit(" (dns)");
    reveal_strlit(" (connect)");
    let name = styled(bold_style(), o.host);
    let word = padded(status_word(o.status), 11);
    let status = styled(status_style(o.status), word);
    let took = styled(dim_style(), seconds + "s"@);
    lemma_words_are_plain(o.status);
    lemma_plain_together(seconds, "s"@);
    law_a_style_adds_nothing_to_read(bold_style(), o.host);
    law_a_style_adds_nothing_to_read(status_style(o.status), word);
    law_a_style_adds_nothing_to_read(dim_style(), seconds + "s"@);
    lemma_plain_is_visible(" "@);
    lemma_reads_on(name, " "@);
    lemma_reads_on(name + " "@, status);
    lemma_reads_on(name + " "@ + status, " "@);
    lemma_reads_on(name + " "@ + status + " "@, took);
    let start = name + " "@ + status + " "@ + took;
    let pid = match o.pid {
        Some(pid) => " "@ + styled(dim_style(), "pid "@ + decimal(pid as int)),
        None => Seq::empty(),
    };
    let cause = match o.cause {
        Some(cause) => " "@ + styled(dim_style(), "("@ + cause_word(cause) + ")"@),
        None => Seq::empty(),
    };
    lemma_plain_is_visible(Seq::empty());
    if let Some(n) = o.pid {
        let text = "pid "@ + decimal(n as int);
        lemma_digits_are_plain(n as int);
        lemma_plain_together("pid "@, decimal(n as int));
        law_a_style_adds_nothing_to_read(dim_style(), text);
        lemma_reads_on(" "@, styled(dim_style(), text));
        assert(" "@ + text =~= " pid "@ + decimal(n as int));
    }
    if let Some(c) = o.cause {
        let text = "("@ + cause_word(c) + ")"@;
        assert(!text.contains('\x1b'));
        law_a_style_adds_nothing_to_read(dim_style(), text);
        lemma_reads_on(" "@, styled(dim_style(), text));
        assert(" "@ + text =~= (match c {
            Cause::Auth => " (auth)"@,
            Cause::Dns => " (dns)"@,
            Cause::Connect => " (connect)"@,
        }));
    }
    lemma_reads_on(start, pid);
    lemma_reads_on(start + pid, cause);
    assert(visible(start, false) =~= o.host + " "@ + word + " "@ + seconds + "s"@);
}

/// A line about rshx's own doing reads as what kind of thing it says and what it
/// says.
pub proof fn law_a_line_of_rshxs_own_reads_as_its_message(
    color: Color,
    word: Seq<char>,
    message: Seq<char>,
)
    requires
        !word.contains('\x1b'),
        !message.contains('\x1b'),
    ensures
        visible(own_line(color, word, message), false) == "rshx: "@ + word + " "@ + message + "\n"@,
{
    reveal_strlit("rshx: ");
    reveal_strlit(" ");
    reveal_strlit("\n");
    let token = styled(loud(color), word);
    law_a_style_adds_nothing_to_read(loud(color), word);
    lemma_plain_is_visible("rshx: "@);
    lemma_plain_is_visible(" "@);
    lemma_plain_is_visible("\n"@);
    lemma_plain_is_visible(message);
    lemma_reads_on("rshx: "@, token);
    lemma_reads_on("rshx: "@ + token, " "@);
    lemma_reads_on("rshx: "@ + token + " "@, message);
    lemma_reads_on("rshx: "@ + token + " "@ + message, "\n"@);
}

/// A run's heading reads as the command and how many Hosts it runs on, and names
/// the fanout only where it is smaller than that.
pub proof fn law_a_heading_reads_as_the_command(
    command: Seq<Seq<char>>,
    hosts: int,
    fanout: int,
)
    requires
        0 <= hosts,
        0 <= fanout,
        !joined(command, " "@).contains('\x1b'),
    ensures
        visible(heading_line(command, hosts, fanout), false) == joined(command, " "@)
            + "  \u{b7}  "@ + decimal(hosts) + (if hosts == 1 {
            " host"@
        } else {
            " hosts"@
        }) + (if fanout < hosts {
            ", fanout "@ + decimal(fanout)
        } else {
            Seq::empty()
        }) + "\n"@,
{
    reveal_strlit("  \u{b7}  ");
    reveal_strlit(" ");
    reveal_strlit("host");
    reveal_strlit("hosts");
    reveal_strlit(" host");
    reveal_strlit(" hosts");
    reveal_strlit(", fanout ");
    reveal_strlit("\n");
    let typed = joined(command, " "@);
    let limit = if fanout < hosts {
        ", fanout "@ + decimal(fanout)
    } else {
        Seq::empty()
    };
    let a = "  \u{b7}  "@ + decimal(hosts) + " "@ + host_word(hosts);
    let rest = a + limit;
    lemma_digits_are_plain(hosts);
    lemma_digits_are_plain(fanout);
    lemma_plain_together("  \u{b7}  "@, decimal(hosts));
    lemma_plain_together("  \u{b7}  "@ + decimal(hosts), " "@);
    lemma_plain_together("  \u{b7}  "@ + decimal(hosts) + " "@, host_word(hosts));
    lemma_plain_together(", fanout "@, decimal(fanout));
    lemma_plain_together(a, limit);
    law_a_style_adds_nothing_to_read(bold_style(), typed);
    law_a_style_adds_nothing_to_read(dim_style(), rest);
    lemma_plain_is_visible("\n"@);
    lemma_reads_on(styled(bold_style(), typed), styled(dim_style(), rest));
    lemma_reads_on(styled(bold_style(), typed) + styled(dim_style(), rest), "\n"@);
    let noun = if hosts == 1 {
        " host"@
    } else {
        " hosts"@
    };
    assert(" "@ + host_word(hosts) =~= noun);
    assert(typed + rest + "\n"@ =~= typed + "  \u{b7}  "@ + decimal(hosts) + noun + limit + "\n"@);
}

/// How many Hosts came to a status.
pub open spec fn how_many(all: Seq<Status>, status: Status) -> int {
    all.filter(|s: Status| s == status).len() as int
}

proof fn lemma_tally_counts(all: Seq<Status>, status: Status)
    ensures
        tally(all, status) == how_many(all, status),
    decreases all.len(),
{
    reveal(Seq::filter);
    if all.len() > 0 {
        lemma_tally_counts(all.drop_last(), status);
    }
}

/// What a summary says of one status: how many Hosts came to it. `ok` is always
/// counted, any other status only where some Host came to it.
pub open spec fn count_of(all: Seq<Status>, status: Status) -> Seq<Seq<char>> {
    if status == Status::Okay || how_many(all, status) > 0 {
        seq![decimal(how_many(all, status)) + " "@ + status_word(status)]
    } else {
        Seq::empty()
    }
}

spec fn all_readable(parts: Seq<Seq<char>>) -> bool {
    forall|i: int| 0 <= i < parts.len() ==> !left_inside(#[trigger] parts[i], false)
}

spec fn readings(parts: Seq<Seq<char>>) -> Seq<Seq<char>> {
    parts.map_values(|part: Seq<char>| visible(part, false))
}

proof fn lemma_joined_reads(parts: Seq<Seq<char>>, sep: Seq<char>)
    requires
        all_readable(parts),
        !sep.contains('\x1b'),
    ensures
        visible(joined(parts, sep), false) == joined(readings(parts), sep),
        !left_inside(joined(parts, sep), false),
    decreases parts.len(),
{
    let seen = readings(parts);
    if parts.len() == 0 {
        lemma_plain_is_visible(Seq::empty());
    } else if parts.len() == 1 {
        assert(!left_inside(parts[0], false));
    } else {
        let before = parts.drop_last();
        assert forall|i: int| 0 <= i < before.len() implies !left_inside(
            #[trigger] before[i],
            false,
        ) by {
            assert(before[i] == parts[i]);
        }
        lemma_joined_reads(before, sep);
        lemma_plain_is_visible(sep);
        assert(!left_inside(parts[parts.len() - 1], false));
        lemma_reads_on(joined(before, sep), sep);
        lemma_reads_on(joined(before, sep) + sep, parts.last());
        assert(seen.drop_last() =~= readings(before));
        assert(seen.last() == visible(parts.last(), false));
    }
}

proof fn lemma_part_reads(all: Seq<Status>, status: Status)
    ensures
        all_readable(status_part(all, status)),
        readings(status_part(all, status)) == count_of(all, status),
{
    lemma_tally_counts(all, status);
    let n = tally(all, status);
    reveal_strlit(" ");
    let token = styled(status_style(status), status_word(status));
    let part = decimal(n) + " "@ + token;
    lemma_words_are_plain(status);
    law_a_style_adds_nothing_to_read(status_style(status), status_word(status));
    lemma_digits_are_plain(n);
    lemma_plain_together(decimal(n), " "@);
    lemma_plain_is_visible(decimal(n) + " "@);
    lemma_reads_on(decimal(n) + " "@, token);
    assert(readings(status_part(all, status)) =~= count_of(all, status));
}

proof fn lemma_readings_in_turn(a: Seq<Seq<char>>, b: Seq<Seq<char>>)
    requires
        all_readable(a),
        all_readable(b),
    ensures
        all_readable(a + b),
        readings(a + b) == readings(a) + readings(b),
{
    assert forall|i: int| 0 <= i < (a + b).len() implies !left_inside(
        #[trigger] (a + b)[i],
        false,
    ) by {
        if i < a.len() {
            assert(!left_inside(a[i], false));
        } else {
            assert(!left_inside(b[i - a.len()], false));
        }
    }
    assert(readings(a + b) =~= readings(a) + readings(b));
}

/// The summary reads as how many Hosts were selected, how many of them came to
/// each status, how many never started, and how long the run took.
#[verifier::spinoff_prover]
#[verifier::rlimit(40)]
pub proof fn law_a_summary_reads_as_the_counts(
    all: Seq<Status>,
    not_started: int,
    elapsed: Seq<char>,
)
    requires
        0 <= not_started,
        !elapsed.contains('\x1b'),
    ensures
        visible(summary_text(all, not_started, elapsed), false) == decimal(all.len() + not_started)
            + (if all.len() + not_started == 1 {
            " host: "@
        } else {
            " hosts: "@
        }) + joined(
            count_of(all, Status::Okay) + count_of(all, Status::Failed) + count_of(
                all,
                Status::Running,
            ) + count_of(all, Status::Unreachable) + count_of(all, Status::Timeout) + count_of(
                all,
                Status::Cancelled,
            ) + (if not_started > 0 {
                seq![decimal(not_started) + " not started"@]
            } else {
                Seq::empty()
            }),
            ", "@,
        ) + " in "@ + elapsed + "s"@,
{
    reveal_strlit(" ");
    reveal_strlit(": ");
    reveal_strlit(", ");
    reveal_strlit("host");
    reveal_strlit("hosts");
    reveal_strlit(" host: ");
    reveal_strlit(" hosts: ");
    reveal_strlit(" not started");
    reveal_strlit("in ");
    reveal_strlit(" in ");
    reveal_strlit("s");
    let total = all.len() + not_started;
    lemma_part_reads(all, Status::Okay);
    lemma_part_reads(all, Status::Failed);
    lemma_part_reads(all, Status::Running);
    lemma_part_reads(all, Status::Unreachable);
    lemma_part_reads(all, Status::Timeout);
    lemma_part_reads(all, Status::Cancelled);
    let p1 = status_part(all, Status::Okay);
    let p2 = p1 + status_part(all, Status::Failed);
    let p3 = p2 + status_part(all, Status::Running);
    let p4 = p3 + status_part(all, Status::Unreachable);
    let p5 = p4 + status_part(all, Status::Timeout);
    let p6 = p5 + status_part(all, Status::Cancelled);
    let last = if not_started > 0 {
        seq![decimal(not_started) + " not started"@]
    } else {
        Seq::empty()
    };
    lemma_digits_are_plain(not_started);
    lemma_plain_together(decimal(not_started), " not started"@);
    lemma_plain_is_visible(decimal(not_started) + " not started"@);
    assert(all_readable(last));
    assert(readings(last) =~= last);
    lemma_readings_in_turn(p1, status_part(all, Status::Failed));
    lemma_readings_in_turn(p2, status_part(all, Status::Running));
    lemma_readings_in_turn(p3, status_part(all, Status::Unreachable));
    lemma_readings_in_turn(p4, status_part(all, Status::Timeout));
    lemma_readings_in_turn(p5, status_part(all, Status::Cancelled));
    lemma_readings_in_turn(p6, last);
    let parts = summary_parts(all, not_started);
    assert(parts =~= p6 + last);
    lemma_joined_reads(parts, ", "@);
    lemma_digits_are_plain(total);
    let noun = if total == 1 {
        " host: "@
    } else {
        " hosts: "@
    };
    let start = decimal(total) + " "@ + host_word(total) + ": "@;
    assert(start =~= decimal(total) + noun);
    lemma_plain_together(decimal(total), noun);
    lemma_plain_is_visible(start);
    lemma_reads_on(start, joined(parts, ", "@));
    lemma_plain_is_visible(" "@);
    lemma_reads_on(start + joined(parts, ", "@), " "@);
    let took = "in "@ + elapsed + "s"@;
    lemma_plain_together("in "@, elapsed);
    lemma_plain_together("in "@ + elapsed, "s"@);
    law_a_style_adds_nothing_to_read(dim_style(), took);
    lemma_reads_on(start + joined(parts, ", "@) + " "@, styled(dim_style(), took));
    assert(" "@ + "in "@ =~= " in "@);
    let counts = joined(readings(parts), ", "@);
    assert(start + counts + " "@ + took =~= decimal(total) + noun + counts + " in "@ + elapsed
        + "s"@);
}

/// Whether a Host was cut short and its command may still be running.
pub open spec fn may_still_run(o: Outcome) -> bool {
    (o.status == Status::Timeout || o.status == Status::Cancelled) && !o.remote_stopped
}

/// Whether a Host was cut short and its command was stopped.
pub open spec fn was_stopped(o: Outcome) -> bool {
    (o.status == Status::Timeout || o.status == Status::Cancelled) && o.remote_stopped
}

/// A run says that commands may still be running exactly where one may, and says
/// so otherwise where rshx did stop some of them.
pub proof fn law_a_run_says_what_it_left_running(outcomes: Seq<Outcome>)
    ensures
        note(outcomes) is Some <==> exists|i: int|
            0 <= i < outcomes.len() && may_still_run(#[trigger] outcomes[i]),
        note(outcomes) is Some && (exists|i: int|
            0 <= i < outcomes.len() && was_stopped(#[trigger] outcomes[i])) ==> note(outcomes)
            == Some(
            "rshx stopped the remote commands it cut short, except where it says otherwise above"@,
        ),
        note(outcomes) is Some && !(exists|i: int|
            0 <= i < outcomes.len() && was_stopped(#[trigger] outcomes[i])) ==> note(outcomes)
            == Some(
            "cancelled and timeout mean rshx stopped waiting; the remote commands may still be running"@,
        ),
{
    assert forall|i: int| 0 <= i < outcomes.len() implies may_still_run(#[trigger] outcomes[i])
        == (unfinished(outcomes[i]) && !outcomes[i].remote_stopped) && was_stopped(outcomes[i])
        == (unfinished(outcomes[i]) && outcomes[i].remote_stopped) by {}
}

/// A Host's JSON carries all that its outcome holds: which Host, how it ended,
/// both streams whole, whether either was cut, and how many milliseconds it
/// took.
pub proof fn law_a_json_line_carries_the_outcome(
    line: JsonLine,
    o: OutcomeModel,
    out: Seq<char>,
    err: Seq<char>,
)
    requires
        says_of(line, o, out, err),
    ensures
        line.host@ == o.host,
        line.status@ == status_word(o.status),
        line.exit_code == o.exit_code,
        line.cause is Some <==> o.cause is Some,
        o.cause == Some(Cause::Auth) ==> line.cause->Some_0@ == "auth"@,
        o.cause == Some(Cause::Dns) ==> line.cause->Some_0@ == "dns"@,
        o.cause == Some(Cause::Connect) ==> line.cause->Some_0@ == "connect"@,
        line.pid == o.pid,
        line.stdout@ == out,
        line.stderr@ == err,
        line.truncated <==> o.stdout_truncated || o.stderr_truncated,
        line.remote_stopped == o.remote_stopped,
        o.duration < 0x1_0000_0000_0000_0000 ==> line.duration_ms * 1_000_000 <= o.duration < (
        line.duration_ms + 1) * 1_000_000,
{
}

} // verus!
