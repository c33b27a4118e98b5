//! The text of the progress display.
//!
//! Progress is shown on a terminal that understands the usual control
//! sequences: erase the line, return to its start, move up one line. The
//! functions here compose the exact text to send; sending it is for the
//! caller. The board keeps the latest report of every worker and redraws all
//! of them whenever one reports.

use crate::schedule::ThreadInfo;
use crate::text::{decimal, push_decimal};
use crate::worker::ThreadProgress;
use vstd::prelude::*;

verus! {

/// The control sequence that erases the current line.
pub open spec fn clear_line_text() -> Seq<char> {
    "\x1B[2K"@
}

/// The control sequence that returns to the start of the line.
pub open spec fn line_start_text() -> Seq<char> {
    "\r"@
}

/// The control sequence that moves the cursor up one line.
pub open spec fn cursor_up_text() -> Seq<char> {
    "\x1B[A"@
}

/// The sequence that erases the `line_count` lines above the cursor: for
/// each line, one step up and an erasure.
pub open spec fn clear_lines_text(line_count: nat) -> Seq<char>
    decreases line_count,
{
    if line_count == 0 {
        Seq::empty()
    } else {
        clear_lines_text((line_count - 1) as nat) + cursor_up_text() + clear_line_text()
    }
}

/// Appends to `out` the sequence that erases the `line_count` lines above
/// the cursor.
pub fn push_clear_lines(out: &mut String, line_count: u32)
    ensures
        final(out)@ == old(out)@ + clear_lines_text(line_count as nat),
{
    let mut done: u32 = 0;
    assert(out@ =~= old(out)@ + clear_lines_text(0));
    while done < line_count
        invariant
            done <= line_count,
            out@ == old(out)@ + clear_lines_text(done as nat),
        decreases line_count - done,
    {
        out.append("\x1B[A");
        out.append("\x1B[2K");
        done = done + 1;
        assert(out@ =~= old(out)@ + clear_lines_text(done as nat));
    }
}

/// The sequence that erases the `line_count` lines above the cursor.
pub fn clear_lines(line_count: u32) -> (text: String)
    ensures
        text@ == clear_lines_text(line_count as nat),
{
    let mut text = String::new();
    push_clear_lines(&mut text, line_count);
    text
}

/// A duration split into hours, minutes and seconds, as the display counts
/// them.
pub struct DurationParts {
    pub hours: nat,
    pub minutes: nat,
    pub seconds: nat,
}

/// Splits a number of microseconds into hours, minutes and seconds.
///
/// Fractions of a second are dropped. Seconds are carried into minutes only
/// beyond sixty, and minutes into hours only beyond sixty, so that exactly
/// sixty seconds stay sixty seconds.
pub open spec fn split_duration(micros: nat) -> DurationParts {
    let total = micros / 1_000_000;
    if total > 60 {
        let minutes = total / 60;
        if minutes > 60 {
            DurationParts { hours: minutes / 60, minutes: minutes % 60, seconds: total % 60 }
        } else {
            DurationParts { hours: 0, minutes, seconds: total % 60 }
        }
    } else {
        DurationParts { hours: 0, minutes: 0, seconds: total }
    }
}

/// A duration as text: hours, minutes and seconds in decimal, each followed
/// by its unit, separated by single spaces.
pub open spec fn duration_text(micros: nat) -> Seq<char> {
    let d = split_duration(micros);
    decimal(d.hours) + "h "@ + decimal(d.minutes) + "m "@ + decimal(d.seconds) + "s"@
}

/// Appends to `out` the duration of `micros` microseconds as text.
pub fn push_duration(out: &mut String, micros: u128)
    ensures
        final(out)@ == old(out)@ + duration_text(micros as nat),
{
    let mut seconds: u128 = micros / 1_000_000;
    let mut minutes: u128 = 0;
    let mut hours: u128 = 0;
    if seconds > 60 {
        minutes = seconds / 60;
        seconds = seconds % 60;
        if minutes > 60 {
            hours = minutes / 60;
            minutes = minutes % 60;
        }
    }
    push_decimal(out, hours);
    out.append("h ");
    push_decimal(out, minutes);
    out.append("m ");
    push_decimal(out, seconds);
    out.append("s");
    assert(out@ =~= old(out)@ + duration_text(micros as nat));
}

/// The duration of `micros` microseconds as text.
pub fn format_microseconds(micros: u128) -> (text: String)
    ensures
        text@ == duration_text(micros as nat),
{
    let mut text = String::new();
    push_duration(&mut text, micros);
    text
}

/// The microseconds that the rows from `row` on will take, if each takes as
/// long as the rows before it took on average.
pub open spec fn micros_remaining(image_height: nat, row: nat, elapsed_micros: nat) -> nat
    recommends
        0 < row <= image_height,
{
    ((elapsed_micros / row) * (image_height - row)) as nat
}

/// The estimate of the time that is left, as text: unknown while nothing
/// has been measured.
pub open spec fn time_remaining_text(image_height: nat, row: nat, elapsed_micros: nat) -> Seq<
    char,
> {
    if elapsed_micros == 0 || row == 0 {
        "unknown"@
    } else {
        duration_text(micros_remaining(image_height, row, elapsed_micros))
    }
}

/// The progress line of a render that works through the rows in order:
/// the line is erased and written anew.
pub open spec fn progress_text(image_height: nat, row: nat, elapsed_micros: nat) -> Seq<char> {
    clear_line_text() + line_start_text() + "scanlines remaining: "@ + decimal(
        (image_height - row) as nat,
    ) + ", time remaining: "@ + time_remaining_text(image_height, row, elapsed_micros)
}

/// The progress line to show when `row` of `image_height` rows are done
/// after `elapsed_micros` microseconds.
pub fn display_progress(image_height: u32, row: u32, elapsed_micros: u128) -> (text: String)
    requires
        row <= image_height,
        row > 0 ==> (elapsed_micros / (row as u128)) * (image_height - row) <= u128::MAX,
    ensures
        text@ == progress_text(image_height as nat, row as nat, elapsed_micros as nat),
{
    let scanlines_remaining: u32 = image_height - row;
    let mut text = String::from_str("\x1B[2K");
    text.append("\r");
    text.append("scanlines remaining: ");
    push_decimal(&mut text, scanlines_remaining as u128);
    text.append(", time remaining: ");
    if elapsed_micros == 0 || row == 0 {
        text.append("unknown");
    } else {
        let average: u128 = elapsed_micros / (row as u128);
        let remaining: u128 = average * (scanlines_remaining as u128);
        push_duration(&mut text, remaining);
    }
    assert(text@ =~= progress_text(image_height as nat, row as nat, elapsed_micros as nat));
    text
}

/// The text that closes the progress display.
pub open spec fn done_text() -> Seq<char> {
    clear_line_text() + line_start_text() + "Done\n"@
}

/// The text that closes the progress display: the progress line is erased
/// and replaced by a last word.
pub fn display_done() -> (text: String)
    ensures
        text@ == done_text(),
{
    let mut text = String::from_str("\x1B[2K");
    text.append("\r");
    text.append("Done\n");
    assert(text@ =~= done_text());
    text
}

/// One worker's line on the board.
pub open spec fn thread_line(progress: ThreadProgress) -> Seq<char> {
    "thread "@ + decimal(progress.thread_idx as nat) + ": scanlines remaining: "@ + decimal(
        progress.scanlines_remaining as nat,
    ) + "\n"@
}

/// The lines of all workers, in the order of the reports.
pub open spec fn board_text(report: Seq<ThreadProgress>) -> Seq<char>
    decreases report.len(),
{
    if report.len() == 0 {
        Seq::empty()
    } else {
        board_text(report.drop_last()) + thread_line(report.last())
    }
}

/// What a board shows before any worker has reported: for every block, all
/// of its rows remaining.
pub open spec fn initial_report(thread_infos: Seq<ThreadInfo>) -> Seq<ThreadProgress> {
    Seq::new(
        thread_infos.len(),
        |k: int|
            ThreadProgress {
                scanlines_remaining: thread_infos[k].row_count,
                thread_idx: thread_infos[k].thread_idx,
            },
    )
}

/// Whether every block carries its own position as its worker's index.
pub open spec fn indexed_by_position(thread_infos: Seq<ThreadInfo>) -> bool {
    forall|k: int| 0 <= k < thread_infos.len() ==> (#[trigger] thread_infos[k]).thread_idx == k
}

/// The latest report of every worker.
pub struct ProgressBoard {
    report: Vec<ThreadProgress>,
    drawn: bool,
}

impl ProgressBoard {
    #[verifier::type_invariant]
    spec fn well_formed(self) -> bool {
        &&& self.report@.len() <= u32::MAX
        &&& forall|k: int| 0 <= k < self.report@.len() ==> (#[trigger] self.report@[k]).thread_idx == k
    }

    /// The latest report of every worker, by worker index.
    pub closed spec fn view(&self) -> Seq<ThreadProgress> {
        self.report@
    }

    /// Whether the board has been drawn, so that the next drawing has to
    /// erase the previous one.
    pub closed spec fn drawn(&self) -> bool {
        self.drawn
    }

    /// A board for the workers of `thread_infos`, not drawn yet; none
    /// unless every block carries its position as its worker's index and
    /// the number of blocks is one that a line count can hold.
    pub fn new(thread_infos: &Vec<ThreadInfo>) -> (board: Option<Self>)
        ensures
            board is Some <==> indexed_by_position(thread_infos@) && thread_infos@.len()
                <= u32::MAX,
            board matches Some(b) ==> b@ == initial_report(thread_infos@) && !b.drawn(),
    {
        if thread_infos.len() > 0xFFFF_FFFF {
            return None;
        }
        let mut report: Vec<ThreadProgress> = Vec::new();
        let mut k: usize = 0;
        while k < thread_infos.len()
            invariant
                k <= thread_infos.len(),
                thread_infos.len() <= u32::MAX,
                report@ == initial_report(thread_infos@).take(k as int),
                forall|j: int| 0 <= j < k ==> (#[trigger] thread_infos@[j]).thread_idx == j,
            decreases thread_infos.len() - k,
        {
            let info = thread_infos[k];
            if info.thread_idx != k as u32 {
                assert(thread_infos@[k as int].thread_idx != k);
                return None;
            }
            report.push(
                ThreadProgress { scanlines_remaining: info.row_count, thread_idx: info.thread_idx },
            );
            assert(report@ =~= initial_report(thread_infos@).take(k + 1));
            k = k + 1;
        }
        assert(report@ =~= initial_report(thread_infos@));
        Some(ProgressBoard { report, drawn: false })
    }

    /// The number of workers on the board.
    pub fn thread_count(&self) -> (n: usize)
        ensures
            n == self@.len(),
    {
        self.report.len()
    }

    /// Takes a worker's report and composes the text that redraws the
    /// board: an erasure of the previous drawing, unless this is the first,
    /// then the lines of all workers.
    ///
    /// A report of a worker that is not on the board changes nothing and
    /// yields no text.
    pub fn update(&mut self, progress: ThreadProgress) -> (text: Option<String>)
        ensures
            text is Some <==> progress.thread_idx < old(self)@.len(),
            text is None ==> final(self)@ == old(self)@ && final(self).drawn() == old(self).drawn(),
            text matches Some(t) ==> {
                &&& final(self)@ == old(self)@.update(progress.thread_idx as int, progress)
                &&& final(self).drawn()
                &&& t@ == (if old(self).drawn() {
                    clear_lines_text(old(self)@.len())
                } else {
                    Seq::<char>::empty()
                }) + board_text(final(self)@)
            },
    {
        proof {
            use_type_invariant(&*self);
        }
        if progress.thread_idx as usize >= self.report.len() {
            return None;
        }
        let mut report: Vec<ThreadProgress> = Vec::new();
        std::mem::swap(&mut report, &mut self.report);
        report.set(progress.thread_idx as usize, progress);
        let mut text = String::new();
        if self.drawn {
            push_clear_lines(&mut text, report.len() as u32);
        }
        push_board(&mut text, &report);
        self.report = report;
        self.drawn = true;
        Some(text)
    }
}

/// Appends to `out` one worker's line.
fn push_thread_line(out: &mut String, progress: &ThreadProgress)
    ensures
        final(out)@ == old(out)@ + thread_line(*progress),
{
    out.append("thread ");
    push_decimal(out, progress.thread_idx as u128);
    out.append(": scanlines remaining: ");
    push_decimal(out, progress.scanlines_remaining as u128);
    out.append("\n");
    assert(out@ =~= old(out)@ + thread_line(*progress));
}

/// Appends to `out` the lines of all workers.
fn push_board(out: &mut String, report: &Vec<ThreadProgress>)
    ensures
        final(out)@ == old(out)@ + board_text(report@),
{
    let mut k: usize = 0;
    assert(report@.take(0) =~= Seq::<ThreadProgress>::empty());
    assert(out@ =~= old(out)@ + board_text(report@.take(0)));
    while k < report.len()
        invariant
            k <= report.len(),
            out@ == old(out)@ + board_text(report@.take(k as int)),
        decreases report.len() - k,
    {
        push_thread_line(out, &report[k]);
        proof {
            let next = report@.take(k + 1);
            assert(next.drop_last() =~= report@.take(k as int));
            assert(next.last() == report@[k as int]);
            assert(out@ =~= old(out)@ + board_text(next));
        }
        k = k + 1;
    }
    assert(report@.take(report.len() as int) =~= report@);
}

} // verus!
