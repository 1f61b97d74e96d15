//! The lines that the command-line interface prints.

use vstd::prelude::*;
use vstd::string::*;
use vstd::utf8::*;
use crate::status::{FileStatus, StatusView};
use crate::text::{join_strs, push_decimal, push_signed_decimal, decimal, signed_decimal};

verus! {

/// A success line: a green `*` and the message in white.
pub open spec fn ok_text(message: Seq<char>) -> Seq<char> {
    "\x1b[1;32m *\x1b[1;37m "@ + message + "\x1b[0m"@
}

/// A failure line: a red `!` and the message in white.
pub open spec fn ko_text(message: Seq<char>) -> Seq<char> {
    "\x1b[1;31m !\x1b[1;37m "@ + message + "\x1b[0m"@
}

/// Renders a success line.
pub fn ok_line(message: &str) -> (res: String)
    ensures
        res@ == ok_text(message@),
{
    let mut res = String::from_str("\x1b[1;32m *\x1b[1;37m ");
    res.append(message);
    res.append("\x1b[0m");
    res
}

/// Renders a failure line.
pub fn ko_line(message: &str) -> (res: String)
    ensures
        res@ == ko_text(message@),
{
    let mut res = String::from_str("\x1b[1;31m !\x1b[1;37m ");
    res.append(message);
    res.append("\x1b[0m");
    res
}

/// The line of a changed file: a green `+` for a new file, a yellow `~` for
/// a modified one, a red `-` for a deleted one; nothing for an unchanged one.
pub open spec fn status_text(s: StatusView) -> Option<Seq<char>> {
    match s {
        StatusView::New(p) => Some("\x1b[1;32m+\x1b[1;37m "@ + p + "\x1b[0m"@),
        StatusView::Modified(p, _) => Some("\x1b[1;33m~\x1b[1;37m "@ + p + "\x1b[0m"@),
        StatusView::Deleted(p, _) => Some("\x1b[1;31m-\x1b[1;37m "@ + p + "\x1b[0m"@),
        StatusView::Unchanged => None,
    }
}

/// Renders the line of a changed file.
pub fn status_line(status: &FileStatus) -> (res: Option<String>)
    ensures
        match res {
            Some(s) => status_text(status@) == Some(s@),
            None => status_text(status@) is None,
        },
{
    let (mark, path) = match status {
        FileStatus::New(p) => ("\x1b[1;32m+\x1b[1;37m ", p),
        FileStatus::Modified(p, _) => ("\x1b[1;33m~\x1b[1;37m ", p),
        FileStatus::Deleted(p, _) => ("\x1b[1;31m-\x1b[1;37m ", p),
        FileStatus::Unchanged => {
            return None;
        },
    };
    let mut res = String::from_str(mark);
    res.append(path.as_str());
    res.append("\x1b[0m");
    Some(res)
}

/// The padding that right-aligns the bracketed hash of an audit line in a
/// terminal `width` columns wide: the width less the hash, the description
/// and seven columns of decoration (lengths in bytes, truncated to 16 bits
/// as the terminal width is).
pub open spec fn audit_padding_width(width: u16, hash_len: nat, description_len: nat) -> int {
    width - (hash_len % 65536) - (description_len % 65536) - 7
}

/// Computes the padding of an audit line.
pub fn audit_padding(width: u16, hash_len: usize, description_len: usize) -> (res: u16)
    requires
        audit_padding_width(width, hash_len as nat, description_len as nat) >= 0,
    ensures
        res == audit_padding_width(width, hash_len as nat, description_len as nat),
{
    let h = (hash_len % 65536) as u16;
    let d = (description_len % 65536) as u16;
    width - h - d - 7
}

/// The padding of a tag line: the width less the tag, its description, its
/// date and nine columns of decoration.
pub open spec fn tag_padding_width(width: u16, tag_len: nat, description_len: nat, date_len: nat) -> int {
    width - (tag_len % 65536) - (description_len % 65536) - (date_len % 65536) - 9
}

/// Computes the padding of a tag line.
pub fn tag_padding(width: u16, tag_len: usize, description_len: usize, date_len: usize) -> (res: u16)
    requires
        tag_padding_width(width, tag_len as nat, description_len as nat, date_len as nat) >= 0,
    ensures
        res == tag_padding_width(width, tag_len as nat, description_len as nat, date_len as nat),
{
    let t = (tag_len % 65536) as u16;
    let d = (description_len % 65536) as u16;
    let a = (date_len % 65536) as u16;
    width - t - d - a - 9
}

/// The audit's closing line.
pub open spec fn audit_counts_text(valid: nat, unsigned: nat, errors: nat, total: nat) -> Seq<char> {
    "Validated ("@ + decimal(valid) + "/"@ + decimal(total) + ") Unsigned ("@ + decimal(unsigned)
        + ") Errors ("@ + decimal(errors) + ") Total ("@ + decimal(total) + ")"@
}

/// Renders the audit's closing line.
pub fn audit_counts_line(valid: u64, unsigned: u64, errors: u64, total: u64) -> (res: String)
    ensures
        res@ == audit_counts_text(valid as nat, unsigned as nat, errors as nat, total as nat),
{
    let mut res = String::from_str("Validated (");
    push_decimal(&mut res, valid);
    res.append("/");
    push_decimal(&mut res, total);
    res.append(") Unsigned (");
    push_decimal(&mut res, unsigned);
    res.append(") Errors (");
    push_decimal(&mut res, errors);
    res.append(") Total (");
    push_decimal(&mut res, total);
    res.append(")");
    res
}

/// The line of a tag: its name, the short hash of its commit and its
/// description (empty when it has none).
pub open spec fn tag_text(name: Seq<char>, short_hash: Seq<char>, description: Option<Seq<char>>) -> Seq<char> {
    "  \x1b[1;33m"@ + name + "\x1b[0m -> "@ + short_hash + " \x1b[90m"@ + (match description {
        Some(d) => d,
        None => Seq::empty(),
    }) + "\x1b[0m"@
}

/// Renders the line of a tag; `short_hash` is the commit hash's first
/// seven bytes.
pub fn tag_line(name: &str, short_hash: &str, description: &Option<String>) -> (res: String)
    ensures
        res@ == tag_text(name@, short_hash@, match description { Some(d) => Some(d@), None => None }),
{
    let mut res = String::from_str("  \x1b[1;33m");
    res.append(name);
    res.append("\x1b[0m -> ");
    res.append(short_hash);
    res.append(" \x1b[90m");
    match description {
        Some(d) => res.append(d.as_str()),
        None => {},
    }
    res.append("\x1b[0m");
    res
}

/// The lines that the log prints for one commit.
pub open spec fn log_text(hash: Seq<char>, author: Seq<char>, date: Seq<char>, message: Seq<char>) -> Seq<Seq<char>> {
    seq![
        "\x1b[33mcommit "@ + hash + "\x1b[0m"@,
        "Author: "@ + author,
        "Date:   "@ + date,
        "\n    "@ + message + "\n"@,
        "\x1b[90m----------------------------------------\x1b[0m"@,
    ]
}

/// Renders the lines of one commit of the log.
pub fn log_lines(hash: &str, author: &str, date: &str, message: &str) -> (res: Vec<String>)
    ensures
        res@.map_values(|s: String| s@) == log_text(hash@, author@, date@, message@),
{
    let mut res: Vec<String> = Vec::new();
    let mut l1 = String::from_str("\x1b[33mcommit ");
    l1.append(hash);
    l1.append("\x1b[0m");
    res.push(l1);
    res.push(join_strs("Author: ", author));
    res.push(join_strs("Date:   ", date));
    let mut l4 = String::from_str("\n    ");
    l4.append(message);
    l4.append("\n");
    res.push(l4);
    res.push(String::from_str("\x1b[90m----------------------------------------\x1b[0m"));
    assert(res@.map_values(|s: String| s@) =~= log_text(hash@, author@, date@, message@));
    res
}

/// The commit the log moves to after one: its parent, or none (the empty
/// hash) for a root commit.
pub fn next_in_log(parent: Option<String>) -> (res: String)
    ensures
        res@ == match parent { Some(p) => p@, None => Seq::<char>::empty() },
{
    match parent {
        Some(p) => p,
        None => String::new(),
    }
}

/// Which commits a page of the log shows: it skips `skip` commits from the
/// head and shows at most `take` of the ones after them.
#[derive(Debug, Clone, Copy, PartialEq, Eq, Structural)]
pub struct LogPage {
    pub skip: usize,
    pub take: usize,
}

/// The number of commits before page `page` (counted from 1; page 0 is
/// read as the first page) with `limit` commits per page.
pub open spec fn page_start(page: int, limit: int) -> int {
    if page <= 1 {
        0
    } else {
        (page - 1) * limit
    }
}

/// The window of page `page` of the log with `limit` commits per page.
/// A start beyond what `usize` holds leaves the page empty.
pub fn log_page(page: usize, limit: usize) -> (res: LogPage)
    ensures
        page_start(page as int, limit as int) <= usize::MAX ==> res.skip == page_start(
            page as int,
            limit as int,
        ) && res.take == limit,
        page_start(page as int, limit as int) > usize::MAX ==> res.skip == usize::MAX && res.take
            == 0,
{
    if page <= 1 {
        return LogPage { skip: 0, take: limit };
    }
    match (page - 1).checked_mul(limit) {
        Some(skip) => LogPage { skip, take: limit },
        None => LogPage { skip: usize::MAX, take: 0 },
    }
}

/// What the log does with the commit at `position` (0 for the head) when
/// showing `page`.
#[derive(Debug, Clone, Copy, PartialEq, Eq, Structural)]
pub enum LogStep {
    /// Before the page: move on to the parent without showing it.
    Skip,
    /// On the page: show it, then move on.
    Show,
    /// Past the page: stop walking.
    Stop,
}

/// Decides what the log does with the commit at `position`.
pub fn log_step(page: LogPage, position: usize) -> (res: LogStep)
    ensures
        res == (if position < page.skip {
            LogStep::Skip
        } else if position - page.skip < page.take {
            LogStep::Show
        } else {
            LogStep::Stop
        }),
{
    if position < page.skip {
        LogStep::Skip
    } else if position - page.skip < page.take {
        LogStep::Show
    } else {
        LogStep::Stop
    }
}

/// The message of a new todo.
pub open spec fn todo_added_text(title: Seq<char>, due_date: Option<Seq<char>>) -> Seq<char> {
    "Todo appended : "@ + title + " (due date : "@ + (match due_date {
        Some(d) => d,
        None => "unknown"@,
    }) + ")"@
}

/// Renders the message of a new todo.
pub fn todo_added_message(title: &str, due_date: Option<&str>) -> (res: String)
    ensures
        res@ == todo_added_text(title@, match due_date { Some(d) => Some(d@), None => None }),
{
    let mut res = String::from_str("Todo appended : ");
    res.append(title);
    res.append(" (due date : ");
    res.append(match due_date {
        Some(d) => d,
        None => "unknown",
    });
    res.append(")");
    res
}

/// Whom a todo is assigned to: the given user, or `Me`.
pub fn todo_assignee<'a>(assigned_to: Option<&'a str>) -> (res: &'a str)
    ensures
        res@ == match assigned_to { Some(a) => a@, None => "Me"@ },
{
    match assigned_to {
        Some(a) => a,
        None => "Me",
    }
}

/// The message of a completed todo.
pub fn todo_done_message(id: i64) -> (res: String)
    ensures
        res@ == "Task #"@ + signed_decimal(id as int) + " done !"@,
{
    let mut res = String::from_str("Task #");
    push_signed_decimal(&mut res, id);
    res.append(" done !");
    res
}

/// The current branch recorded in the configuration, or `main` when the
/// configuration has none.
pub fn current_branch_or_main(value: Option<String>) -> (res: String)
    ensures
        res@ == match value { Some(v) => v@, None => "main"@ },
{
    match value {
        Some(v) => v,
        None => String::from_str("main"),
    }
}

/// The file of a year's history database.
pub fn history_file_name(year: i32) -> (res: String)
    ensures
        res@ == "history_"@ + signed_decimal(year as int) + ".db"@,
{
    let mut res = String::from_str("history_");
    push_signed_decimal(&mut res, year as i64);
    res.append(".db");
    res
}

/// How many days after today an ephemeral message expires at 20:00: today
/// before 20:00, tomorrow from 20:00 on.
pub fn expiry_day_offset(hour: u32) -> (res: i64)
    ensures
        res == if hour >= 20 { 1int } else { 0int },
{
    if hour >= 20 { 1 } else { 0 }
}

} // verus!
