//! Line diffs between the head commit and the working tree, rendered with
//! colours as the `diff` command prints them.

use vstd::prelude::*;
use vstd::string::*;
use vstd::utf8::*;

verus! {

/// The role of a line in a diff.
#[derive(Debug, Clone, Copy, PartialEq, Eq, Structural)]
pub enum ChangeKind {
    Equal,
    Delete,
    Insert,
}

/// One line of a diff, with its line ending when it has one.
#[derive(Debug)]
pub struct LineChange {
    pub kind: ChangeKind,
    pub value: String,
}

pub type ChangeView = (ChangeKind, Seq<char>);

pub open spec fn changes_view(s: Seq<LineChange>) -> Seq<ChangeView> {
    s.map_values(|c: LineChange| (c.kind, c.value@))
}

/// The line diff that `similar` computes between two texts.
pub uninterp spec fn line_diff(old: Seq<char>, new: Seq<char>) -> Seq<ChangeView>;

/// The text that the lines of a diff of one kind or the other spell: the
/// old text without insertions, or the new text without deletions.
pub open spec fn side(changes: Seq<ChangeView>, left_out: ChangeKind) -> Seq<char>
    decreases changes.len(),
{
    if changes.len() == 0 {
        Seq::empty()
    } else {
        side(changes.drop_last(), left_out) + if changes.last().0 == left_out {
            Seq::<char>::empty()
        } else {
            changes.last().1
        }
    }
}

/// Calls `similar::TextDiff::from_lines(old, new).iter_all_changes()` and
/// keeps each change's tag and value. The contract names the diff and
/// states that, as for any diff, its equal and deleted lines spell the old
/// text and its equal and inserted lines the new one (the lines keep their
/// endings, as `similar`'s line tokenizer does).
#[verifier::external_body]
fn diff_lines(old: &str, new: &str) -> (res: Vec<LineChange>)
    ensures
        changes_view(res@) == line_diff(old@, new@),
        side(changes_view(res@), ChangeKind::Insert) == old@,
        side(changes_view(res@), ChangeKind::Delete) == new@,
{
    let diff = similar::TextDiff::from_lines(old, new);
    let mut res = Vec::new();
    for change in diff.iter_all_changes() {
        let kind = match change.tag() {
            similar::ChangeTag::Equal => ChangeKind::Equal,
            similar::ChangeTag::Delete => ChangeKind::Delete,
            similar::ChangeTag::Insert => ChangeKind::Insert,
        };
        res.push(LineChange { kind, value: change.value().to_string() });
    }
    res
}

/// Calls `std::str::from_utf8`, which accepts exactly the valid UTF-8
/// byte strings and then gives the text they encode.
#[verifier::external_body]
fn utf8_text(bytes: &[u8]) -> (res: Option<String>)
    ensures
        res is Some <==> valid_utf8(bytes@),
        res matches Some(s) ==> s@ == decode_utf8(bytes@),
{
    match std::str::from_utf8(bytes) {
        Ok(s) => Some(s.to_string()),
        Err(_) => None,
    }
}

/// The text of a file as the head commit stored it: its content when it
/// is UTF-8, a placeholder for binary content, empty when the file is not
/// in the head commit.
pub open spec fn head_text(content: Option<Seq<u8>>) -> Seq<char> {
    match content {
        None => Seq::empty(),
        Some(b) => if valid_utf8(b) {
            decode_utf8(b)
        } else {
            "(Binary content)"@
        },
    }
}

/// Decodes a blob read from the head commit.
pub fn text_of_blob(content: Option<Vec<u8>>) -> (res: String)
    ensures
        res@ == head_text(match content { Some(v) => Some(v@), None => None }),
{
    match content {
        None => String::new(),
        Some(v) => match utf8_text(v.as_slice()) {
            Some(s) => s,
            None => String::from_str("(Binary content)"),
        },
    }
}

/// Whether a line ends with `\n` or `\r`.
pub open spec fn ends_with_newline(s: Seq<char>) -> bool {
    s.len() > 0 && (s.last() == '\n' || s.last() == '\r')
}

/// The colour and sign of a line of each kind.
pub open spec fn marker(kind: ChangeKind) -> Seq<char> {
    match kind {
        ChangeKind::Delete => "\x1b[31m-"@,
        ChangeKind::Insert => "\x1b[32m+"@,
        ChangeKind::Equal => "\x1b[0m "@,
    }
}

/// A change as printed: colour, sign, the line (with a line ending added
/// when it has none), and a colour reset.
pub open spec fn printed_change(c: ChangeView) -> Seq<char> {
    marker(c.0) + c.1 + (if ends_with_newline(c.1) { Seq::<char>::empty() } else { "\n"@ }) + "\x1b[0m"@
}

pub open spec fn printed_changes(changes: Seq<ChangeView>) -> Seq<char>
    decreases changes.len(),
{
    if changes.len() == 0 {
        Seq::empty()
    } else {
        printed_changes(changes.drop_last()) + printed_change(changes.last())
    }
}

/// What the `diff` command prints for a modified file: the diff of the
/// head commit's text of the file and its text in the working tree.
pub open spec fn file_diff(old_text: Seq<char>, new_text: Seq<char>) -> Seq<char> {
    printed_changes(line_diff(old_text, new_text))
}

fn print_change(out: &mut String, c: &LineChange)
    ensures
        final(out)@ == old(out)@ + printed_change((c.kind, c.value@)),
{
    out.append(match c.kind {
        ChangeKind::Delete => "\x1b[31m-",
        ChangeKind::Insert => "\x1b[32m+",
        ChangeKind::Equal => "\x1b[0m ",
    });
    out.append(c.value.as_str());
    let n = c.value.as_str().unicode_len();
    let ends = if n == 0 {
        false
    } else {
        let last = c.value.as_str().get_char(n - 1);
        last == '\n' || last == '\r'
    };
    if !ends {
        out.append("\n");
    }
    out.append("\x1b[0m");
}

/// Renders the diff between the head commit's text of a file and its text
/// in the working tree.
pub fn render_file_diff(old_text: &str, new_text: &str) -> (res: String)
    ensures
        res@ == file_diff(old_text@, new_text@),
        side(line_diff(old_text@, new_text@), ChangeKind::Insert) == old_text@,
        side(line_diff(old_text@, new_text@), ChangeKind::Delete) == new_text@,
{
    let changes = diff_lines(old_text, new_text);
    let ghost cv = changes_view(changes@);
    let mut out = String::new();
    let mut i: usize = 0;
    while i < changes.len()
        invariant
            i <= changes@.len(),
            cv == changes_view(changes@),
            out@ == printed_changes(cv.subrange(0, i as int)),
        decreases changes@.len() - i,
    {
        print_change(&mut out, &changes[i]);
        assert(cv.subrange(0, i + 1).drop_last() =~= cv.subrange(0, i as int));
        i = i + 1;
    }
    assert(cv.subrange(0, changes@.len() as int) =~= cv);
    out
}

} // verus!
