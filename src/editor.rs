//! Decisions of the direct text-editor commands: which command was asked for, string
//! replacement, line insertion, and whether undo is offered.
use vstd::prelude::*;
use crate::text::{chars_of, lines_of, join_lines, views, split_lines, join};

verus! {

/// The outcome of an editor command.
#[derive(Clone, Debug)]
pub struct TextEditorResult {
    pub success: bool,
    pub message: String,
    pub file_content: Option<String>,
    pub changes_made: bool,
}

/// A file's content saved before a modifying command, for a later undo.
#[derive(Clone, Debug)]
pub struct FileBackup {
    pub original_content: String,
    /// Seconds since the Unix epoch, UTC.
    pub timestamp: i64,
    pub file_path: String,
}

/// The latest backup of `path` among `entries`.
pub open spec fn backup_of(entries: Seq<FileBackup>, path: Seq<char>) -> Option<FileBackup>
    decreases entries.len(),
{
    if entries.len() == 0 {
        None
    } else if entries.last().file_path@ == path {
        Some(entries.last())
    } else {
        backup_of(entries.drop_last(), path)
    }
}

/// `entries` without the backups of `path`.
pub open spec fn without(entries: Seq<FileBackup>, path: Seq<char>) -> Seq<FileBackup>
    decreases entries.len(),
{
    if entries.len() == 0 {
        entries
    } else if entries.last().file_path@ == path {
        without(entries.drop_last(), path)
    } else {
        without(entries.drop_last(), path).push(entries.last())
    }
}

proof fn lemma_backup_of_concat(a: Seq<FileBackup>, b: Seq<FileBackup>, p: Seq<char>)
    ensures
        backup_of(a + b, p) == (if backup_of(b, p) is Some { backup_of(b, p) } else { backup_of(a, p) }),
    decreases b.len(),
{
    if b.len() == 0 {
        assert(a + b == a);
    } else {
        assert((a + b).drop_last() == a + b.drop_last());
        lemma_backup_of_concat(a, b.drop_last(), p);
    }
}

proof fn lemma_backup_of_without(s: Seq<FileBackup>, path: Seq<char>, p: Seq<char>)
    ensures
        backup_of(without(s, path), p) == (if p == path { None } else { backup_of(s, p) }),
    decreases s.len(),
{
    if s.len() > 0 {
        lemma_backup_of_without(s.drop_last(), path, p);
        if s.last().file_path@ != path {
            assert(without(s.drop_last(), path).push(s.last()).drop_last() == without(s.drop_last(), path));
        }
    }
}

/// The saved contents of files, by path, kept for a later undo.
pub struct BackupStore {
    entries: Vec<FileBackup>,
}

impl BackupStore {
    /// The latest backup of `path`.
    pub closed spec fn backup(&self, path: Seq<char>) -> Option<FileBackup> {
        backup_of(self.entries@, path)
    }

    /// A store with no backups.
    pub fn new() -> (r: BackupStore)
        ensures
            forall|p: Seq<char>| #[trigger] r.backup(p) is None,
    {
        BackupStore { entries: Vec::new() }
    }

    /// Drops every backup of `path`.
    pub fn remove(&mut self, path: &str)
        ensures
            final(self).backup(path@) is None,
            forall|p: Seq<char>| p != path@ ==> #[trigger] final(self).backup(p) == old(self).backup(p),
    {
        let ghost start = self.entries@;
        let mut j: usize = self.entries.len();
        proof {
            assert(start.skip(j as int).len() == 0);
            assert(start.take(j as int) == start);
            assert(start.take(j as int) + without(start.skip(j as int), path@) == start);
        }
        while j > 0
            invariant
                j <= start.len(),
                self.entries@ == start.take(j as int) + without(start.skip(j as int), path@),
            decreases j,
        {
            j = j - 1;
            let ghost tail = start.skip(j + 1);
            proof {
                let t = start.skip(j as int);
                assert(t == seq![start[j as int]] + tail);
                assert(start.take(j + 1) == start.take(j as int).push(start[j as int]));
                lemma_without_front(start[j as int], tail, path@);
            }
            if name_matches(&self.entries[j].file_path, path) {
                self.entries.remove(j);
                proof {
                    assert(self.entries@ == start.take(j as int) + without(start.skip(j as int), path@));
                }
            } else {
                proof {
                    assert(self.entries@ == start.take(j as int) + without(start.skip(j as int), path@));
                }
            }
        }
        proof {
            assert(start.skip(0) == start);
            assert(start.take(0) + without(start, path@) == without(start, path@));
            assert forall|p: Seq<char>| #[trigger] backup_of(self.entries@, p) == (if p == path@ { None } else { backup_of(start, p) }) by {
                lemma_backup_of_without(start, path@, p);
            }
        }
    }

    /// Keeps `backup` as the backup of its path, in place of any earlier one.
    pub fn record(&mut self, backup: FileBackup)
        ensures
            final(self).backup(backup.file_path@) == Some(backup),
            forall|p: Seq<char>| p != backup.file_path@ ==> #[trigger] final(self).backup(p) == old(self).backup(p),
    {
        let ghost original = *self;
        self.remove(backup.file_path.as_str());
        let ghost removed = *self;
        let ghost before = self.entries@;
        self.entries.push(backup);
        proof {
            assert(self.entries@.drop_last() == before);
            assert forall|p: Seq<char>| p != backup.file_path@ implies #[trigger] self.backup(p) == original.backup(p) by {
                assert(removed.backup(p) == original.backup(p));
            }
        }
    }

    /// The latest backup of `path`, if any.
    pub fn get(&self, path: &str) -> (r: Option<&FileBackup>)
        ensures
            r matches Some(b) ==> self.backup(path@) == Some(*b),
            r is None ==> self.backup(path@) is None,
    {
        let mut j: usize = self.entries.len();
        proof {
            assert(self.entries@.take(j as int) == self.entries@);
        }
        while j > 0
            invariant
                j <= self.entries@.len(),
                backup_of(self.entries@, path@) == backup_of(self.entries@.take(j as int), path@),
            decreases j,
        {
            proof {
                assert(self.entries@.take(j as int).drop_last() == self.entries@.take(j - 1));
            }
            if name_matches(&self.entries[j - 1].file_path, path) {
                return Some(&self.entries[j - 1]);
            }
            j = j - 1;
        }
        None
    }
}

proof fn lemma_without_front(x: FileBackup, tail: Seq<FileBackup>, path: Seq<char>)
    ensures
        without(seq![x] + tail, path) == (if x.file_path@ == path { without(tail, path) } else { seq![x] + without(tail, path) }),
    decreases tail.len(),
{
    if tail.len() == 0 {
        assert(seq![x] + tail == seq![x]);
        let e = seq![x].drop_last();
        assert(e.len() == 0);
        assert(without(e, path) == e);
        assert(e.push(x) == seq![x]);
        assert(without(tail, path) == tail);
    } else {
        let s = seq![x] + tail;
        assert(s.drop_last() == seq![x] + tail.drop_last());
        assert(s.last() == tail.last());
        lemma_without_front(x, tail.drop_last(), path);
        let w = without(tail.drop_last(), path);
        if tail.last().file_path@ != path {
            assert((seq![x] + w).push(tail.last()) == seq![x] + w.push(tail.last()));
        }
    }
}

/// Whether a stored path is `path`.
fn name_matches(stored: &String, path: &str) -> (r: bool)
    ensures
        r == (stored@ == path@),
{
    *stored == String::from_str(path)
}

/// A tool that the model provider defines itself, named by its type tag.
#[derive(Clone, Debug)]
pub struct BuiltInToolDefinition {
    pub tool_type: String,
    pub name: String,
}

impl BuiltInToolDefinition {
    pub fn new(tool_type: &str, name: &str) -> (r: BuiltInToolDefinition)
        ensures
            r.tool_type@ == tool_type@,
            r.name@ == name@,
    {
        BuiltInToolDefinition { tool_type: String::from_str(tool_type), name: String::from_str(name) }
    }
}

/// The commands of the text editor.
#[derive(Clone, Copy, Debug, PartialEq, Eq, Structural)]
pub enum EditorCommand {
    View,
    StrReplace,
    Create,
    Insert,
    UndoEdit,
    Unknown,
}

/// The command that a command name asks for.
pub open spec fn command_of(name: Seq<char>) -> EditorCommand {
    if name == "view"@ {
        EditorCommand::View
    } else if name == "str_replace"@ {
        EditorCommand::StrReplace
    } else if name == "create"@ {
        EditorCommand::Create
    } else if name == "insert"@ {
        EditorCommand::Insert
    } else if name == "undo_edit"@ {
        EditorCommand::UndoEdit
    } else {
        EditorCommand::Unknown
    }
}

/// Reads a command name.
pub fn parse_command(name: &str) -> (r: EditorCommand)
    ensures
        r == command_of(name@),
{
    let n = String::from_str(name);
    if n == String::from_str("view") {
        EditorCommand::View
    } else if n == String::from_str("str_replace") {
        EditorCommand::StrReplace
    } else if n == String::from_str("create") {
        EditorCommand::Create
    } else if n == String::from_str("insert") {
        EditorCommand::Insert
    } else if n == String::from_str("undo_edit") {
        EditorCommand::UndoEdit
    } else {
        EditorCommand::Unknown
    }
}

/// `pattern` occurs in `text` starting at `i`.
pub open spec fn occurs_at(text: Seq<char>, pattern: Seq<char>, i: int) -> bool {
    0 <= i && i + pattern.len() <= text.len() && text.subrange(i, i + pattern.len()) == pattern
}

/// `pattern` occurs somewhere in `text`.
pub open spec fn occurs_in(text: Seq<char>, pattern: Seq<char>) -> bool {
    exists|i: int| occurs_at(text, pattern, i)
}

/// Every occurrence of `from` in `text`, scanning left to right without overlaps,
/// replaced by `to`.
pub open spec fn replaced(text: Seq<char>, from: Seq<char>, to: Seq<char>) -> Seq<char>
    recommends
        from.len() > 0,
    decreases text.len(),
{
    if text.len() == 0 || from.len() == 0 {
        text
    } else if occurs_at(text, from, 0) {
        to + replaced(text.skip(from.len() as int), from, to)
    } else {
        seq![text[0]] + replaced(text.skip(1), from, to)
    }
}

/// Whether `pattern` occurs in `text` at `i`, on character vectors.
fn matches_at(text: &Vec<char>, pattern: &Vec<char>, i: usize) -> (r: bool)
    requires
        i <= text@.len(),
    ensures
        r == occurs_at(text@, pattern@, i as int),
{
    let tl = text.len();
    if pattern.len() > tl - i {
        return false;
    }
    let mut k: usize = 0;
    while k < pattern.len()
        invariant
            tl == text@.len(),
            i <= text@.len(),
            i + pattern@.len() <= text@.len(),
            k <= pattern@.len(),
            forall|q: int| 0 <= q < k ==> text@[i + q] == #[trigger] pattern@[q],
        decreases pattern@.len() - k,
    {
        if text[i + k] != pattern[k] {
            proof {
                assert(text@.subrange(i as int, i + pattern@.len())[k as int] != pattern@[k as int]);
            }
            return false;
        }
        k = k + 1;
    }
    proof {
        assert(text@.subrange(i as int, i + pattern@.len()) == pattern@);
    }
    true
}

/// Whether `pattern` occurs in `text`.
pub fn text_contains(text: &str, pattern: &str) -> (r: bool)
    ensures
        r == occurs_in(text@, pattern@),
{
    let t = chars_of(text);
    let p = chars_of(pattern);
    let mut i: usize = 0;
    while i < t.len()
        invariant
            t@ == text@,
            p@ == pattern@,
            i <= t@.len(),
            forall|j: int| 0 <= j < i ==> !occurs_at(text@, pattern@, j),
        decreases t@.len() - i,
    {
        if matches_at(&t, &p, i) {
            return true;
        }
        i = i + 1;
    }
    if matches_at(&t, &p, i) {
        return true;
    }
    proof {
        assert forall|j: int| !occurs_at(text@, pattern@, j) by {
            if 0 <= j && j + pattern@.len() <= text@.len() {
                assert(j <= t@.len());
            }
        }
    }
    false
}

proof fn lemma_replaced_match(text: Seq<char>, from: Seq<char>, to: Seq<char>, i: int)
    requires
        from.len() > 0,
        0 <= i,
        occurs_at(text, from, i),
    ensures
        replaced(text.skip(i), from, to) == to + replaced(text.skip(i + from.len()), from, to),
{
    let s = text.skip(i);
    assert(s.skip(from.len() as int) == text.skip(i + from.len()));
    assert(s.subrange(0, from.len() as int) == text.subrange(i, i + from.len()));
}

proof fn lemma_replaced_no_match(text: Seq<char>, from: Seq<char>, to: Seq<char>, i: int)
    requires
        from.len() > 0,
        0 <= i < text.len(),
        !occurs_at(text, from, i),
    ensures
        replaced(text.skip(i), from, to) == seq![text[i]] + replaced(text.skip(i + 1), from, to),
{
    let s = text.skip(i);
    assert(s.skip(1) == text.skip(i + 1));
    if i + from.len() <= text.len() {
        assert(s.subrange(0, from.len() as int) == text.subrange(i, i + from.len()));
    }
    assert(!occurs_at(s, from, 0));
}

/// Every occurrence of `from` in `text`, left to right without overlaps, replaced by `to`.
pub fn replace_all(text: &str, from: &str, to: &str) -> (r: String)
    requires
        from@.len() > 0,
    ensures
        r@ == replaced(text@, from@, to@),
{
    let t = chars_of(text);
    let f = chars_of(from);
    let mut out = String::new();
    let mut i: usize = 0;
    proof {
        assert(text@.skip(0) == text@);
    }
    while i < t.len()
        invariant
            t@ == text@,
            f@ == from@,
            from@.len() > 0,
            i <= t@.len(),
            out@ + replaced(text@.skip(i as int), from@, to@) == replaced(text@, from@, to@),
        decreases t@.len() - i,
    {
        let ghost before = out@;
        if matches_at(&t, &f, i) {
            proof {
                lemma_replaced_match(text@, from@, to@, i as int);
            }
            out.append(to);
            proof {
                assert(before + (to@ + replaced(text@.skip(i + from@.len()), from@, to@))
                    == out@ + replaced(text@.skip(i + from@.len()), from@, to@));
            }
            i = i + f.len();
        } else {
            proof {
                lemma_replaced_no_match(text@, from@, to@, i as int);
            }
            let piece = crate::text::string_of_char(t[i]);
            out.append(piece.as_str());
            proof {
                assert(before + (seq![text@[i as int]] + replaced(text@.skip(i + 1), from@, to@))
                    == out@ + replaced(text@.skip(i + 1), from@, to@));
            }
            i = i + 1;
        }
    }
    proof {
        assert(text@.skip(i as int).len() == 0);
    }
    out
}

/// The content after `str_replace`: `None` when `old_str` is empty or does not occur.
pub fn str_replace_in(content: &str, old_str: &str, new_str: &str) -> (r: Option<String>)
    ensures
        r is None <==> (old_str@.len() == 0 || !occurs_in(content@, old_str@)),
        r matches Some(s) ==> s@ == replaced(content@, old_str@, new_str@),
{
    if old_str.unicode_len() == 0 {
        return None;
    }
    if !text_contains(content, old_str) {
        return None;
    }
    Some(replace_all(content, old_str, new_str))
}

/// The lines with `new_line` placed before index `index`.
pub open spec fn lines_with_inserted(lines: Seq<Seq<char>>, index: int, new_line: Seq<char>) -> Seq<Seq<char>> {
    lines.take(index).push(new_line) + lines.skip(index)
}

/// The content after inserting `new_str` as line `insert_line` (1-based, at most one
/// past the last line), lines joined with `'\n'`; `None` for any other line number.
pub fn insert_at_line(content: &str, insert_line: usize, new_str: &str) -> (r: Option<String>)
    ensures
        r is None <==> (insert_line == 0 || insert_line > lines_of(content@).len() + 1),
        r matches Some(s) ==> s@ == join_lines(
            lines_with_inserted(lines_of(content@), insert_line - 1, new_str@),
        ),
{
    let lines = split_lines(content);
    if insert_line == 0 || insert_line - 1 > lines.len() {
        return None;
    }
    let index = insert_line - 1;
    let mut out: Vec<String> = Vec::new();
    let mut i: usize = 0;
    let ghost ls = views(lines@);
    while i < index
        invariant
            ls == views(lines@),
            index <= lines@.len(),
            i <= index,
            views(out@) == ls.take(i as int),
        decreases index - i,
    {
        let ghost before = out@;
        out.push(lines[i].clone());
        proof {
            assert(out@.drop_last() == before);
            assert(views(out@) == views(before).push(lines@[i as int]@));
            assert(ls.take(i + 1) == ls.take(i as int).push(ls[i as int]));
        }
        i = i + 1;
    }
    let ghost before = out@;
    out.push(String::from_str(new_str));
    proof {
        assert(out@.drop_last() == before);
        assert(views(out@) == views(before).push(new_str@));
        assert(ls.skip(index as int).take(0).len() == 0);
    }
    let ghost mid = views(out@);
    let mut j: usize = index;
    while j < lines.len()
        invariant
            ls == views(lines@),
            index <= j <= lines@.len(),
            views(out@) == mid + ls.subrange(index as int, j as int),
        decreases lines@.len() - j,
    {
        let ghost before = out@;
        out.push(lines[j].clone());
        proof {
            assert(out@.drop_last() == before);
            assert(views(out@) == views(before).push(lines@[j as int]@));
            assert(ls.subrange(index as int, j + 1) == ls.subrange(index as int, j as int).push(ls[j as int]));
        }
        j = j + 1;
    }
    proof {
        assert(ls.subrange(index as int, lines@.len() as int) == ls.skip(index as int));
        assert(views(out@) == lines_with_inserted(ls, index as int, new_str@));
    }
    Some(join(&out))
}

/// Whether `undo_edit` is offered to a model: not when its name holds one of the
/// family names whose editor tool dropped the command.
pub fn undo_supported(model_version: &str, retired_families: &Vec<String>) -> (r: bool)
    ensures
        r == !(exists|i: int| 0 <= i < retired_families@.len()
            && occurs_in(model_version@, #[trigger] retired_families@[i]@)),
{
    let mut i: usize = 0;
    while i < retired_families.len()
        invariant
            i <= retired_families@.len(),
            forall|j: int| 0 <= j < i ==> !occurs_in(model_version@, #[trigger] retired_families@[j]@),
        decreases retired_families@.len() - i,
    {
        if text_contains(model_version, retired_families[i].as_str()) {
            return false;
        }
        i = i + 1;
    }
    true
}

} // verus!
