//! Tagged line diffs between two texts.
use vstd::prelude::*;

verus! {

/// Which side of a diff a line belongs to.
#[derive(Clone, Copy, Debug, PartialEq, Eq, Structural)]
pub enum DiffTag {
    /// In both texts.
    Unchanged,
    /// Only in the original text.
    Removed,
    /// Only in the final text.
    Added,
}

/// One line of a diff, with its tag.
#[derive(Clone, Debug)]
pub struct DiffLine {
    pub tag: DiffTag,
    pub text: String,
}

impl DiffLine {
    pub open spec fn view_pair(self) -> (DiffTag, Seq<char>) {
        (self.tag, self.text@)
    }

    /// The line as displayed: `"+ "`, `"- "` or `"  "` followed by its text.
    pub fn render(&self) -> (r: String)
        ensures
            r@ == tag_prefix(self.tag) + self.text@,
    {
        let prefix = match self.tag {
            DiffTag::Unchanged => "  ",
            DiffTag::Removed => "- ",
            DiffTag::Added => "+ ",
        };
        proof {
            reveal_strlit("  ");
            reveal_strlit("- ");
            reveal_strlit("+ ");
        }
        let mut r = String::from_str(prefix);
        r.append(self.text.as_str());
        r
    }
}

/// The display prefix of a tag.
pub open spec fn tag_prefix(tag: DiffTag) -> Seq<char> {
    match tag {
        DiffTag::Unchanged => seq![' ', ' '],
        DiffTag::Removed => seq!['-', ' '],
        DiffTag::Added => seq!['+', ' '],
    }
}

/// The tagged texts of a diff.
pub open spec fn diff_view(d: Seq<DiffLine>) -> Seq<(DiffTag, Seq<char>)> {
    d.map_values(|l: DiffLine| l.view_pair())
}

/// The concatenated texts of the lines whose tag is not `left_out`, in order.
pub open spec fn side_text(d: Seq<(DiffTag, Seq<char>)>, left_out: DiffTag) -> Seq<char>
    decreases d.len(),
{
    if d.len() == 0 {
        Seq::empty()
    } else {
        side_text(d.drop_last(), left_out) + if d.last().0 == left_out {
            Seq::<char>::empty()
        } else {
            d.last().1
        }
    }
}

/// The original text that a diff describes: its unchanged and removed lines.
pub open spec fn old_side(d: Seq<(DiffTag, Seq<char>)>) -> Seq<char> {
    side_text(d, DiffTag::Added)
}

/// The final text that a diff describes: its unchanged and added lines.
pub open spec fn new_side(d: Seq<(DiffTag, Seq<char>)>) -> Seq<char> {
    side_text(d, DiffTag::Removed)
}

/// The lines of a diff whose tag is not `left_out`, in order.
pub open spec fn side_lines(d: Seq<(DiffTag, Seq<char>)>, left_out: DiffTag) -> Seq<Seq<char>>
    decreases d.len(),
{
    if d.len() == 0 {
        Seq::empty()
    } else if d.last().0 == left_out {
        side_lines(d.drop_last(), left_out)
    } else {
        side_lines(d.drop_last(), left_out).push(d.last().1)
    }
}

/// How many lines of a diff are unchanged.
pub open spec fn unchanged_count(d: Seq<(DiffTag, Seq<char>)>) -> nat
    decreases d.len(),
{
    if d.len() == 0 {
        0
    } else if d.last().0 == DiffTag::Unchanged {
        unchanged_count(d.drop_last()) + 1
    } else {
        unchanged_count(d.drop_last())
    }
}

/// The index of the first `'\n'` or `'\r'`, or the length when there is none.
pub open spec fn first_break(s: Seq<char>) -> int
    decreases s.len(),
{
    if s.len() == 0 {
        0
    } else if s[0] == '\n' || s[0] == '\r' {
        0
    } else {
        1 + first_break(s.drop_first())
    }
}

/// The length of the first line of `s`, its terminator (`"\n"`, `"\r\n"` or a lone
/// `'\r'`) included.
pub open spec fn first_line_len(s: Seq<char>) -> int {
    let i = first_break(s);
    if i >= s.len() {
        s.len() as int
    } else if s[i] == '\r' && i + 1 < s.len() && s[i + 1] == '\n' {
        i + 2
    } else {
        i + 1
    }
}

/// A text cut into lines that keep their terminators; a last line may have none.
pub open spec fn line_tokens(s: Seq<char>) -> Seq<Seq<char>>
    decreases s.len(),
{
    let n = first_line_len(s);
    if s.len() == 0 || n <= 0 || n > s.len() {
        Seq::empty()
    } else {
        seq![s.take(n)] + line_tokens(s.skip(n))
    }
}

/// The length of a longest common subsequence of two sequences of lines.
pub open spec fn lcs_len(a: Seq<Seq<char>>, b: Seq<Seq<char>>) -> nat
    decreases a.len() + b.len(),
{
    if a.len() == 0 || b.len() == 0 {
        0
    } else if a.last() == b.last() {
        lcs_len(a.drop_last(), b.drop_last()) + 1
    } else {
        let x = lcs_len(a.drop_last(), b);
        let y = lcs_len(a, b.drop_last());
        if x >= y { x } else { y }
    }
}

/// Relies on `similar::TextDiff::from_lines` with `iter_all_changes`: a line diff whose
/// unchanged and removed lines, in order, spell `old`, and whose unchanged and added
/// lines spell `new`; each entry is one line of its side, terminator kept. The
/// default algorithm (Myers, no deadline) keeps as many lines unchanged as a longest
/// common subsequence of the two sides' lines holds.
#[verifier::external_body]
fn text_line_diff(old: &str, new: &str) -> (r: Vec<DiffLine>)
    ensures
        old_side(diff_view(r@)) == old@,
        new_side(diff_view(r@)) == new@,
        side_lines(diff_view(r@), DiffTag::Added) == line_tokens(old@),
        side_lines(diff_view(r@), DiffTag::Removed) == line_tokens(new@),
        unchanged_count(diff_view(r@)) == lcs_len(line_tokens(old@), line_tokens(new@)),
{
    let diff = similar::TextDiff::from_lines(old, new);
    let mut r = Vec::new();
    for change in diff.iter_all_changes() {
        let tag = match change.tag() {
            similar::ChangeTag::Equal => DiffTag::Unchanged,
            similar::ChangeTag::Delete => DiffTag::Removed,
            similar::ChangeTag::Insert => DiffTag::Added,
        };
        r.push(DiffLine { tag, text: change.value().to_string() });
    }
    r
}

/// A minimal line-level diff from `old` to `new`: the unchanged and removed lines, in
/// order, are the lines of `old`; the unchanged and added lines are those of `new`; and
/// as many lines are unchanged as a longest common subsequence allows.
pub fn diff_lines(old: &str, new: &str) -> (r: Vec<DiffLine>)
    ensures
        old_side(diff_view(r@)) == old@,
        new_side(diff_view(r@)) == new@,
        side_lines(diff_view(r@), DiffTag::Added) == line_tokens(old@),
        side_lines(diff_view(r@), DiffTag::Removed) == line_tokens(new@),
        unchanged_count(diff_view(r@)) == lcs_len(line_tokens(old@), line_tokens(new@)),
{
    text_line_diff(old, new)
}

/// Every line of `lines`, tagged as added.
pub fn all_added(lines: &Vec<String>) -> (r: Vec<DiffLine>)
    ensures
        r@.len() == lines@.len(),
        forall|i: int| 0 <= i < r@.len() ==> #[trigger] r@[i].view_pair() == (DiffTag::Added, lines@[i]@),
{
    let mut r: Vec<DiffLine> = Vec::new();
    let mut i: usize = 0;
    while i < lines.len()
        invariant
            i <= lines@.len(),
            r@.len() == i,
            forall|j: int| 0 <= j < i ==> #[trigger] r@[j].view_pair() == (DiffTag::Added, lines@[j]@),
        decreases lines@.len() - i,
    {
        r.push(DiffLine { tag: DiffTag::Added, text: lines[i].clone() });
        i = i + 1;
    }
    r
}

} // verus!
