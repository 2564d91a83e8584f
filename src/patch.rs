//! The edit engine: segment, anchor and splice each fragment in turn, then report the
//! change as a tagged line diff.
use vstd::prelude::*;
use crate::text::{lines_of, join_lines, views, split_lines, join};
use crate::anchor::{anchor_of, find_best_match_position};
use crate::splice::{splice, splice_block, window_start, replace_count};
use crate::segment::{
    fragments_of, marker_flags, fragment_views, marker_lines, segment_marked, free_of_markers, is_marker,
    lemma_fragments_free_of_markers,
};
use crate::diff::{
    DiffLine, DiffTag, diff_view, old_side, new_side, side_lines, unchanged_count, line_tokens, lcs_len,
    diff_lines, all_added,
};

verus! {

/// Applies the fragments in order, each to the buffer that the previous ones left.
pub open spec fn apply_all(buf: Seq<Seq<char>>, frags: Seq<Seq<Seq<char>>>) -> Seq<Seq<char>>
    decreases frags.len(),
{
    if frags.len() == 0 {
        buf
    } else {
        let b = apply_all(buf, frags.drop_last());
        splice(b, anchor_of(frags.last(), b), frags.last())
    }
}

/// The text that an edit specification makes of an existing text.
pub open spec fn edited_text(original: Seq<char>, code_edit: Seq<char>) -> Seq<char> {
    let edit_lines = lines_of(code_edit);
    join_lines(apply_all(lines_of(original), fragments_of(edit_lines, marker_flags(edit_lines))))
}

proof fn lemma_splice_free_of_markers(buf: Seq<Seq<char>>, anchor: int, frag: Seq<Seq<char>>)
    requires
        0 <= anchor <= buf.len(),
        free_of_markers(buf),
        free_of_markers(frag),
    ensures
        free_of_markers(splice(buf, anchor, frag)),
{
    let start = window_start(anchor);
    let rest = start + replace_count(buf.len() as int, anchor, frag.len() as int);
    let r = splice(buf, anchor, frag);
    assert forall|i: int| 0 <= i < r.len() implies !is_marker(#[trigger] r[i]) by {
        if i < buf.take(start).len() {
            assert(r[i] == buf.take(start)[i]);
        } else if i < buf.take(start).len() + frag.len() {
            assert(r[i] == frag[i - buf.take(start).len()]);
        } else {
            assert(r[i] == buf.skip(rest)[i - buf.take(start).len() - frag.len()]);
        }
    }
}

proof fn lemma_apply_all_free_of_markers(buf: Seq<Seq<char>>, frags: Seq<Seq<Seq<char>>>)
    requires
        free_of_markers(buf),
        forall|i: int| 0 <= i < frags.len() ==> free_of_markers(#[trigger] frags[i]),
    ensures
        free_of_markers(apply_all(buf, frags)),
    decreases frags.len(),
{
    if frags.len() > 0 {
        let p = frags.drop_last();
        assert forall|i: int| 0 <= i < p.len() implies free_of_markers(#[trigger] p[i]) by {
            assert(p[i] == frags[i]);
        }
        lemma_apply_all_free_of_markers(buf, p);
        let b = apply_all(buf, p);
        crate::anchor::lemma_anchor_in_range(frags.last(), b);
        lemma_splice_free_of_markers(b, anchor_of(frags.last(), b), frags.last());
    }
}

/// Applying an edit specification that holds a line other than a marker leaves no
/// marker line in a buffer that had none.
pub proof fn lemma_edit_leaves_no_markers(original: Seq<Seq<char>>, edit_lines: Seq<Seq<char>>)
    requires
        free_of_markers(original),
        exists|j: int| 0 <= j < edit_lines.len() && !is_marker(#[trigger] edit_lines[j]),
    ensures
        free_of_markers(apply_all(original, fragments_of(edit_lines, marker_flags(edit_lines)))),
{
    lemma_fragments_free_of_markers(edit_lines);
    lemma_apply_all_free_of_markers(original, fragments_of(edit_lines, marker_flags(edit_lines)));
}

/// Anchors and splices each fragment in order onto a shared working buffer.
pub fn apply_fragments(lines: Vec<String>, blocks: &Vec<Vec<String>>) -> (r: Vec<String>)
    ensures
        views(r@) == apply_all(views(lines@), fragment_views(blocks@)),
{
    let ghost frags = fragment_views(blocks@);
    let mut buffer = lines;
    let ghost start = views(buffer@);
    let mut i: usize = 0;
    proof {
        assert(frags.take(0).len() == 0);
    }
    while i < blocks.len()
        invariant
            frags == fragment_views(blocks@),
            i <= blocks@.len(),
            views(buffer@) == apply_all(start, frags.take(i as int)),
        decreases blocks@.len() - i,
    {
        let block = &blocks[i];
        let anchor = find_best_match_position(block, &buffer);
        buffer = splice_block(&buffer, anchor, block);
        proof {
            let p = frags.take(i + 1);
            assert(p.drop_last() == frags.take(i as int));
            assert(p.last() == views(blocks@[i as int]@));
        }
        i = i + 1;
    }
    proof {
        assert(frags.take(i as int) == frags);
    }
    buffer
}

/// The text that `code_edit` makes of `original`: its fragments, split at elision
/// markers, are anchored and spliced in order, and the lines joined with `'\n'`.
pub fn apply_edit(original: &str, code_edit: &str) -> (r: String)
    ensures
        r@ == edited_text(original@, code_edit@),
{
    let edit_lines = split_lines(code_edit);
    let markers = marker_lines(&edit_lines);
    apply_marked_edit(original, &edit_lines, &markers)
}

/// The text that the lines of an edit specification make of `original`, given which
/// of those lines are elision markers.
pub fn apply_marked_edit(original: &str, edit_lines: &Vec<String>, markers: &Vec<bool>) -> (r: String)
    requires
        markers@.len() == edit_lines@.len(),
    ensures
        r@ == join_lines(apply_all(lines_of(original@), fragments_of(views(edit_lines@), markers@))),
{
    let blocks = segment_marked(edit_lines, markers);
    let lines = split_lines(original);
    let result = apply_fragments(lines, &blocks);
    join(&result)
}

/// The outcome of an edit: whether it succeeded, the file, whether the file was
/// created, and the change as tagged lines.
#[derive(Clone, Debug)]
pub struct EditResult {
    pub success: bool,
    pub file: String,
    pub is_new: bool,
    pub changes: Vec<DiffLine>,
}

impl EditResult {
    /// The changes as displayed, one string per diff line.
    pub fn rendered_changes(&self) -> (r: Vec<String>)
        ensures
            r@.len() == self.changes@.len(),
            forall|i: int| 0 <= i < r@.len() ==> #[trigger] r@[i]@ == crate::diff::tag_prefix(self.changes@[i].tag) + self.changes@[i].text@,
    {
        let mut r: Vec<String> = Vec::new();
        let mut i: usize = 0;
        while i < self.changes.len()
            invariant
                i <= self.changes@.len(),
                r@.len() == i,
                forall|j: int| 0 <= j < i ==> #[trigger] r@[j]@ == crate::diff::tag_prefix(self.changes@[j].tag) + self.changes@[j].text@,
            decreases self.changes@.len() - i,
        {
            r.push(self.changes[i].render());
            i = i + 1;
        }
        r
    }
}

/// What to write to the target file, and the outcome to report.
#[derive(Clone, Debug)]
pub struct EditPlan {
    pub content: String,
    pub result: EditResult,
}

/// Plans an edit of `target_file`, whose current content is `existing` (`None` when
/// the file does not exist). A missing file is created with `code_edit` verbatim and
/// every line reported as added; an existing one gets the fragments of `code_edit`
/// spliced in, and the diff from the old content to the new.
pub fn plan_edit(target_file: &str, existing: Option<&str>, code_edit: &str) -> (r: EditPlan)
    ensures
        r.result.success,
        r.result.file@ == target_file@,
        existing is None ==> (r.content@ == code_edit@ && r.result.is_new
            && diff_view(r.result.changes@) == lines_of(code_edit@).map_values(
                |l: Seq<char>| (DiffTag::Added, l),
            )),
        existing matches Some(o) ==> (r.content@ == edited_text(o@, code_edit@)
            && !r.result.is_new
            && old_side(diff_view(r.result.changes@)) == o@
            && new_side(diff_view(r.result.changes@)) == r.content@
            && side_lines(diff_view(r.result.changes@), DiffTag::Added) == line_tokens(o@)
            && side_lines(diff_view(r.result.changes@), DiffTag::Removed) == line_tokens(r.content@)
            && unchanged_count(diff_view(r.result.changes@)) == lcs_len(line_tokens(o@), line_tokens(r.content@))),
{
    match existing {
        None => {
            let lines = split_lines(code_edit);
            let changes = all_added(&lines);
            proof {
                assert(diff_view(changes@) == lines_of(code_edit@).map_values(
                    |l: Seq<char>| (DiffTag::Added, l),
                ));
            }
            let result = EditResult {
                success: true,
                file: String::from_str(target_file),
                is_new: true,
                changes,
            };
            EditPlan { content: String::from_str(code_edit), result }
        },
        Some(original) => {
            let content = apply_edit(original, code_edit);
            let changes = diff_lines(original, content.as_str());
            let result = EditResult {
                success: true,
                file: String::from_str(target_file),
                is_new: false,
                changes,
            };
            EditPlan { content, result }
        },
    }
}

} // verus!
