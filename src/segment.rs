//! Splits an edit specification into literal fragments at elision-marker lines.
use vstd::prelude::*;
use crate::text::{lines_of, split_lines, views};

verus! {

/// A line that stands for "unchanged code here": a `//` comment saying
/// `... existing code ...`, in any case and spacing.
pub const ELISION_MARKER: &'static str = "(?i)//\\s*\\.\\.\\.\\s*existing\\s*code\\s*\\.\\.\\.\\s*";

/// The compile error of `regex::Regex::new`, carried as an opaque value.
#[verifier::external_type_specification]
#[verifier::external_body]
pub struct ExRegexError(regex::Error);

/// Whether `pattern`, as a regular expression, matches somewhere in `text`.
pub uninterp spec fn regex_matches(pattern: Seq<char>, text: Seq<char>) -> bool;

/// Relies on `regex::Regex::new` and `regex::Regex::is_match`: compiles `pattern` and
/// reports whether it matches somewhere in `text`, or the compile error. The elision
/// marker is a valid pattern far below the default size limit, so it always compiles.
#[verifier::external_body]
fn pattern_matches(pattern: &str, text: &str) -> (r: Result<bool, regex::Error>)
    ensures
        r matches Ok(b) ==> b == regex_matches(pattern@, text@),
        pattern@ == ELISION_MARKER@ ==> r is Ok,
{
    match regex::Regex::new(pattern) {
        Ok(re) => Ok(re.is_match(text)),
        Err(e) => Err(e),
    }
}

/// Whether a line is an elision marker.
pub open spec fn is_marker(line: Seq<char>) -> bool {
    regex_matches(ELISION_MARKER@, line)
}

/// For each line, whether it is an elision marker.
pub open spec fn marker_flags(lines: Seq<Seq<char>>) -> Seq<bool> {
    Seq::new(lines.len(), |i: int| is_marker(lines[i]))
}

/// Scans lines left to right: the fragments closed so far, and the open one.
pub open spec fn segment_state(lines: Seq<Seq<char>>, flags: Seq<bool>) -> (Seq<Seq<Seq<char>>>, Seq<Seq<char>>)
    decreases lines.len(),
{
    if lines.len() == 0 {
        (Seq::empty(), Seq::empty())
    } else {
        let (closed, open) = segment_state(lines.drop_last(), flags.take(lines.len() - 1));
        if flags[lines.len() - 1] {
            if open.len() > 0 {
                (closed.push(open), Seq::empty())
            } else {
                (closed, open)
            }
        } else {
            (closed, open.push(lines.last()))
        }
    }
}

/// The non-empty runs of non-marker lines, in order; the whole text as one fragment
/// when there are none but the text has lines.
pub open spec fn fragments_of(lines: Seq<Seq<char>>, flags: Seq<bool>) -> Seq<Seq<Seq<char>>> {
    let (closed, open) = segment_state(lines, flags);
    let all = if open.len() > 0 { closed.push(open) } else { closed };
    if all.len() == 0 && lines.len() > 0 {
        seq![lines]
    } else {
        all
    }
}

/// The lines that are not markers, in order.
pub open spec fn unmarked(lines: Seq<Seq<char>>, flags: Seq<bool>) -> Seq<Seq<char>>
    decreases lines.len(),
{
    if lines.len() == 0 {
        Seq::empty()
    } else {
        let rest = unmarked(lines.drop_last(), flags.take(lines.len() - 1));
        if flags[lines.len() - 1] {
            rest
        } else {
            rest.push(lines.last())
        }
    }
}

/// The fragments' lines, one fragment after another.
pub open spec fn flatten(frags: Seq<Seq<Seq<char>>>) -> Seq<Seq<char>>
    decreases frags.len(),
{
    if frags.len() == 0 {
        Seq::empty()
    } else {
        flatten(frags.drop_last()) + frags.last()
    }
}

proof fn lemma_segment_state_keeps_unmarked(lines: Seq<Seq<char>>, flags: Seq<bool>)
    requires
        flags.len() == lines.len(),
    ensures
        flatten(segment_state(lines, flags).0) + segment_state(lines, flags).1 == unmarked(lines, flags),
        forall|i: int| 0 <= i < segment_state(lines, flags).0.len() ==> #[trigger] segment_state(lines, flags).0[i].len() > 0,
    decreases lines.len(),
{
    if lines.len() > 0 {
        let p = lines.drop_last();
        let pf = flags.take(lines.len() - 1);
        lemma_segment_state_keeps_unmarked(p, pf);
        let (closed, open) = segment_state(p, pf);
        if flags[lines.len() - 1] {
            if open.len() > 0 {
                assert(closed.push(open).drop_last() == closed);
                assert(flatten(closed.push(open)) + Seq::<Seq<char>>::empty() == flatten(closed) + open);
            }
        } else {
            assert(flatten(closed) + open.push(lines.last()) == (flatten(closed) + open).push(lines.last()));
        }
    }
}

/// Fragments hold exactly the lines that are not markers, in their order; only a text
/// made of markers alone comes back whole, as one fragment.
pub proof fn lemma_fragments_are_unmarked_lines(lines: Seq<Seq<char>>, flags: Seq<bool>)
    requires
        flags.len() == lines.len(),
    ensures
        unmarked(lines, flags).len() > 0 ==> flatten(fragments_of(lines, flags)) == unmarked(lines, flags),
        unmarked(lines, flags).len() == 0 && lines.len() > 0 ==> fragments_of(lines, flags) == seq![lines],
        lines.len() == 0 ==> fragments_of(lines, flags).len() == 0,
{
    lemma_segment_state_keeps_unmarked(lines, flags);
    let (closed, open) = segment_state(lines, flags);
    if open.len() > 0 {
        assert(closed.push(open).drop_last() == closed);
    } else {
        assert(flatten(closed) + open == flatten(closed));
    }
    if closed.len() > 0 {
        assert(closed.last().len() > 0);
        assert(flatten(closed).len() > 0);
    }
}

/// No line is an elision marker.
pub open spec fn free_of_markers(lines: Seq<Seq<char>>) -> bool {
    forall|i: int| 0 <= i < lines.len() ==> !is_marker(#[trigger] lines[i])
}

proof fn lemma_segment_state_free_of_markers(lines: Seq<Seq<char>>)
    ensures
        free_of_markers(segment_state(lines, marker_flags(lines)).1),
        forall|i: int| 0 <= i < segment_state(lines, marker_flags(lines)).0.len()
            ==> free_of_markers(#[trigger] segment_state(lines, marker_flags(lines)).0[i]),
    decreases lines.len(),
{
    if lines.len() > 0 {
        let p = lines.drop_last();
        assert(marker_flags(lines).take(lines.len() - 1) == marker_flags(p));
        lemma_segment_state_free_of_markers(p);
        let (closed, open) = segment_state(p, marker_flags(p));
        if !marker_flags(lines)[lines.len() - 1] {
            assert(!is_marker(lines.last()));
            let o = open.push(lines.last());
            assert forall|i: int| 0 <= i < o.len() implies !is_marker(#[trigger] o[i]) by {
                if i < open.len() {
                    assert(o[i] == open[i]);
                }
            }
        } else if open.len() > 0 {
            let c = closed.push(open);
            assert forall|i: int| 0 <= i < c.len() implies free_of_markers(#[trigger] c[i]) by {
                if i < closed.len() {
                    assert(c[i] == closed[i]);
                }
            }
        }
    }
}

/// When an edit specification holds a line that is not a marker, none of its
/// fragments holds a marker line.
pub proof fn lemma_fragments_free_of_markers(lines: Seq<Seq<char>>)
    requires
        exists|j: int| 0 <= j < lines.len() && !is_marker(#[trigger] lines[j]),
    ensures
        forall|i: int| 0 <= i < fragments_of(lines, marker_flags(lines)).len()
            ==> free_of_markers(#[trigger] fragments_of(lines, marker_flags(lines))[i]),
{
    lemma_segment_state_free_of_markers(lines);
    lemma_segment_state_keeps_unmarked(lines, marker_flags(lines));
    lemma_unmarked_nonempty(lines, marker_flags(lines));
    let (closed, open) = segment_state(lines, marker_flags(lines));
    if open.len() > 0 {
        let c = closed.push(open);
        assert forall|i: int| 0 <= i < c.len() implies free_of_markers(#[trigger] c[i]) by {
            if i < closed.len() {
                assert(c[i] == closed[i]);
            }
        }
    } else if closed.len() == 0 {
        assert(flatten(closed) + open == Seq::<Seq<char>>::empty());
    }
}

proof fn lemma_unmarked_nonempty(lines: Seq<Seq<char>>, flags: Seq<bool>)
    requires
        flags == marker_flags(lines),
        exists|j: int| 0 <= j < lines.len() && !is_marker(#[trigger] lines[j]),
    ensures
        unmarked(lines, flags).len() > 0,
    decreases lines.len(),
{
    let p = lines.drop_last();
    assert(flags.take(lines.len() - 1) == marker_flags(p));
    if is_marker(lines.last()) {
        let j = choose|j: int| 0 <= j < lines.len() && !is_marker(#[trigger] lines[j]);
        assert(j < lines.len() - 1);
        assert(p[j] == lines[j]);
        lemma_unmarked_nonempty(p, marker_flags(p));
    }
}

/// The views of a vector of fragments.
pub open spec fn fragment_views(v: Seq<Vec<String>>) -> Seq<Seq<Seq<char>>> {
    v.map_values(|b: Vec<String>| views(b@))
}

/// Splits `lines` into fragments, given which of them are elision markers.
pub fn segment_marked(lines: &Vec<String>, markers: &Vec<bool>) -> (r: Vec<Vec<String>>)
    requires
        markers@.len() == lines@.len(),
    ensures
        fragment_views(r@) == fragments_of(views(lines@), markers@),
{
    let ghost ls = views(lines@);
    let mut closed: Vec<Vec<String>> = Vec::new();
    let mut open: Vec<String> = Vec::new();
    let mut i: usize = 0;
    proof {
        assert(ls.take(0).len() == 0);
    }
    while i < lines.len()
        invariant
            ls == views(lines@),
            markers@.len() == lines@.len(),
            i <= lines@.len(),
            segment_state(ls.take(i as int), markers@.take(i as int)) == (fragment_views(closed@), views(open@)),
        decreases lines@.len() - i,
    {
        proof {
            let p = ls.take(i + 1);
            assert(p.drop_last() == ls.take(i as int));
            assert(markers@.take(i + 1).take(i as int) == markers@.take(i as int));
            assert(p.last() == lines@[i as int]@);
        }
        if markers[i] {
            if open.len() > 0 {
                let ghost before = closed@;
                closed.push(open);
                open = Vec::new();
                proof {
                    assert(closed@.drop_last() == before);
                    assert(fragment_views(closed@) == fragment_views(before).push(closed@.last()@.map_values(|s: String| s@)));
                    assert(views(open@) == Seq::<Seq<char>>::empty());
                }
            }
        } else {
            let ghost before = open@;
            open.push(lines[i].clone());
            proof {
                assert(open@.drop_last() == before);
                assert(views(open@) == views(before).push(lines@[i as int]@));
            }
        }
        i = i + 1;
    }
    proof {
        assert(ls.take(i as int) == ls);
        assert(markers@.take(i as int) == markers@);
    }
    if open.len() > 0 {
        let ghost before = closed@;
        closed.push(open);
        proof {
            assert(closed@.drop_last() == before);
            assert(fragment_views(closed@) == fragment_views(before).push(closed@.last()@.map_values(|s: String| s@)));
        }
    }
    if closed.len() == 0 && lines.len() > 0 {
        let mut whole: Vec<Vec<String>> = Vec::new();
        whole.push(lines.clone());
        proof {
            assert(fragment_views(whole@) == seq![ls]);
        }
        return whole;
    }
    closed
}

/// For each line, whether it is an elision marker.
pub fn marker_lines(lines: &Vec<String>) -> (r: Vec<bool>)
    ensures
        r@ == marker_flags(views(lines@)),
{
    let ghost ls = views(lines@);
    let mut markers: Vec<bool> = Vec::new();
    let mut i: usize = 0;
    while i < lines.len()
        invariant
            views(lines@) == ls,
            i <= lines@.len(),
            markers@ == marker_flags(ls).take(i as int),
        decreases lines@.len() - i,
    {
        let matched = pattern_matches(ELISION_MARKER, lines[i].as_str());
        let b = match matched {
            Ok(b) => b,
            Err(_) => {
                proof {
                    assert(false);
                }
                false
            },
        };
        markers.push(b);
        proof {
            assert(marker_flags(ls).take(i + 1) == marker_flags(ls).take(i as int).push(b));
        }
        i = i + 1;
    }
    proof {
        assert(marker_flags(ls).take(i as int) == marker_flags(ls));
    }
    markers
}

/// Splits an edit specification into its literal fragments at elision-marker lines.
pub fn segment_edit(code_edit: &str) -> (r: Vec<Vec<String>>)
    ensures
        fragment_views(r@) == fragments_of(lines_of(code_edit@), marker_flags(lines_of(code_edit@))),
{
    let lines = split_lines(code_edit);
    let markers = marker_lines(&lines);
    segment_marked(&lines, &markers)
}

} // verus!
