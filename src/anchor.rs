//! Locates where a fragment belongs in the working buffer: first exact match of its
//! first non-blank line, else the most similar line when similar enough, else the top.
use vstd::prelude::*;
use crate::text::{is_blank, line_is_blank, views};
use crate::similarity::{
    similarity, score_gt, above_threshold, similarity_score, greater_than, exceeds_threshold,
};

verus! {

/// The index of the first line satisfying `p`, or `s.len()` when there is none.
pub open spec fn first_where(s: Seq<Seq<char>>, p: spec_fn(Seq<char>) -> bool) -> int
    decreases s.len(),
{
    if s.len() == 0 {
        0
    } else {
        let r = first_where(s.drop_last(), p);
        if r < s.len() - 1 || p(s.last()) {
            r
        } else {
            s.len() as int
        }
    }
}

/// Holds of lines that are not blank.
pub open spec fn nonblank_line() -> spec_fn(Seq<char>) -> bool {
    |l: Seq<char>| !is_blank(l)
}

/// Holds of lines equal to `t`.
pub open spec fn equal_line(t: Seq<char>) -> spec_fn(Seq<char>) -> bool {
    |l: Seq<char>| l == t
}

/// The first line of a fragment that is not blank, or its length when all are blank.
pub open spec fn first_nonblank(frag: Seq<Seq<char>>) -> int {
    first_where(frag, nonblank_line())
}

/// The first buffer line equal to `t`, or the buffer's length when none is.
pub open spec fn first_equal(buf: Seq<Seq<char>>, t: Seq<char>) -> int {
    first_where(buf, equal_line(t))
}

/// The first index whose similarity to `t` is maximal (0 for an empty buffer).
pub open spec fn best_index(buf: Seq<Seq<char>>, t: Seq<char>) -> int
    decreases buf.len(),
{
    if buf.len() <= 1 {
        0
    } else {
        let r = best_index(buf.drop_last(), t);
        if score_gt(similarity(buf.last(), t), similarity(buf[r], t)) {
            buf.len() - 1
        } else {
            r
        }
    }
}

/// The anchor of a fragment in a buffer.
pub open spec fn anchor_of(frag: Seq<Seq<char>>, buf: Seq<Seq<char>>) -> int {
    let k = first_nonblank(frag);
    if k >= frag.len() {
        0
    } else {
        let t = frag[k];
        let e = first_equal(buf, t);
        if e < buf.len() {
            e
        } else if buf.len() > 0 && above_threshold(similarity(buf[best_index(buf, t)], t)) {
            best_index(buf, t)
        } else {
            0
        }
    }
}

/// What `first_where` returns: no earlier line satisfies `p`, and the index found does.
pub proof fn lemma_first_where(s: Seq<Seq<char>>, p: spec_fn(Seq<char>) -> bool)
    ensures
        0 <= first_where(s, p) <= s.len(),
        first_where(s, p) < s.len() ==> p(s[first_where(s, p)]),
        forall|j: int| 0 <= j < first_where(s, p) ==> !p(#[trigger] s[j]),
    decreases s.len(),
{
    if s.len() > 0 {
        lemma_first_where(s.drop_last(), p);
        let r = first_where(s.drop_last(), p);
        assert forall|j: int| 0 <= j < first_where(s, p) implies !p(#[trigger] s[j]) by {
            if j < s.len() - 1 {
                assert(s.drop_last()[j] == s[j]);
            }
        }
        if r < s.len() - 1 {
            assert(s.drop_last()[r] == s[r]);
        }
    }
}

/// Once a prefix holds a match, longer prefixes find the same one.
proof fn lemma_first_where_prefix(s: Seq<Seq<char>>, p: spec_fn(Seq<char>) -> bool, k: int)
    requires
        0 <= k <= s.len(),
        first_where(s.take(k), p) < k,
    ensures
        first_where(s, p) == first_where(s.take(k), p),
    decreases s.len() - k,
{
    if k < s.len() {
        assert(s.take(k + 1).drop_last() == s.take(k));
        lemma_first_where_prefix(s, p, k + 1);
    } else {
        assert(s.take(k) == s);
    }
}

/// Properties of `best_index`: it is in range, no line scores higher, and every
/// earlier line scores strictly lower.
pub proof fn lemma_best_index(buf: Seq<Seq<char>>, t: Seq<char>)
    requires
        buf.len() > 0,
    ensures
        0 <= best_index(buf, t) < buf.len(),
        forall|j: int| 0 <= j < buf.len() ==> !score_gt(#[trigger] similarity(buf[j], t), similarity(buf[best_index(buf, t)], t)),
        forall|j: int| 0 <= j < best_index(buf, t) ==> score_gt(similarity(buf[best_index(buf, t)], t), #[trigger] similarity(buf[j], t)),
    decreases buf.len(),
{
    if buf.len() > 1 {
        let p = buf.drop_last();
        lemma_best_index(p, t);
        let r = best_index(p, t);
        let x = similarity(buf.last(), t);
        let y = similarity(buf[r], t);
        assert(p[r] == buf[r]);
        assert forall|j: int| 0 <= j < buf.len() - 1 implies #[trigger] similarity(buf[j], t) == similarity(p[j], t) by {
            assert(p[j] == buf[j]);
        }
        if score_gt(x, y) {
            assert forall|j: int| 0 <= j < buf.len() implies !score_gt(#[trigger] similarity(buf[j], t), x) by {
                if j < buf.len() - 1 {
                    let z = similarity(buf[j], t);
                    assert(!score_gt(z, y));
                    assert(z.0 * y.1 <= y.0 * z.1);
                    assert(y.0 * x.1 < x.0 * y.1);
                    lemma_score_order(z, y, x);
                }
            }
            assert forall|j: int| 0 <= j < buf.len() - 1 implies score_gt(x, #[trigger] similarity(buf[j], t)) by {
                let z = similarity(buf[j], t);
                lemma_score_order(z, y, x);
            }
        }
    }
}

/// Scores are fractions with positive denominators.
pub proof fn lemma_similarity_denominator(a: Seq<char>, b: Seq<char>)
    ensures
        similarity(a, b).1 > 0,
        similarity(a, b).0 <= similarity(a, b).1,
{
    crate::similarity::lemma_edit_distance_bound(a, b);
}

/// If `z <= y < x` as fractions with positive denominators, then `z < x`.
proof fn lemma_score_order(z: (nat, nat), y: (nat, nat), x: (nat, nat))
    requires
        z.1 > 0,
        y.1 > 0,
        x.1 > 0,
        !score_gt(z, y),
        score_gt(x, y),
    ensures
        score_gt(x, z),
        !score_gt(z, x),
{
    assert(score_gt(x, z)) by (nonlinear_arith)
        requires
            z.1 > 0,
            y.1 > 0,
            x.1 > 0,
            z.0 * y.1 <= y.0 * z.1,
            x.0 * y.1 > y.0 * x.1,
    ;
}

/// When the fragment's first non-blank line `frag[k]` equals buffer lines, the anchor is
/// the smallest index `i` of such a line.
pub proof fn lemma_exact_anchor_is_first_match(frag: Seq<Seq<char>>, buf: Seq<Seq<char>>, k: int, i: int)
    requires
        0 <= k < frag.len(),
        !is_blank(frag[k]),
        forall|j: int| 0 <= j < k ==> is_blank(#[trigger] frag[j]),
        0 <= i < buf.len(),
        buf[i] == frag[k],
        forall|j: int| 0 <= j < i ==> #[trigger] buf[j] != frag[k],
    ensures
        anchor_of(frag, buf) == i,
{
    lemma_first_where(frag, nonblank_line());
    let f = first_nonblank(frag);
    assert(nonblank_line()(frag[k]));
    if f < k {
        assert(is_blank(frag[f]));
    }
    assert(f == k);
    lemma_first_where(buf, equal_line(frag[k]));
    let e = first_equal(buf, frag[k]);
    assert(equal_line(frag[k])(buf[i]));
    if e < i {
        assert(buf[e] != frag[k]);
    }
    assert(e == i);
}

/// When the fragment's first non-blank line `frag[k]` equals exactly one buffer line
/// `buf[i]`, the anchor is `i`.
pub proof fn lemma_exact_anchor_unique(frag: Seq<Seq<char>>, buf: Seq<Seq<char>>, k: int, i: int)
    requires
        0 <= k < frag.len(),
        !is_blank(frag[k]),
        forall|j: int| 0 <= j < k ==> is_blank(#[trigger] frag[j]),
        0 <= i < buf.len(),
        buf[i] == frag[k],
        forall|j: int| 0 <= j < buf.len() && j != i ==> #[trigger] buf[j] != frag[k],
    ensures
        anchor_of(frag, buf) == i,
{
    lemma_exact_anchor_is_first_match(frag, buf, k, i);
}

/// When no buffer line equals the fragment's first non-blank line `frag[k]`, the anchor
/// is either a line of greatest similarity to it, above three fifths, with every
/// earlier line strictly less similar; or 0, when no line is similar above three fifths.
pub proof fn lemma_fuzzy_anchor(frag: Seq<Seq<char>>, buf: Seq<Seq<char>>, k: int)
    requires
        0 <= k < frag.len(),
        !is_blank(frag[k]),
        forall|j: int| 0 <= j < k ==> is_blank(#[trigger] frag[j]),
        forall|j: int| 0 <= j < buf.len() ==> #[trigger] buf[j] != frag[k],
    ensures
        ({
            let r = anchor_of(frag, buf);
            let t = frag[k];
            if exists|j: int| 0 <= j < buf.len() && above_threshold(#[trigger] similarity(buf[j], t)) {
                &&& 0 <= r < buf.len()
                &&& above_threshold(similarity(buf[r], t))
                &&& forall|j: int| 0 <= j < buf.len() ==> !score_gt(#[trigger] similarity(buf[j], t), similarity(buf[r], t))
                &&& forall|j: int| 0 <= j < r ==> score_gt(similarity(buf[r], t), #[trigger] similarity(buf[j], t))
            } else {
                r == 0
            }
        }),
{
    let t = frag[k];
    lemma_first_where(frag, nonblank_line());
    let f = first_nonblank(frag);
    assert(nonblank_line()(frag[k]));
    if f < k {
        assert(is_blank(frag[f]));
    }
    assert(f == k);
    lemma_first_where(buf, equal_line(t));
    let e = first_equal(buf, t);
    if e < buf.len() {
        assert(equal_line(t)(buf[e]));
        assert(buf[e] != frag[k]);
    }
    if exists|j: int| 0 <= j < buf.len() && above_threshold(#[trigger] similarity(buf[j], t)) {
        let j = choose|j: int| 0 <= j < buf.len() && above_threshold(#[trigger] similarity(buf[j], t));
        lemma_best_index(buf, t);
        let b = best_index(buf, t);
        let x = similarity(buf[j], t);
        let y = similarity(buf[b], t);
        lemma_similarity_denominator(buf[j], t);
        lemma_similarity_denominator(buf[b], t);
        assert(!score_gt(x, y));
        assert(above_threshold(y)) by (nonlinear_arith)
            requires
                x.1 > 0,
                y.1 > 0,
                x.0 * y.1 <= y.0 * x.1,
                5 * x.0 > 3 * x.1,
        ;
    } else if buf.len() > 0 {
        lemma_best_index(buf, t);
        let b = best_index(buf, t);
        assert(!above_threshold(similarity(buf[b], t)));
    }
}

/// An anchor is 0 or an index of the buffer.
pub proof fn lemma_anchor_in_range(frag: Seq<Seq<char>>, buf: Seq<Seq<char>>)
    ensures
        anchor_of(frag, buf) == 0 || 0 <= anchor_of(frag, buf) < buf.len(),
{
    lemma_first_where(frag, nonblank_line());
    let k = first_nonblank(frag);
    if k < frag.len() {
        lemma_first_where(buf, equal_line(frag[k]));
        if buf.len() > 0 {
            lemma_best_index(buf, frag[k]);
        }
    }
}

/// A fragment whose lines are all blank anchors at 0.
pub proof fn lemma_blank_fragment_anchors_at_top(frag: Seq<Seq<char>>, buf: Seq<Seq<char>>)
    requires
        forall|j: int| 0 <= j < frag.len() ==> is_blank(#[trigger] frag[j]),
    ensures
        anchor_of(frag, buf) == 0,
{
    lemma_first_where(frag, nonblank_line());
    let f = first_nonblank(frag);
    if f < frag.len() {
        assert(nonblank_line()(frag[f]));
    }
}

/// The index of the first non-blank line, or the length when all are blank.
fn first_nonblank_index(block: &Vec<String>) -> (k: usize)
    ensures
        k == first_nonblank(views(block@)),
        k <= block@.len(),
{
    let ghost frag = views(block@);
    let mut k: usize = 0;
    proof {
        assert(frag.take(0).len() == 0);
    }
    while k < block.len()
        invariant
            frag == views(block@),
            k <= block@.len(),
            first_where(frag.take(k as int), nonblank_line()) == k,
        decreases block@.len() - k,
    {
        proof {
            assert(frag.take(k + 1).drop_last() == frag.take(k as int));
            assert(frag.take(k + 1).last() == block@[k as int]@);
            assert(frag.take(k + 1).len() == k + 1);
            assert(first_where(frag.take(k + 1), nonblank_line()) == if nonblank_line()(block@[k as int]@) { k as int } else { k + 1 });
        }
        if !line_is_blank(block[k].as_str()) {
            proof {
                assert(!is_blank(block@[k as int]@));
                assert(nonblank_line()(block@[k as int]@));
                lemma_first_where_prefix(frag, nonblank_line(), k + 1);
            }
            return k;
        }
        k = k + 1;
    }
    proof {
        assert(frag.take(k as int) == frag);
    }
    k
}

/// The index of the first line equal to `target`, or the length when none is.
fn first_equal_index(lines: &Vec<String>, target: &String) -> (e: usize)
    ensures
        e == first_equal(views(lines@), target@),
        e <= lines@.len(),
{
    let ghost buf = views(lines@);
    let n = lines.len();
    let mut i: usize = 0;
    proof {
        assert(buf.take(0).len() == 0);
    }
    while i < n
        invariant
            buf == views(lines@),
            n == buf.len(),
            i <= n,
            first_where(buf.take(i as int), equal_line(target@)) == i,
        decreases n - i,
    {
        proof {
            assert(buf.take(i + 1).drop_last() == buf.take(i as int));
            assert(buf.take(i + 1).last() == lines@[i as int]@);
            assert(buf.take(i + 1).len() == i + 1);
            assert(first_where(buf.take(i + 1), equal_line(target@)) == if equal_line(target@)(lines@[i as int]@) { i as int } else { i + 1 });
        }
        if lines[i] == *target {
            proof {
                assert(lines@[i as int]@ == target@);
                assert(equal_line(target@)(lines@[i as int]@));
                lemma_first_where_prefix(buf, equal_line(target@), i + 1);
            }
            return i;
        }
        i = i + 1;
    }
    proof {
        assert(buf.take(n as int) == buf);
    }
    n
}

/// The anchor index of `block` in `original_lines`: the first line equal to the block's
/// first non-blank line; failing that, the first most similar line when its similarity
/// exceeds three fifths; failing that, 0.
pub fn find_best_match_position(block: &Vec<String>, original_lines: &Vec<String>) -> (r: usize)
    ensures
        r == anchor_of(views(block@), views(original_lines@)),
        r == 0 || r < original_lines@.len(),
{
    let k = first_nonblank_index(block);
    if k == block.len() {
        return 0;
    }
    let ghost buf = views(original_lines@);
    let ghost t = views(block@)[k as int];
    let target = block[k].as_str();
    let e = first_equal_index(original_lines, &block[k]);
    if e < original_lines.len() {
        return e;
    }
    let n = original_lines.len();
    if n == 0 {
        return 0;
    }
    let mut best: usize = 0;
    let mut best_score = similarity_score(original_lines[0].as_str(), target);
    let mut i: usize = 1;
    proof {
        assert(buf.take(1).len() == 1);
    }
    while i < n
        invariant
            buf == views(original_lines@),
            n == buf.len(),
            t == target@,
            1 <= i <= n,
            best == best_index(buf.take(i as int), t),
            best < i,
            best_score.view_pair() == similarity(buf[best as int], t),
        decreases n - i,
    {
        let score = similarity_score(original_lines[i].as_str(), target);
        proof {
            let p = buf.take(i + 1);
            assert(p.drop_last() == buf.take(i as int));
            assert(p.last() == buf[i as int]);
            assert(p[best as int] == buf[best as int]);
        }
        if greater_than(score, best_score) {
            best = i;
            best_score = score;
        }
        i = i + 1;
    }
    proof {
        assert(buf.take(n as int) == buf);
    }
    if exceeds_threshold(best_score) {
        best
    } else {
        0
    }
}

} // verus!
