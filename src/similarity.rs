//! Normalised Levenshtein similarity between two lines.
use vstd::prelude::*;
use crate::text::chars_of;

verus! {

pub open spec fn min_nat(x: nat, y: nat) -> nat {
    if x <= y { x } else { y }
}

pub open spec fn max_nat(x: nat, y: nat) -> nat {
    if x >= y { x } else { y }
}

/// The Levenshtein distance: the fewest single-character insertions, deletions and
/// substitutions that turn `a` into `b`.
pub open spec fn edit_distance(a: Seq<char>, b: Seq<char>) -> nat
    decreases a.len() + b.len(),
{
    if a.len() == 0 {
        b.len()
    } else if b.len() == 0 {
        a.len()
    } else {
        let cost: nat = if a.last() == b.last() { 0 } else { 1 };
        min_nat(
            min_nat(edit_distance(a.drop_last(), b) + 1, edit_distance(a, b.drop_last()) + 1),
            edit_distance(a.drop_last(), b.drop_last()) + cost,
        )
    }
}

/// A similarity score `shared / total` in `[0, 1]`.
#[derive(Clone, Copy, Debug, PartialEq, Eq, Structural)]
pub struct Similarity {
    pub shared: usize,
    pub total: usize,
}

impl Similarity {
    pub open spec fn view_pair(self) -> (nat, nat) {
        (self.shared as nat, self.total as nat)
    }
}

/// `1 - editDistance(a, b) / max(|a|, |b|)` as the fraction `(numerator, denominator)`;
/// `1/1` when both are empty.
pub open spec fn similarity(a: Seq<char>, b: Seq<char>) -> (nat, nat) {
    let m = max_nat(a.len(), b.len());
    if m == 0 {
        (1, 1)
    } else {
        ((m - edit_distance(a, b)) as nat, m)
    }
}

/// Score `x` is strictly greater than score `y`.
pub open spec fn score_gt(x: (nat, nat), y: (nat, nat)) -> bool {
    x.0 * y.1 > y.0 * x.1
}

/// A score strictly above three fifths.
pub open spec fn above_threshold(x: (nat, nat)) -> bool {
    5 * x.0 > 3 * x.1
}

pub proof fn lemma_edit_distance_bound(a: Seq<char>, b: Seq<char>)
    ensures
        edit_distance(a, b) <= max_nat(a.len(), b.len()),
    decreases a.len() + b.len(),
{
    if a.len() > 0 && b.len() > 0 {
        lemma_edit_distance_bound(a.drop_last(), b.drop_last());
    }
}

/// The Levenshtein distance is symmetric.
pub proof fn lemma_edit_distance_symmetric(a: Seq<char>, b: Seq<char>)
    ensures
        edit_distance(a, b) == edit_distance(b, a),
    decreases a.len() + b.len(),
{
    if a.len() > 0 && b.len() > 0 {
        lemma_edit_distance_symmetric(a.drop_last(), b);
        lemma_edit_distance_symmetric(a, b.drop_last());
        lemma_edit_distance_symmetric(a.drop_last(), b.drop_last());
    }
}

/// A string is at distance zero from itself.
pub proof fn lemma_edit_distance_self(s: Seq<char>)
    ensures
        edit_distance(s, s) == 0,
    decreases s.len(),
{
    if s.len() > 0 {
        lemma_edit_distance_self(s.drop_last());
    }
}

/// Similarity is symmetric, every string is fully similar to itself, and two empty
/// strings are fully similar.
pub proof fn lemma_similarity_laws(a: Seq<char>, b: Seq<char>)
    ensures
        similarity(a, b) == similarity(b, a),
        similarity(a, a).0 == similarity(a, a).1,
        similarity(a, a).1 > 0,
        similarity(Seq::<char>::empty(), Seq::<char>::empty()) == (1nat, 1nat),
{
    lemma_edit_distance_symmetric(a, b);
    lemma_edit_distance_self(a);
}

/// The Levenshtein distance between two character sequences, by dynamic programming
/// over two rows.
pub fn levenshtein(a: &Vec<char>, b: &Vec<char>) -> (r: usize)
    ensures
        r == edit_distance(a@, b@),
{
    let lb = b.len();
    let la = a.len();
    let mut prev: Vec<usize> = Vec::new();
    prev.push(0);
    let mut j: usize = 0;
    while j < lb
        invariant
            lb == b@.len(),
            j <= lb,
            prev@.len() == j + 1,
            forall|k: int| 0 <= k <= j ==> #[trigger] prev@[k] == edit_distance(a@.take(0), b@.take(k)),
        decreases lb - j,
    {
        prev.push(j + 1);
        j = j + 1;
    }
    let mut i: usize = 0;
    while i < la
        invariant
            lb == b@.len(),
            la == a@.len(),
            i <= a@.len(),
            prev@.len() == lb + 1,
            forall|k: int| 0 <= k <= lb ==> #[trigger] prev@[k] == edit_distance(a@.take(i as int), b@.take(k)),
        decreases a@.len() - i,
    {
        let ai = a[i];
        let mut cur: Vec<usize> = Vec::new();
        cur.push(i + 1);
        proof {
            assert(b@.take(0).len() == 0);
        }
        let mut j: usize = 0;
        while j < lb
            invariant
                lb == b@.len(),
                la == a@.len(),
                i < a@.len(),
                ai == a@[i as int],
                j <= lb,
                prev@.len() == lb + 1,
                cur@.len() == j + 1,
                forall|k: int| 0 <= k <= lb ==> #[trigger] prev@[k] == edit_distance(a@.take(i as int), b@.take(k)),
                forall|k: int| 0 <= k <= j ==> #[trigger] cur@[k] == edit_distance(a@.take(i + 1), b@.take(k)),
            decreases lb - j,
        {
            let cost: usize = if ai == b[j] { 0 } else { 1 };
            let deletion = prev[j + 1].saturating_add(1);
            let insertion = cur[j].saturating_add(1);
            let substitution = prev[j].saturating_add(cost);
            let m1 = if deletion <= insertion { deletion } else { insertion };
            let v = if m1 <= substitution { m1 } else { substitution };
            proof {
                let x = a@.take(i + 1);
                let y = b@.take(j + 1);
                assert(x.drop_last() == a@.take(i as int));
                assert(y.drop_last() == b@.take(j as int));
                assert(x.last() == ai);
                assert(y.last() == b@[j as int]);
                lemma_edit_distance_bound(x, y);
                assert(x.len() > 0 && y.len() > 0);
                let c: nat = if x.last() == y.last() { 0 } else { 1 };
                assert(c == cost);
                assert(edit_distance(x, y) == min_nat(
                    min_nat(edit_distance(x.drop_last(), y) + 1, edit_distance(x, y.drop_last()) + 1),
                    edit_distance(x.drop_last(), y.drop_last()) + c,
                ));
                assert(prev@[j + 1] == edit_distance(x.drop_last(), y));
                assert(cur@[j as int] == edit_distance(x, y.drop_last()));
                assert(prev@[j as int] == edit_distance(x.drop_last(), y.drop_last()));
                assert(x.len() == i + 1 && y.len() == j + 1);
                assert(edit_distance(x, y) <= usize::MAX);
                assert(v == edit_distance(x, y));
            }
            cur.push(v);
            j = j + 1;
        }
        prev = cur;
        i = i + 1;
    }
    proof {
        assert(a@.take(a@.len() as int) == a@);
        assert(b@.take(lb as int) == b@);
    }
    prev[lb]
}

/// The normalised similarity of two lines, over their characters.
pub fn similarity_score(s1: &str, s2: &str) -> (r: Similarity)
    ensures
        r.view_pair() == similarity(s1@, s2@),
{
    let a = chars_of(s1);
    let b = chars_of(s2);
    let m = if a.len() >= b.len() { a.len() } else { b.len() };
    if m == 0 {
        return Similarity { shared: 1, total: 1 };
    }
    let d = levenshtein(&a, &b);
    proof {
        lemma_edit_distance_bound(a@, b@);
    }
    Similarity { shared: m - d, total: m }
}

proof fn lemma_product_fits(p: u128, q: u128)
    requires
        p <= u64::MAX,
        q <= u64::MAX,
    ensures
        p * q <= u128::MAX,
{
    assert(p * q <= u64::MAX as int * u64::MAX as int) by (nonlinear_arith)
        requires
            p <= u64::MAX,
            q <= u64::MAX,
    ;
}

/// Whether score `x` is strictly greater than score `y`.
pub fn greater_than(x: Similarity, y: Similarity) -> (r: bool)
    ensures
        r == score_gt(x.view_pair(), y.view_pair()),
{
    let (xs, xt, ys, yt) = (x.shared as u128, x.total as u128, y.shared as u128, y.total as u128);
    proof {
        lemma_product_fits(xs, yt);
        lemma_product_fits(ys, xt);
    }
    let lhs = xs * yt;
    let rhs = ys * xt;
    lhs > rhs
}

/// Whether a score is strictly above three fifths.
pub fn exceeds_threshold(x: Similarity) -> (r: bool)
    ensures
        r == above_threshold(x.view_pair()),
{
    5 * (x.shared as u128) > 3 * (x.total as u128)
}

} // verus!
