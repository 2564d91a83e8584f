//! Replaces a bounded window around an anchor with a fragment's lines.
use vstd::prelude::*;
use crate::text::views;

verus! {

/// How many lines on each side of the anchor the replaced window may reach.
pub const CONTEXT_LINES: usize = 3;

/// `max(0, anchor - C)`.
pub open spec fn window_start(anchor: int) -> int {
    if anchor >= CONTEXT_LINES { anchor - CONTEXT_LINES } else { 0 }
}

/// `min(bufferLen, anchor + C)`.
pub open spec fn window_end(len: int, anchor: int) -> int {
    if anchor + CONTEXT_LINES <= len { anchor + CONTEXT_LINES } else { len }
}

/// `min(end - start, fragmentLen)`: how many buffer lines the fragment replaces.
pub open spec fn replace_count(len: int, anchor: int, frag_len: int) -> int {
    let w = window_end(len, anchor) - window_start(anchor);
    if w <= frag_len { w } else { frag_len }
}

/// `buffer[0..start] ++ fragment ++ buffer[start + replaceCount..]`.
pub open spec fn splice(buf: Seq<Seq<char>>, anchor: int, frag: Seq<Seq<char>>) -> Seq<Seq<char>> {
    let start = window_start(anchor);
    buf.take(start) + frag + buf.skip(start + replace_count(buf.len() as int, anchor, frag.len() as int))
}

/// Splicing removes at most `min(2C, fragmentLen)` lines of the buffer, and the result
/// holds exactly the remaining lines and the fragment's.
pub proof fn lemma_splice_bounds(buf: Seq<Seq<char>>, anchor: int, frag: Seq<Seq<char>>)
    requires
        0 <= anchor <= buf.len(),
    ensures
        0 <= replace_count(buf.len() as int, anchor, frag.len() as int),
        replace_count(buf.len() as int, anchor, frag.len() as int) <= 2 * CONTEXT_LINES,
        replace_count(buf.len() as int, anchor, frag.len() as int) <= frag.len(),
        splice(buf, anchor, frag).len() == buf.len() - replace_count(buf.len() as int, anchor, frag.len() as int) + frag.len(),
        splice(buf, anchor, frag).len() >= buf.len() - frag.len(),
{
}

/// Replaces the window around `anchor` in `buffer` with `block`.
pub fn splice_block(buffer: &Vec<String>, anchor: usize, block: &Vec<String>) -> (r: Vec<String>)
    requires
        anchor <= buffer@.len(),
    ensures
        views(r@) == splice(views(buffer@), anchor as int, views(block@)),
{
    let len = buffer.len();
    let start: usize = if anchor >= CONTEXT_LINES { anchor - CONTEXT_LINES } else { 0 };
    let end: usize = if len >= CONTEXT_LINES && anchor <= len - CONTEXT_LINES { anchor + CONTEXT_LINES } else { len };
    let window = end - start;
    let count: usize = if window <= block.len() { window } else { block.len() };
    let ghost b = views(buffer@);
    let ghost f = views(block@);
    let mut r: Vec<String> = Vec::new();
    let mut i: usize = 0;
    while i < start
        invariant
            start <= len == buffer@.len(),
            i <= start,
            b == views(buffer@),
            views(r@) == b.take(i as int),
        decreases start - i,
    {
        let ghost before = r@;
        r.push(buffer[i].clone());
        proof {
            assert(r@.drop_last() == before);
            assert(b.take(i + 1) == b.take(i as int).push(b[i as int]));
            assert(views(r@) == views(r@.drop_last()).push(r@.last()@));
        }
        i = i + 1;
    }
    let mut j: usize = 0;
    while j < block.len()
        invariant
            f == views(block@),
            j <= block@.len(),
            b == views(buffer@),
            start <= len == buffer@.len(),
            views(r@) == b.take(start as int) + f.take(j as int),
        decreases block@.len() - j,
    {
        let ghost before = r@;
        r.push(block[j].clone());
        proof {
            assert(r@.drop_last() == before);
            assert(f.take(j + 1) == f.take(j as int).push(f[j as int]));
            assert(views(r@) == views(r@.drop_last()).push(r@.last()@));
        }
        j = j + 1;
    }
    proof {
        assert(f.take(block@.len() as int) == f);
        assert(start + count <= len);
        assert(b.skip((start + count) as int).take(0).len() == 0);
    }
    let mut k: usize = start + count;
    while k < len
        invariant
            start + count <= k <= len == buffer@.len(),
            b == views(buffer@),
            views(r@) == b.take(start as int) + f + b.subrange((start + count) as int, k as int),
        decreases len - k,
    {
        let ghost before = r@;
        r.push(buffer[k].clone());
        proof {
            assert(r@.drop_last() == before);
            assert(b.subrange((start + count) as int, k + 1)
                == b.subrange((start + count) as int, k as int).push(b[k as int]));
            assert(views(r@) == views(r@.drop_last()).push(r@.last()@));
        }
        k = k + 1;
    }
    proof {
        assert(b.subrange((start + count) as int, len as int) == b.skip((start + count) as int));
    }
    r
}

} // verus!
