//! Renders a directory snapshot as an indented tree, leaving out build and tool
//! directories and system files, with entries in name order.
use vstd::prelude::*;
use crate::text::chars_of;

verus! {

broadcast use vstd::std_specs::vec::group_vec_axioms;

/// A directory entry and, for a directory, its entries in any order.
#[derive(Debug)]
pub struct DirNode {
    pub name: String,
    pub is_dir: bool,
    pub children: Vec<DirNode>,
}

/// Directory names that are left out of the tree.
pub open spec fn is_ignored_dir_name(n: Seq<char>) -> bool {
    n == "target"@ || n == ".git"@ || n == "node_modules"@ || n == "dist"@ || n == "build"@
        || n == "out"@ || n == "__pycache__"@ || n == ".venv"@ || n == "venv"@ || n == "env"@
}

/// File names that are left out of the tree.
pub open spec fn is_ignored_file_name(n: Seq<char>) -> bool {
    n == ".DS_Store"@
}

/// Whether an entry is left out of the tree.
pub open spec fn is_hidden(node: DirNode) -> bool {
    if node.is_dir { is_ignored_dir_name(node.name@) } else { is_ignored_file_name(node.name@) }
}

/// Lexicographic order on names, by code point; a proper prefix comes first.
pub open spec fn name_lt(a: Seq<char>, b: Seq<char>) -> bool
    decreases a.len(),
{
    if b.len() == 0 {
        false
    } else if a.len() == 0 {
        true
    } else if a[0] != b[0] {
        a[0] < b[0]
    } else {
        name_lt(a.drop_first(), b.drop_first())
    }
}

/// Inserts index `x` into `order`, after every entry whose name is not greater.
pub open spec fn insert_by_name(children: Seq<DirNode>, order: Seq<int>, x: int) -> Seq<int>
    decreases order.len(),
{
    if order.len() == 0 {
        seq![x]
    } else if name_lt(children[x].name@, children[order.last()].name@) {
        insert_by_name(children, order.drop_last(), x).push(order.last())
    } else {
        order.push(x)
    }
}

/// The indices below `n` of the entries that are shown, in a stable name order.
pub open spec fn shown_order_upto(children: Seq<DirNode>, n: nat) -> Seq<int>
    decreases n,
{
    if n == 0 {
        Seq::empty()
    } else {
        let rest = shown_order_upto(children, (n - 1) as nat);
        let x = n - 1;
        if is_hidden(children[x]) {
            rest
        } else {
            insert_by_name(children, rest, x)
        }
    }
}

/// The indices of the entries that are shown, in a stable name order.
pub open spec fn shown_order(children: Seq<DirNode>) -> Seq<int> {
    shown_order_upto(children, children.len())
}

/// The four characters that stand for one level of nesting.
pub open spec fn level_pad() -> Seq<char> {
    seq![' ', ' ', ' ', ' ']
}

/// The connector in front of an entry: a corner for the last entry of its directory.
pub open spec fn connector(is_last: bool) -> Seq<char> {
    if is_last {
        seq!['└', '─', '─', ' ']
    } else {
        seq!['├', '─', '─', ' ']
    }
}

/// The rendering of `node` and, for a directory, of its shown entries below it.
/// The root line is its bare name; a nested line is `pad`, a connector and the name.
pub open spec fn render_node(node: DirNode, pad: Seq<char>, is_root: bool, is_last: bool) -> Seq<char>
    decreases node, 1nat, 0nat,
{
    let line = if is_root { node.name@ } else { pad + connector(is_last) + node.name@ };
    let child_pad = if is_root { Seq::<char>::empty() } else { pad + level_pad() };
    let order = shown_order(node.children@);
    line.push('\n') + if node.is_dir {
        render_children(node, order, order.len(), child_pad)
    } else {
        Seq::<char>::empty()
    }
}

/// The renderings of the first `n` entries of `order`.
pub open spec fn render_children(node: DirNode, order: Seq<int>, n: nat, pad: Seq<char>) -> Seq<char>
    decreases node, 0nat, n,
{
    if n == 0 || n > order.len() {
        Seq::<char>::empty()
    } else {
        let i = order[n - 1];
        if 0 <= i < node.children@.len() {
            render_children(node, order, (n - 1) as nat, pad) + render_node(
                node.children@[i],
                pad,
                false,
                n == order.len(),
            )
        } else {
            render_children(node, order, (n - 1) as nat, pad)
        }
    }
}

/// Whether `name` is the text `lit`.
fn name_is(name: &String, lit: &str) -> (r: bool)
    ensures
        r == (name@ == lit@),
{
    *name == String::from_str(lit)
}

/// Whether an entry is left out of the tree.
pub fn is_hidden_entry(node: &DirNode) -> (r: bool)
    ensures
        r == is_hidden(*node),
{
    let n = &node.name;
    if node.is_dir {
        name_is(n, "target") || name_is(n, ".git") || name_is(n, "node_modules") || name_is(n, "dist")
            || name_is(n, "build") || name_is(n, "out") || name_is(n, "__pycache__")
            || name_is(n, ".venv") || name_is(n, "venv") || name_is(n, "env")
    } else {
        name_is(n, ".DS_Store")
    }
}

/// Whether name `a` sorts strictly before name `b`.
pub fn name_less(a: &String, b: &String) -> (r: bool)
    ensures
        r == name_lt(a@, b@),
{
    let x = chars_of(a.as_str());
    let y = chars_of(b.as_str());
    let mut i: usize = 0;
    proof {
        assert(a@.skip(0) == a@);
        assert(b@.skip(0) == b@);
    }
    while i < x.len() && i < y.len()
        invariant
            x@ == a@,
            y@ == b@,
            i <= x@.len(),
            i <= y@.len(),
            name_lt(a@, b@) == name_lt(a@.skip(i as int), b@.skip(i as int)),
        decreases x@.len() - i,
    {
        proof {
            assert(a@.skip(i as int).drop_first() == a@.skip(i + 1));
            assert(b@.skip(i as int).drop_first() == b@.skip(i + 1));
        }
        if x[i] != y[i] {
            return x[i] < y[i];
        }
        i = i + 1;
    }
    i < y.len()
}

/// The indices as integers.
pub open spec fn as_ints(v: Seq<usize>) -> Seq<int> {
    v.map_values(|u: usize| u as int)
}

proof fn lemma_insert_step(children: Seq<DirNode>, s: Seq<int>, x: int, j: int)
    requires
        0 < j <= s.len(),
        name_lt(children[x].name@, children[s[j - 1]].name@),
    ensures
        insert_by_name(children, s.take(j), x) + s.skip(j)
            == insert_by_name(children, s.take(j - 1), x) + s.skip(j - 1),
{
    let t = s.take(j);
    assert(t.drop_last() == s.take(j - 1));
    assert(t.last() == s[j - 1]);
    let u = insert_by_name(children, s.take(j - 1), x);
    assert(insert_by_name(children, t, x) == u.push(s[j - 1]));
    assert(s.skip(j - 1) == seq![s[j - 1]] + s.skip(j));
    assert(u.push(s[j - 1]) + s.skip(j) == u + s.skip(j - 1));
}

/// Inserts index `x` into `order` after every entry whose name is not greater.
fn insert_index(children: &Vec<DirNode>, order: &mut Vec<usize>, x: usize)
    requires
        x < children@.len(),
        forall|k: int| 0 <= k < old(order)@.len() ==> #[trigger] old(order)@[k] < children@.len(),
    ensures
        as_ints(final(order)@) == insert_by_name(children@, as_ints(old(order)@), x as int),
        forall|k: int| 0 <= k < final(order)@.len() ==> #[trigger] final(order)@[k] < children@.len(),
{
    let ghost s = as_ints(order@);
    let mut j: usize = order.len();
    proof {
        assert(s.skip(s.len() as int).len() == 0);
        assert(s.take(s.len() as int) == s);
    }
    while j > 0 && name_less(&children[x].name, &children[order[j - 1]].name)
        invariant
            s == as_ints(order@),
            x < children@.len(),
            forall|k: int| 0 <= k < order@.len() ==> #[trigger] order@[k] < children@.len(),
            j <= order@.len(),
            insert_by_name(children@, s, x as int)
                == insert_by_name(children@, s.take(j as int), x as int) + s.skip(j as int),
        decreases j,
    {
        proof {
            lemma_insert_step(children@, s, x as int, j as int);
        }
        j = j - 1;
    }
    proof {
        let t = s.take(j as int);
        if j == 0 {
            assert(insert_by_name(children@, t, x as int) == seq![x as int]);
        } else {
            assert(insert_by_name(children@, t, x as int) == t.push(x as int));
        }
    }
    order.insert(j, x);
    proof {
        assert(as_ints(order@) == s.take(j as int).push(x as int) + s.skip(j as int));
    }
}

/// The indices of the entries of a directory that are shown, in name order.
pub fn shown_children(children: &Vec<DirNode>) -> (r: Vec<usize>)
    ensures
        as_ints(r@) == shown_order(children@),
        forall|k: int| 0 <= k < r@.len() ==> #[trigger] r@[k] < children@.len(),
{
    let mut order: Vec<usize> = Vec::new();
    let mut i: usize = 0;
    proof {
        assert(as_ints(order@) == Seq::<int>::empty());
    }
    while i < children.len()
        invariant
            i <= children@.len(),
            as_ints(order@) == shown_order_upto(children@, i as nat),
            forall|k: int| 0 <= k < order@.len() ==> #[trigger] order@[k] < children@.len(),
        decreases children@.len() - i,
    {
        if !is_hidden_entry(&children[i]) {
            insert_index(children, &mut order, i);
        }
        i = i + 1;
    }
    order
}

/// Appends the rendering of `node` to `out`.
fn render_into(node: &DirNode, pad: &String, is_root: bool, is_last: bool, out: &mut String)
    ensures
        final(out)@ == old(out)@ + render_node(*node, pad@, is_root, is_last),
    decreases node,
{
    let ghost start = out@;
    if !is_root {
        out.append(pad.as_str());
        if is_last {
            out.append("└── ");
        } else {
            out.append("├── ");
        }
        proof {
            reveal_strlit("└── ");
            reveal_strlit("├── ");
        }
    }
    out.append(node.name.as_str());
    out.append("\n");
    proof {
        reveal_strlit("\n");
        let line = if is_root { node.name@ } else { pad@ + connector(is_last) + node.name@ };
        assert(out@ == start + line.push('\n'));
    }
    let ghost head = out@;
    if node.is_dir {
        let mut child_pad = String::new();
        if !is_root {
            child_pad.append(pad.as_str());
            child_pad.append("    ");
            proof {
                reveal_strlit("    ");
            }
        }
        let order = shown_children(&node.children);
        let ghost ord = shown_order(node.children@);
        let mut k: usize = 0;
        while k < order.len()
            invariant
                as_ints(order@) == ord,
                ord == shown_order(node.children@),
                forall|q: int| 0 <= q < order@.len() ==> #[trigger] order@[q] < node.children@.len(),
                k <= order@.len(),
                child_pad@ == (if is_root { Seq::<char>::empty() } else { pad@ + level_pad() }),
                out@ == head + render_children(*node, ord, k as nat, child_pad@),
            decreases order@.len() - k,
        {
            let idx = order[k];
            proof {
                assert(ord[k as int] == idx as int);
            }
            render_into(&node.children[idx], &child_pad, false, k + 1 == order.len(), out);
            k = k + 1;
        }
    }
}

/// The tree of `root` as text: one line per shown entry, nested entries indented
/// under their directory, each directory's entries in name order.
pub fn scan_directory_tree_from_path(root: &DirNode) -> (r: String)
    ensures
        r@ == render_node(*root, Seq::empty(), true, true),
{
    let mut out = String::new();
    let pad = String::new();
    render_into(root, &pad, true, true, &mut out);
    out
}

} // verus!
