//! Turning an outline into files and directories.
//!
//! A headline that holds a period names a file, whose content is the text of
//! the node's children; a headline that begins with an underscore is
//! transparent, its children land where the node stands; any other headline
//! names a directory, which may take several path segments. The library
//! computes the sequence of filesystem operations; carrying them out is left
//! to the caller.
use vstd::prelude::*;
use crate::outline::{
    Outline, parent_of, opt_pos, render_text, push_line, lemma_last_shallower_bounds,
};
use crate::text::{chars_of, string_from_chars};

verus! {

/// What a headline names when an outline is written out.
#[derive(PartialEq, Eq, Structural, Clone, Copy, Debug)]
pub enum NodeKind {
    File,
    Transparent,
    Directory,
}

/// The kind of a headline: a period makes a file, a leading underscore a
/// transparent node, anything else a directory.
pub open spec fn kind_of(h: Seq<char>) -> NodeKind {
    if h.contains('.') {
        NodeKind::File
    } else if h.len() > 0 && h[0] == '_' {
        NodeKind::Transparent
    } else {
        NodeKind::Directory
    }
}

/// Classifies a headline.
pub fn classify(h: &str) -> (r: NodeKind)
    ensures
        r == kind_of(h@),
{
    let cs = chars_of(h);
    let mut i: usize = 0;
    while i < cs.len()
        invariant
            cs@ == h@,
            i <= cs.len(),
            forall|k: int| 0 <= k < i ==> cs@[k] != '.',
        decreases cs.len() - i,
    {
        if cs[i] == '.' {
            assert(h@.contains('.'));
            return NodeKind::File;
        }
        i = i + 1;
    }
    assert(!h@.contains('.'));
    if cs.len() > 0 && cs[0] == '_' {
        NodeKind::Transparent
    } else {
        NodeKind::Directory
    }
}

/// A relative path extended by one more part, separated by a slash.
pub open spec fn join_path(base: Seq<char>, part: Seq<char>) -> Seq<char> {
    if base.len() == 0 {
        part
    } else {
        base + seq!['/'] + part
    }
}

/// Node `i` lies inside a file node, and is part of that file's content.
pub open spec fn in_file(s: Seq<(nat, Seq<char>)>, i: int) -> bool
    decreases i,
{
    match parent_of(s, i) {
        Some(p) => if 0 <= p < i {
            kind_of(s[p].1) == NodeKind::File || in_file(s, p)
        } else {
            false
        },
        None => false,
    }
}

/// The directory, relative to the root, in which node `i` is written: the
/// path of its nearest directory ancestors, transparent ones left out.
pub open spec fn base_dir(s: Seq<(nat, Seq<char>)>, i: int) -> Seq<char>
    decreases i,
{
    match parent_of(s, i) {
        Some(p) => if 0 <= p < i {
            if kind_of(s[p].1) == NodeKind::Directory {
                join_path(base_dir(s, p), s[p].1)
            } else {
                base_dir(s, p)
            }
        } else {
            Seq::empty()
        },
        None => Seq::empty(),
    }
}

/// The first position from `j` on whose node is not deeper than `d`.
pub open spec fn next_not_deeper(s: Seq<(nat, Seq<char>)>, d: nat, j: int) -> int
    decreases s.len() - j,
{
    if j >= s.len() {
        s.len() as int
    } else if s[j].0 <= d {
        j
    } else {
        next_not_deeper(s, d, j + 1)
    }
}

/// The descendants of node `i`, with depths counted from its children.
pub open spec fn descendants(s: Seq<(nat, Seq<char>)>, i: int) -> Seq<(nat, Seq<char>)> {
    let e = next_not_deeper(s, s[i].0, i + 1);
    Seq::new(
        (e - i - 1) as nat,
        |k: int| ((s[i + 1 + k].0 - s[i].0 - 1) as nat, s[i + 1 + k].1),
    )
}

/// One filesystem operation, relative to the output root.
pub enum WriteOp {
    /// Remove the root with all it holds, and create it empty.
    ClearRoot,
    /// Create a directory, with any missing parents.
    CreateDir { path: String },
    /// Create or overwrite a file, with any missing parent directories.
    WriteFile { path: String, content: String },
}

/// A filesystem operation in the abstract.
pub enum Op {
    ClearRoot,
    CreateDir(Seq<char>),
    WriteFile(Seq<char>, Seq<char>),
}

impl View for WriteOp {
    type V = Op;

    open spec fn view(&self) -> Op {
        match self {
            WriteOp::ClearRoot => Op::ClearRoot,
            WriteOp::CreateDir { path } => Op::CreateDir(path@),
            WriteOp::WriteFile { path, content } => Op::WriteFile(path@, content@),
        }
    }
}

/// The operations that node `i` calls for.
pub open spec fn node_ops(s: Seq<(nat, Seq<char>)>, i: int) -> Seq<Op> {
    if in_file(s, i) {
        Seq::empty()
    } else {
        match kind_of(s[i].1) {
            NodeKind::File => seq![
                Op::WriteFile(join_path(base_dir(s, i), s[i].1), render_text(descendants(s, i))),
            ],
            NodeKind::Directory => seq![Op::CreateDir(join_path(base_dir(s, i), s[i].1))],
            NodeKind::Transparent => Seq::empty(),
        }
    }
}

/// The operations that the first `n` nodes call for, in order.
pub open spec fn nodes_ops(s: Seq<(nat, Seq<char>)>, n: int) -> Seq<Op>
    decreases n,
{
    if n <= 0 {
        Seq::empty()
    } else {
        nodes_ops(s, n - 1) + node_ops(s, n - 1)
    }
}

/// The operations that write out outline `s`: clear the root, then each
/// node's own, in order.
pub open spec fn write_plan(s: Seq<(nat, Seq<char>)>) -> Seq<Op> {
    seq![Op::ClearRoot] + nodes_ops(s, s.len() as int)
}

/// The descendants of node `i` up to position `i + 1 + m`.
pub open spec fn descendants_prefix(s: Seq<(nat, Seq<char>)>, i: int, m: int) -> Seq<(nat, Seq<char>)> {
    Seq::new(m as nat, |k: int| ((s[i + 1 + k].0 - s[i].0 - 1) as nat, s[i + 1 + k].1))
}

/// The text of the descendants of node `i`: the content of a file node.
fn descendants_text(o: &Outline, i: usize) -> (r: String)
    requires
        i < o.nodes.len(),
    ensures
        r@ == render_text(descendants(o@, i as int)),
{
    let ghost s = o@;
    let d = o.nodes[i].depth;
    let mut out: Vec<char> = Vec::new();
    let mut j: usize = i + 1;
    assert(descendants_prefix(s, i as int, 0) =~= Seq::<(nat, Seq<char>)>::empty());
    while j < o.nodes.len() && o.nodes[j].depth > d
        invariant
            s == o@,
            d == s[i as int].0,
            i < j <= o.nodes.len(),
            next_not_deeper(s, d as nat, i + 1) == next_not_deeper(s, d as nat, j as int),
            out@ == render_text(descendants_prefix(s, i as int, j - i - 1)),
        decreases o.nodes.len() - j,
    {
        push_line(&mut out, o.nodes[j].depth - d - 1, o.nodes[j].headline.as_str());
        proof {
            let pre = descendants_prefix(s, i as int, j - i);
            assert(pre.drop_last() =~= descendants_prefix(s, i as int, j - i - 1));
            assert(pre.last() == ((o.nodes[j as int].depth - d - 1) as nat, o.nodes[j as int].headline@));
        }
        j = j + 1;
    }
    assert(descendants(s, i as int) =~= descendants_prefix(s, i as int, j - i - 1));
    string_from_chars(&out)
}

/// A copy of a character vector.
fn copy_chars(v: &Vec<char>) -> (r: Vec<char>)
    ensures
        r@ == v@,
{
    let mut r: Vec<char> = Vec::new();
    let mut i: usize = 0;
    while i < v.len()
        invariant
            i <= v.len(),
            r@ == v@.take(i as int),
        decreases v.len() - i,
    {
        r.push(v[i]);
        i = i + 1;
        assert(r@ =~= v@.take(i as int));
    }
    assert(v@.take(i as int) =~= v@);
    r
}

/// The path `base` extended by `part`.
fn join_chars(base: &Vec<char>, part: &str) -> (r: Vec<char>)
    ensures
        r@ == join_path(base@, part@),
{
    let ps = chars_of(part);
    if base.len() == 0 {
        return ps;
    }
    let mut r = copy_chars(base);
    r.push('/');
    let ghost front = r@;
    let mut i: usize = 0;
    while i < ps.len()
        invariant
            i <= ps.len(),
            r@ == front + ps@.take(i as int),
        decreases ps.len() - i,
    {
        r.push(ps[i]);
        i = i + 1;
        assert(r@ =~= front + ps@.take(i as int));
    }
    assert(ps@.take(i as int) =~= ps@);
    r
}

/// The views of a sequence of operations.
pub open spec fn ops_view(v: Seq<WriteOp>) -> Seq<Op> {
    v.map_values(|o: WriteOp| o@)
}

/// The operations that write out `outline` under an output root: the root is
/// cleared first, so that the result depends on the outline alone; then each
/// node, in order, creates its directory or writes its file.
pub fn materialize(outline: &Outline) -> (r: Vec<WriteOp>)
    ensures
        ops_view(r@) == write_plan(outline@),
{
    let ghost s = outline@;
    let n = outline.nodes.len();
    let par = outline.parents();
    let mut ops: Vec<WriteOp> = Vec::new();
    ops.push(WriteOp::ClearRoot);
    let mut inside: Vec<bool> = Vec::new();
    let mut dirs: Vec<Vec<char>> = Vec::new();
    let mut i: usize = 0;
    assert(ops_view(ops@) =~= seq![Op::ClearRoot] + nodes_ops(s, 0));
    while i < n
        invariant
            s == outline@,
            n == s.len(),
            i <= n,
            par.len() == n,
            forall|k: int| 0 <= k < par.len() ==> opt_pos(#[trigger] par@[k]) == parent_of(s, k),
            inside.len() == i,
            dirs.len() == i,
            forall|k: int| 0 <= k < i ==> #[trigger] inside@[k] == in_file(s, k),
            forall|k: int| 0 <= k < i && !in_file(s, k) ==> #[trigger] dirs@[k]@ == base_dir(s, k),
            ops_view(ops@) == seq![Op::ClearRoot] + nodes_ops(s, i as int),
        decreases n - i,
    {
        let ghost prev = ops_view(ops@);
        proof {
            lemma_last_shallower_bounds(s, s[i as int].0, i as int);
            assert(opt_pos(par@[i as int]) == parent_of(s, i as int));
        }
        let (inf, base) = match par[i] {
            None => (false, Vec::new()),
            Some(p) => {
                if inside[p] {
                    (true, Vec::new())
                } else {
                    match classify(outline.nodes[p].headline.as_str()) {
                        NodeKind::File => (true, Vec::new()),
                        NodeKind::Directory => (false, join_chars(&dirs[p], outline.nodes[p].headline.as_str())),
                        NodeKind::Transparent => (false, copy_chars(&dirs[p])),
                    }
                }
            },
        };
        assert(inf == in_file(s, i as int));
        assert(!inf ==> base@ == base_dir(s, i as int));
        if !inf {
            let h = outline.nodes[i].headline.as_str();
            match classify(h) {
                NodeKind::File => {
                    let path = string_from_chars(&join_chars(&base, h));
                    let content = descendants_text(outline, i);
                    ops.push(WriteOp::WriteFile { path, content });
                },
                NodeKind::Directory => {
                    let path = string_from_chars(&join_chars(&base, h));
                    ops.push(WriteOp::CreateDir { path });
                },
                NodeKind::Transparent => {},
            }
        }
        assert(ops_view(ops@) =~= prev + node_ops(s, i as int));
        inside.push(inf);
        dirs.push(base);
        i = i + 1;
    }
    ops
}

/// What stands at a path under the output root.
pub enum FsEntry {
    Dir,
    File(Seq<char>),
}

/// The entries under the output root after one operation: clearing leaves
/// nothing; the others leave their entry at their own path.
pub open spec fn apply_op(fs: Map<Seq<char>, FsEntry>, op: Op) -> Map<Seq<char>, FsEntry> {
    match op {
        Op::ClearRoot => Map::empty(),
        Op::CreateDir(p) => fs.insert(p, FsEntry::Dir),
        Op::WriteFile(p, c) => fs.insert(p, FsEntry::File(c)),
    }
}

/// The entries under the output root after a sequence of operations.
pub open spec fn run_ops(fs: Map<Seq<char>, FsEntry>, ops: Seq<Op>) -> Map<Seq<char>, FsEntry>
    decreases ops.len(),
{
    if ops.len() == 0 {
        fs
    } else {
        run_ops(apply_op(fs, ops[0]), ops.drop_first())
    }
}

/// Writing out an outline leaves the output root in a state that depends on
/// the outline alone: whatever the root held before is gone.
pub proof fn lemma_materialize_ignores_prior_contents(
    s: Seq<(nat, Seq<char>)>,
    before1: Map<Seq<char>, FsEntry>,
    before2: Map<Seq<char>, FsEntry>,
)
    ensures
        run_ops(before1, write_plan(s)) == run_ops(before2, write_plan(s)),
{
    let plan = write_plan(s);
    assert(plan[0] == Op::ClearRoot);
    assert(apply_op(before1, plan[0]) == apply_op(before2, plan[0]));
}

} // verus!
