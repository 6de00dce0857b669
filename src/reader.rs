//! Reading a directory tree into outline text.
//!
//! The caller walks the tree in pre-order and hands over one entry per
//! directory or file, with the text of each file that has a content
//! extension. Directories become nodes named after them; a content file
//! becomes a node named after its stem, with one child per line of its text,
//! where each leading tab of a line nests it one level deeper.
use vstd::prelude::*;
use crate::outline::{
    Node, Outline, clean_headline, consistent_text, indent, is_forest, lemma_leading_spaces,
    lemma_lines_of_render, lemma_parse_render, lines_from, lines_of, nodes_of_lines, render_text,
    split_lines,
};
use crate::materialize::{NodeKind, kind_of, node_ops, nodes_ops, write_plan};
use crate::text::{chars_of, string_from_chars};

verus! {

/// One entry of a pre-order walk of a directory tree.
pub struct WalkEntry {
    /// The depth below the walked root; the root itself is at depth 0.
    pub depth: usize,
    pub is_dir: bool,
    /// The entry's own file name.
    pub name: String,
    /// The text of a content file; ignored for other entries.
    pub content: String,
}

impl View for WalkEntry {
    type V = (nat, bool, Seq<char>, Seq<char>);

    open spec fn view(&self) -> (nat, bool, Seq<char>, Seq<char>) {
        (self.depth as nat, self.is_dir, self.name@, self.content@)
    }
}

/// The position of the last occurrence of `c` among the first `n` characters
/// of `s`, or -1.
pub open spec fn last_index_of(s: Seq<char>, c: char, n: int) -> int
    decreases n,
{
    if n <= 0 {
        -1
    } else if s[n - 1] == c {
        n - 1
    } else {
        last_index_of(s, c, n - 1)
    }
}

/// The position of the period that starts a file name's extension: the last
/// period, unless it is the first character. -1 where there is none.
pub open spec fn extension_dot(name: Seq<char>) -> int {
    let k = last_index_of(name, '.', name.len() as int);
    if k > 0 {
        k
    } else {
        -1
    }
}

/// A file name's stem: the name up to its extension's period.
pub open spec fn stem_of(name: Seq<char>) -> Seq<char> {
    if extension_dot(name) > 0 {
        name.take(extension_dot(name))
    } else {
        name
    }
}

/// A file name's extension, if it has one.
pub open spec fn extension_of(name: Seq<char>) -> Option<Seq<char>> {
    if extension_dot(name) > 0 {
        Some(name.skip(extension_dot(name) + 1))
    } else {
        None
    }
}

/// The extensions of the files whose text is read: `idm` and `md`.
pub open spec fn is_content_extension(e: Seq<char>) -> bool {
    e == seq!['i', 'd', 'm'] || e == seq!['m', 'd']
}

/// A file with this name is read.
pub open spec fn is_content_name(name: Seq<char>) -> bool {
    extension_of(name) matches Some(e) && is_content_extension(e)
}

/// The number of tabs that a line begins with.
pub open spec fn leading_tabs(l: Seq<char>) -> nat
    decreases l.len(),
{
    if l.len() > 0 && l[0] == '\t' {
        1 + leading_tabs(l.drop_first())
    } else {
        0
    }
}

/// A line without the carriage return that may end it.
pub open spec fn without_cr(l: Seq<char>) -> Seq<char> {
    if l.len() > 0 && l.last() == '\r' {
        l.drop_last()
    } else {
        l
    }
}

/// The node of one line of a file at walk depth `d`.
pub open spec fn line_node(d: nat, l: Seq<char>) -> (nat, Seq<char>) {
    let m = without_cr(l);
    (d + leading_tabs(m), m.skip(leading_tabs(m) as int))
}

/// The nodes of one walk entry.
pub open spec fn entry_nodes(e: (nat, bool, Seq<char>, Seq<char>)) -> Seq<(nat, Seq<char>)> {
    if e.0 == 0 {
        Seq::empty()
    } else if e.1 {
        seq![((e.0 - 1) as nat, e.2)]
    } else if is_content_name(e.2) {
        seq![((e.0 - 1) as nat, stem_of(e.2))] + lines_of(e.3).map_values(
            |l: Seq<char>| line_node(e.0, l),
        )
    } else {
        Seq::empty()
    }
}

/// The nodes of a walk, entry by entry.
pub open spec fn walk_nodes(es: Seq<(nat, bool, Seq<char>, Seq<char>)>) -> Seq<(nat, Seq<char>)>
    decreases es.len(),
{
    if es.len() == 0 {
        Seq::empty()
    } else {
        walk_nodes(es.drop_last()) + entry_nodes(es.last())
    }
}

/// The views of a sequence of walk entries.
pub open spec fn walk_view(v: Seq<WalkEntry>) -> Seq<(nat, bool, Seq<char>, Seq<char>)> {
    v.map_values(|e: WalkEntry| e@)
}

/// The stem and, if any, the extension of a file name.
pub fn split_file_name(name: &str) -> (r: (String, Option<String>))
    ensures
        r.0@ == stem_of(name@),
        r.1 matches Some(e) ==> extension_of(name@) == Some(e@),
        r.1 is None ==> extension_of(name@) is None,
{
    let cs = chars_of(name);
    let mut n: usize = cs.len();
    while n > 0 && cs[n - 1] != '.'
        invariant
            cs@ == name@,
            n <= cs.len(),
            last_index_of(name@, '.', name@.len() as int) == last_index_of(name@, '.', n as int),
        decreases n,
    {
        n = n - 1;
    }
    if n <= 1 {
        return (string_from_chars(&cs), None);
    }
    let k = n - 1;
    let mut stem: Vec<char> = Vec::new();
    let mut ext: Vec<char> = Vec::new();
    let mut i: usize = 0;
    while i < cs.len()
        invariant
            cs@ == name@,
            0 < k < cs.len(),
            i <= cs.len(),
            stem@ == cs@.take(if i < k { i as int } else { k as int }),
            ext@ == if i <= k { Seq::<char>::empty() } else { cs@.subrange(k + 1, i as int) },
        decreases cs.len() - i,
    {
        if i < k {
            stem.push(cs[i]);
            assert(stem@ =~= cs@.take(i + 1));
        } else if i > k {
            ext.push(cs[i]);
            assert(ext@ =~= cs@.subrange(k + 1, i + 1));
        } else {
            assert(ext@ =~= cs@.subrange(k + 1, i + 1));
        }
        i = i + 1;
    }
    assert(ext@ =~= cs@.skip(k + 1));
    (string_from_chars(&stem), Some(string_from_chars(&ext)))
}

/// Whether a file with this name has its text read.
pub fn is_content_file(name: &str) -> (r: bool)
    ensures
        r == is_content_name(name@),
{
    let (_, ext) = split_file_name(name);
    match ext {
        Some(e) => {
            let es = chars_of(e.as_str());
            let r = (es.len() == 3 && es[0] == 'i' && es[1] == 'd' && es[2] == 'm') || (es.len() == 2
                && es[0] == 'm' && es[1] == 'd');
            assert(r ==> is_content_extension(e@)) by {
                if es.len() == 3 && es[0] == 'i' && es[1] == 'd' && es[2] == 'm' {
                    assert(e@ =~= seq!['i', 'd', 'm']);
                }
                if es.len() == 2 && es[0] == 'm' && es[1] == 'd' {
                    assert(e@ =~= seq!['m', 'd']);
                }
            }
            r
        },
        None => false,
    }
}

proof fn lemma_line_lengths(cur: Seq<char>, t: Seq<char>)
    ensures
        forall|i: int| 0 <= i < lines_from(cur, t).len() ==> #[trigger] lines_from(cur, t)[i].len()
            <= cur.len() + t.len(),
    decreases t.len(),
{
    if t.len() > 0 {
        if t[0] == '\n' {
            lemma_line_lengths(Seq::empty(), t.drop_first());
            let rest = lines_from(Seq::empty(), t.drop_first());
            assert(lines_from(cur, t) == seq![cur] + rest);
            assert forall|i: int| 0 <= i < lines_from(cur, t).len() implies #[trigger] lines_from(
                cur,
                t,
            )[i].len() <= cur.len() + t.len() by {
                if i > 0 {
                    assert(lines_from(cur, t)[i] == rest[i - 1]);
                }
            }
        } else {
            lemma_line_lengths(cur.push(t[0]), t.drop_first());
            assert(lines_from(cur, t) == lines_from(cur.push(t[0]), t.drop_first()));
        }
    } else if cur.len() > 0 {
        assert(lines_from(cur, t) == seq![cur]);
    } else {
        assert(lines_from(cur, t).len() == 0);
    }
}

/// The node of one line of a file at walk depth `d`.
fn line_node_of(d: usize, l: &Vec<char>) -> (r: Node)
    requires
        d + l.len() <= usize::MAX,
    ensures
        r@ == line_node(d as nat, l@),
{
    let ghost m = without_cr(l@);
    let mut n: usize = l.len();
    if n > 0 && l[n - 1] == '\r' {
        n = n - 1;
    }
    assert(m =~= l@.take(n as int));
    let mut k: usize = 0;
    assert(m.skip(0) =~= m);
    while k < n && l[k] == '\t'
        invariant
            n <= l.len(),
            m == l@.take(n as int),
            k <= n,
            leading_tabs(m) == k + leading_tabs(m.skip(k as int)),
        decreases n - k,
    {
        assert(m.skip(k as int).drop_first() =~= m.skip(k + 1));
        k = k + 1;
    }
    let mut rest: Vec<char> = Vec::new();
    let mut j: usize = k;
    while j < n
        invariant
            n <= l.len(),
            k <= j <= n,
            rest@ == l@.subrange(k as int, j as int),
        decreases n - j,
    {
        rest.push(l[j]);
        j = j + 1;
        assert(rest@ =~= l@.subrange(k as int, j as int));
    }
    assert(rest@ =~= m.skip(k as int));
    Node { depth: d + k, headline: string_from_chars(&rest) }
}

/// The outline text of a pre-order walk of a directory tree. The walked root
/// contributes no node; directories and content files below it do.
pub fn read_walk(entries: &Vec<WalkEntry>) -> (r: String)
    requires
        forall|k: int| 0 <= k < entries.len() ==> #[trigger] entries@[k].depth + entries@[k].content@.len()
            <= usize::MAX,
    ensures
        r@ == render_text(walk_nodes(walk_view(entries@))),
{
    let ghost es = walk_view(entries@);
    let mut nodes: Vec<Node> = Vec::new();
    let mut i: usize = 0;
    assert(es.take(0) =~= Seq::<(nat, bool, Seq<char>, Seq<char>)>::empty());
    assert(nodes@.map_values(|n: Node| n@) =~= Seq::<(nat, Seq<char>)>::empty());
    while i < entries.len()
        invariant
            es == walk_view(entries@),
            i <= entries.len(),
            forall|k: int| 0 <= k < entries.len() ==> #[trigger] entries@[k].depth + entries@[k].content@.len()
                <= usize::MAX,
            nodes@.map_values(|n: Node| n@) == walk_nodes(es.take(i as int)),
        decreases entries.len() - i,
    {
        let e = &entries[i];
        let ghost before = nodes@.map_values(|n: Node| n@);
        assert(es.take(i + 1).drop_last() =~= es.take(i as int));
        assert(es.take(i + 1).last() == e@);
        if e.depth == 0 {
            assert(before + entry_nodes(e@) =~= before);
        } else if e.is_dir {
            nodes.push(Node { depth: e.depth - 1, headline: e.name.clone() });
            assert(nodes@.map_values(|n: Node| n@) =~= before + entry_nodes(e@));
        } else if is_content_file(e.name.as_str()) {
            let (stem, _) = split_file_name(e.name.as_str());
            nodes.push(Node { depth: e.depth - 1, headline: stem });
            let ghost head = nodes@.map_values(|n: Node| n@);
            let cs = chars_of(e.content.as_str());
            let lines = split_lines(&cs);
            let ghost ls = lines_of(e.content@);
            proof {
                lemma_line_lengths(Seq::empty(), e.content@);
            }
            let mut j: usize = 0;
            assert(head + ls.take(0).map_values(|l: Seq<char>| line_node(e.depth as nat, l)) =~= head);
            while j < lines.len()
                invariant
                    e.depth + e.content@.len() <= usize::MAX,
                    ls == lines_of(e.content@),
                    ls == lines@.map_values(|l: Vec<char>| l@),
                    forall|q: int| 0 <= q < ls.len() ==> #[trigger] ls[q].len() <= e.content@.len(),
                    j <= lines.len(),
                    nodes@.map_values(|n: Node| n@) == head + ls.take(j as int).map_values(
                        |l: Seq<char>| line_node(e.depth as nat, l),
                    ),
                decreases lines.len() - j,
            {
                assert(ls[j as int] == lines@[j as int]@);
                let nd = line_node_of(e.depth, &lines[j]);
                let ghost prev = nodes@.map_values(|n: Node| n@);
                nodes.push(nd);
                assert(nodes@.map_values(|n: Node| n@) =~= prev.push(nd@));
                assert(head + ls.take(j + 1).map_values(|l: Seq<char>| line_node(e.depth as nat, l))
                    =~= (head + ls.take(j as int).map_values(|l: Seq<char>| line_node(e.depth as nat, l))).push(
                    line_node(e.depth as nat, ls[j as int]),
                ));
                j = j + 1;
            }
            assert(ls.take(j as int) =~= ls);
            assert(nodes@.map_values(|n: Node| n@) =~= before + entry_nodes(e@));
        } else {
            assert(before + entry_nodes(e@) =~= before);
        }
        i = i + 1;
    }
    assert(es.take(i as int) =~= es);
    let o = Outline { nodes };
    o.render()
}

/// The text read from a walk parses back to the walk's own nodes, provided
/// that they form a forest (no line is tab-indented more than one level past
/// the line before it) and that each headline can stand on a line of its
/// own.
pub proof fn lemma_read_parses_back(es: Seq<(nat, bool, Seq<char>, Seq<char>)>)
    requires
        is_forest(walk_nodes(es)),
        forall|i: int| 0 <= i < walk_nodes(es).len() ==> clean_headline(#[trigger] walk_nodes(es)[i].1),
    ensures
        consistent_text(render_text(walk_nodes(es))),
        nodes_of_lines(lines_of(render_text(walk_nodes(es)))) == walk_nodes(es),
{
    lemma_parse_render(walk_nodes(es));
}

/// The entry holds no content: it is the walked root, a directory whose name
/// can stand as a headline and holds no period, or a file that is not read.
pub open spec fn contentless_entry(e: (nat, bool, Seq<char>, Seq<char>)) -> bool {
    e.0 > 0 ==> if e.1 {
        clean_headline(e.2) && !e.2.contains('.')
    } else {
        !is_content_name(e.2)
    }
}

proof fn lemma_contentless_headlines(es: Seq<(nat, bool, Seq<char>, Seq<char>)>)
    requires
        forall|k: int| 0 <= k < es.len() ==> contentless_entry(#[trigger] es[k]),
    ensures
        forall|i: int| 0 <= i < walk_nodes(es).len() ==> clean_headline(#[trigger] walk_nodes(es)[i].1)
            && !walk_nodes(es)[i].1.contains('.'),
    decreases es.len(),
{
    if es.len() > 0 {
        let init = es.drop_last();
        assert forall|k: int| 0 <= k < init.len() implies contentless_entry(#[trigger] init[k]) by {
            assert(init[k] == es[k]);
        }
        lemma_contentless_headlines(init);
        assert(contentless_entry(es[es.len() - 1]));
        let w = walk_nodes(es);
        assert forall|i: int| 0 <= i < w.len() implies clean_headline(#[trigger] w[i].1) && !w[i].1.contains('.') by {
            if i >= walk_nodes(init).len() {
                assert(entry_nodes(es.last()).len() == 1);
                assert(w[i] == entry_nodes(es.last())[0]);
            } else {
                assert(w[i] == walk_nodes(init)[i]);
            }
        }
    }
}

proof fn lemma_no_file_ops(s: Seq<(nat, Seq<char>)>, n: int)
    requires
        0 <= n <= s.len(),
        forall|i: int| 0 <= i < s.len() ==> kind_of(#[trigger] s[i].1) != NodeKind::File,
    ensures
        forall|k: int| 0 <= k < nodes_ops(s, n).len() ==> !(#[trigger] nodes_ops(s, n)[k] is WriteFile),
    decreases n,
{
    if n > 0 {
        lemma_no_file_ops(s, n - 1);
        assert(kind_of(s[n - 1].1) != NodeKind::File);
        let a = nodes_ops(s, n - 1);
        let b = node_ops(s, n - 1);
        assert forall|k: int| 0 <= k < nodes_ops(s, n).len() implies !(#[trigger] nodes_ops(s, n)[k] is WriteFile) by {
            if k >= a.len() {
                assert(nodes_ops(s, n)[k] == b[k - a.len()]);
            } else {
                assert(nodes_ops(s, n)[k] == a[k]);
            }
        }
    }
}

/// Reading a tree that holds no content file, nor a directory whose name
/// holds a period, and writing out the parsed text, writes no file: the
/// written tree holds the same content files as the read one, that is none.
pub proof fn lemma_round_trip_without_content_files(es: Seq<(nat, bool, Seq<char>, Seq<char>)>)
    requires
        forall|k: int| 0 <= k < es.len() ==> contentless_entry(#[trigger] es[k]),
    ensures
        forall|k: int|
            0 <= k < write_plan(nodes_of_lines(lines_of(render_text(walk_nodes(es))))).len() ==> !(
            #[trigger] write_plan(nodes_of_lines(lines_of(render_text(walk_nodes(es)))))[k] is WriteFile),
{
    let w = walk_nodes(es);
    lemma_contentless_headlines(es);
    lemma_lines_of_render(w);
    let ls = lines_of(render_text(w));
    let s = nodes_of_lines(ls);
    assert forall|i: int| 0 <= i < s.len() implies kind_of(#[trigger] s[i].1) != NodeKind::File by {
        assert(clean_headline(w[i].1));
        assert(ls[i] == indent(w[i].0) + w[i].1);
        assert(indent(w[i].0) =~= Seq::new(2 * w[i].0, |j: int| ' '));
        lemma_leading_spaces(2 * w[i].0, w[i].1);
        assert(s[i].1 == w[i].1);
    }
    lemma_no_file_ops(s, s.len() as int);
    let plan = write_plan(s);
    assert forall|k: int| 0 <= k < plan.len() implies !(#[trigger] plan[k] is WriteFile) by {
        if k > 0 {
            assert(plan[k] == nodes_ops(s, s.len() as int)[k - 1]);
        }
    }
}

/// The entry is a file whose text is not read.
pub open spec fn is_skipped_file(e: (nat, bool, Seq<char>, Seq<char>)) -> bool {
    !e.1 && !is_content_name(e.2)
}

/// The entries of a walk without the files whose text is not read.
pub open spec fn without_skipped(es: Seq<(nat, bool, Seq<char>, Seq<char>)>) -> Seq<(nat, bool, Seq<char>, Seq<char>)>
    decreases es.len(),
{
    if es.len() == 0 {
        Seq::empty()
    } else if is_skipped_file(es.last()) {
        without_skipped(es.drop_last())
    } else {
        without_skipped(es.drop_last()).push(es.last())
    }
}

/// Files that are not read leave no trace in the text read from a walk,
/// wherever they stand in it and whatever they hold.
pub proof fn lemma_skipped_files_leave_no_trace(es: Seq<(nat, bool, Seq<char>, Seq<char>)>)
    ensures
        render_text(walk_nodes(es)) == render_text(walk_nodes(without_skipped(es))),
{
    lemma_skipped_nodes(es);
}

proof fn lemma_skipped_nodes(es: Seq<(nat, bool, Seq<char>, Seq<char>)>)
    ensures
        walk_nodes(es) == walk_nodes(without_skipped(es)),
    decreases es.len(),
{
    if es.len() > 0 {
        lemma_skipped_nodes(es.drop_last());
        let w = without_skipped(es.drop_last());
        if is_skipped_file(es.last()) {
            assert(entry_nodes(es.last()) =~= Seq::<(nat, Seq<char>)>::empty());
            assert(walk_nodes(es) =~= walk_nodes(es.drop_last()));
        } else {
            assert(w.push(es.last()).drop_last() =~= w);
            assert(w.push(es.last()).last() == es.last());
        }
    }
}

} // verus!
