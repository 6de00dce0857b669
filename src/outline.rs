//! The outline: an ordered forest of headlines, and its indentation text form.
//!
//! An outline is stored in pre-order: each node records its depth and its
//! headline, and the children of a node are the nodes that follow it, up to
//! the next node that is not deeper than it.
use vstd::prelude::*;
use crate::text::{chars_of, string_from_chars};

verus! {

/// One node of an outline: its depth (0 for a top-level node) and its headline.
pub struct Node {
    pub depth: usize,
    pub headline: String,
}

impl View for Node {
    type V = (nat, Seq<char>);

    open spec fn view(&self) -> (nat, Seq<char>) {
        (self.depth as nat, self.headline@)
    }
}

/// An ordered forest of headlines, in pre-order.
pub struct Outline {
    pub nodes: Vec<Node>,
}

impl View for Outline {
    type V = Seq<(nat, Seq<char>)>;

    open spec fn view(&self) -> Seq<(nat, Seq<char>)> {
        self.nodes@.map_values(|n: Node| n@)
    }
}

/// The indentation of a line at `depth`: two spaces per level.
pub open spec fn indent(depth: nat) -> Seq<char> {
    Seq::new(2 * depth, |i: int| ' ')
}

/// The text line of one node, newline included.
pub open spec fn line_text(n: (nat, Seq<char>)) -> Seq<char> {
    indent(n.0) + n.1 + seq!['\n']
}

/// The text of a sequence of nodes: one line per node, in order.
pub open spec fn render_text(s: Seq<(nat, Seq<char>)>) -> Seq<char>
    decreases s.len(),
{
    if s.len() == 0 {
        Seq::empty()
    } else {
        render_text(s.drop_last()) + line_text(s.last())
    }
}

/// A sequence of nodes describes a forest: the first node is at the top
/// level and no node is more than one level deeper than the node before it.
pub open spec fn is_forest(s: Seq<(nat, Seq<char>)>) -> bool {
    &&& s.len() > 0 ==> s[0].0 == 0
    &&& forall|i: int| 0 < i < s.len() ==> #[trigger] s[i].0 <= s[i - 1].0 + 1
}

/// Appends the text line of a node at `depth` with `headline` to `out`.
pub(crate) fn push_line(out: &mut Vec<char>, depth: usize, headline: &str)
    ensures
        final(out)@ == old(out)@ + line_text((depth as nat, headline@)),
{
    let ghost start = out@;
    let mut k: usize = 0;
    while k < depth
        invariant
            k <= depth,
            out@ == start + indent(k as nat),
        decreases depth - k,
    {
        out.push(' ');
        out.push(' ');
        k = k + 1;
        assert(out@ =~= start + indent(k as nat));
    }
    let hs = chars_of(headline);
    let mut j: usize = 0;
    while j < hs.len()
        invariant
            j <= hs.len(),
            hs@ == headline@,
            out@ == start + indent(depth as nat) + hs@.take(j as int),
        decreases hs.len() - j,
    {
        out.push(hs[j]);
        j = j + 1;
        assert(out@ =~= start + indent(depth as nat) + hs@.take(j as int));
    }
    out.push('\n');
    assert(hs@.take(j as int) =~= headline@);
    assert(out@ =~= start + line_text((depth as nat, headline@)));
}

/// The lines of `t` that follow the partial line `cur`: pieces between
/// newlines, where a final newline ends the last line instead of starting an
/// empty one.
pub open spec fn lines_from(cur: Seq<char>, t: Seq<char>) -> Seq<Seq<char>>
    decreases t.len(),
{
    if t.len() == 0 {
        if cur.len() == 0 {
            Seq::empty()
        } else {
            seq![cur]
        }
    } else if t[0] == '\n' {
        seq![cur] + lines_from(Seq::empty(), t.drop_first())
    } else {
        lines_from(cur.push(t[0]), t.drop_first())
    }
}

/// The lines of a text.
pub open spec fn lines_of(t: Seq<char>) -> Seq<Seq<char>> {
    lines_from(Seq::empty(), t)
}

/// The number of spaces that a line begins with.
pub open spec fn leading_spaces(l: Seq<char>) -> nat
    decreases l.len(),
{
    if l.len() > 0 && l[0] == ' ' {
        1 + leading_spaces(l.drop_first())
    } else {
        0
    }
}

/// The headline of a line: what follows its indentation, without trailing
/// whitespace.
pub open spec fn headline_of(l: Seq<char>) -> Seq<char> {
    trim_end(l.skip(leading_spaces(l) as int))
}

/// Whitespace that may trail a line: a space, a tab or a carriage return.
pub open spec fn is_blank(c: char) -> bool {
    c == ' ' || c == '\t' || c == '\r'
}

/// A text without the whitespace that ends it.
pub open spec fn trim_end(t: Seq<char>) -> Seq<char>
    decreases t.len(),
{
    if t.len() > 0 && is_blank(t.last()) {
        trim_end(t.drop_last())
    } else {
        t
    }
}

/// The indentations of the scopes still open on `st` once a line indented by
/// `k` spaces arrives: every scope opened at `k` or deeper is closed.
pub open spec fn close_scopes(st: Seq<nat>, k: nat) -> Seq<nat>
    decreases st.len(),
{
    if st.len() > 0 && st.last() >= k {
        close_scopes(st.drop_last(), k)
    } else {
        st
    }
}

/// The indentations of the open scopes after lines indented by `ks`.
pub open spec fn scopes_after(ks: Seq<nat>) -> Seq<nat>
    decreases ks.len(),
{
    if ks.len() == 0 {
        Seq::empty()
    } else {
        close_scopes(scopes_after(ks.drop_last()), ks.last()).push(ks.last())
    }
}

/// The depth of line `i` among lines indented by `ks`: the number of scopes
/// that stay open around it.
pub open spec fn depth_of_line(ks: Seq<nat>, i: int) -> nat {
    close_scopes(scopes_after(ks.take(i)), ks[i]).len()
}

/// The indentations of the lines `ls`.
pub open spec fn indents_of(ls: Seq<Seq<char>>) -> Seq<nat> {
    ls.map_values(|l: Seq<char>| leading_spaces(l))
}

/// Line `i` is consistently indented: by whole levels, and not at all on the
/// first line.
pub open spec fn indent_ok(ls: Seq<Seq<char>>, i: int) -> bool {
    &&& leading_spaces(ls[i]) % 2 == 0
    &&& i == 0 ==> leading_spaces(ls[i]) == 0
}

/// Every line of `t` is consistently indented.
pub open spec fn consistent_text(t: Seq<char>) -> bool {
    forall|i: int| 0 <= i < lines_of(t).len() ==> indent_ok(lines_of(t), i)
}

/// The nodes that consistently indented lines describe.
pub open spec fn nodes_of_lines(ls: Seq<Seq<char>>) -> Seq<(nat, Seq<char>)> {
    Seq::new(ls.len(), |i: int| (depth_of_line(indents_of(ls), i), headline_of(ls[i])))
}

/// The nearest node before position `j` that is shallower than `d`.
pub open spec fn last_shallower(s: Seq<(nat, Seq<char>)>, d: nat, j: int) -> Option<int>
    decreases j,
{
    if j <= 0 {
        None
    } else if s[j - 1].0 < d {
        Some(j - 1)
    } else {
        last_shallower(s, d, j - 1)
    }
}

/// The parent of node `i`: the nearest node before it that is shallower.
pub open spec fn parent_of(s: Seq<(nat, Seq<char>)>, i: int) -> Option<int> {
    last_shallower(s, s[i].0, i)
}

/// Node `a` is a proper ancestor of node `i`.
pub open spec fn is_ancestor(s: Seq<(nat, Seq<char>)>, a: int, i: int) -> bool
    decreases i,
{
    match parent_of(s, i) {
        Some(p) => if 0 <= p < i {
            p == a || is_ancestor(s, a, p)
        } else {
            false
        },
        None => false,
    }
}

/// Node `i` has no children: the next node, if any, is not deeper.
pub open spec fn is_leaf(s: Seq<(nat, Seq<char>)>, i: int) -> bool {
    i + 1 >= s.len() || s[i + 1].0 <= s[i].0
}

/// An optional position as an optional integer.
pub open spec fn opt_pos(o: Option<usize>) -> Option<int> {
    match o {
        Some(p) => Some(p as int),
        None => None,
    }
}

/// A shallower node found before position `j` stands before it.
pub proof fn lemma_last_shallower_bounds(s: Seq<(nat, Seq<char>)>, d: nat, j: int)
    ensures
        last_shallower(s, d, j) matches Some(p) ==> 0 <= p < j && s[p].0 < d,
    decreases j,
{
    if j > 0 && s[j - 1].0 >= d {
        lemma_last_shallower_bounds(s, d, j - 1);
    }
}

/// Nodes strictly between a node and its parent are at least as deep as the
/// node, so a search for a shallower node may jump to the parent.
proof fn lemma_last_shallower_jump(s: Seq<(nat, Seq<char>)>, e: nat, d: nat, c: int)
    requires
        d <= e,
        0 <= c <= s.len(),
    ensures
        last_shallower(s, e, c) matches Some(p) ==> last_shallower(s, d, c) == last_shallower(
            s,
            d,
            p + 1,
        ),
        last_shallower(s, e, c) is None ==> last_shallower(s, d, c) is None,
    decreases c,
{
    if c > 0 && s[c - 1].0 >= e {
        lemma_last_shallower_jump(s, e, d, c - 1);
    }
}

/// An inconsistently indented line, reported by its line number (from 1).
pub struct FormatError {
    pub line: usize,
}

/// Splits `cs` into its lines.
pub fn split_lines(cs: &Vec<char>) -> (r: Vec<Vec<char>>)
    ensures
        r@.map_values(|l: Vec<char>| l@) == lines_of(cs@),
{
    let mut out: Vec<Vec<char>> = Vec::new();
    let mut cur: Vec<char> = Vec::new();
    let mut i: usize = 0;
    assert(cs@.skip(0) =~= cs@);
    assert(out@.map_values(|l: Vec<char>| l@) =~= Seq::<Seq<char>>::empty());
    while i < cs.len()
        invariant
            i <= cs.len(),
            lines_of(cs@) == out@.map_values(|l: Vec<char>| l@) + lines_from(cur@, cs@.skip(i as int)),
        decreases cs.len() - i,
    {
        let ghost prev = out@.map_values(|l: Vec<char>| l@);
        let ghost rest = cs@.skip(i as int);
        assert(rest[0] == cs@[i as int]);
        assert(rest.drop_first() =~= cs@.skip(i + 1));
        if cs[i] == '\n' {
            let ghost c = cur@;
            out.push(cur);
            cur = Vec::new();
            assert(out@.map_values(|l: Vec<char>| l@) =~= prev.push(c));
            assert(prev + lines_from(c, rest) =~= prev.push(c) + lines_from(cur@, cs@.skip(i + 1)));
        } else {
            cur.push(cs[i]);
        }
        i = i + 1;
    }
    let ghost prev = out@.map_values(|l: Vec<char>| l@);
    assert(cs@.skip(i as int).len() == 0);
    if cur.len() > 0 {
        let ghost c = cur@;
        out.push(cur);
        assert(out@.map_values(|l: Vec<char>| l@) =~= prev + seq![c]);
    } else {
        assert(prev + lines_from(cur@, cs@.skip(i as int)) =~= prev);
    }
    out
}

/// The number of leading spaces of `l`, and the headline that follows them.
fn split_indent(l: &Vec<char>) -> (r: (usize, String))
    ensures
        r.0 == leading_spaces(l@),
        r.1@ == headline_of(l@),
{
    let mut k: usize = 0;
    assert(l@.skip(0) =~= l@);
    while k < l.len() && l[k] == ' '
        invariant
            k <= l.len(),
            leading_spaces(l@) == k + leading_spaces(l@.skip(k as int)),
        decreases l.len() - k,
    {
        assert(l@.skip(k as int).drop_first() =~= l@.skip(k + 1));
        k = k + 1;
    }
    let mut n: usize = l.len();
    assert(l@.subrange(k as int, n as int) =~= l@.skip(k as int));
    while n > k && (l[n - 1] == ' ' || l[n - 1] == '\t' || l[n - 1] == '\r')
        invariant
            k <= n <= l.len(),
            trim_end(l@.skip(k as int)) == trim_end(l@.subrange(k as int, n as int)),
        decreases n,
    {
        assert(l@.subrange(k as int, n as int).drop_last() =~= l@.subrange(k as int, n - 1));
        n = n - 1;
    }
    let mut h: Vec<char> = Vec::new();
    let mut j: usize = k;
    while j < n
        invariant
            k <= j <= n <= l.len(),
            h@ == l@.subrange(k as int, j as int),
        decreases n - j,
    {
        h.push(l[j]);
        j = j + 1;
        assert(h@ =~= l@.subrange(k as int, j as int));
    }
    assert(trim_end(h@) == h@);
    (k, string_from_chars(&h))
}

/// A headline that can stand on a line of its own: it holds no newline, does
/// not begin with a space and does not end with whitespace.
pub open spec fn clean_headline(h: Seq<char>) -> bool {
    &&& !h.contains('\n')
    &&& h.len() > 0 ==> h[0] != ' '
    &&& h.len() > 0 ==> !is_blank(h.last())
}

/// The open scopes of a forest line at depth `d - 1`: one per level.
spec fn level_scopes(d: nat) -> Seq<nat> {
    Seq::new(d, |j: int| (2 * j) as nat)
}

proof fn lemma_lines_from_line(cur: Seq<char>, l: Seq<char>, rest: Seq<char>)
    requires
        !l.contains('\n'),
    ensures
        lines_from(cur, l + seq!['\n'] + rest) == seq![cur + l] + lines_of(rest),
    decreases l.len(),
{
    let t = l + seq!['\n'] + rest;
    if l.len() == 0 {
        assert(t[0] == '\n');
        assert(t.drop_first() =~= rest);
        assert(cur + l =~= cur);
    } else {
        assert(t[0] == l[0]);
        assert(l[0] != '\n') by {
            if l[0] == '\n' {
                assert(l.contains('\n'));
            }
        }
        let l2 = l.drop_first();
        assert(!l2.contains('\n')) by {
            if l2.contains('\n') {
                let k = choose|k: int| 0 <= k < l2.len() && l2[k] == '\n';
                assert(l[k + 1] == '\n');
            }
        }
        assert(t.drop_first() =~= l2 + seq!['\n'] + rest);
        lemma_lines_from_line(cur.push(l[0]), l2, rest);
        assert(cur.push(l[0]) + l2 =~= cur + l);
    }
}

proof fn lemma_render_front(s: Seq<(nat, Seq<char>)>)
    requires
        s.len() > 0,
    ensures
        render_text(s) == line_text(s[0]) + render_text(s.drop_first()),
    decreases s.len(),
{
    if s.len() == 1 {
        assert(s.drop_last().len() == 0);
        assert(s.drop_first().len() == 0);
        assert(render_text(s.drop_last()) == Seq::<char>::empty());
        assert(render_text(s.drop_first()) == Seq::<char>::empty());
        assert(s.last() == s[0]);
        assert(render_text(s) =~= line_text(s[0]) + render_text(s.drop_first()));
    } else {
        lemma_render_front(s.drop_last());
        assert(s.drop_last().drop_first() =~= s.drop_first().drop_last());
        assert(s.drop_last()[0] == s[0]);
        assert(s.drop_first().last() == s.last());
        assert(render_text(s.drop_first()) == render_text(s.drop_first().drop_last()) + line_text(
            s.drop_first().last(),
        ));
        assert(render_text(s) =~= line_text(s[0]) + render_text(s.drop_first()));
    }
}

/// The lines of rendered text are the nodes' indented headlines.
pub proof fn lemma_lines_of_render(s: Seq<(nat, Seq<char>)>)
    requires
        forall|i: int| 0 <= i < s.len() ==> clean_headline(#[trigger] s[i].1),
    ensures
        lines_of(render_text(s)) == s.map_values(
            |n: (nat, Seq<char>)| indent(n.0) + n.1,
        ),
    decreases s.len(),
{
    if s.len() == 0 {
        assert(s.map_values(|n: (nat, Seq<char>)| indent(n.0) + n.1) =~= Seq::<Seq<char>>::empty());
    } else {
        lemma_render_front(s);
        let rest = s.drop_first();
        assert forall|i: int| 0 <= i < rest.len() implies clean_headline(#[trigger] rest[i].1) by {
            assert(rest[i] == s[i + 1]);
        }
        lemma_lines_of_render(rest);
        let l = indent(s[0].0) + s[0].1;
        assert(clean_headline(s[0].1));
        assert(!l.contains('\n')) by {
            if l.contains('\n') {
                let k = choose|k: int| 0 <= k < l.len() && l[k] == '\n';
                if k >= 2 * s[0].0 {
                    assert(s[0].1[k - 2 * s[0].0] == '\n');
                }
            }
        }
        assert(line_text(s[0]) == l + seq!['\n']);
        lemma_lines_from_line(Seq::empty(), l, render_text(rest));
        assert(Seq::<char>::empty() + l =~= l);
        assert(s.map_values(|n: (nat, Seq<char>)| indent(n.0) + n.1) =~= seq![l]
            + rest.map_values(|n: (nat, Seq<char>)| indent(n.0) + n.1));
    }
}

/// Indentation followed by a headline that neither begins with a space nor
/// ends with whitespace splits back into the two.
pub proof fn lemma_leading_spaces(n: nat, h: Seq<char>)
    requires
        h.len() > 0 ==> h[0] != ' ',
        h.len() > 0 ==> !is_blank(h.last()),
    ensures
        leading_spaces(Seq::new(n, |i: int| ' ') + h) == n,
        headline_of(Seq::new(n, |i: int| ' ') + h) == h,
    decreases n,
{
    let l = Seq::new(n, |i: int| ' ') + h;
    if n > 0 {
        assert(l.drop_first() =~= Seq::new((n - 1) as nat, |i: int| ' ') + h);
        lemma_leading_spaces((n - 1) as nat, h);
    }
    assert(l.skip(n as int) =~= h);
}

proof fn lemma_close_level_scopes(m: nat, d: nat)
    requires
        d <= m,
    ensures
        close_scopes(level_scopes(m), 2 * d) == level_scopes(d),
    decreases m,
{
    if m > d {
        assert(level_scopes(m).drop_last() =~= level_scopes((m - 1) as nat));
        lemma_close_level_scopes((m - 1) as nat, d);
    } else if m > 0 {
        assert(level_scopes(m).last() < 2 * d);
    }
}

proof fn lemma_forest_scopes(s: Seq<(nat, Seq<char>)>, ks: Seq<nat>, i: int)
    requires
        is_forest(s),
        ks == s.map_values(|n: (nat, Seq<char>)| 2 * n.0),
        1 <= i <= s.len(),
    ensures
        scopes_after(ks.take(i)) == level_scopes(s[i - 1].0 + 1),
    decreases i,
{
    let t = ks.take(i);
    assert(t.drop_last() =~= ks.take(i - 1));
    assert(t.last() == 2 * s[i - 1].0);
    if i == 1 {
        assert(ks.take(0) =~= Seq::<nat>::empty());
        assert(s[0].0 == 0);
        assert(scopes_after(Seq::<nat>::empty()) =~= Seq::<nat>::empty());
        assert(close_scopes(Seq::<nat>::empty(), 0) =~= Seq::<nat>::empty());
        assert(scopes_after(t) =~= level_scopes(1));
    } else {
        lemma_forest_scopes(s, ks, i - 1);
        assert(s[i - 1].0 <= s[i - 2].0 + 1);
        lemma_close_level_scopes(s[i - 2].0 + 1, s[i - 1].0);
        assert(scopes_after(t) =~= level_scopes(s[i - 1].0 + 1));
    }
}

/// Rendering a forest whose headlines can each stand on a line of their own
/// gives consistently indented text, and parsing that text gives back the
/// same forest.
pub proof fn lemma_parse_render(s: Seq<(nat, Seq<char>)>)
    requires
        is_forest(s),
        forall|i: int| 0 <= i < s.len() ==> clean_headline(#[trigger] s[i].1),
    ensures
        consistent_text(render_text(s)),
        nodes_of_lines(lines_of(render_text(s))) == s,
{
    lemma_lines_of_render(s);
    let ls = lines_of(render_text(s));
    let ks = s.map_values(|n: (nat, Seq<char>)| 2 * n.0);
    assert forall|i: int| 0 <= i < s.len() implies leading_spaces(#[trigger] ls[i]) == 2 * s[i].0
        && headline_of(ls[i]) == s[i].1 by {
        assert(clean_headline(s[i].1));
        lemma_leading_spaces(2 * s[i].0, s[i].1);
        assert(indent(s[i].0) =~= Seq::new(2 * s[i].0, |j: int| ' '));
    }
    assert(indents_of(ls) =~= ks);
    assert forall|i: int| 0 <= i < ls.len() implies indent_ok(ls, i) by {
        if i == 0 {
            assert(s[0].0 == 0);
        }
        assert((2 * s[i].0) % 2 == 0) by (nonlinear_arith);
    }
    assert forall|i: int| 0 <= i < s.len() implies #[trigger] nodes_of_lines(ls)[i] == s[i] by {
        if i == 0 {
            assert(ks.take(0) =~= Seq::<nat>::empty());
        } else {
            lemma_forest_scopes(s, ks, i);
            assert(s[i].0 <= s[i - 1].0 + 1);
            lemma_close_level_scopes(s[i - 1].0 + 1, s[i].0);
        }
    }
    assert(nodes_of_lines(ls) =~= s);
}

impl Outline {
    /// The empty outline.
    pub fn new() -> (r: Outline)
        ensures
            r@ == Seq::<(nat, Seq<char>)>::empty(),
    {
        let r = Outline { nodes: Vec::new() };
        assert(r@ =~= Seq::<(nat, Seq<char>)>::empty());
        r
    }

    /// Parses indentation text. Each line becomes a node whose headline is
    /// the line without its leading spaces; a line indented further than the
    /// scope it falls in opens a child scope, and a line indented no further
    /// than an open scope closes it. Fails on the first line that is not
    /// indented by whole two-space levels, or on an indented first line.
    pub fn parse(text: &str) -> (r: Result<Outline, FormatError>)
        ensures
            (r is Ok) <==> consistent_text(text@),
            r matches Ok(o) ==> o@ == nodes_of_lines(lines_of(text@)) && is_forest(o@),
            r matches Err(e) ==> {
                &&& 1 <= e.line <= lines_of(text@).len()
                &&& !indent_ok(lines_of(text@), e.line - 1)
                &&& forall|j: int| 0 <= j < e.line - 1 ==> indent_ok(lines_of(text@), j)
            },
    {
        let cs = chars_of(text);
        let lines = split_lines(&cs);
        let ghost ls = lines_of(text@);
        let ghost ks = indents_of(ls);
        let mut nodes: Vec<Node> = Vec::new();
        let mut scopes: Vec<usize> = Vec::new();
        let mut i: usize = 0;
        assert(ks.take(0) =~= Seq::<nat>::empty());
        assert(scopes@.map_values(|x: usize| x as nat) =~= Seq::<nat>::empty());
        while i < lines.len()
            invariant
                i <= lines.len(),
                ls == lines_of(text@),
                ls == lines@.map_values(|l: Vec<char>| l@),
                ks == indents_of(ls),
                forall|j: int| 0 <= j < i ==> indent_ok(ls, j),
                nodes@.map_values(|n: Node| n@) == nodes_of_lines(ls).take(i as int),
                scopes@.map_values(|x: usize| x as nat) == scopes_after(ks.take(i as int)),
                i > 0 ==> scopes.len() == nodes@[i - 1].depth + 1,
                i == 0 ==> scopes.len() == 0,
                is_forest(nodes@.map_values(|n: Node| n@)),
            decreases lines.len() - i,
        {
            let (k, head) = split_indent(&lines[i]);
            assert(ls[i as int] == lines@[i as int]@);
            if k % 2 != 0 || (i == 0 && k != 0) {
                assert(ls.len() == lines.len());
                assert(!indent_ok(ls, i as int));
                return Err(FormatError { line: i + 1 });
            }
            let ghost open_before = scopes@.map_values(|x: usize| x as nat);
            while scopes.len() > 0 && scopes[scopes.len() - 1] >= k
                invariant
                    close_scopes(open_before, k as nat) == close_scopes(
                        scopes@.map_values(|x: usize| x as nat),
                        k as nat,
                    ),
                    scopes.len() <= open_before.len(),
                decreases scopes.len(),
            {
                let ghost v = scopes@.map_values(|x: usize| x as nat);
                scopes.pop();
                assert(scopes@.map_values(|x: usize| x as nat) =~= v.drop_last());
            }
            assert(close_scopes(open_before, k as nat) == scopes@.map_values(|x: usize| x as nat));
            let depth = scopes.len();
            let ghost prev_nodes = nodes@.map_values(|n: Node| n@);
            nodes.push(Node { depth, headline: head });
            scopes.push(k);
            proof {
                assert(ks.take(i + 1).drop_last() =~= ks.take(i as int));
                assert(ks[i as int] == k);
                assert(scopes@.map_values(|x: usize| x as nat) =~= close_scopes(
                    open_before,
                    k as nat,
                ).push(k as nat));
                assert(nodes_of_lines(ls)[i as int] == (depth as nat, head@));
                assert(nodes@.map_values(|n: Node| n@) =~= prev_nodes.push((depth as nat, head@)));
                assert(nodes_of_lines(ls).take(i + 1) =~= nodes_of_lines(ls).take(i as int).push(
                    (depth as nat, head@),
                ));
                let nv = nodes@.map_values(|n: Node| n@);
                assert forall|j: int| 0 < j < nv.len() implies #[trigger] nv[j].0 <= nv[j - 1].0
                    + 1 by {
                    if j < i {
                        assert(nv[j] == prev_nodes[j] && nv[j - 1] == prev_nodes[j - 1]);
                    }
                }
            }
            i = i + 1;
        }
        assert(nodes_of_lines(ls).take(i as int) =~= nodes_of_lines(ls));
        Ok(Outline { nodes })
    }

    /// The parent of each node, by position.
    pub fn parents(&self) -> (r: Vec<Option<usize>>)
        ensures
            r.len() == self.nodes.len(),
            forall|i: int| 0 <= i < r.len() ==> opt_pos(#[trigger] r@[i]) == parent_of(self@, i),
    {
        let ghost s = self@;
        let mut r: Vec<Option<usize>> = Vec::new();
        let mut i: usize = 0;
        while i < self.nodes.len()
            invariant
                s == self@,
                i <= self.nodes.len(),
                r.len() == i,
                forall|k: int| 0 <= k < i ==> opt_pos(#[trigger] r@[k]) == parent_of(s, k),
            decreases self.nodes.len() - i,
        {
            let d = self.nodes[i].depth;
            let mut j: usize = i;
            let mut found: Option<usize> = None;
            let mut searching = true;
            while searching
                invariant
                    s == self@,
                    i < self.nodes.len(),
                    r.len() == i,
                    forall|k: int| 0 <= k < i ==> opt_pos(#[trigger] r@[k]) == parent_of(s, k),
                    d == s[i as int].0,
                    j <= i,
                    searching ==> last_shallower(s, d as nat, i as int) == last_shallower(
                        s,
                        d as nat,
                        j as int,
                    ),
                    searching ==> found is None,
                    !searching ==> opt_pos(found) == last_shallower(s, d as nat, i as int),
                decreases j as int + if searching {
                    1int
                } else {
                    0int
                },
            {
                if j == 0 {
                    searching = false;
                } else if self.nodes[j - 1].depth < d {
                    found = Some(j - 1);
                    searching = false;
                } else {
                    let c = j - 1;
                    proof {
                        lemma_last_shallower_jump(s, s[c as int].0, d as nat, c as int);
                        lemma_last_shallower_bounds(s, s[c as int].0, c as int);
                    }
                    match r[c] {
                        Some(p) => {
                            j = p + 1;
                        },
                        None => {
                            j = 0;
                        },
                    }
                }
            }
            r.push(found);
            proof {
                assert(r@[i as int] == found);
            }
            i = i + 1;
        }
        r
    }

    /// The indentation text of the outline: each node on a line of its own,
    /// indented by two spaces per level, in pre-order.
    pub fn render(&self) -> (r: String)
        ensures
            r@ == render_text(self@),
    {
        let mut out: Vec<char> = Vec::new();
        let mut i: usize = 0;
        while i < self.nodes.len()
            invariant
                i <= self.nodes.len(),
                out@ == render_text(self@.take(i as int)),
            decreases self.nodes.len() - i,
        {
            push_line(&mut out, self.nodes[i].depth, self.nodes[i].headline.as_str());
            proof {
                let t = self@.take(i + 1);
                assert(t.drop_last() =~= self@.take(i as int));
                assert(t.last() == self.nodes@[i as int]@);
            }
            i = i + 1;
        }
        assert(self@.take(i as int) =~= self@);
        string_from_chars(&out)
    }
}

} // verus!
