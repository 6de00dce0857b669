//! Topic closure of a tag hierarchy, and its propagation onto tag lists.
//!
//! In a hierarchy outline the leaves are tags, and the ancestors of a leaf are
//! its topics. An item tagged with a tag is also about all of its topics.
use vstd::prelude::*;
use crate::outline::{Outline, is_leaf, is_ancestor, parent_of, opt_pos, lemma_last_shallower_bounds};
use crate::order::{insert_sorted, strictly_sorted};
use crate::text::{clone_strings, contains_string, strs};

verus! {

/// Node `i` of `s` is a leaf with headline `t`.
pub open spec fn is_tag_at(s: Seq<(nat, Seq<char>)>, i: int, t: Seq<char>) -> bool {
    0 <= i < s.len() && is_leaf(s, i) && s[i].1 == t
}

/// Node `i` of `s` is a leaf with headline `t` below an ancestor with headline `u`.
pub open spec fn is_topic_at(s: Seq<(nat, Seq<char>)>, i: int, t: Seq<char>, u: Seq<char>) -> bool {
    is_tag_at(s, i, t) && exists|a: int| 0 <= a < s.len() && #[trigger] is_ancestor(s, a, i) && s[a].1 == u
}

/// `t` is a tag of the hierarchy `s`: some leaf among the first `n` nodes has it as headline.
pub open spec fn tag_within(s: Seq<(nat, Seq<char>)>, t: Seq<char>, n: int) -> bool {
    exists|i: int| 0 <= i < n && #[trigger] is_tag_at(s, i, t)
}

/// `u` is a topic of tag `t`: some leaf among the first `n` nodes with headline `t`
/// lies below a node with headline `u`.
pub open spec fn topic_within(s: Seq<(nat, Seq<char>)>, t: Seq<char>, u: Seq<char>, n: int) -> bool {
    exists|i: int| 0 <= i < n && #[trigger] is_topic_at(s, i, t, u)
}

/// The topics of one tag.
pub struct TopicEntry {
    pub tag: String,
    pub topics: Vec<String>,
}

impl View for TopicEntry {
    type V = (Seq<char>, Seq<Seq<char>>);

    open spec fn view(&self) -> (Seq<char>, Seq<Seq<char>>) {
        (self.tag@, strs(self.topics@))
    }
}

/// Each tag with its topics: the tags are distinct, and the topics of each
/// tag are in strictly increasing order.
pub open spec fn closure_wf(c: Seq<(Seq<char>, Seq<Seq<char>>)>) -> bool {
    &&& forall|k: int, m: int| 0 <= k < c.len() && 0 <= m < c.len() && k != m ==> c[k].0 != c[m].0
    &&& forall|k: int| 0 <= k < c.len() ==> strictly_sorted((#[trigger] c[k]).1)
}

/// The topics recorded for tag `t`; none where it is not a tag.
pub open spec fn topics_for(c: Seq<(Seq<char>, Seq<Seq<char>>)>, t: Seq<char>) -> Seq<Seq<char>> {
    if exists|k: int| 0 <= k < c.len() && c[k].0 == t {
        c[choose|k: int| 0 <= k < c.len() && c[k].0 == t].1
    } else {
        Seq::empty()
    }
}

/// The closure records tag `t`.
pub open spec fn has_tag(c: Seq<(Seq<char>, Seq<Seq<char>>)>, t: Seq<char>) -> bool {
    exists|k: int| 0 <= k < c.len() && (#[trigger] c[k]).0 == t
}

/// The closure records `u` as a topic of tag `t`.
pub open spec fn has_topic(c: Seq<(Seq<char>, Seq<Seq<char>>)>, t: Seq<char>, u: Seq<char>) -> bool {
    exists|k: int| 0 <= k < c.len() && (#[trigger] c[k]).0 == t && c[k].1.contains(u)
}

/// The views of a sequence of entries.
pub open spec fn entries_view(v: Seq<TopicEntry>) -> Seq<(Seq<char>, Seq<Seq<char>>)> {
    v.map_values(|e: TopicEntry| e@)
}

/// The topic closure of a tag hierarchy: for each tag, the union of the
/// ancestors of all its occurrences.
pub struct TopicClosure {
    entries: Vec<TopicEntry>,
}

impl View for TopicClosure {
    type V = Seq<(Seq<char>, Seq<Seq<char>>)>;

    closed spec fn view(&self) -> Seq<(Seq<char>, Seq<Seq<char>>)> {
        entries_view(self.entries@)
    }
}

/// An ancestor of an ancestor is an ancestor.
pub proof fn lemma_ancestor_trans(s: Seq<(nat, Seq<char>)>, x: int, c: int, i: int)
    requires
        is_ancestor(s, x, c),
        is_ancestor(s, c, i),
    ensures
        is_ancestor(s, x, i),
    decreases i,
{
    let p = parent_of(s, i)->0;
    if p != c {
        lemma_ancestor_trans(s, x, c, p);
    }
}

/// The headlines of the ancestors of node `i`, nearest first.
fn ancestor_headlines(o: &Outline, par: &Vec<Option<usize>>, i: usize) -> (r: Vec<String>)
    requires
        par.len() == o.nodes.len(),
        forall|k: int| 0 <= k < par.len() ==> opt_pos(#[trigger] par@[k]) == parent_of(o@, k),
        i < o.nodes.len(),
    ensures
        forall|u: Seq<char>| strs(r@).contains(u) <==> exists|a: int|
            0 <= a < o@.len() && #[trigger] is_ancestor(o@, a, i as int) && o@[a].1 == u,
{
    let ghost s = o@;
    let mut r: Vec<String> = Vec::new();
    let mut cur: Option<usize> = par[i];
    proof {
        lemma_last_shallower_bounds(s, s[i as int].0, i as int);
        assert(opt_pos(par@[i as int]) == parent_of(s, i as int));
    }
    while cur.is_some()
        invariant
            s == o@,
            s.len() == o.nodes.len(),
            par.len() == o.nodes.len(),
            forall|k: int| 0 <= k < par.len() ==> opt_pos(#[trigger] par@[k]) == parent_of(o@, k),
            i < o.nodes.len(),
            forall|u: Seq<char>| strs(r@).contains(u) ==> exists|a: int|
                0 <= a < s.len() && #[trigger] is_ancestor(s, a, i as int) && s[a].1 == u,
            forall|a: int| 0 <= a < s.len() && #[trigger] is_ancestor(s, a, i as int) ==> strs(r@).contains(s[a].1)
                || (cur matches Some(c) && (a == c || is_ancestor(s, a, c as int))),
            cur matches Some(c) ==> is_ancestor(s, c as int, i as int) && (c as int) < i,
        decreases match cur { Some(c) => c + 1, None => 0 },
    {
        let c = cur.unwrap();
        let h = o.nodes[c].headline.clone();
        let ghost before = strs(r@);
        r.push(h);
        assert(strs(r@) =~= before.push(s[c as int].1));
        assert(strs(r@)[strs(r@).len() - 1] == s[c as int].1);
        assert forall|u: Seq<char>| strs(r@).contains(u) implies exists|a: int|
            0 <= a < s.len() && #[trigger] is_ancestor(s, a, i as int) && s[a].1 == u by {
            if u != s[c as int].1 {
                let k = choose|k: int| 0 <= k < strs(r@).len() && strs(r@)[k] == u;
                assert(before[k] == u);
                assert(before.contains(u));
            }
        }
        assert forall|a: int| 0 <= a < s.len() && before.contains(s[a].1) implies strs(r@).contains(s[a].1) by {
            let k = choose|k: int| 0 <= k < before.len() && before[k] == s[a].1;
            assert(strs(r@)[k] == s[a].1);
        }
        proof {
            assert(opt_pos(par@[c as int]) == parent_of(s, c as int));
            lemma_last_shallower_bounds(s, s[c as int].0, c as int);
            match parent_of(s, c as int) {
                Some(p) => {
                    lemma_ancestor_trans(s, p, c as int, i as int);
                },
                None => {},
            }
        }
        cur = par[c];
    }
    r
}

/// Records `heads` as topics of `tag`, adding an entry for `tag` where it
/// has none.
fn record_topics(entries: &mut Vec<TopicEntry>, tag: &String, heads: &Vec<String>)
    requires
        closure_wf(entries_view(old(entries)@)),
    ensures
        closure_wf(entries_view(final(entries)@)),
        forall|t: Seq<char>| #[trigger] has_tag(entries_view(final(entries)@), t) <==> (
            has_tag(entries_view(old(entries)@), t) || t == tag@),
        forall|t: Seq<char>, u: Seq<char>| #[trigger] has_topic(entries_view(final(entries)@), t, u)
            <==> (has_topic(entries_view(old(entries)@), t, u) || (t == tag@
            && strs(heads@).contains(u))),
{
    let ghost c0 = entries_view(entries@);
    let mut k: usize = 0;
    while k < entries.len() && entries[k].tag != *tag
        invariant
            k <= entries.len(),
            entries_view(entries@) == c0,
            forall|m: int| 0 <= m < k ==> c0[m].0 != tag@,
        decreases entries.len() - k,
    {
        k = k + 1;
    }
    if k == entries.len() {
        let e = TopicEntry { tag: tag.clone(), topics: Vec::new() };
        assert(e@ =~= (tag@, Seq::<Seq<char>>::empty()));
        entries.push(e);
        proof {
            let c1 = entries_view(entries@);
            assert(c1 =~= c0.push((tag@, Seq::<Seq<char>>::empty())));
            assert forall|t: Seq<char>, u: Seq<char>| has_topic(c0, t, u) implies has_topic(c1, t, u) by {
                if has_topic(c0, t, u) {
                    let m = choose|m: int| 0 <= m < c0.len() && (#[trigger] c0[m]).0 == t && c0[m].1.contains(u);
                    assert(c1[m] == c0[m]);
                }
            }
            assert forall|t: Seq<char>| has_tag(c0, t) implies has_tag(c1, t) by {
                if has_tag(c0, t) {
                    let m = choose|m: int| 0 <= m < c0.len() && (#[trigger] c0[m]).0 == t;
                    assert(c1[m] == c0[m]);
                }
            }
        }
    }
    let ghost c1 = entries_view(entries@);
    let ghost t1 = c1[k as int].1;
    assert(has_tag(c1, tag@)) by {
        assert(c1[k as int].0 == tag@);
    }
    let mut m: usize = heads.len();
    while m > 0
        invariant
            m <= heads.len(),
            k < entries.len(),
            entries.len() == c1.len(),
            closure_wf(c1),
            c1[k as int].0 == tag@,
            t1 == c1[k as int].1,
            forall|j: int| 0 <= j < entries.len() && j != k ==> #[trigger] entries@[j]@ == c1[j],
            entries@[k as int].tag@ == tag@,
            strictly_sorted(strs(entries@[k as int].topics@)),
            forall|u: Seq<char>| #[trigger] strs(entries@[k as int].topics@).contains(u) <==> (t1.contains(u)
                || exists|j: int| m <= j < heads.len() && heads@[j]@ == u),
        decreases m,
    {
        m = m - 1;
        let ghost before = strs(entries@[k as int].topics@);
        let ghost e0 = entries@;
        insert_sorted(&mut entries[k].topics, &heads[m]);
        assert forall|j: int| 0 <= j < entries.len() && j != k implies #[trigger] entries@[j]@ == c1[j] by {
            assert(entries@[j] == e0[j]);
        }
        assert forall|u: Seq<char>| #[trigger] strs(entries@[k as int].topics@).contains(u) <==> (t1.contains(u)
            || exists|j: int| m <= j < heads.len() && heads@[j]@ == u) by {
            if u == heads@[m as int]@ {
                assert(strs(entries@[k as int].topics@).contains(u));
            }
        }
    }
    proof {
        let c2 = entries_view(entries@);
        assert forall|j: int| 0 <= j < c2.len() && j != k implies c2[j] == c1[j] by {
            assert(entries@[j]@ == c1[j]);
        }
        assert(c2[k as int].0 == tag@);
        assert forall|u: Seq<char>| c2[k as int].1.contains(u) <==> (t1.contains(u) || strs(heads@).contains(u)) by {
            assert(c2[k as int].1 == strs(entries@[k as int].topics@));
            if strs(heads@).contains(u) {
                let q = choose|q: int| 0 <= q < strs(heads@).len() && strs(heads@)[q] == u;
                assert(heads@[q]@ == u);
            }
            if exists|j: int| 0 <= j < heads.len() && heads@[j]@ == u {
                let q = choose|q: int| 0 <= q < heads.len() && heads@[q]@ == u;
                assert(strs(heads@)[q] == u);
            }
        }
        assert forall|t: Seq<char>| has_tag(c2, t) <==> has_tag(c1, t) by {
            if has_tag(c2, t) {
                let q = choose|q: int| 0 <= q < c2.len() && (#[trigger] c2[q]).0 == t;
                assert(c1[q].0 == t);
            }
            if has_tag(c1, t) {
                let q = choose|q: int| 0 <= q < c1.len() && (#[trigger] c1[q]).0 == t;
                assert(c2[q].0 == t);
            }
        }
        assert forall|t: Seq<char>, u: Seq<char>| has_topic(c2, t, u) <==> (has_topic(c1, t, u) || (t == tag@
            && strs(heads@).contains(u))) by {
            if has_topic(c2, t, u) {
                let q = choose|q: int| 0 <= q < c2.len() && (#[trigger] c2[q]).0 == t && c2[q].1.contains(u);
                if q != k {
                    assert(c1[q] == c2[q]);
                } else if t1.contains(u) {
                    assert(c1[q].1.contains(u));
                }
            }
            if has_topic(c1, t, u) {
                let q = choose|q: int| 0 <= q < c1.len() && (#[trigger] c1[q]).0 == t && c1[q].1.contains(u);
                if q != k {
                    assert(c2[q] == c1[q]);
                } else {
                    assert(c2[q].1.contains(u));
                }
            }
            if t == tag@ && strs(heads@).contains(u) {
                assert(c2[k as int].1.contains(u));
            }
        }
        if k < c0.len() {
            assert(c1 == c0);
        } else {
            assert forall|t: Seq<char>, u: Seq<char>| has_topic(c1, t, u) implies has_topic(c0, t, u) by {
                if has_topic(c1, t, u) {
                    let q = choose|q: int| 0 <= q < c1.len() && (#[trigger] c1[q]).0 == t && c1[q].1.contains(u);
                    if q < c0.len() {
                        assert(c0[q] == c1[q]);
                    } else {
                        assert(c1[q].1.len() == 0);
                    }
                }
            }
            assert forall|t: Seq<char>| has_tag(c1, t) implies (has_tag(c0, t) || t == tag@) by {
                if has_tag(c1, t) {
                    let q = choose|q: int| 0 <= q < c1.len() && (#[trigger] c1[q]).0 == t;
                    if q < c0.len() {
                        assert(c0[q] == c1[q]);
                    }
                }
            }
        }
    }
}

/// `c` is the topic closure of hierarchy `s`: its tags are the leaf
/// headlines, and the topics of a tag are the headlines of the ancestors of
/// all its occurrences.
pub open spec fn closure_of(s: Seq<(nat, Seq<char>)>, c: Seq<(Seq<char>, Seq<Seq<char>>)>) -> bool {
    &&& closure_wf(c)
    &&& forall|t: Seq<char>| #[trigger] has_tag(c, t) <==> tag_within(s, t, s.len() as int)
    &&& forall|t: Seq<char>, u: Seq<char>| #[trigger] has_topic(c, t, u) <==> topic_within(s, t, u, s.len() as int)
}

/// The topic closure of a hierarchy outline: each leaf headline is a tag,
/// and the topics of a tag are the headlines of the ancestors of all its
/// occurrences, in increasing order.
pub fn build_closure(hierarchy: &Outline) -> (r: TopicClosure)
    ensures
        closure_of(hierarchy@, r@),
{
    let ghost s = hierarchy@;
    let par = hierarchy.parents();
    let mut entries: Vec<TopicEntry> = Vec::new();
    let n = hierarchy.nodes.len();
    let mut i: usize = 0;
    while i < n
        invariant
            s == hierarchy@,
            n == hierarchy.nodes.len(),
            n == s.len(),
            i <= n,
            par.len() == n,
            forall|k: int| 0 <= k < par.len() ==> opt_pos(#[trigger] par@[k]) == parent_of(s, k),
            closure_wf(entries_view(entries@)),
            forall|t: Seq<char>| #[trigger] has_tag(entries_view(entries@), t) <==> tag_within(s, t, i as int),
            forall|t: Seq<char>, u: Seq<char>| #[trigger] has_topic(entries_view(entries@), t, u) <==> topic_within(
                s,
                t,
                u,
                i as int,
            ),
        decreases n - i,
    {
        let leaf = i + 1 >= n || hierarchy.nodes[i + 1].depth <= hierarchy.nodes[i].depth;
        assert(leaf == is_leaf(s, i as int));
        let ghost c0 = entries_view(entries@);
        if leaf {
            let heads = ancestor_headlines(hierarchy, &par, i);
            record_topics(&mut entries, &hierarchy.nodes[i].headline, &heads);
        }
        proof {
            let c1 = entries_view(entries@);
            let h = s[i as int].1;
            assert forall|t: Seq<char>| #[trigger] has_tag(c1, t) <==> tag_within(s, t, i + 1) by {
                if tag_within(s, t, i + 1) && !tag_within(s, t, i as int) {
                    let q = choose|q: int| 0 <= q < i + 1 && #[trigger] is_tag_at(s, q, t);
                    assert(q == i);
                }
                if leaf && t == h {
                    assert(is_tag_at(s, i as int, t));
                }
                if tag_within(s, t, i as int) {
                    let q = choose|q: int| 0 <= q < i && #[trigger] is_tag_at(s, q, t);
                    assert(0 <= q < i + 1 && is_tag_at(s, q, t));
                }
            }
            assert forall|t: Seq<char>, u: Seq<char>| #[trigger] has_topic(c1, t, u) <==> topic_within(s, t, u, i + 1) by {
                if topic_within(s, t, u, i + 1) && !topic_within(s, t, u, i as int) {
                    let q = choose|q: int| 0 <= q < i + 1 && #[trigger] is_topic_at(s, q, t, u);
                    assert(q == i);
                }
                if leaf && t == h && exists|a: int| 0 <= a < s.len() && #[trigger] is_ancestor(s, a, i as int) && s[a].1 == u {
                    assert(is_topic_at(s, i as int, t, u));
                }
                if topic_within(s, t, u, i as int) {
                    let q = choose|q: int| 0 <= q < i && #[trigger] is_topic_at(s, q, t, u);
                    assert(0 <= q < i + 1 && is_topic_at(s, q, t, u));
                }
            }
        }
        i = i + 1;
    }
    TopicClosure { entries }
}

/// The candidate topics for tags `ts`: the recorded topics of each tag in
/// turn.
pub open spec fn candidates(c: Seq<(Seq<char>, Seq<Seq<char>>)>, ts: Seq<Seq<char>>) -> Seq<Seq<char>>
    decreases ts.len(),
{
    if ts.len() == 0 {
        Seq::empty()
    } else {
        candidates(c, ts.drop_last()) + topics_for(c, ts.last())
    }
}

/// The candidates that are new to `orig`, each once, in order of discovery.
pub open spec fn new_topics(cands: Seq<Seq<char>>, orig: Seq<Seq<char>>) -> Seq<Seq<char>>
    decreases cands.len(),
{
    if cands.len() == 0 {
        Seq::empty()
    } else {
        let p = new_topics(cands.drop_last(), orig);
        let u = cands.last();
        if orig.contains(u) || p.contains(u) {
            p
        } else {
            p.push(u)
        }
    }
}

/// The candidates that `orig` already holds, in order of discovery.
pub open spec fn redundant_topics(cands: Seq<Seq<char>>, orig: Seq<Seq<char>>) -> Seq<Seq<char>>
    decreases cands.len(),
{
    if cands.len() == 0 {
        Seq::empty()
    } else {
        let p = redundant_topics(cands.drop_last(), orig);
        if orig.contains(cands.last()) {
            p.push(cands.last())
        } else {
            p
        }
    }
}

/// A tag list after one propagation pass: the new topics, then the original
/// tags.
pub open spec fn propagated(c: Seq<(Seq<char>, Seq<Seq<char>>)>, ts: Seq<Seq<char>>) -> Seq<Seq<char>> {
    new_topics(candidates(c, ts), ts) + ts
}

impl TopicClosure {
    /// The topics recorded for `tag`; none where it is not a tag.
    pub fn topics_of(&self, tag: &String) -> (r: Vec<String>)
        requires
            closure_wf(self@),
        ensures
            strs(r@) == topics_for(self@, tag@),
    {
        match self.find(tag) {
            Some(k) => clone_strings(&self.entries[k].topics),
            None => {
                let r: Vec<String> = Vec::new();
                assert(strs(r@) =~= Seq::<Seq<char>>::empty());
                r
            },
        }
    }

    /// Whether `tag` is a tag of the hierarchy.
    pub fn is_tag(&self, tag: &String) -> (r: bool)
        requires
            closure_wf(self@),
        ensures
            r == has_tag(self@, tag@),
    {
        match self.find(tag) {
            Some(k) => {
                assert(self@[k as int].0 == tag@);
                true
            },
            None => {
                proof {
                    if has_tag(self@, tag@) {
                        let q = choose|q: int| 0 <= q < self@.len() && (#[trigger] self@[q]).0 == tag@;
                        assert(self@[q].0 != tag@);
                    }
                }
                false
            },
        }
    }

    /// The position of the entry for tag `t`, if it has one.
    fn find(&self, t: &String) -> (r: Option<usize>)
        requires
            closure_wf(self@),
        ensures
            r matches Some(k) ==> k < self@.len() && self@[k as int].0 == t@ && topics_for(self@, t@)
                == self@[k as int].1,
            r is None ==> topics_for(self@, t@) == Seq::<Seq<char>>::empty(),
            r is None ==> forall|m: int| 0 <= m < self@.len() ==> self@[m].0 != t@,
    {
        let mut k: usize = 0;
        while k < self.entries.len()
            invariant
                closure_wf(self@),
                k <= self.entries.len(),
                forall|m: int| 0 <= m < k ==> self@[m].0 != t@,
            decreases self.entries.len() - k,
        {
            if self.entries[k].tag == *t {
                proof {
                    assert(self@[k as int].0 == t@);
                    let q = choose|q: int| 0 <= q < self@.len() && self@[q].0 == t@;
                    assert(q == k);
                }
                return Some(k);
            }
            k = k + 1;
        }
        None
    }
}

/// One propagation pass over `tags`: for each tag in turn, each of its topics
/// that the list does not hold is staged once, in order of discovery, and
/// each that it already holds is reported as redundant. The staged topics
/// are placed before the original tags. Returns the redundant topics.
pub fn add_topics(tags: &mut Vec<String>, closure: &TopicClosure) -> (redundant: Vec<String>)
    requires
        closure_wf(closure@),
    ensures
        strs(final(tags)@) == propagated(closure@, strs(old(tags)@)),
        strs(redundant@) == redundant_topics(candidates(closure@, strs(old(tags)@)), strs(old(tags)@)),
{
    let ghost c = closure@;
    let ghost orig = strs(tags@);
    let mut staged: Vec<String> = Vec::new();
    let mut redundant: Vec<String> = Vec::new();
    let mut i: usize = 0;
    assert(orig.take(0) =~= Seq::<Seq<char>>::empty());
    while i < tags.len()
        invariant
            orig == strs(tags@),
            c == closure@,
            closure_wf(c),
            i <= tags.len(),
            strs(staged@) == new_topics(candidates(c, orig.take(i as int)), orig),
            strs(redundant@) == redundant_topics(candidates(c, orig.take(i as int)), orig),
        decreases tags.len() - i,
    {
        let ghost before = candidates(c, orig.take(i as int));
        proof {
            assert(orig.take(i + 1).drop_last() =~= orig.take(i as int));
            assert(orig.take(i + 1).last() == tags@[i as int]@);
        }
        match closure.find(&tags[i]) {
            Some(k) => {
                let ts = &closure.entries[k].topics;
                let ghost tk = strs(ts@);
                assert(tk == topics_for(c, tags@[i as int]@));
                let mut j: usize = 0;
                assert(before + tk.take(0) =~= before);
                while j < ts.len()
                    invariant
                        orig == strs(tags@),
                        j <= ts.len(),
                        tk == strs(ts@),
                        strs(staged@) == new_topics(before + tk.take(j as int), orig),
                        strs(redundant@) == redundant_topics(before + tk.take(j as int), orig),
                    decreases ts.len() - j,
                {
                    let u = &ts[j];
                    let ghost cur = before + tk.take(j as int);
                    assert((before + tk.take(j + 1)).drop_last() =~= cur);
                    assert((before + tk.take(j + 1)).last() == u@);
                    if contains_string(tags, u) {
                        redundant.push(u.clone());
                        assert(strs(redundant@) =~= redundant_topics(cur, orig).push(u@));
                    } else if !contains_string(&staged, u) {
                        staged.push(u.clone());
                        assert(strs(staged@) =~= new_topics(cur, orig).push(u@));
                    }
                    j = j + 1;
                }
                assert(tk.take(j as int) =~= tk);
            },
            None => {
                assert(before + Seq::<Seq<char>>::empty() =~= before);
            },
        }
        i = i + 1;
    }
    assert(orig.take(i as int) =~= orig);
    let mut out: Vec<String> = staged;
    let ghost front = strs(out@);
    let mut m: usize = 0;
    while m < tags.len()
        invariant
            orig == strs(tags@),
            m <= tags.len(),
            strs(out@) == front + orig.take(m as int),
        decreases tags.len() - m,
    {
        let ghost prev = strs(out@);
        let x = tags[m].clone();
        assert(x@ == orig[m as int]);
        out.push(x);
        assert(strs(out@) =~= prev.push(orig[m as int]));
        assert(front + orig.take(m + 1) =~= (front + orig.take(m as int)).push(orig[m as int]));
        m = m + 1;
    }
    assert(orig.take(m as int) =~= orig);
    *tags = out;
    redundant
}

} // verus!
