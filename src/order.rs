//! Lexicographic order on strings, and a stable sort by a string key.
use vstd::prelude::*;
use crate::text::{chars_of, strs};

verus! {

/// `a` comes before `b` in lexicographic order by code point, the order of
/// `Ord` on `String`.
pub open spec fn str_lt(a: Seq<char>, b: Seq<char>) -> bool
    decreases a.len(),
{
    if a.len() == 0 {
        b.len() > 0
    } else if b.len() == 0 {
        false
    } else if a[0] != b[0] {
        a[0] < b[0]
    } else {
        str_lt(a.drop_first(), b.drop_first())
    }
}

/// The order on strings is transitive.
pub proof fn lemma_str_lt_trans(a: Seq<char>, b: Seq<char>, c: Seq<char>)
    requires
        str_lt(a, b),
        str_lt(b, c),
    ensures
        str_lt(a, c),
    decreases a.len(),
{
    if a.len() > 0 && b.len() > 0 && c.len() > 0 && a[0] == b[0] && b[0] == c[0] {
        lemma_str_lt_trans(a.drop_first(), b.drop_first(), c.drop_first());
    }
}

/// No string comes before itself.
pub proof fn lemma_str_lt_irrefl(a: Seq<char>)
    ensures
        !str_lt(a, a),
    decreases a.len(),
{
    if a.len() > 0 {
        lemma_str_lt_irrefl(a.drop_first());
    }
}

/// Of two different strings, one comes before the other.
pub proof fn lemma_str_lt_total(a: Seq<char>, b: Seq<char>)
    ensures
        a == b || str_lt(a, b) || str_lt(b, a),
    decreases a.len(),
{
    if a.len() > 0 && b.len() > 0 && a[0] == b[0] {
        lemma_str_lt_total(a.drop_first(), b.drop_first());
        if a.drop_first() == b.drop_first() {
            assert(a.drop_first().len() == b.drop_first().len());
            assert(a.len() == b.len());
            assert forall|i: int| 0 <= i < a.len() implies a[i] == b[i] by {
                if i > 0 {
                    assert(a[i] == a.drop_first()[i - 1]);
                    assert(b[i] == b.drop_first()[i - 1]);
                }
            }
            assert(a =~= b);
        }
    } else if a.len() == 0 && b.len() == 0 {
        assert(a =~= b);
    }
}

/// The strings of `s` are in strictly increasing order.
pub open spec fn strictly_sorted(s: Seq<Seq<char>>) -> bool {
    forall|i: int, j: int| 0 <= i < j < s.len() ==> str_lt(#[trigger] s[i], #[trigger] s[j])
}

/// Whether `a` comes before `b`.
pub fn str_less(a: &str, b: &str) -> (r: bool)
    ensures
        r == str_lt(a@, b@),
{
    let x = chars_of(a);
    let y = chars_of(b);
    let mut i: usize = 0;
    assert(a@.skip(0) =~= a@ && b@.skip(0) =~= b@);
    while i < x.len() && i < y.len() && x[i] == y[i]
        invariant
            x@ == a@,
            y@ == b@,
            i <= x.len(),
            i <= y.len(),
            str_lt(a@, b@) == str_lt(a@.skip(i as int), b@.skip(i as int)),
        decreases x.len() - i,
    {
        assert(a@.skip(i as int).drop_first() =~= a@.skip(i + 1));
        assert(b@.skip(i as int).drop_first() =~= b@.skip(i + 1));
        i = i + 1;
    }
    if i == x.len() {
        i < y.len()
    } else if i == y.len() {
        false
    } else {
        x[i] < y[i]
    }
}

/// Key `a` goes strictly before key `b`: in ascending order, or in
/// descending order where `descending` holds.
pub open spec fn goes_before(a: Seq<char>, b: Seq<char>, descending: bool) -> bool {
    if descending {
        str_lt(b, a)
    } else {
        str_lt(a, b)
    }
}

/// `p` lists each position below `n` once.
pub open spec fn is_permutation(p: Seq<int>, n: int) -> bool {
    &&& p.len() == n
    &&& forall|i: int| 0 <= i < p.len() ==> 0 <= #[trigger] p[i] < n
    &&& forall|i: int, j: int| 0 <= i < p.len() && 0 <= j < p.len() && i != j ==> p[i] != p[j]
}

/// `out` is `inp` sorted by `key`, elements with equal keys in their
/// original order.
pub open spec fn is_stable_sort<T>(
    out: Seq<T>,
    inp: Seq<T>,
    key: spec_fn(T) -> Seq<char>,
    descending: bool,
) -> bool {
    exists|p: Seq<int>|
        {
            &&& is_permutation(p, inp.len() as int)
            &&& out.len() == inp.len()
            &&& forall|k: int| 0 <= k < out.len() ==> #[trigger] out[k] == inp[p[k]]
            &&& forall|i: int, j: int|
                0 <= i < j < out.len() ==> !goes_before(key(#[trigger] out[j]), key(#[trigger] out[i]), descending)
            &&& forall|i: int, j: int|
                0 <= i < j < out.len() && key(#[trigger] out[i]) == key(#[trigger] out[j]) ==> p[i] < p[j]
        }
}

/// The positions in `inp` from which a stable sort took each element of
/// `out`, with the order that the sort gives them.
pub proof fn lemma_sort_origins<T>(
    out: Seq<T>,
    inp: Seq<T>,
    key: spec_fn(T) -> Seq<char>,
    descending: bool,
) -> (p: Seq<int>)
    requires
        is_stable_sort(out, inp, key, descending),
    ensures
        is_permutation(p, inp.len() as int),
        out.len() == inp.len(),
        forall|k: int| 0 <= k < out.len() ==> #[trigger] out[k] == inp[p[k]],
        forall|i: int, j: int|
            0 <= i < j < out.len() ==> !goes_before(key(#[trigger] out[j]), key(#[trigger] out[i]), descending),
        forall|i: int, j: int|
            0 <= i < j < out.len() && key(#[trigger] out[i]) == key(#[trigger] out[j]) ==> p[i] < p[j],
{
    choose|p: Seq<int>|
        {
            &&& is_permutation(p, inp.len() as int)
            &&& out.len() == inp.len()
            &&& forall|k: int| 0 <= k < out.len() ==> #[trigger] out[k] == inp[p[k]]
            &&& forall|i: int, j: int|
                0 <= i < j < out.len() ==> !goes_before(key(#[trigger] out[j]), key(#[trigger] out[i]), descending)
            &&& forall|i: int, j: int|
                0 <= i < j < out.len() && key(#[trigger] out[i]) == key(#[trigger] out[j]) ==> p[i] < p[j]
        }
}

/// Sorts `v` stably by the keys `keys`, which are `key` of each element.
pub fn sort_by_key<T>(v: Vec<T>, keys: Vec<String>, Ghost(key): Ghost<spec_fn(T) -> Seq<char>>, descending: bool) -> (r: Vec<T>)
    requires
        keys.len() == v.len(),
        forall|k: int| 0 <= k < v.len() ==> #[trigger] keys@[k]@ == key(v@[k]),
    ensures
        is_stable_sort(r@, v@, key, descending),
{
    let ghost inp = v@;
    let ghost n = v.len() as int;
    let mut rest = v;
    let mut rest_keys = keys;
    let mut out: Vec<T> = Vec::new();
    let mut out_keys: Vec<String> = Vec::new();
    let ghost mut p: Seq<int> = Seq::empty();
    let mut i: usize = 0;
    while rest.len() > 0
        invariant
            n == inp.len(),
            n <= usize::MAX,
            rest@ == inp.skip(i as int),
            rest_keys.len() == rest.len(),
            forall|k: int| 0 <= k < rest.len() ==> #[trigger] rest_keys@[k]@ == key(rest@[k]),
            i <= n,
            out.len() == i,
            out_keys.len() == i,
            forall|k: int| 0 <= k < out.len() ==> #[trigger] out_keys@[k]@ == key(out@[k]),
            is_permutation(p, i as int),
            forall|k: int| 0 <= k < out.len() ==> #[trigger] out@[k] == inp[p[k]],
            forall|a: int, b: int|
                0 <= a < b < out.len() ==> !goes_before(key(#[trigger] out@[b]), key(#[trigger] out@[a]), descending),
            forall|a: int, b: int|
                0 <= a < b < out.len() && key(#[trigger] out@[a]) == key(#[trigger] out@[b]) ==> p[a] < p[b],
        decreases rest.len(),
    {
        let ghost rk0 = rest_keys@;
        let x = rest.remove(0);
        let xk = rest_keys.remove(0);
        assert(x == inp[i as int]);
        assert(rest@ =~= inp.skip(i + 1));
        assert forall|k: int| 0 <= k < rest.len() implies #[trigger] rest_keys@[k]@ == key(rest@[k]) by {
            assert(rest_keys@[k] == rk0[k + 1]);
        }
        let mut pos: usize = 0;
        let mut searching = true;
        while searching && pos < out.len()
            invariant
                pos <= out.len(),
                out_keys.len() == out.len(),
                forall|k: int| 0 <= k < out.len() ==> #[trigger] out_keys@[k]@ == key(out@[k]),
                xk@ == key(x),
                forall|k: int| 0 <= k < pos ==> !goes_before(key(x), key(#[trigger] out@[k]), descending),
                !searching ==> pos < out.len() && goes_before(key(x), key(out@[pos as int]), descending),
            decreases out.len() - pos, if searching { 1int } else { 0int },
        {
            let later = if descending {
                str_less(out_keys[pos].as_str(), xk.as_str())
            } else {
                str_less(xk.as_str(), out_keys[pos].as_str())
            };
            if later {
                searching = false;
            } else {
                pos = pos + 1;
            }
        }
        let ghost old_out = out@;
        let ghost ok0 = out_keys@;
        let ghost old_p = p;
        proof {
            if pos < out.len() {
                assert(goes_before(key(x), key(out@[pos as int]), descending));
            }
        }
        out.insert(pos, x);
        out_keys.insert(pos, xk);
        proof {
            p = old_p.insert(pos as int, i as int);
            assert forall|k: int| 0 <= k < out.len() implies #[trigger] out_keys@[k]@ == key(out@[k]) by {
                if k > pos {
                    assert(out_keys@[k] == ok0[k - 1]);
                }
            }
            assert forall|k: int| 0 <= k < out.len() implies #[trigger] out@[k] == inp[p[k]] by {
                if k < pos {
                    assert(out@[k] == old_out[k]);
                } else if k > pos {
                    assert(out@[k] == old_out[k - 1]);
                }
            }
            assert forall|a: int, b: int|
                0 <= a < b < out.len() implies !goes_before(key(#[trigger] out@[b]), key(#[trigger] out@[a]), descending) by {
                if b == pos {
                    assert(out@[a] == old_out[a]);
                } else if a == pos {
                    assert(out@[b] == old_out[b - 1]);
                    if goes_before(key(old_out[b - 1]), key(x), descending) {
                        if b - 1 > pos {
                            assert(!goes_before(key(old_out[b - 1]), key(old_out[pos as int]), descending));
                        }
                        assert(goes_before(key(x), key(old_out[pos as int]), descending));
                        if descending {
                            lemma_str_lt_trans(key(old_out[pos as int]), key(x), key(old_out[b - 1]));
                        } else {
                            lemma_str_lt_trans(key(old_out[b - 1]), key(x), key(old_out[pos as int]));
                        }
                        lemma_str_lt_irrefl(key(old_out[pos as int]));
                    }
                } else {
                    let a0 = if a < pos { a } else { a - 1 };
                    let b0 = if b < pos { b } else { b - 1 };
                    assert(out@[a] == old_out[a0]);
                    assert(out@[b] == old_out[b0]);
                    assert(!goes_before(key(old_out[b0]), key(old_out[a0]), descending));
                }
            }
            assert forall|a: int, b: int|
                0 <= a < b < out.len() && key(#[trigger] out@[a]) == key(#[trigger] out@[b]) implies p[a] < p[b] by {
                if b == pos {
                    assert(out@[a] == old_out[a]);
                    assert(0 <= old_p[a] < i);
                } else if a == pos {
                    assert(out@[b] == old_out[b - 1]);
                    if b - 1 > pos {
                        assert(!goes_before(key(old_out[b - 1]), key(old_out[pos as int]), descending));
                    }
                    assert(goes_before(key(x), key(old_out[pos as int]), descending));
                } else {
                    let a0 = if a < pos { a } else { a - 1 };
                    let b0 = if b < pos { b } else { b - 1 };
                    assert(out@[a] == old_out[a0]);
                    assert(out@[b] == old_out[b0]);
                }
            }
            assert forall|a: int| 0 <= a < p.len() implies 0 <= #[trigger] p[a] < i + 1 by {
                if a < pos {
                    assert(p[a] == old_p[a]);
                } else if a > pos {
                    assert(p[a] == old_p[a - 1]);
                }
            }
            assert forall|a: int, b: int| 0 <= a < p.len() && 0 <= b < p.len() && a != b implies p[a] != p[b] by {
                if a != pos && b != pos {
                    let a0 = if a < pos { a } else { a - 1 };
                    let b0 = if b < pos { b } else { b - 1 };
                    assert(p[a] == old_p[a0] && p[b] == old_p[b0]);
                } else if a == pos {
                    let b0 = if b < pos { b } else { b - 1 };
                    assert(p[b] == old_p[b0]);
                    assert(0 <= old_p[b0] < i);
                } else {
                    let a0 = if a < pos { a } else { a - 1 };
                    assert(p[a] == old_p[a0]);
                    assert(0 <= old_p[a0] < i);
                }
            }
        }
        i = i + 1;
    }
    assert(is_permutation(p, inp.len() as int));
    out
}

/// Adds `x` to the strictly sorted strings `v`, where it is not yet.
pub fn insert_sorted(v: &mut Vec<String>, x: &String)
    requires
        strictly_sorted(strs(old(v)@)),
    ensures
        strictly_sorted(strs(final(v)@)),
        forall|u: Seq<char>| #[trigger] strs(final(v)@).contains(u) <==> (strs(old(v)@).contains(u) || u == x@),
{
    let ghost s0 = strs(v@);
    let mut pos: usize = 0;
    while pos < v.len() && str_less(v[pos].as_str(), x.as_str())
        invariant
            pos <= v.len(),
            strs(v@) == s0,
            forall|k: int| 0 <= k < pos ==> str_lt(#[trigger] s0[k], x@),
        decreases v.len() - pos,
    {
        pos = pos + 1;
    }
    if pos < v.len() && v[pos] == *x {
        assert(s0[pos as int] == x@);
        return;
    }
    proof {
        if pos < v.len() {
            lemma_str_lt_total(s0[pos as int], x@);
        }
    }
    v.insert(pos, x.clone());
    let ghost s1 = strs(v@);
    assert(s1 =~= s0.insert(pos as int, x@));
    assert forall|i: int, j: int| 0 <= i < j < s1.len() implies str_lt(#[trigger] s1[i], #[trigger] s1[j]) by {
        if j == pos {
            assert(s1[i] == s0[i]);
        } else if i == pos {
            assert(s1[j] == s0[j - 1]);
            if j - 1 > pos {
                lemma_str_lt_trans(x@, s0[pos as int], s0[j - 1]);
            }
        } else {
            let i0 = if i < pos { i } else { i - 1 };
            let j0 = if j < pos { j } else { j - 1 };
            assert(s1[i] == s0[i0] && s1[j] == s0[j0]);
        }
    }
    assert forall|u: Seq<char>| #[trigger] s1.contains(u) <==> (s0.contains(u) || u == x@) by {
        if s1.contains(u) {
            let q = choose|q: int| 0 <= q < s1.len() && s1[q] == u;
            if q < pos {
                assert(s0[q] == u);
            } else if q > pos {
                assert(s0[q - 1] == u);
            }
        }
        if s0.contains(u) {
            let q = choose|q: int| 0 <= q < s0.len() && s0[q] == u;
            if q < pos {
                assert(s1[q] == u);
            } else {
                assert(s1[q + 1] == u);
            }
        }
        if u == x@ {
            assert(s1[pos as int] == u);
        }
    }
}

} // verus!
