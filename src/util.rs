//! Small text helpers for titles, dates and tags.
use vstd::prelude::*;
use vstd::string::StrSliceExecFns;
use crate::text::{chars_of, string_from_chars};

verus! {

/// The date that stands in for a missing one.
pub const EPOCH: &'static str = "1970-01-01T00:00:00Z";

/// A character with ASCII lower-case letters made upper-case.
pub open spec fn ascii_upper(c: char) -> char {
    if 'a' <= c && c <= 'z' {
        ((c as u32) - 32) as char
    } else {
        c
    }
}

/// A slug character as it stands in a title: dashes become spaces.
pub open spec fn unslug_char(c: char) -> char {
    if c == '-' {
        ' '
    } else {
        c
    }
}

/// The title of a slug: dashes become spaces and the first character is
/// made upper-case.
pub open spec fn unslugified(s: Seq<char>) -> Seq<char> {
    Seq::new(
        s.len(),
        |i: int|
            if i == 0 {
                ascii_upper(unslug_char(s[0]))
            } else {
                unslug_char(s[i])
            },
    )
}

fn upper_ascii(c: char) -> (r: char)
    ensures
        r == ascii_upper(c),
{
    if 'a' <= c && c <= 'z' {
        let b = (c as u8) - 32;
        b as char
    } else {
        c
    }
}

/// Converts a title slug into a title: `post-title` gives `Post title`.
/// Only ASCII letters are made upper-case.
pub fn unslugify(slug: &str) -> (r: String)
    requires
        slug@.len() > 0,
        (slug@[0] as u32) < 128,
    ensures
        r@ == unslugified(slug@),
{
    let cs = chars_of(slug);
    let mut out: Vec<char> = Vec::new();
    let mut i: usize = 0;
    while i < cs.len()
        invariant
            cs@ == slug@,
            i <= cs.len(),
            out@ == unslugified(slug@).take(i as int),
        decreases cs.len() - i,
    {
        let c = if cs[i] == '-' {
            ' '
        } else {
            cs[i]
        };
        if i == 0 {
            out.push(upper_ascii(c));
        } else {
            out.push(c);
        }
        i = i + 1;
        assert(out@ =~= unslugified(slug@).take(i as int));
    }
    assert(unslugified(slug@).take(i as int) =~= unslugified(slug@));
    string_from_chars(&out)
}

/// A partial date completed from the epoch date: the characters of
/// `EPOCH` past the length of the partial date are appended.
pub open spec fn normalized_date(p: Seq<char>) -> Seq<char> {
    if p.len() < EPOCH@.len() {
        p + EPOCH@.skip(p.len() as int)
    } else {
        p
    }
}

/// Fills in the missing parts of a date that gives only a year, or a year
/// and a month: `1984-03` gives `1984-03-01T00:00:00Z`.
pub fn normalize_date(partial_date: &str) -> (r: String)
    ensures
        r@ == normalized_date(partial_date@),
{
    let mut out = chars_of(partial_date);
    let ep = chars_of(EPOCH);
    let mut i: usize = out.len();
    let ghost front = out@;
    if i >= ep.len() {
        return string_from_chars(&out);
    }
    assert(ep@.subrange(i as int, i as int) =~= Seq::<char>::empty());
    assert(front + ep@.subrange(front.len() as int, i as int) =~= front);
    while i < ep.len()
        invariant
            front == partial_date@,
            ep@ == EPOCH@,
            front.len() <= i <= ep.len(),
            out@ == front + ep@.subrange(front.len() as int, i as int),
        decreases ep.len() - i,
    {
        out.push(ep[i]);
        i = i + 1;
        assert(out@ =~= front + ep@.subrange(front.len() as int, i as int));
    }
    assert(ep@.subrange(front.len() as int, i as int) =~= ep@.skip(front.len() as int));
    string_from_chars(&out)
}

/// The prefixes of `t` that end just before a slash among its first `n`
/// characters, in order.
pub open spec fn slash_prefixes(t: Seq<char>, n: int) -> Seq<Seq<char>>
    decreases n,
{
    if n <= 0 {
        Seq::empty()
    } else if t[n - 1] == '/' {
        slash_prefixes(t, n - 1).push(t.take(n - 1))
    } else {
        slash_prefixes(t, n - 1)
    }
}

/// A tag and each of its parents in a slash-separated path: `a/b/c` gives
/// `a/b/c`, `a` and `a/b`.
pub fn tag_set<'a>(tag: &'a str) -> (r: Vec<&'a str>)
    ensures
        r@.map_values(|s: &str| s@) == seq![tag@] + slash_prefixes(tag@, tag@.len() as int),
{
    let cs = chars_of(tag);
    let mut r: Vec<&'a str> = Vec::new();
    r.push(tag);
    let mut i: usize = 0;
    assert(r@.map_values(|s: &str| s@) =~= seq![tag@] + slash_prefixes(tag@, 0));
    while i < cs.len()
        invariant
            cs@ == tag@,
            i <= cs.len(),
            r@.map_values(|s: &str| s@) == seq![tag@] + slash_prefixes(tag@, i as int),
        decreases cs.len() - i,
    {
        let ghost before = r@.map_values(|s: &str| s@);
        if cs[i] == '/' {
            let p = tag.substring_char(0, i);
            r.push(p);
            assert(tag@.subrange(0, i as int) =~= tag@.take(i as int));
            assert(r@.map_values(|s: &str| s@) =~= before.push(tag@.take(i as int)));
        }
        i = i + 1;
    }
    r
}

} // verus!
