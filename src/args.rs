//! Splitting the command line into segments: each key with the values that
//! follow it up to the next key.
use vstd::prelude::*;
use crate::text::{chars_of, str_eq, views};

verus! {

/// The number of bytes that `c` takes in UTF-8.
pub open spec fn char_width(c: char) -> nat {
    if (c as u32) < 0x80 {
        1
    } else if (c as u32) < 0x800 {
        2
    } else if (c as u32) < 0x10000 {
        3
    } else {
        4
    }
}

/// The number of bytes that `s` takes in UTF-8.
pub open spec fn utf8_len(s: Seq<char>) -> nat
    decreases s.len(),
{
    if s.len() == 0 {
        0
    } else {
        utf8_len(s.drop_last()) + char_width(s.last())
    }
}

/// Two dashes in a row somewhere in `s`.
pub open spec fn has_double_dash(s: Seq<char>) -> bool {
    exists|i: int| 0 <= i && i + 1 < s.len() && #[trigger] s[i] == '-' && s[i + 1] == '-'
}

/// A key is a long option (`--name`, with no further `--` in the name) or a
/// short one: a dash and one or two more bytes.
pub open spec fn is_key(t: Seq<char>) -> bool {
    (t.len() >= 2 && t[0] == '-' && t[1] == '-' && !has_double_dash(t.subrange(2, t.len() as int)))
        || ((utf8_len(t) == 2 || utf8_len(t) == 3) && t.len() >= 1 && t[0] == '-')
}

/// The segments of a token sequence: each key opens a segment, and every
/// other token is a value of the segment open at that point. Values before
/// the first key belong to no segment.
pub open spec fn segments(toks: Seq<Seq<char>>) -> Seq<(Seq<char>, Seq<Seq<char>>)>
    decreases toks.len(),
{
    if toks.len() == 0 {
        Seq::empty()
    } else {
        let prev = segments(toks.drop_last());
        let t = toks.last();
        if is_key(t) {
            prev.push((t, Seq::empty()))
        } else if prev.len() == 0 {
            prev
        } else {
            prev.update(prev.len() - 1, (prev.last().0, prev.last().1.push(t)))
        }
    }
}

/// The view of a segment list.
pub open spec fn segment_views(r: Seq<(String, Vec<String>)>) -> Seq<(Seq<char>, Seq<Seq<char>>)> {
    r.map_values(|p: (String, Vec<String>)| (p.0@, views(p.1@)))
}

/// The tokens after the first, which names the program.
pub open spec fn arguments(args: Seq<String>) -> Seq<Seq<char>> {
    if args.len() == 0 {
        Seq::empty()
    } else {
        views(args).drop_first()
    }
}

/// Whether `t` is a key.
pub fn is_key_token(t: &str) -> (r: bool)
    ensures
        r == is_key(t@),
{
    let cs = chars_of(t);
    let n = cs.len();
    if n >= 2 && cs[0] == '-' && cs[1] == '-' && !double_dash_from(&cs, 2) {
        return true;
    }
    if n == 0 || cs[0] != '-' {
        return false;
    }
    let mut bytes: usize = 0;
    let mut i: usize = 0;
    while i < n && bytes <= 3
        invariant
            cs@ == t@,
            n == cs@.len(),
            i <= n,
            bytes == utf8_len(cs@.subrange(0, i as int)),
        decreases n - i,
    {
        assert(cs@.subrange(0, i + 1).drop_last() == cs@.subrange(0, i as int));
        let c = cs[i] as u32;
        let w: usize = if c < 0x80 {
            1
        } else if c < 0x800 {
            2
        } else if c < 0x10000 {
            3
        } else {
            4
        };
        bytes = bytes + w;
        i = i + 1;
    }
    if i < n {
        proof {
            lemma_utf8_len_prefix(cs@, i as int, n as int);
        }
        assert(cs@.subrange(0, n as int) == cs@);
        return false;
    }
    assert(cs@.subrange(0, n as int) == cs@);
    bytes == 2 || bytes == 3
}

/// Whether `cs[from..]` holds two dashes in a row.
fn double_dash_from(cs: &Vec<char>, from: usize) -> (r: bool)
    requires
        from <= cs@.len(),
    ensures
        r == has_double_dash(cs@.subrange(from as int, cs@.len() as int)),
{
    let n = cs.len();
    let ghost rest = cs@.subrange(from as int, n as int);
    let mut i: usize = from;
    while i < n && i + 1 < n
        invariant
            n == cs@.len(),
            from <= i <= n,
            rest == cs@.subrange(from as int, n as int),
            forall|j: int| from <= j < i ==> !(#[trigger] cs@[j] == '-' && cs@[j + 1] == '-'),
        decreases n - i,
    {
        if cs[i] == '-' && cs[i + 1] == '-' {
            assert(rest[i - from] == '-' && rest[i - from + 1] == '-');
            return true;
        }
        i = i + 1;
    }
    assert forall|j: int| 0 <= j && j + 1 < rest.len() implies !(#[trigger] rest[j] == '-' && rest[j
        + 1] == '-') by {
        assert(rest[j] == cs@[j + from] && rest[j + 1] == cs@[j + from + 1]);
    }
    false
}

proof fn lemma_utf8_len_prefix(s: Seq<char>, i: int, j: int)
    requires
        0 <= i <= j <= s.len(),
    ensures
        utf8_len(s.subrange(0, i)) <= utf8_len(s.subrange(0, j)),
    decreases j - i,
{
    if i < j {
        lemma_utf8_len_prefix(s, i, j - 1);
        assert(s.subrange(0, j).drop_last() == s.subrange(0, j - 1));
    }
}

/// Splits the command line into segments, in order. The first token names
/// the program and is left out. A key with no values before the next key
/// keeps an empty value list.
pub fn parse_args(args: Vec<String>) -> (r: Vec<(String, Vec<String>)>)
    ensures
        segment_views(r@) == segments(arguments(args@)),
{
    let mut r: Vec<(String, Vec<String>)> = Vec::new();
    if args.len() == 0 {
        assert(segment_views(r@) =~= Seq::empty());
        return r;
    }
    let ghost toks = arguments(args@);
    let mut i: usize = 1;
    while i < args.len()
        invariant
            1 <= i <= args@.len(),
            toks == views(args@).drop_first(),
            segment_views(r@) == segments(toks.subrange(0, i - 1)),
        decreases args@.len() - i,
    {
        let t = args[i].clone();
        assert(toks.subrange(0, i as int).drop_last() == toks.subrange(0, i - 1));
        assert(toks.subrange(0, i as int).last() == t@);
        let ghost prev = segments(toks.subrange(0, i - 1));
        if is_key_token(t.as_str()) {
            let ghost before = r@;
            let vs: Vec<String> = Vec::new();
            assert(views(vs@) =~= Seq::<Seq<char>>::empty());
            r.push((t, vs));
            assert(r@ == before.push((t, vs)));
            assert(segment_views(r@) =~= prev.push((t@, Seq::empty())));
        } else if r.len() > 0 {
            let ghost before = r@;
            let (k, mut vs) = r.pop().unwrap();
            assert(r@ == before.drop_last());
            vs.push(t);
            r.push((k, vs));
            assert(views(vs@) =~= prev.last().1.push(t@));
            assert(segment_views(r@) =~= prev.update(prev.len() - 1, (prev.last().0, prev.last().1.push(t@))));
        }
        i = i + 1;
    }
    assert(toks.subrange(0, args@.len() - 1) == toks);
    r
}

/// Some segment asks for help.
pub open spec fn asks_for_help(segs: Seq<(Seq<char>, Seq<Seq<char>>)>) -> bool {
    exists|i: int| 0 <= i < segs.len() && (#[trigger] segs[i].0 == "--help"@ || segs[i].0 == "-h"@)
}

/// Whether any segment is a request for help (`--help` or `-h`).
pub fn wants_help(segs: &Vec<(String, Vec<String>)>) -> (r: bool)
    ensures
        r == asks_for_help(segment_views(segs@)),
{
    let ghost v = segment_views(segs@);
    let mut i: usize = 0;
    while i < segs.len()
        invariant
            i <= segs@.len(),
            v == segment_views(segs@),
            forall|j: int| 0 <= j < i ==> !(#[trigger] v[j].0 == "--help"@ || v[j].0 == "-h"@),
        decreases segs@.len() - i,
    {
        let k = segs[i].0.as_str();
        assert(v[i as int].0 == k@);
        if str_eq(k, "--help") || str_eq(k, "-h") {
            return true;
        }
        i = i + 1;
    }
    false
}

} // verus!
