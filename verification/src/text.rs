//! Character-level text utilities: whitespace trimming, splitting on a
//! delimiter, joining, and decimal rendering/parsing of unsigned integers.
//! These carry the proofs that splitting inverts joining, which the record
//! round-trip lemmas build on.

use vstd::prelude::*;
use vstd::string::*;

verus! {

pub open spec fn is_ws(c: char) -> bool {
    c == ' ' || c == '\t' || c == '\r' || c == '\n'
}

fn is_ws_exec(c: char) -> (r: bool)
    ensures
        r == is_ws(c),
{
    c == ' ' || c == '\t' || c == '\r' || c == '\n'
}

pub open spec fn spec_trim_start(s: Seq<char>) -> Seq<char>
    decreases s.len(),
{
    if s.len() > 0 && is_ws(s[0]) {
        spec_trim_start(s.skip(1))
    } else {
        s
    }
}

pub open spec fn spec_trim_end(s: Seq<char>) -> Seq<char>
    decreases s.len(),
{
    if s.len() > 0 && is_ws(s.last()) {
        spec_trim_end(s.drop_last())
    } else {
        s
    }
}

/// The sequence with leading and trailing whitespace removed.
pub open spec fn spec_trim(s: Seq<char>) -> Seq<char> {
    spec_trim_end(spec_trim_start(s))
}

/// A sequence is trimmed when trimming leaves it unchanged.
pub open spec fn trimmed(s: Seq<char>) -> bool {
    spec_trim(s) == s
}

/// A sequence whose ends are not whitespace (or which is empty) is trimmed.
pub proof fn lemma_trim_id(s: Seq<char>)
    requires
        s.len() == 0 || (!is_ws(s[0]) && !is_ws(s.last())),
    ensures
        spec_trim(s) == s,
{
    assert(spec_trim_start(s) == s);
    assert(spec_trim_end(s) == s);
}

/// Trims leading and trailing whitespace from a string.
pub fn trim_str(s: &str) -> (r: String)
    ensures
        r@ == spec_trim(s@),
{
    let len = s.unicode_len();
    let mut a: usize = 0;
    proof {
        assert(s@.skip(0) =~= s@);
    }
    while a < len && is_ws_exec(s.get_char(a))
        invariant
            a <= len,
            len == s@.len(),
            spec_trim_start(s@) == spec_trim_start(s@.skip(a as int)),
        decreases len - a,
    {
        proof {
            assert(s@.skip(a as int).skip(1) =~= s@.skip(a as int + 1));
        }
        a = a + 1;
    }
    proof {
        if a < len {
            assert(!is_ws(s@.skip(a as int)[0]));
        } else {
            assert(s@.skip(a as int) =~= Seq::<char>::empty());
        }
        assert(spec_trim_start(s@) == s@.skip(a as int));
    }
    let mut b: usize = len;
    proof {
        assert(s@.skip(a as int) =~= s@.subrange(a as int, len as int));
    }
    while b > a && is_ws_exec(s.get_char(b - 1))
        invariant
            a <= b <= len,
            len == s@.len(),
            spec_trim_start(s@) == s@.skip(a as int),
            spec_trim_end(s@.skip(a as int)) == spec_trim_end(s@.subrange(a as int, b as int)),
        decreases b,
    {
        proof {
            assert(s@.subrange(a as int, b as int).last() == s@[b - 1]);
            assert(s@.subrange(a as int, b as int).drop_last() =~= s@.subrange(
                a as int,
                b as int - 1,
            ));
        }
        b = b - 1;
    }
    proof {
        assert(s@.skip(a as int) =~= s@.subrange(a as int, len as int));
        if b > a {
            assert(s@.subrange(a as int, b as int).last() == s@[b - 1]);
        } else {
            assert(s@.subrange(a as int, b as int) =~= Seq::<char>::empty());
        }
        assert(spec_trim_end(s@.subrange(a as int, b as int)) == s@.subrange(a as int, b as int));
    }
    String::from_str(s.substring_char(a, b))
}

/// Splitting a sequence on a delimiter: always at least one piece; a
/// delimiter at either end or two in a row yield empty pieces, as
/// `str::split` does.
pub open spec fn spec_split(s: Seq<char>, d: char) -> Seq<Seq<char>>
    decreases s.len(),
{
    if s.len() == 0 {
        seq![Seq::<char>::empty()]
    } else if s[0] == d {
        seq![Seq::<char>::empty()] + spec_split(s.skip(1), d)
    } else {
        let rest = spec_split(s.skip(1), d);
        seq![seq![s[0]] + rest[0]] + rest.skip(1)
    }
}

pub proof fn lemma_split_len(s: Seq<char>, d: char)
    ensures
        spec_split(s, d).len() >= 1,
    decreases s.len(),
{
    if s.len() > 0 {
        lemma_split_len(s.skip(1), d);
    }
}

/// A sequence free of the delimiter splits into exactly itself.
pub proof fn lemma_split_no_delim(s: Seq<char>, d: char)
    requires
        !s.contains(d),
    ensures
        spec_split(s, d) == seq![s],
    decreases s.len(),
{
    if s.len() == 0 {
        assert(spec_split(s, d) =~~= seq![s]);
    } else {
        assert(s[0] != d);
        assert(!s.skip(1).contains(d)) by {
            assert(forall|i: int|
                0 <= i < s.skip(1).len() ==> s.skip(1)[i] == s[i + 1] && s[i + 1] != d);
        }
        lemma_split_no_delim(s.skip(1), d);
        assert(seq![s[0]] + s.skip(1) =~= s);
        assert(spec_split(s, d) =~~= seq![s]);
    }
}

/// Peeling one delimiter-free piece off the front of a split.
pub proof fn lemma_split_delim_prefix(p: Seq<char>, rest: Seq<char>, d: char)
    requires
        !p.contains(d),
    ensures
        spec_split(p + seq![d] + rest, d) == seq![p] + spec_split(rest, d),
    decreases p.len(),
{
    let s = p + seq![d] + rest;
    if p.len() == 0 {
        assert(s[0] == d);
        assert(s.skip(1) =~= rest);
        assert(spec_split(s, d) =~~= seq![p] + spec_split(rest, d));
    } else {
        assert(s[0] == p[0]);
        assert(p.contains(p[0]) || p[0] != d);
        assert(s[0] != d);
        assert(!p.skip(1).contains(d)) by {
            assert(forall|i: int|
                0 <= i < p.skip(1).len() ==> p.skip(1)[i] == p[i + 1] && p[i + 1] != d);
        }
        assert(s.skip(1) =~= p.skip(1) + seq![d] + rest);
        lemma_split_delim_prefix(p.skip(1), rest, d);
        let r = spec_split(s.skip(1), d);
        lemma_split_len(rest, d);
        assert(r[0] == p.skip(1));
        assert(r.skip(1) =~= spec_split(rest, d));
        assert(seq![s[0]] + p.skip(1) =~= p);
        assert(spec_split(s, d) =~~= seq![p] + spec_split(rest, d));
    }
}

/// Joining pieces with a delimiter between each pair.
pub open spec fn spec_join(ps: Seq<Seq<char>>, d: char) -> Seq<char>
    decreases ps.len(),
{
    if ps.len() == 0 {
        Seq::<char>::empty()
    } else if ps.len() == 1 {
        ps[0]
    } else {
        ps[0] + seq![d] + spec_join(ps.skip(1), d)
    }
}

/// Splitting inverts joining when no piece contains the delimiter.
pub proof fn lemma_split_join(ps: Seq<Seq<char>>, d: char)
    requires
        ps.len() >= 1,
        forall|k: int| 0 <= k < ps.len() ==> !(#[trigger] ps[k]).contains(d),
    ensures
        spec_split(spec_join(ps, d), d) == ps,
    decreases ps.len(),
{
    if ps.len() == 1 {
        lemma_split_no_delim(ps[0], d);
        assert(spec_split(spec_join(ps, d), d) =~~= ps);
    } else {
        lemma_split_join(ps.skip(1), d);
        lemma_split_delim_prefix(ps[0], spec_join(ps.skip(1), d), d);
        assert(spec_split(spec_join(ps, d), d) =~~= ps);
    }
}

/// Splits a string on a single-character delimiter, as `str::split` does.
pub fn split_str(s: &str, d: char) -> (r: Vec<String>)
    ensures
        r.deep_view() == spec_split(s@, d),
{
    let len = s.unicode_len();
    let mut r: Vec<String> = Vec::new();
    let mut start: usize = 0;
    let mut i: usize = 0;
    proof {
        assert(s@.skip(0) =~= s@);
        assert(r.deep_view() =~~= Seq::<Seq<char>>::empty());
    }
    while i < len
        invariant
            start <= i <= len,
            len == s@.len(),
            !s@.subrange(start as int, i as int).contains(d),
            spec_split(s@, d) == r.deep_view() + spec_split(s@.skip(start as int), d),
        decreases len - i,
    {
        let c = s.get_char(i);
        if c == d {
            let piece = String::from_str(s.substring_char(start, i));
            let ghost old_dv = r.deep_view();
            let ghost p = s@.subrange(start as int, i as int);
            proof {
                lemma_split_delim_prefix(p, s@.skip(i as int + 1), d);
                assert(s@.skip(start as int) =~= p + seq![d] + s@.skip(i as int + 1));
            }
            r.push(piece);
            proof {
                assert(r.deep_view() =~~= old_dv + seq![p]);
                assert(spec_split(s@, d) =~~= r.deep_view() + spec_split(
                    s@.skip(i as int + 1),
                    d,
                ));
                assert(s@.subrange(i as int + 1, i as int + 1) =~= Seq::<char>::empty());
            }
            start = i + 1;
        } else {
            proof {
                let q = s@.subrange(start as int, i as int);
                let p = s@.subrange(start as int, i as int + 1);
                assert(forall|k: int| 0 <= k < q.len() ==> q[k] != d);
                assert(forall|k: int| 0 <= k < p.len() - 1 ==> p[k] == q[k]);
                assert(p[p.len() - 1] == s@[i as int]);
                assert(forall|k: int| 0 <= k < p.len() ==> p[k] != d);
            }
        }
        i = i + 1;
    }
    let piece = String::from_str(s.substring_char(start, len));
    let ghost old_dv = r.deep_view();
    let ghost p = s@.subrange(start as int, len as int);
    proof {
        lemma_split_no_delim(p, d);
        assert(s@.skip(start as int) =~= p);
    }
    r.push(piece);
    proof {
        assert(r.deep_view() =~~= old_dv + seq![p]);
        assert(spec_split(s@, d) =~~= r.deep_view());
    }
    r
}

/// One join step: appending a piece appends a delimiter and the piece.
pub proof fn lemma_join_push(ps: Seq<Seq<char>>, x: Seq<char>, d: char)
    ensures
        ps.len() == 0 ==> spec_join(ps.push(x), d) == x,
        ps.len() >= 1 ==> spec_join(ps.push(x), d) == spec_join(ps, d) + seq![d] + x,
    decreases ps.len(),
{
    if ps.len() == 0 {
        assert(ps.push(x)[0] == x);
    } else if ps.len() == 1 {
        assert(ps.push(x).skip(1) =~= seq![x]);
        assert(spec_join(seq![x], d) == x);
        assert(spec_join(ps.push(x), d) =~= ps[0] + seq![d] + x);
        assert(spec_join(ps, d) == ps[0]);
    } else {
        lemma_join_push(ps.skip(1), x, d);
        assert(ps.push(x).skip(1) =~= ps.skip(1).push(x));
        assert(spec_join(ps.push(x), d) =~= spec_join(ps, d) + seq![d] + x);
    }
}

/// A character that is neither the delimiter nor in any piece is not in
/// the join.
pub proof fn lemma_join_no_char(ps: Seq<Seq<char>>, d: char, c: char)
    requires
        c != d,
        forall|k: int| 0 <= k < ps.len() ==> !(#[trigger] ps[k]).contains(c),
    ensures
        !spec_join(ps, d).contains(c),
    decreases ps.len(),
{
    if ps.len() == 0 {
    } else if ps.len() == 1 {
        assert(!ps[0].contains(c));
        assert(spec_join(ps, d) == ps[0]);
    } else {
        assert(forall|k: int|
            0 <= k < ps.skip(1).len() ==> !(#[trigger] ps.skip(1)[k]).contains(c)) by {
            assert(forall|k: int| 0 <= k < ps.len() - 1 ==> ps.skip(1)[k] == ps[k + 1]);
        }
        lemma_join_no_char(ps.skip(1), d, c);
        let j = spec_join(ps, d);
        let rest = spec_join(ps.skip(1), d);
        assert(forall|i: int| 0 <= i < ps[0].len() ==> ps[0][i] != c);
        assert(forall|i: int| 0 <= i < rest.len() ==> rest[i] != c);
        assert(forall|i: int| 0 <= i < j.len() ==> j[i] != c);
    }
}

/// A join ends with the last character of its last piece.
pub proof fn lemma_join_last(ps: Seq<Seq<char>>, d: char)
    requires
        ps.len() >= 1,
        ps.last().len() > 0,
    ensures
        spec_join(ps, d).len() > 0,
        spec_join(ps, d).last() == ps.last().last(),
    decreases ps.len(),
{
    if ps.len() == 1 {
        assert(spec_join(ps, d) == ps[0]);
    } else {
        assert(ps.skip(1).last() == ps.last());
        lemma_join_last(ps.skip(1), d);
        let rest = spec_join(ps.skip(1), d);
        assert(spec_join(ps, d) == ps[0] + seq![d] + rest);
        assert((ps[0] + seq![d] + rest).last() == rest.last());
    }
}

/// Joins pieces with a single-character delimiter between each pair.
pub fn join_strs(ps: &Vec<String>, d: &str) -> (r: String)
    requires
        d@.len() == 1,
    ensures
        r@ == spec_join(ps.deep_view(), d@[0]),
{
    let mut r = String::new();
    let mut i: usize = 0;
    while i < ps.len()
        invariant
            i <= ps@.len(),
            d@.len() == 1,
            r@ == spec_join(ps.deep_view().take(i as int), d@[0]),
        decreases ps@.len() - i,
    {
        if i > 0 {
            r.append(d);
        }
        r.append(ps[i].as_str());
        proof {
            let dv = ps.deep_view();
            lemma_join_push(dv.take(i as int), dv[i as int], d@[0]);
            assert(dv.take(i as int).push(dv[i as int]) =~= dv.take(i as int + 1));
            assert(seq![d@[0]] =~= d@);
        }
        i = i + 1;
    }
    proof {
        assert(ps.deep_view().take(ps@.len() as int) =~= ps.deep_view());
    }
    r
}

} // verus!
