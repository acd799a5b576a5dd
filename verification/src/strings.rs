//! Verified character-level string operations: pattern search, replacement,
//! joining, splitting and trimming, each pinned to a spec function over
//! `Seq<char>`.

use vstd::prelude::*;

use crate::views;

verus! {

/// `pat` occurs in `hay` starting at position `i`.
pub open spec fn match_at(hay: Seq<char>, pat: Seq<char>, i: int) -> bool {
    0 <= i && i + pat.len() <= hay.len() && hay.subrange(i, i + pat.len()) == pat
}

/// `pat` occurs somewhere in `hay`.
pub open spec fn contains_pat(hay: Seq<char>, pat: Seq<char>) -> bool {
    exists|i: int| match_at(hay, pat, i)
}

/// Check whether `pat` matches `hay` at position `i`.
fn match_at_exec(hay: &str, pat: &str, i: usize, hay_len: usize) -> (r: bool)
    requires
        hay_len == hay@.len(),
        i <= hay_len,
    ensures
        r == match_at(hay@, pat@, i as int),
{
    let m = pat.unicode_len();
    if m > hay_len - i {
        return false;
    }
    let mut j: usize = 0;
    while j < m
        invariant
            m == pat@.len(),
            hay_len == hay@.len(),
            i + m <= hay_len,
            j <= m,
            forall|k: int| 0 <= k < j ==> hay@[i + k] == pat@[k],
        decreases m - j,
    {
        if hay.get_char(i + j) != pat.get_char(j) {
            assert(!match_at(hay@, pat@, i as int)) by {
                if match_at(hay@, pat@, i as int) {
                    assert(hay@.subrange(i as int, i + pat@.len())[j as int] == pat@[j as int]);
                }
            }
            return false;
        }
        j += 1;
    }
    assert(hay@.subrange(i as int, i + pat@.len()) =~= pat@);
    true
}

/// Position of the leftmost occurrence of `pat` in `hay`, if any.
pub fn find_first(hay: &str, pat: &str) -> (r: Option<usize>)
    ensures
        match r {
            Some(i) => match_at(hay@, pat@, i as int) && (forall|j: int|
                0 <= j < i ==> !match_at(hay@, pat@, j)),
            None => !contains_pat(hay@, pat@),
        },
{
    let n = hay.unicode_len();
    let mut i: usize = 0;
    loop
        invariant
            n == hay@.len(),
            i <= n,
            forall|j: int| 0 <= j < i ==> !match_at(hay@, pat@, j),
        decreases n - i,
    {
        if match_at_exec(hay, pat, i, n) {
            return Some(i);
        }
        if i == n {
            assert(forall|j: int| match_at(hay@, pat@, j) ==> 0 <= j <= n);
            return None;
        }
        i += 1;
    }
}

/// Character-by-character string equality.
pub fn str_eq(a: &str, b: &str) -> (r: bool)
    ensures
        r == (a@ == b@),
{
    let n = a.unicode_len();
    if n != b.unicode_len() {
        return false;
    }
    let mut i: usize = 0;
    while i < n
        invariant
            n == a@.len(),
            n == b@.len(),
            i <= n,
            forall|k: int| 0 <= k < i ==> a@[k] == b@[k],
        decreases n - i,
    {
        if a.get_char(i) != b.get_char(i) {
            return false;
        }
        i += 1;
    }
    proof {
        assert(a@ =~= b@);
    }
    true
}

/// Whether `pat` occurs in `hay`.
pub fn contains_str(hay: &str, pat: &str) -> (r: bool)
    ensures
        r == contains_pat(hay@, pat@),
{
    find_first(hay, pat).is_some()
}

/// `hay` with every non-overlapping occurrence of `pat` (scanned from the
/// left) replaced by `repl`; text introduced by a replacement is not
/// rescanned.
pub open spec fn replaced(hay: Seq<char>, pat: Seq<char>, repl: Seq<char>) -> Seq<char>
    decreases hay.len(),
{
    if pat.len() == 0 || hay.len() < pat.len() {
        hay
    } else if hay.subrange(0, pat.len() as int) == pat {
        repl + replaced(hay.skip(pat.len() as int), pat, repl)
    } else {
        seq![hay[0]] + replaced(hay.skip(1), pat, repl)
    }
}

/// Replace every occurrence of `pat` in `hay` by `repl`.
pub fn replace_all(hay: &str, pat: &str, repl: &str) -> (r: String)
    requires
        pat@.len() >= 1,
    ensures
        r@ == replaced(hay@, pat@, repl@),
{
    let n = hay.unicode_len();
    let m = pat.unicode_len();
    let mut out = String::new();
    let mut i: usize = 0;
    proof {
        assert(hay@.skip(0) =~= hay@);
    }
    while i < n
        invariant
            n == hay@.len(),
            m == pat@.len(),
            m >= 1,
            i <= n,
            out@ + replaced(hay@.skip(i as int), pat@, repl@) == replaced(hay@, pat@, repl@),
        decreases n - i,
    {
        let ghost suf = hay@.skip(i as int);
        let ghost out0 = out@;
        if match_at_exec(hay, pat, i, n) {
            out.append(repl);
            proof {
                assert(suf.subrange(0, m as int) =~= hay@.subrange(i as int, i + m));
                assert(suf.skip(m as int) =~= hay@.skip(i + m));
                assert(replaced(suf, pat@, repl@) == repl@ + replaced(
                    hay@.skip(i + m),
                    pat@,
                    repl@,
                ));
                assert(out@ + replaced(hay@.skip(i + m), pat@, repl@) =~= out0 + replaced(
                    suf,
                    pat@,
                    repl@,
                ));
            }
            i += m;
        } else {
            let piece = hay.substring_char(i, i + 1);
            out.append(piece);
            proof {
                assert(piece@ =~= seq![suf[0]]);
                assert(suf.skip(1) =~= hay@.skip(i + 1));
                if suf.len() >= m {
                    assert(suf.subrange(0, m as int) =~= hay@.subrange(i as int, i + m));
                    assert(replaced(suf, pat@, repl@) == seq![suf[0]] + replaced(
                        suf.skip(1),
                        pat@,
                        repl@,
                    ));
                } else {
                    assert(replaced(suf, pat@, repl@) == suf);
                    assert(suf.skip(1).len() < m);
                    assert(replaced(suf.skip(1), pat@, repl@) == suf.skip(1));
                    assert(suf =~= seq![suf[0]] + suf.skip(1));
                }
                assert(out@ + replaced(hay@.skip(i + 1), pat@, repl@) =~= out0 + replaced(
                    suf,
                    pat@,
                    repl@,
                ));
            }
            i += 1;
        }
    }
    proof {
        assert(hay@.skip(n as int) =~= Seq::<char>::empty());
        assert(out@ + Seq::<char>::empty() =~= out@);
    }
    out
}

/// The elements of `items` joined with `sep` between consecutive elements.
pub open spec fn joined(items: Seq<Seq<char>>, sep: Seq<char>) -> Seq<char>
    decreases items.len(),
{
    if items.len() == 0 {
        Seq::empty()
    } else if items.len() == 1 {
        items[0]
    } else {
        items[0] + sep + joined(items.skip(1), sep)
    }
}

proof fn lemma_joined_push(items: Seq<Seq<char>>, sep: Seq<char>, x: Seq<char>)
    ensures
        joined(items.push(x), sep) == if items.len() == 0 {
            x
        } else {
            joined(items, sep) + sep + x
        },
    decreases items.len(),
{
    if items.len() == 0 {
        assert(items.push(x) =~~= seq![x]);
    } else if items.len() == 1 {
        assert(items.push(x).skip(1) =~~= seq![x]);
        assert(joined(seq![x], sep) == x);
        assert(items.push(x)[0] == items[0]);
        assert(joined(items.push(x), sep) == items.push(x)[0] + sep + joined(
            items.push(x).skip(1),
            sep,
        ));
    } else {
        lemma_joined_push(items.skip(1), sep, x);
        assert(items.push(x).skip(1) =~~= items.skip(1).push(x));
        assert(joined(items.push(x), sep) == items[0] + sep + joined(items.skip(1).push(x), sep));
        assert((items[0] + sep + joined(items.skip(1), sep)) + sep + x =~= items[0] + sep + (joined(
            items.skip(1),
            sep,
        ) + sep + x));
    }
}

/// Join the strings of `items` with separator `sep`.
pub fn join_all(items: &Vec<String>, sep: &str) -> (r: String)
    ensures
        r@ == joined(views(items@), sep@),
{
    let mut out = String::new();
    let mut i: usize = 0;
    while i < items.len()
        invariant
            i <= items@.len(),
            out@ == joined(views(items@).take(i as int), sep@),
        decreases items@.len() - i,
    {
        if i > 0 {
            out.append(sep);
        }
        out.append(items[i].as_str());
        proof {
            lemma_joined_push(views(items@).take(i as int), sep@, views(items@)[i as int]);
            assert(views(items@).take(i + 1) =~~= views(items@).take(i as int).push(
                views(items@)[i as int],
            ));
        }
        i += 1;
    }
    proof {
        assert(views(items@).take(items@.len() as int) =~~= views(items@));
    }
    out
}

/// `s` divided at every occurrence of `sep`; always at least one piece.
pub open spec fn split_on(s: Seq<char>, sep: char) -> Seq<Seq<char>>
    decreases s.len(),
{
    if s.len() == 0 {
        seq![Seq::<char>::empty()]
    } else if s[0] == sep {
        seq![Seq::<char>::empty()] + split_on(s.skip(1), sep)
    } else {
        let rest = split_on(s.skip(1), sep);
        seq![seq![s[0]] + rest[0]] + rest.skip(1)
    }
}

pub proof fn lemma_split_on_len(s: Seq<char>, sep: char)
    ensures
        split_on(s, sep).len() >= 1,
    decreases s.len(),
{
    if s.len() > 0 {
        lemma_split_on_len(s.skip(1), sep);
    }
}

/// The first piece extended at its front by `p`; other pieces unchanged.
spec fn shift_first(p: Seq<char>, pieces: Seq<Seq<char>>) -> Seq<Seq<char>>
    recommends
        pieces.len() >= 1,
{
    seq![p + pieces[0]] + pieces.skip(1)
}

/// Split `s` at every occurrence of the character `sep`.
pub fn split_string(s: &str, sep: char) -> (r: Vec<String>)
    ensures
        views(r@) == split_on(s@, sep),
{
    let n = s.unicode_len();
    let mut out: Vec<String> = Vec::new();
    let mut cur = String::new();
    let mut i: usize = 0;
    proof {
        lemma_split_on_len(s@, sep);
        assert(s@.skip(0) =~= s@);
        assert(views(out@) + shift_first(cur@, split_on(s@, sep)) =~~= split_on(s@, sep));
    }
    while i < n
        invariant
            n == s@.len(),
            i <= n,
            split_on(s@, sep) == views(out@) + shift_first(cur@, split_on(s@.skip(i as int), sep)),
        decreases n - i,
    {
        let ghost suf = s@.skip(i as int);
        let ghost rest = split_on(s@.skip(i + 1), sep);
        let ghost out0 = out@;
        let ghost cur0 = cur@;
        proof {
            lemma_split_on_len(s@.skip(i + 1), sep);
            assert(suf.skip(1) =~= s@.skip(i + 1));
        }
        let c = s.get_char(i);
        if c == sep {
            out.push(cur);
            cur = String::new();
            proof {
                assert(split_on(suf, sep) == seq![Seq::<char>::empty()] + rest);
                assert(views(out@) =~~= views(out0).push(cur0));
                assert(views(out0) + shift_first(cur0, split_on(suf, sep)) =~~= views(out@)
                    + shift_first(cur@, rest));
            }
        } else {
            let piece = s.substring_char(i, i + 1);
            cur.append(piece);
            proof {
                assert(piece@ =~= seq![suf[0]]);
                assert(split_on(suf, sep) == seq![seq![suf[0]] + rest[0]] + rest.skip(1));
                assert(cur@ =~= cur0 + seq![suf[0]]);
                assert(cur0 + (seq![suf[0]] + rest[0]) =~= cur@ + rest[0]);
                assert(shift_first(cur0, split_on(suf, sep)) =~~= shift_first(cur@, rest));
            }
        }
        i += 1;
    }
    let ghost out0 = out@;
    let ghost cur0 = cur@;
    out.push(cur);
    proof {
        assert(s@.skip(n as int) =~= Seq::<char>::empty());
        assert(shift_first(cur0, split_on(Seq::<char>::empty(), sep)) =~~= seq![cur0]);
        assert(views(out@) =~~= views(out0).push(cur0));
        assert(views(out@) =~~= split_on(s@, sep));
    }
    out
}

/// Whitespace characters recognized when trimming.
pub open spec fn is_ws(c: char) -> bool {
    c == ' ' || c == '\t' || c == '\n' || c == '\r'
}

/// `s` with every trailing whitespace character removed.
pub open spec fn trimmed_end(s: Seq<char>) -> Seq<char>
    decreases s.len(),
{
    if s.len() > 0 && is_ws(s.last()) {
        trimmed_end(s.drop_last())
    } else {
        s
    }
}

/// Remove trailing whitespace from `s`.
pub fn trim_end_ws(s: &str) -> (r: String)
    ensures
        r@ == trimmed_end(s@),
{
    let n = s.unicode_len();
    let mut j: usize = n;
    let mut stop = false;
    proof {
        assert(s@.take(n as int) =~= s@);
    }
    while j > 0 && !stop
        invariant
            n == s@.len(),
            j <= n,
            trimmed_end(s@) == trimmed_end(s@.take(j as int)),
            stop ==> j > 0 && !is_ws(s@[j - 1]),
        decreases j, (if stop { 0int } else { 1int }),
    {
        let c = s.get_char(j - 1);
        if c == ' ' || c == '\t' || c == '\n' || c == '\r' {
            proof {
                assert(s@.take(j as int).last() == s@[j - 1]);
                assert(s@.take(j as int).drop_last() =~= s@.take(j - 1));
            }
            j -= 1;
        } else {
            stop = true;
        }
    }
    proof {
        if j > 0 {
            assert(s@.take(j as int).last() == s@[j - 1]);
            assert(trimmed_end(s@.take(j as int)) == s@.take(j as int));
        }
    }
    let out = s.substring_char(0, j);
    proof {
        assert(out@ =~= s@.take(j as int));
    }
    out.to_owned()
}

} // verus!
