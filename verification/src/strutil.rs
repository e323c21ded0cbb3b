//! Character-level string utilities: prefix tests, searching, trimming and
//! line splitting, each specified over the `Seq<char>` view of the string.

use vstd::prelude::*;
use vstd::string::*;

verus! {

/// A character that counts as blank space when trimming line edges.
pub open spec fn is_space(c: char) -> bool {
    c == ' ' || c == '\t' || c == '\r' || c == '\n'
}

/// `p` occurs at the very start of `s`.
pub open spec fn has_prefix_spec(s: Seq<char>, p: Seq<char>) -> bool {
    p.len() <= s.len() && s.take(p.len() as int) == p
}

/// True exactly when `p` is a leading prefix of `s`, character by character.
pub fn has_prefix(s: &str, p: &str) -> (r: bool)
    ensures
        r == has_prefix_spec(s@, p@),
{
    let sl = s.unicode_len();
    let pl = p.unicode_len();
    if pl > sl {
        return false;
    }
    let mut j: usize = 0;
    while j < pl
        invariant
            j <= pl,
            pl <= sl,
            pl == p@.len(),
            sl == s@.len(),
            forall|k: int| 0 <= k < j ==> s@[k] == p@[k],
        decreases pl - j,
    {
        if s.get_char(j) != p.get_char(j) {
            assert(s@.take(p@.len() as int)[j as int] != p@[j as int]);
            return false;
        }
        j += 1;
    }
    proof {
        assert(s@.take(p@.len() as int) =~= p@);
    }
    true
}

/// Index of the first occurrence of `c` in `s`, or `-1` when absent.
pub open spec fn find_ch(s: Seq<char>, c: char) -> int
    decreases s.len(),
{
    if s.len() == 0 {
        -1
    } else if s[0] == c {
        0
    } else if find_ch(s.drop_first(), c) < 0 {
        -1
    } else {
        1 + find_ch(s.drop_first(), c)
    }
}

/// `find_ch` returns the least index holding `c`, or `-1` when no index does.
pub proof fn lemma_find_ch(s: Seq<char>, c: char)
    ensures
        find_ch(s, c) >= 0 ==> 0 <= find_ch(s, c) < s.len() && s[find_ch(s, c)] == c && (forall|k:
            int| 0 <= k < find_ch(s, c) ==> s[k] != c),
        find_ch(s, c) < 0 ==> forall|k: int| 0 <= k < s.len() ==> s[k] != c,
    decreases s.len(),
{
    if s.len() > 0 && s[0] != c {
        lemma_find_ch(s.drop_first(), c);
        if find_ch(s.drop_first(), c) < 0 {
            assert forall|k: int| 0 <= k < s.len() implies s[k] != c by {
                if k > 0 {
                    assert(s.drop_first()[k - 1] != c);
                }
            }
        } else {
            assert forall|k: int| 0 <= k < find_ch(s, c) implies s[k] != c by {
                if k > 0 {
                    assert(s.drop_first()[k - 1] != c);
                }
            }
        }
    }
}

/// First index at or after which `c` occurs in `s`, if any.
pub fn find_char(s: &str, c: char) -> (r: Option<usize>)
    ensures
        match r {
            Some(i) => i == find_ch(s@, c),
            None => find_ch(s@, c) < 0,
        },
{
    let n = s.unicode_len();
    let mut j: usize = 0;
    while j < n
        invariant
            j <= n,
            n == s@.len(),
            forall|k: int| 0 <= k < j ==> s@[k] != c,
        decreases n - j,
    {
        if s.get_char(j) == c {
            proof {
                lemma_find_ch(s@, c);
                let f = find_ch(s@, c);
                if f < 0 {
                    assert(s@[j as int] != c);
                } else if f < j {
                    assert(s@[f] != c);
                } else if (j as int) < f {
                    assert(s@[j as int] != c);
                }
            }
            return Some(j);
        }
        j += 1;
    }
    proof {
        lemma_find_ch(s@, c);
        if find_ch(s@, c) >= 0 {
            assert(s@[find_ch(s@, c)] != c);
        }
    }
    None
}

/// `s` without its longest suffix of characters satisfying `p`.
pub open spec fn drop_end_while(s: Seq<char>, p: spec_fn(char) -> bool) -> Seq<char>
    decreases s.len(),
{
    if s.len() > 0 && p(s.last()) {
        drop_end_while(s.drop_last(), p)
    } else {
        s
    }
}

/// `s` without its longest prefix of characters satisfying `p`.
pub open spec fn drop_start_while(s: Seq<char>, p: spec_fn(char) -> bool) -> Seq<char>
    decreases s.len(),
{
    if s.len() > 0 && p(s[0]) {
        drop_start_while(s.drop_first(), p)
    } else {
        s
    }
}

/// When every character from `m` on satisfies `p` and the one before `m`
/// does not, dropping the matching suffix keeps exactly the first `m`.
pub proof fn lemma_drop_end_while(s: Seq<char>, p: spec_fn(char) -> bool, m: int)
    requires
        0 <= m <= s.len(),
        forall|k: int| m <= k < s.len() ==> p(s[k]),
        m == 0 || !p(s[m - 1]),
    ensures
        drop_end_while(s, p) == s.take(m),
    decreases s.len(),
{
    if m == s.len() {
        if s.len() > 0 && p(s.last()) {
            lemma_drop_end_while(s.drop_last(), p, m - 1);
            assert(!p(s[m - 1]));
        } else {
            assert(s.take(m) =~= s);
        }
    } else {
        assert(p(s.last()));
        lemma_drop_end_while(s.drop_last(), p, m);
        assert(s.drop_last().take(m) =~= s.take(m));
    }
}

/// When every character before `m` satisfies `p` and the one at `m` does
/// not, dropping the matching prefix keeps exactly the part from `m` on.
pub proof fn lemma_drop_start_while(s: Seq<char>, p: spec_fn(char) -> bool, m: int)
    requires
        0 <= m <= s.len(),
        forall|k: int| 0 <= k < m ==> p(s[k]),
        m == s.len() || !p(s[m]),
    ensures
        drop_start_while(s, p) == s.skip(m),
    decreases s.len(),
{
    if m == 0 {
        if s.len() > 0 && p(s[0]) {
            assert(!p(s[m]));
        } else {
            assert(s.skip(0) =~= s);
        }
    } else {
        assert(p(s[0]));
        lemma_drop_start_while(s.drop_first(), p, m - 1);
        assert(s.drop_first().skip(m - 1) =~= s.skip(m));
    }
}

/// `s` with blank space removed from both ends.
pub open spec fn trim_spec(s: Seq<char>) -> Seq<char> {
    drop_end_while(drop_start_while(s, |c: char| is_space(c)), |c: char| is_space(c))
}

/// Exec test for `is_space`.
pub fn is_space_char(c: char) -> (b: bool)
    ensures
        b == is_space(c),
{
    c == ' ' || c == '\t' || c == '\r' || c == '\n'
}

/// `s` with blank space removed from both ends.
pub fn trim<'a>(s: &'a str) -> (r: &'a str)
    ensures
        r@ == trim_spec(s@),
{
    let n = s.unicode_len();
    let mut lo: usize = 0;
    while lo < n && is_space_char(s.get_char(lo))
        invariant
            lo <= n,
            n == s@.len(),
            forall|k: int| 0 <= k < lo ==> is_space(s@[k]),
        decreases n - lo,
    {
        lo += 1;
    }
    let mut hi: usize = n;
    while hi > lo && is_space_char(s.get_char(hi - 1))
        invariant
            lo <= hi <= n,
            n == s@.len(),
            forall|k: int| 0 <= k < lo ==> is_space(s@[k]),
            forall|k: int| hi <= k < n ==> is_space(s@[k]),
        decreases hi,
    {
        hi -= 1;
    }
    proof {
        let sp = |c: char| is_space(c);
        lemma_drop_start_while(s@, sp, lo as int);
        let mid = s@.skip(lo as int);
        assert(forall|k: int| hi - lo <= k < mid.len() ==> sp(mid[k]));
        assert(hi - lo == 0 || !sp(mid[hi - lo - 1]));
        lemma_drop_end_while(mid, sp, hi - lo);
        assert(mid.take(hi - lo) =~= s@.subrange(lo as int, hi as int));
    }
    s.substring_char(lo, hi)
}

/// True exactly when `a` and `b` hold the same characters.
pub fn str_eq(a: &str, b: &str) -> (r: bool)
    ensures
        r == (a@ == b@),
{
    let al = a.unicode_len();
    let bl = b.unicode_len();
    if al != bl {
        proof {
            assert(a@ != b@);
        }
        return false;
    }
    let mut j: usize = 0;
    while j < al
        invariant
            j <= al,
            al == a@.len(),
            al == b@.len(),
            forall|k: int| 0 <= k < j ==> a@[k] == b@[k],
        decreases al - j,
    {
        if a.get_char(j) != b.get_char(j) {
            return false;
        }
        j += 1;
    }
    proof {
        assert(a@ =~= b@);
    }
    true
}

/// The segments of `s` between `'\n'` separators, in order; without a
/// `'\n'` the whole of `s` is the one segment.
pub open spec fn split_nl(s: Seq<char>) -> Seq<Seq<char>>
    decreases s.len(),
{
    let i = find_ch(s, '\n');
    if 0 <= i < s.len() {
        seq![s.take(i)] + split_nl(s.skip(i + 1))
    } else {
        seq![s]
    }
}

/// The lines of `s`, split on `'\n'`.
pub fn split_lines(s: &str) -> (r: Vec<String>)
    ensures
        r@.map_values(|t: String| t@) == split_nl(s@),
{
    let mut out: Vec<String> = Vec::new();
    let mut rest: &str = s;
    loop
        invariant
            out@.map_values(|t: String| t@) + split_nl(rest@) =~= split_nl(s@),
        decreases rest@.len(),
    {
        proof {
            lemma_find_ch(rest@, '\n');
        }
        let n = rest.unicode_len();
        match find_char(rest, '\n') {
            Some(i) => {
                let line = rest.substring_char(0, i);
                let ghost prev = out@;
                out.push(line.to_owned());
                proof {
                    assert(out@.map_values(|t: String| t@) =~= prev.map_values(|t: String| t@)
                        + seq![rest@.take(i as int)]);
                }
                rest = rest.substring_char(i + 1, n);
            },
            None => {
                let ghost prev = out@;
                out.push(rest.to_owned());
                proof {
                    assert(out@.map_values(|t: String| t@) =~= prev.map_values(|t: String| t@)
                        + seq![rest@]);
                }
                return out;
            },
        }
    }
}

} // verus!
