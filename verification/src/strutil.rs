use vstd::prelude::*;

verus! {

/// The pattern `pat` occurs in `s` starting at position `i`.
pub open spec fn occurs_at(s: Seq<char>, pat: Seq<char>, i: int) -> bool {
    0 <= i && i + pat.len() <= s.len() && s.subrange(i, i + pat.len()) == pat
}

/// The pattern `pat` occurs somewhere in `s`.
pub open spec fn contains_seq(s: Seq<char>, pat: Seq<char>) -> bool {
    exists|i: int| occurs_at(s, pat, i)
}

/// First position at which `pat` occurs in `s`, if any.
pub fn find_sub(s: &str, pat: &str) -> (r: Option<usize>)
    ensures
        match r {
            Some(i) => occurs_at(s@, pat@, i as int) && (forall|j: int|
                0 <= j < i ==> !occurs_at(s@, pat@, j)),
            None => !contains_seq(s@, pat@),
        },
{
    let n = s.unicode_len();
    let m = pat.unicode_len();
    if m > n {
        assert(forall|j: int| !occurs_at(s@, pat@, j));
        return None;
    }
    if m == 0 {
        assert(s@.subrange(0, 0) =~= pat@);
        return Some(0);
    }
    let mut i: usize = 0;
    while i <= n - m
        invariant
            1 <= m <= n,
            n == s@.len(),
            m == pat@.len(),
            i <= n - m + 1,
            forall|j: int| 0 <= j < i ==> !occurs_at(s@, pat@, j),
        decreases n - m - i + 1,
    {
        let mut k: usize = 0;
        let mut matches = true;
        while k < m
            invariant
                m <= n,
                n == s@.len(),
                m == pat@.len(),
                i + m <= n,
                k <= m,
                matches ==> (forall|t: int| 0 <= t < k ==> s@[i + t] == pat@[t]),
                !matches ==> !occurs_at(s@, pat@, i as int),
            decreases m - k,
        {
            if s.get_char(i + k) != pat.get_char(k) {
                proof {
                    if occurs_at(s@, pat@, i as int) {
                        assert(s@.subrange(i as int, i + pat@.len())[k as int] == s@[i + k]);
                    }
                }
                matches = false;
                k = m;
            } else {
                k += 1;
            }
        }
        if matches {
            assert(s@.subrange(i as int, i + pat@.len()) =~= pat@);
            return Some(i);
        }
        i += 1;
    }
    assert(forall|j: int| j > n - m ==> !occurs_at(s@, pat@, j));
    None
}

/// Whether `pat` occurs anywhere in `s`.
pub fn contains_sub(s: &str, pat: &str) -> (r: bool)
    ensures
        r == contains_seq(s@, pat@),
{
    match find_sub(s, pat) {
        Some(_) => true,
        None => false,
    }
}

/// The suffix of `s` after the last occurrence of `c`; all of `s` when `c`
/// does not occur.
pub open spec fn tail_after_last(s: Seq<char>, c: char) -> Seq<char>
    decreases s.len(),
{
    if s.len() == 0 {
        s
    } else if s.last() == c {
        Seq::empty()
    } else {
        tail_after_last(s.drop_last(), c).push(s.last())
    }
}

proof fn lemma_tail_after_last_subrange(s: Seq<char>, c: char, k: int)
    requires
        0 <= k <= s.len(),
        forall|j: int| k <= j < s.len() ==> s[j] != c,
        k == 0 || s[k - 1] == c,
    ensures
        tail_after_last(s, c) =~= s.subrange(k, s.len() as int),
    decreases s.len(),
{
    if s.len() == k {
        if k > 0 {
            assert(s.last() == c);
        }
    } else {
        assert(s.last() != c);
        assert(s.drop_last() =~= s.subrange(0, s.len() - 1));
        lemma_tail_after_last_subrange(s.drop_last(), c, k);
    }
}

/// The suffix after the last occurrence of `c`, or all of `s` without one.
pub fn tail_after_last_char<'a>(s: &'a str, c: char) -> (r: &'a str)
    ensures
        r@ == tail_after_last(s@, c),
{
    let n = s.unicode_len();
    let mut k: usize = n;
    let mut stop = false;
    while k > 0 && !stop
        invariant
            k <= n,
            n == s@.len(),
            forall|j: int| k <= j < n ==> s@[j] != c,
            stop ==> 1 <= k && s@[k - 1] == c,
        decreases k, (if stop { 0int } else { 1int }),
    {
        if s.get_char(k - 1) == c {
            stop = true;
        } else {
            k -= 1;
        }
    }
    let r = s.substring_char(k, n);
    proof {
        lemma_tail_after_last_subrange(s@, c, k as int);
    }
    r
}

/// The last line of `s` that holds any character, without its newline; empty
/// when every line is empty.
pub open spec fn last_nonempty_line_spec(s: Seq<char>) -> Seq<char>
    decreases s.len(),
{
    if s.len() == 0 {
        s
    } else if s.last() == '\n' {
        last_nonempty_line_spec(s.drop_last())
    } else {
        tail_after_last(s, '\n')
    }
}

/// The last non-empty newline-delimited line of `s`.
pub fn last_nonempty_line<'a>(s: &'a str) -> (r: &'a str)
    ensures
        r@ == last_nonempty_line_spec(s@),
{
    let n = s.unicode_len();
    assert(s@.take(n as int) =~= s@);
    let mut e: usize = n;
    let mut stop = false;
    while e > 0 && !stop
        invariant
            e <= n,
            n == s@.len(),
            last_nonempty_line_spec(s@) == last_nonempty_line_spec(s@.take(e as int)),
            stop ==> 1 <= e && s@[e - 1] != '\n',
        decreases e, (if stop { 0int } else { 1int }),
    {
        if s.get_char(e - 1) == '\n' {
            proof {
                assert(s@.take(e as int).drop_last() =~= s@.take(e - 1));
            }
            e -= 1;
        } else {
            stop = true;
        }
    }
    let trimmed = s.substring_char(0, e);
    proof {
        assert(trimmed@ =~= s@.take(e as int));
    }
    tail_after_last_char(trimmed, '\n')
}

/// Character-for-character string equality.
pub fn str_eq(a: &str, b: &str) -> (r: bool)
    ensures
        r == (a@ == b@),
{
    let n = a.unicode_len();
    let m = b.unicode_len();
    if n != m {
        return false;
    }
    let mut i: usize = 0;
    while i < n
        invariant
            i <= n,
            n == a@.len(),
            n == b@.len(),
            forall|j: int| 0 <= j < i ==> a@[j] == b@[j],
        decreases n - i,
    {
        if a.get_char(i) != b.get_char(i) {
            return false;
        }
        i += 1;
    }
    proof {
        assert(a@ =~= b@);
    }
    true
}

/// The views of a sequence of strings.
pub open spec fn string_views(s: Seq<String>) -> Seq<Seq<char>> {
    Seq::new(s.len(), |i: int| s[i]@)
}

/// The views of a sequence of string pairs.
pub open spec fn pair_views(s: Seq<(String, String)>) -> Seq<(Seq<char>, Seq<char>)> {
    Seq::new(s.len(), |i: int| (s[i].0@, s[i].1@))
}

/// `i` is the position of the first `c` in `s`.
pub open spec fn first_at(s: Seq<char>, c: char, i: int) -> bool {
    0 <= i < s.len() && s[i] == c && (forall|j: int| 0 <= j < i ==> s[j] != c)
}

/// The pieces of `s` between occurrences of `c`: always at least one piece,
/// and one more piece per occurrence.
pub open spec fn split_char(s: Seq<char>, c: char) -> Seq<Seq<char>>
    decreases s.len(),
{
    if exists|i: int| first_at(s, c, i) {
        let i = choose|i: int| first_at(s, c, i);
        seq![s.take(i)] + split_char(s.skip(i + 1), c)
    } else {
        seq![s]
    }
}

/// Split `s` at every occurrence of `c`, as `split_char` describes.
pub fn split_str(s: &str, c: char) -> (r: Vec<String>)
    ensures
        string_views(r@) == split_char(s@, c),
{
    let n = s.unicode_len();
    let mut out: Vec<String> = Vec::new();
    let mut pos: usize = 0;
    proof {
        assert(s@.skip(0) =~= s@);
        assert(string_views(out@) =~= Seq::<Seq<char>>::empty());
    }
    loop
        invariant
            pos <= n,
            n == s@.len(),
            string_views(out@) + split_char(s@.skip(pos as int), c) =~= split_char(s@, c),
        decreases n - pos,
    {
        let ghost rest = s@.skip(pos as int);
        match find_char_from(s, c, pos) {
            Some(i) => {
                proof {
                    assert(first_at(rest, c, i - pos)) by {
                        assert(rest[i - pos] == s@[i as int]);
                        assert(forall|t: int|
                            0 <= t < i - pos ==> rest[t] == s@[t + pos] && rest[t] != c);
                    }
                    let i0 = choose|t: int| first_at(rest, c, t);
                    assert(first_at(rest, c, i0));
                    if i0 != i - pos {
                        assert(rest[i0] == c && rest[i - pos] == c);
                    }
                    assert(split_char(rest, c) == seq![rest.take(i - pos)] + split_char(
                        rest.skip(i - pos + 1),
                        c,
                    ));
                    assert(rest.take(i - pos) =~= s@.subrange(pos as int, i as int));
                    assert(rest.skip(i - pos + 1) =~= s@.skip(i + 1));
                }
                let piece = s.substring_char(pos, i);
                let ghost pre = string_views(out@);
                out.push(String::from_str(piece));
                proof {
                    assert(string_views(out@) =~= pre.push(piece@));
                }
                pos = i + 1;
            },
            None => {
                proof {
                    if exists|t: int| first_at(rest, c, t) {
                        let i0 = choose|t: int| first_at(rest, c, t);
                        assert(rest[i0] == s@[i0 + pos]);
                    }
                    assert(split_char(rest, c) == seq![rest]);
                    assert(rest =~= s@.subrange(pos as int, n as int));
                }
                let piece = s.substring_char(pos, n);
                let ghost pre = string_views(out@);
                out.push(String::from_str(piece));
                proof {
                    assert(string_views(out@) =~= pre.push(piece@));
                }
                return out;
            },
        }
    }
}

/// A character the ends of a header value are stripped of.
pub open spec fn is_blank(c: char) -> bool {
    c == ' ' || c == '\t' || c == '\r' || c == '\n'
}

/// `s` without leading or trailing blanks.
pub open spec fn trim_spec(s: Seq<char>) -> Seq<char>
    decreases s.len(),
{
    if s.len() == 0 {
        s
    } else if is_blank(s[0]) {
        trim_spec(s.skip(1))
    } else if is_blank(s.last()) {
        trim_spec(s.drop_last())
    } else {
        s
    }
}

/// Strip blanks from both ends, as `trim_spec` describes.
pub fn trim_str<'a>(s: &'a str) -> (r: &'a str)
    ensures
        r@ == trim_spec(s@),
{
    let n = s.unicode_len();
    let mut b: usize = 0;
    let mut stop = false;
    assert(s@.subrange(0, n as int) =~= s@);
    while b < n && !stop
        invariant
            b <= n,
            n == s@.len(),
            trim_spec(s@) == trim_spec(s@.subrange(b as int, n as int)),
            stop ==> b < n && !is_blank(s@[b as int]),
        decreases n - b, (if stop { 0int } else { 1int }),
    {
        let c = s.get_char(b);
        if c == ' ' || c == '\t' || c == '\r' || c == '\n' {
            proof {
                assert(s@.subrange(b as int, n as int).skip(1) =~= s@.subrange(b + 1, n as int));
            }
            b += 1;
        } else {
            stop = true;
        }
    }
    let mut e: usize = n;
    let mut stop2 = false;
    while e > b && !stop2
        invariant
            b <= e <= n,
            n == s@.len(),
            stop ==> b < n && !is_blank(s@[b as int]),
            stop == (b < n),
            trim_spec(s@) == trim_spec(s@.subrange(b as int, e as int)),
            stop2 ==> e > b && !is_blank(s@[e - 1]),
        decreases e - b, (if stop2 { 0int } else { 1int }),
    {
        let c = s.get_char(e - 1);
        if c == ' ' || c == '\t' || c == '\r' || c == '\n' {
            proof {
                assert(s@.subrange(b as int, e as int).drop_last() =~= s@.subrange(
                    b as int,
                    e - 1,
                ));
            }
            e -= 1;
        } else {
            stop2 = true;
        }
    }
    let r = s.substring_char(b, e);
    proof {
        assert(r@ =~= s@.subrange(b as int, e as int));
    }
    r
}

/// First position at or after `from` holding the character `c`, if any.
pub fn find_char_from(s: &str, c: char, from: usize) -> (r: Option<usize>)
    requires
        from <= s@.len(),
    ensures
        match r {
            Some(i) => from <= i < s@.len() && s@[i as int] == c && (forall|j: int|
                from <= j < i ==> s@[j] != c),
            None => forall|j: int| from <= j < s@.len() ==> s@[j] != c,
        },
{
    let n = s.unicode_len();
    let mut i: usize = from;
    while i < n
        invariant
            from <= i <= n,
            n == s@.len(),
            forall|j: int| from <= j < i ==> s@[j] != c,
        decreases n - i,
    {
        if s.get_char(i) == c {
            return Some(i);
        }
        i += 1;
    }
    None
}

} // verus!
