//! Verified character and string utilities: ASCII case folding, equality,
//! substring search, splitting and trimming, all specified over `Seq<char>`.

use vstd::prelude::*;
use vstd::string::*;

verus! {

/// ASCII lowercase of one character; other characters are unchanged.
pub open spec fn lower_char_s(c: char) -> char {
    if c == 'A' { 'a' } else if c == 'B' { 'b' } else if c == 'C' { 'c' }
    else if c == 'D' { 'd' } else if c == 'E' { 'e' } else if c == 'F' { 'f' }
    else if c == 'G' { 'g' } else if c == 'H' { 'h' } else if c == 'I' { 'i' }
    else if c == 'J' { 'j' } else if c == 'K' { 'k' } else if c == 'L' { 'l' }
    else if c == 'M' { 'm' } else if c == 'N' { 'n' } else if c == 'O' { 'o' }
    else if c == 'P' { 'p' } else if c == 'Q' { 'q' } else if c == 'R' { 'r' }
    else if c == 'S' { 's' } else if c == 'T' { 't' } else if c == 'U' { 'u' }
    else if c == 'V' { 'v' } else if c == 'W' { 'w' } else if c == 'X' { 'x' }
    else if c == 'Y' { 'y' } else if c == 'Z' { 'z' } else { c }
}

/// ASCII uppercase of one character; other characters are unchanged.
pub open spec fn upper_char_s(c: char) -> char {
    if c == 'a' { 'A' } else if c == 'b' { 'B' } else if c == 'c' { 'C' }
    else if c == 'd' { 'D' } else if c == 'e' { 'E' } else if c == 'f' { 'F' }
    else if c == 'g' { 'G' } else if c == 'h' { 'H' } else if c == 'i' { 'I' }
    else if c == 'j' { 'J' } else if c == 'k' { 'K' } else if c == 'l' { 'L' }
    else if c == 'm' { 'M' } else if c == 'n' { 'N' } else if c == 'o' { 'O' }
    else if c == 'p' { 'P' } else if c == 'q' { 'Q' } else if c == 'r' { 'R' }
    else if c == 's' { 'S' } else if c == 't' { 'T' } else if c == 'u' { 'U' }
    else if c == 'v' { 'V' } else if c == 'w' { 'W' } else if c == 'x' { 'X' }
    else if c == 'y' { 'Y' } else if c == 'z' { 'Z' } else { c }
}

pub fn lower_char(c: char) -> (r: char)
    ensures
        r == lower_char_s(c),
{
    if c == 'A' { 'a' } else if c == 'B' { 'b' } else if c == 'C' { 'c' }
    else if c == 'D' { 'd' } else if c == 'E' { 'e' } else if c == 'F' { 'f' }
    else if c == 'G' { 'g' } else if c == 'H' { 'h' } else if c == 'I' { 'i' }
    else if c == 'J' { 'j' } else if c == 'K' { 'k' } else if c == 'L' { 'l' }
    else if c == 'M' { 'm' } else if c == 'N' { 'n' } else if c == 'O' { 'o' }
    else if c == 'P' { 'p' } else if c == 'Q' { 'q' } else if c == 'R' { 'r' }
    else if c == 'S' { 's' } else if c == 'T' { 't' } else if c == 'U' { 'u' }
    else if c == 'V' { 'v' } else if c == 'W' { 'w' } else if c == 'X' { 'x' }
    else if c == 'Y' { 'y' } else if c == 'Z' { 'z' } else { c }
}

pub fn upper_char(c: char) -> (r: char)
    ensures
        r == upper_char_s(c),
{
    if c == 'a' { 'A' } else if c == 'b' { 'B' } else if c == 'c' { 'C' }
    else if c == 'd' { 'D' } else if c == 'e' { 'E' } else if c == 'f' { 'F' }
    else if c == 'g' { 'G' } else if c == 'h' { 'H' } else if c == 'i' { 'I' }
    else if c == 'j' { 'J' } else if c == 'k' { 'K' } else if c == 'l' { 'L' }
    else if c == 'm' { 'M' } else if c == 'n' { 'N' } else if c == 'o' { 'O' }
    else if c == 'p' { 'P' } else if c == 'q' { 'Q' } else if c == 'r' { 'R' }
    else if c == 's' { 'S' } else if c == 't' { 'T' } else if c == 'u' { 'U' }
    else if c == 'v' { 'V' } else if c == 'w' { 'W' } else if c == 'x' { 'X' }
    else if c == 'y' { 'Y' } else if c == 'z' { 'Z' } else { c }
}

/// Relies on `String::push`: appends exactly the given character.
#[verifier::external_body]
pub(crate) fn push_char(s: &mut String, c: char)
    ensures
        final(s)@ == old(s)@.push(c),
{
    s.push(c)
}

/// Character-wise equality of two strings.
pub fn str_eq(a: &str, b: &str) -> (r: bool)
    ensures
        r == (a@ == b@),
{
    let n = a.unicode_len();
    if n != b.unicode_len() {
        return false;
    }
    let mut i: usize = 0;
    while i < n
        invariant
            n == a@.len(),
            n == b@.len(),
            i <= n,
            forall|j: int| 0 <= j < i ==> a@[j] == b@[j],
        decreases n - i,
    {
        if a.get_char(i) != b.get_char(i) {
            return false;
        }
        i += 1;
    }
    proof {
        assert(a@ =~= b@);
    }
    true
}

/// ASCII lowercase of a whole character sequence.
pub open spec fn lower_s(s: Seq<char>) -> Seq<char> {
    s.map_values(|c: char| lower_char_s(c))
}

pub fn lower(s: &str) -> (r: String)
    ensures
        r@ == lower_s(s@),
{
    let n = s.unicode_len();
    let mut r = String::new();
    let mut i: usize = 0;
    while i < n
        invariant
            n == s@.len(),
            i <= n,
            r@ == lower_s(s@.take(i as int)),
        decreases n - i,
    {
        let c = lower_char(s.get_char(i));
        push_char(&mut r, c);
        i += 1;
        proof {
            assert(s@.take(i as int) =~= s@.take(i - 1).push(s@[i - 1]));
            assert(lower_s(s@.take(i as int)) =~= lower_s(s@.take(i - 1)).push(
                lower_char_s(s@[i - 1]),
            ));
        }
    }
    proof {
        assert(s@.take(n as int) =~= s@);
    }
    r
}

/// Every occurrence of `from` replaced by `to`.
pub open spec fn replace_s(s: Seq<char>, from: char, to: char) -> Seq<char> {
    s.map_values(|c: char| if c == from { to } else { c })
}

pub fn replace_char(s: &str, from: char, to: char) -> (r: String)
    ensures
        r@ == replace_s(s@, from, to),
{
    let n = s.unicode_len();
    let mut r = String::new();
    let mut i: usize = 0;
    while i < n
        invariant
            n == s@.len(),
            i <= n,
            r@ == replace_s(s@.take(i as int), from, to),
        decreases n - i,
    {
        let c = s.get_char(i);
        let c2 = if c == from { to } else { c };
        push_char(&mut r, c2);
        i += 1;
        proof {
            assert(s@.take(i as int) =~= s@.take(i - 1).push(s@[i - 1]));
            assert(replace_s(s@.take(i as int), from, to) =~= replace_s(
                s@.take(i - 1),
                from,
                to,
            ).push(if s@[i - 1] == from { to } else { s@[i - 1] }));
        }
    }
    proof {
        assert(s@.take(n as int) =~= s@);
    }
    r
}

/// The first character mapped to ASCII uppercase, the rest unchanged.
pub open spec fn capitalize_s(s: Seq<char>) -> Seq<char> {
    if s.len() == 0 {
        s
    } else {
        seq![upper_char_s(s[0])] + s.skip(1)
    }
}

pub fn capitalize_first(s: &str) -> (r: String)
    ensures
        r@ == capitalize_s(s@),
{
    let n = s.unicode_len();
    if n == 0 {
        let r = String::new();
        proof {
            assert(r@ =~= capitalize_s(s@));
        }
        r
    } else {
        let mut r = String::new();
        let c = upper_char(s.get_char(0));
        push_char(&mut r, c);
        let rest = s.substring_char(1, n);
        r.append(rest);
        proof {
            assert(r@ =~= capitalize_s(s@));
        }
        r
    }
}

/// Is character `c` anywhere in `s`?
pub open spec fn has_char(s: Seq<char>, c: char) -> bool {
    exists|i: int| 0 <= i < s.len() && s[i] == c
}

pub fn contains_char(s: &str, c: char) -> (r: bool)
    ensures
        r == has_char(s@, c),
{
    let n = s.unicode_len();
    let mut i: usize = 0;
    while i < n
        invariant
            n == s@.len(),
            i <= n,
            forall|j: int| 0 <= j < i ==> s@[j] != c,
        decreases n - i,
    {
        if s.get_char(i) == c {
            return true;
        }
        i += 1;
    }
    false
}

/// The index of the first occurrence of `c` in `s`, if any.
pub fn find_char(s: &str, c: char) -> (r: Option<usize>)
    ensures
        match r {
            Some(i) => i < s@.len() && s@[i as int] == c && forall|j: int|
                0 <= j < i ==> s@[j] != c,
            None => !has_char(s@, c),
        },
{
    let n = s.unicode_len();
    let mut i: usize = 0;
    while i < n
        invariant
            n == s@.len(),
            i <= n,
            forall|j: int| 0 <= j < i ==> s@[j] != c,
        decreases n - i,
    {
        if s.get_char(i) == c {
            return Some(i);
        }
        i += 1;
    }
    None
}

/// The index of the last occurrence of `c` in `s`, if any.
pub fn find_last_char(s: &str, c: char) -> (r: Option<usize>)
    ensures
        match r {
            Some(i) => i < s@.len() && s@[i as int] == c && forall|j: int|
                i < j < s@.len() ==> s@[j] != c,
            None => !has_char(s@, c),
        },
{
    let n = s.unicode_len();
    let mut i: usize = n;
    while i > 0
        invariant
            n == s@.len(),
            i <= n,
            forall|j: int| i <= j < n ==> s@[j] != c,
        decreases i,
    {
        i -= 1;
        if s.get_char(i) == c {
            return Some(i);
        }
    }
    None
}

/// Does `p` stand at the front of `s`?
pub open spec fn starts_with_s(s: Seq<char>, p: Seq<char>) -> bool {
    p.len() <= s.len() && s.take(p.len() as int) == p
}

pub fn starts_with(s: &str, p: &str) -> (r: bool)
    ensures
        r == starts_with_s(s@, p@),
{
    let np = p.unicode_len();
    let ns = s.unicode_len();
    if np > ns {
        return false;
    }
    let mut i: usize = 0;
    while i < np
        invariant
            np == p@.len(),
            ns == s@.len(),
            np <= ns,
            i <= np,
            forall|j: int| 0 <= j < i ==> s@[j] == p@[j],
        decreases np - i,
    {
        if s.get_char(i) != p.get_char(i) {
            assert(s@.take(np as int)[i as int] != p@[i as int]);
            return false;
        }
        i += 1;
    }
    proof {
        assert(s@.take(np as int) =~= p@);
    }
    true
}

/// Does the needle `n` occur in the haystack `h` starting at index `i`?
pub open spec fn is_match_at(h: Seq<char>, n: Seq<char>, i: int) -> bool {
    0 <= i && i + n.len() <= h.len() && h.subrange(i, i + n.len()) == n
}

/// Does the needle `n` occur anywhere in the haystack `h`?
pub open spec fn contains_seq(h: Seq<char>, n: Seq<char>) -> bool {
    exists|i: int| is_match_at(h, n, i)
}

fn matches_at(h: &str, n: &str, i: usize) -> (r: bool)
    requires
        i + n@.len() <= h@.len(),
    ensures
        r == is_match_at(h@, n@, i as int),
{
    let nh = h.unicode_len();
    let nn = n.unicode_len();
    let mut j: usize = 0;
    while j < nn
        invariant
            nh == h@.len(),
            nn == n@.len(),
            i + nn <= nh,
            j <= nn,
            forall|k: int| 0 <= k < j ==> h@[i + k] == n@[k],
        decreases nn - j,
    {
        if h.get_char(i + j) != n.get_char(j) {
            assert(h@.subrange(i as int, i + nn)[j as int] != n@[j as int]);
            return false;
        }
        j += 1;
    }
    proof {
        assert(h@.subrange(i as int, i + nn) =~= n@);
    }
    true
}

/// Substring search.
pub fn contains_sub(h: &str, n: &str) -> (r: bool)
    ensures
        r == contains_seq(h@, n@),
{
    let nh = h.unicode_len();
    let nn = n.unicode_len();
    if nn > nh {
        return false;
    }
    if nn == 0 {
        proof {
            assert(h@.subrange(0, 0) =~= n@);
            assert(is_match_at(h@, n@, 0));
        }
        return true;
    }
    let mut i: usize = 0;
    while i <= nh - nn
        invariant
            nh == h@.len(),
            nn == n@.len(),
            1 <= nn <= nh,
            i <= nh - nn + 1,
            forall|k: int| 0 <= k < i ==> !is_match_at(h@, n@, k),
        decreases nh - nn + 1 - i,
    {
        if matches_at(h, n, i) {
            return true;
        }
        i += 1;
    }
    assert forall|k: int| !is_match_at(h@, n@, k) by {
        if 0 <= k < i {
        } else {
        }
    }
    false
}

/// Membership of a character in a delimiter list.
pub fn vec_has_char(ds: &Vec<char>, c: char) -> (r: bool)
    ensures
        r == ds@.contains(c),
{
    let mut i: usize = 0;
    while i < ds.len()
        invariant
            i <= ds@.len(),
            forall|j: int| 0 <= j < i ==> ds@[j] != c,
        decreases ds@.len() - i,
    {
        if ds[i] == c {
            return true;
        }
        i += 1;
    }
    false
}

/// `s` split at every character of `ds`: always at least one segment, and
/// one more segment per delimiter occurrence; delimiters are not kept.
pub open spec fn split_set_s(s: Seq<char>, ds: Seq<char>) -> Seq<Seq<char>>
    decreases s.len(),
{
    if s.len() == 0 {
        seq![Seq::<char>::empty()]
    } else if ds.contains(s[0]) {
        seq![Seq::<char>::empty()] + split_set_s(s.skip(1), ds)
    } else {
        let r = split_set_s(s.skip(1), ds);
        seq![seq![s[0]] + r[0]] + r.skip(1)
    }
}

pub proof fn lemma_split_set_nonempty(s: Seq<char>, ds: Seq<char>)
    ensures
        split_set_s(s, ds).len() >= 1,
    decreases s.len(),
{
    if s.len() > 0 {
        lemma_split_set_nonempty(s.skip(1), ds);
    }
}

/// The first segment of `l` extended at the front by `p`.
pub open spec fn graft(p: Seq<char>, l: Seq<Seq<char>>) -> Seq<Seq<char>> {
    seq![p + l[0]] + l.skip(1)
}

pub fn split_set(s: &str, ds: &Vec<char>) -> (r: Vec<String>)
    ensures
        r.deep_view() == split_set_s(s@, ds@),
{
    let n = s.unicode_len();
    let mut done: Vec<String> = Vec::new();
    let mut cur = String::new();
    let mut i: usize = 0;
    proof {
        lemma_split_set_nonempty(s@, ds@);
        assert(s@.skip(0) =~= s@);
        assert(graft(cur@, split_set_s(s@, ds@)) =~~= split_set_s(s@, ds@));
    }
    while i < n
        invariant
            n == s@.len(),
            i <= n,
            split_set_s(s@, ds@) =~= done.deep_view() + graft(
                cur@,
                split_set_s(s@.skip(i as int), ds@),
            ),
        decreases n - i,
    {
        let c = s.get_char(i);
        let ghost pre_done = done.deep_view();
        let ghost pre_cur = cur@;
        proof {
            assert(s@.skip(i as int)[0] == s@[i as int]);
            assert(s@.skip(i as int).skip(1) =~= s@.skip(i + 1));
            lemma_split_set_nonempty(s@.skip(i + 1), ds@);
        }
        if vec_has_char(ds, c) {
            done.push(cur);
            cur = String::new();
            proof {
                assert(done.deep_view() =~= pre_done.push(pre_cur));
                assert(split_set_s(s@.skip(i as int), ds@) =~~= seq![Seq::<char>::empty()]
                    + split_set_s(s@.skip(i + 1), ds@));
                assert(graft(pre_cur, split_set_s(s@.skip(i as int), ds@)) =~~= seq![pre_cur]
                    + graft(Seq::<char>::empty(), split_set_s(s@.skip(i + 1), ds@)));
                assert(split_set_s(s@, ds@) =~~= done.deep_view() + graft(
                    cur@,
                    split_set_s(s@.skip(i + 1), ds@),
                ));
            }
        } else {
            push_char(&mut cur, c);
            proof {
                let rest = split_set_s(s@.skip(i + 1), ds@);
                assert(split_set_s(s@.skip(i as int), ds@) =~~= graft(seq![s@[i as int]], rest));
                assert(graft(pre_cur, graft(seq![s@[i as int]], rest)) =~~= graft(cur@, rest));
                assert(split_set_s(s@, ds@) =~~= done.deep_view() + graft(cur@, rest));
            }
        }
        i += 1;
    }
    proof {
        assert(s@.skip(n as int) =~= Seq::<char>::empty());
        assert(split_set_s(s@.skip(n as int), ds@) =~= seq![Seq::<char>::empty()]);
        assert(graft(cur@, split_set_s(s@.skip(n as int), ds@)) =~~= seq![cur@]);
    }
    let ghost pre_done = done.deep_view();
    done.push(cur);
    proof {
        assert(done.deep_view() =~= pre_done.push(cur@));
        assert(split_set_s(s@, ds@) =~~= done.deep_view());
    }
    done
}

/// Lexicographic order on character sequences by code point, with a
/// proper prefix ordered first.
pub open spec fn lex_lt(a: Seq<char>, b: Seq<char>) -> bool
    decreases a.len(),
{
    if b.len() == 0 {
        false
    } else if a.len() == 0 {
        true
    } else if (a[0] as u32) < (b[0] as u32) {
        true
    } else if (b[0] as u32) < (a[0] as u32) {
        false
    } else {
        lex_lt(a.skip(1), b.skip(1))
    }
}

/// Two sequences neither of which is ordered before the other are equal.
pub proof fn lemma_lex_connected(a: Seq<char>, b: Seq<char>)
    requires
        !lex_lt(a, b),
        !lex_lt(b, a),
    ensures
        a == b,
    decreases a.len(),
{
    if a.len() == 0 {
        assert(b.len() == 0);
        assert(a =~= b);
    } else {
        assert(b.len() > 0);
        assert(a[0] as u32 == b[0] as u32);
        vstd::utf8::char_u32_cast(a[0], a[0] as u32);
        vstd::utf8::char_u32_cast(b[0], b[0] as u32);
        assert(a[0] == b[0]);
        lemma_lex_connected(a.skip(1), b.skip(1));
        assert(a =~= b) by {
            assert(forall|i: int|
                1 <= i < a.len() ==> a[i] == a.skip(1)[i - 1] && b[i] == b.skip(1)[i - 1]);
        }
    }
}

/// The order is transitive.
pub proof fn lemma_lex_trans(a: Seq<char>, b: Seq<char>, c: Seq<char>)
    requires
        lex_lt(a, b),
        lex_lt(b, c),
    ensures
        lex_lt(a, c),
    decreases a.len(),
{
    if a.len() == 0 {
        assert(c.len() > 0);
    } else {
        assert(b.len() > 0);
        assert(c.len() > 0);
        if (a[0] as u32) == (b[0] as u32) && (b[0] as u32) == (c[0] as u32) {
            lemma_lex_trans(a.skip(1), b.skip(1), c.skip(1));
        }
    }
}

proof fn lemma_lex_skip(a: Seq<char>, b: Seq<char>, i: int)
    requires
        0 <= i <= a.len(),
        i <= b.len(),
        forall|j: int| 0 <= j < i ==> a[j] == b[j],
    ensures
        lex_lt(a, b) == lex_lt(a.skip(i), b.skip(i)),
    decreases i,
{
    if i == 0 {
        assert(a.skip(0) =~= a);
        assert(b.skip(0) =~= b);
    } else {
        assert(a[0] == b[0]);
        lemma_lex_skip(a.skip(1), b.skip(1), i - 1);
        assert(a.skip(1).skip(i - 1) =~= a.skip(i));
        assert(b.skip(1).skip(i - 1) =~= b.skip(i));
    }
}

/// Strict lexicographic comparison of two strings.
pub fn str_lt(a: &str, b: &str) -> (r: bool)
    ensures
        r == lex_lt(a@, b@),
{
    let na = a.unicode_len();
    let nb = b.unicode_len();
    let m = if na < nb {
        na
    } else {
        nb
    };
    let mut i: usize = 0;
    while i < m
        invariant
            na == a@.len(),
            nb == b@.len(),
            m == if na < nb { na } else { nb },
            i <= m,
            forall|j: int| 0 <= j < i ==> a@[j] == b@[j],
        decreases m - i,
    {
        let ca = a.get_char(i) as u32;
        let cb = b.get_char(i) as u32;
        if ca < cb {
            proof {
                lemma_lex_skip(a@, b@, i as int);
                assert(a@.skip(i as int)[0] == a@[i as int]);
                assert(b@.skip(i as int)[0] == b@[i as int]);
            }
            return true;
        }
        if cb < ca {
            proof {
                lemma_lex_skip(a@, b@, i as int);
                assert(a@.skip(i as int)[0] == a@[i as int]);
                assert(b@.skip(i as int)[0] == b@[i as int]);
            }
            return false;
        }
        proof {
            assert(a@[i as int] == b@[i as int]);
        }
        i += 1;
    }
    proof {
        lemma_lex_skip(a@, b@, m as int);
        assert(a@.skip(m as int).len() == na - m);
        assert(b@.skip(m as int).len() == nb - m);
    }
    na < nb
}

/// An INI-style whitespace character.
pub open spec fn is_space(c: char) -> bool {
    c == ' ' || c == '\t' || c == '\r' || c == '\n'
}

pub open spec fn trim_front_s(s: Seq<char>) -> Seq<char>
    decreases s.len(),
{
    if s.len() > 0 && is_space(s[0]) {
        trim_front_s(s.skip(1))
    } else {
        s
    }
}

pub open spec fn trim_back_s(s: Seq<char>) -> Seq<char>
    decreases s.len(),
{
    if s.len() > 0 && is_space(s.last()) {
        trim_back_s(s.drop_last())
    } else {
        s
    }
}

/// `s` with leading and trailing whitespace removed.
pub open spec fn trim_s(s: Seq<char>) -> Seq<char> {
    trim_back_s(trim_front_s(s))
}

proof fn lemma_trim_front_skip(s: Seq<char>, a: int)
    requires
        0 <= a <= s.len(),
        forall|j: int| 0 <= j < a ==> is_space(s[j]),
        a < s.len() ==> !is_space(s[a]),
    ensures
        trim_front_s(s) == s.skip(a),
    decreases a,
{
    if a == 0 {
        assert(s.skip(0) =~= s);
    } else {
        lemma_trim_front_skip(s.skip(1), a - 1);
        assert(s.skip(1).skip(a - 1) =~= s.skip(a));
    }
}

proof fn lemma_trim_back_take(s: Seq<char>, b: int)
    requires
        0 <= b <= s.len(),
        forall|j: int| b <= j < s.len() ==> is_space(s[j]),
        b > 0 ==> !is_space(s[b - 1]),
    ensures
        trim_back_s(s) == s.take(b),
    decreases s.len() - b,
{
    if b == s.len() {
        assert(s.take(b) =~= s);
    } else {
        assert(is_space(s.last()));
        lemma_trim_back_take(s.drop_last(), b);
        assert(s.drop_last().take(b) =~= s.take(b));
    }
}

fn is_space_c(c: char) -> (r: bool)
    ensures
        r == is_space(c),
{
    c == ' ' || c == '\t' || c == '\r' || c == '\n'
}

pub fn trim(s: &str) -> (r: &str)
    ensures
        r@ == trim_s(s@),
{
    let n = s.unicode_len();
    let mut a: usize = 0;
    while a < n && is_space_c(s.get_char(a))
        invariant
            n == s@.len(),
            a <= n,
            forall|j: int| 0 <= j < a ==> is_space(s@[j]),
        decreases n - a,
    {
        a += 1;
    }
    let mut b: usize = n;
    while b > a && is_space_c(s.get_char(b - 1))
        invariant
            n == s@.len(),
            a <= b <= n,
            forall|j: int| 0 <= j < a ==> is_space(s@[j]),
            a < n ==> !is_space(s@[a as int]),
            forall|j: int| b <= j < n ==> is_space(s@[j]),
        decreases b,
    {
        b -= 1;
    }
    proof {
        lemma_trim_front_skip(s@, a as int);
        if a == b {
            lemma_trim_back_take(s@.skip(a as int), 0);
        } else {
            lemma_trim_back_take(s@.skip(a as int), b - a);
        }
        assert(s@.subrange(a as int, b as int) =~= s@.skip(a as int).take(b - a));
    }
    s.substring_char(a, b)
}

/// The non-empty segments of `l`, in order.
pub open spec fn drop_empties_s(l: Seq<Seq<char>>) -> Seq<Seq<char>>
    decreases l.len(),
{
    if l.len() == 0 {
        Seq::empty()
    } else if l[0].len() > 0 {
        seq![l[0]] + drop_empties_s(l.skip(1))
    } else {
        drop_empties_s(l.skip(1))
    }
}

proof fn lemma_drop_empties_step(l: Seq<Seq<char>>, i: int)
    requires
        0 <= i < l.len(),
    ensures
        drop_empties_s(l.skip(i)) == if l[i].len() > 0 {
            seq![l[i]] + drop_empties_s(l.skip(i + 1))
        } else {
            drop_empties_s(l.skip(i + 1))
        },
{
    assert(l.skip(i)[0] == l[i]);
    assert(l.skip(i).skip(1) =~= l.skip(i + 1));
}

/// `s` split at the characters of `ds`, with empty segments dropped.
pub fn split_nonempty(s: &str, ds: &Vec<char>) -> (r: Vec<String>)
    ensures
        r.deep_view() == drop_empties_s(split_set_s(s@, ds@)),
{
    let pieces = split_set(s, ds);
    let ghost l = pieces.deep_view();
    let mut r: Vec<String> = Vec::new();
    let mut i: usize = 0;
    proof {
        assert(l.skip(0) =~= l);
    }
    while i < pieces.len()
        invariant
            i <= pieces@.len(),
            l == pieces.deep_view(),
            drop_empties_s(l) =~= r.deep_view() + drop_empties_s(l.skip(i as int)),
        decreases pieces@.len() - i,
    {
        proof {
            lemma_drop_empties_step(l, i as int);
        }
        let ghost pre = r.deep_view();
        let p = &pieces[i];
        if p.unicode_len() > 0 {
            let q = p.as_str().to_owned();
            r.push(q);
            proof {
                assert(r.deep_view() =~= pre.push(l[i as int]));
                assert(drop_empties_s(l) =~= r.deep_view() + drop_empties_s(l.skip(i + 1)));
            }
        } else {
            proof {
                assert(drop_empties_s(l) =~= r.deep_view() + drop_empties_s(l.skip(i + 1)));
            }
        }
        i += 1;
    }
    proof {
        assert(l.skip(l.len() as int) =~= Seq::<Seq<char>>::empty());
        assert(drop_empties_s(l) =~= r.deep_view());
    }
    r
}

/// The segments of `s` split at `d`, each trimmed, empty ones dropped:
/// the fields of a comma-separated value.
pub open spec fn csv_fields_s(s: Seq<char>, d: char) -> Seq<Seq<char>> {
    drop_empties_s(split_set_s(s, seq![d]).map_values(|p: Seq<char>| trim_s(p)))
}

pub fn split_trim_nonempty(s: &str, d: char) -> (r: Vec<String>)
    ensures
        r.deep_view() == csv_fields_s(s@, d),
{
    let mut ds: Vec<char> = Vec::new();
    ds.push(d);
    proof {
        assert(ds@ =~= seq![d]);
    }
    let pieces = split_set(s, &ds);
    let ghost l = pieces.deep_view().map_values(|p: Seq<char>| trim_s(p));
    let mut r: Vec<String> = Vec::new();
    let mut i: usize = 0;
    proof {
        assert(l.skip(0) =~= l);
    }
    while i < pieces.len()
        invariant
            i <= pieces@.len(),
            l == pieces.deep_view().map_values(|p: Seq<char>| trim_s(p)),
            drop_empties_s(l) =~= r.deep_view() + drop_empties_s(l.skip(i as int)),
        decreases pieces@.len() - i,
    {
        proof {
            lemma_drop_empties_step(l, i as int);
        }
        let ghost pre = r.deep_view();
        let t = trim(pieces[i].as_str());
        if t.unicode_len() > 0 {
            let q = t.to_owned();
            r.push(q);
            proof {
                assert(r.deep_view() =~= pre.push(l[i as int]));
                assert(drop_empties_s(l) =~= r.deep_view() + drop_empties_s(l.skip(i + 1)));
            }
        } else {
            proof {
                assert(drop_empties_s(l) =~= r.deep_view() + drop_empties_s(l.skip(i + 1)));
            }
        }
        i += 1;
    }
    proof {
        assert(l.skip(l.len() as int) =~= Seq::<Seq<char>>::empty());
        assert(drop_empties_s(l) =~= r.deep_view());
    }
    r
}

} // verus!
