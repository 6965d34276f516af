//! The theme-index parser: reads a theme descriptor (INI-like `[Section]`
//! headers and `Key=Value` lines) and extracts the inherited parent themes
//! and the ordered list of size-bucket subdirectories.

use vstd::prelude::*;
use vstd::string::*;
use crate::text::{trim, trim_s, str_eq, starts_with, starts_with_s, split_set, split_set_s,
    split_trim_nonempty, csv_fields_s, find_char, has_char};
use crate::num::{parse_u32, parse_dec_s};

verus! {

/// A trimmed line of the form `[...]`.
pub open spec fn is_header(l: Seq<char>) -> bool {
    l.len() >= 1 && l[0] == '[' && l[l.len() - 1] == ']'
}

/// The text between the brackets of a header line.
pub open spec fn section_name_s(l: Seq<char>) -> Seq<char> {
    l.subrange(1, l.len() - 1)
}

/// The piece of `l` between the first and second `=`, or empty if `l`
/// holds no `=` at all.
pub open spec fn ini_value_s(l: Seq<char>) -> Seq<char> {
    let ps = split_set_s(l, seq!['=']);
    if ps.len() >= 2 {
        ps[1]
    } else {
        Seq::empty()
    }
}

/// The concatenated comma-separated values of every `key` line in the
/// `[Icon Theme]` section, walked line by line with the section state.
pub open spec fn ini_list_lines(ls: Seq<Seq<char>>, key: Seq<char>, in_sec: bool) -> Seq<
    Seq<char>,
>
    decreases ls.len(),
{
    if ls.len() == 0 {
        Seq::empty()
    } else {
        let l = trim_s(ls[0]);
        let rest = ls.skip(1);
        if is_header(l) {
            ini_list_lines(rest, key, l == "[Icon Theme]"@)
        } else if in_sec && starts_with_s(l, key) {
            csv_fields_s(ini_value_s(l), ',') + ini_list_lines(rest, key, in_sec)
        } else {
            ini_list_lines(rest, key, in_sec)
        }
    }
}

/// The ordered parent themes named by `Inherits=` lines.
pub open spec fn inherits_of(content: Seq<char>) -> Seq<Seq<char>> {
    ini_list_lines(split_set_s(content, seq!['\n']), "Inherits="@, false)
}

/// The ordered bucket names named by `Directories=` lines.
pub open spec fn dir_names_of(content: Seq<char>) -> Seq<Seq<char>> {
    ini_list_lines(split_set_s(content, seq!['\n']), "Directories="@, false)
}

/// The `(section, size)` pairs declared by `Size=` lines, in file order;
/// `cur` is the section the walk is inside, empty before the first header.
pub open spec fn sizes_pairs(ls: Seq<Seq<char>>, cur: Seq<char>) -> Seq<(Seq<char>, u32)>
    decreases ls.len(),
{
    if ls.len() == 0 {
        Seq::empty()
    } else {
        let l = trim_s(ls[0]);
        let rest = ls.skip(1);
        if is_header(l) {
            sizes_pairs(rest, section_name_s(l))
        } else if cur.len() > 0 && starts_with_s(l, "Size="@) {
            match parse_dec_s(trim_s(ini_value_s(l)), u32::MAX as int) {
                Some(v) => seq![(cur, v as u32)] + sizes_pairs(rest, cur),
                None => sizes_pairs(rest, cur),
            }
        } else {
            sizes_pairs(rest, cur)
        }
    }
}

/// The sizes declared for the theme's sections, latest declaration first
/// in effect.
pub open spec fn sizes_of(content: Seq<char>) -> Seq<(Seq<char>, u32)> {
    sizes_pairs(split_set_s(content, seq!['\n']), Seq::empty())
}

/// The value of the last pair bound to `k`, if any.
pub open spec fn last_val(ps: Seq<(Seq<char>, u32)>, k: Seq<char>) -> Option<u32>
    decreases ps.len(),
{
    if ps.len() == 0 {
        None
    } else if ps.last().0 == k {
        Some(ps.last().1)
    } else {
        last_val(ps.drop_last(), k)
    }
}

/// The index of the first occurrence of `c` in `s`, or -1.
pub open spec fn find_first_s(s: Seq<char>, c: char) -> int
    decreases s.len(),
{
    if s.len() == 0 {
        -1
    } else if s[0] == c {
        0
    } else {
        let r = find_first_s(s.skip(1), c);
        if r == -1 {
            -1
        } else {
            r + 1
        }
    }
}

pub proof fn lemma_find_first_at(s: Seq<char>, c: char, i: int)
    requires
        0 <= i < s.len(),
        s[i] == c,
        forall|j: int| 0 <= j < i ==> s[j] != c,
    ensures
        find_first_s(s, c) == i,
    decreases i,
{
    if i > 0 {
        lemma_find_first_at(s.skip(1), c, i - 1);
    }
}

pub proof fn lemma_find_first_none(s: Seq<char>, c: char)
    requires
        !has_char(s, c),
    ensures
        find_first_s(s, c) == -1,
    decreases s.len(),
{
    if s.len() > 0 {
        assert(s[0] != c);
        assert(forall|j: int| 0 <= j < s.skip(1).len() ==> s.skip(1)[j] == s[j + 1]);
        lemma_find_first_none(s.skip(1), c);
    }
}

/// The pixel size of a bucket: an explicit `Size=` wins; otherwise the
/// part of the name before any `/` is read as `scalable` (0), or as the
/// width of a `WxH` form; anything else is unrecognized.
pub open spec fn bucket_size_s(name: Seq<char>, sizes: Seq<(Seq<char>, u32)>) -> Option<
    u32,
> {
    match last_val(sizes, name) {
        Some(v) => Some(v),
        None => {
            let sp = if find_first_s(name, '/') >= 0 {
                name.take(find_first_s(name, '/'))
            } else {
                name
            };
            if sp == "scalable"@ {
                Some(0)
            } else if find_first_s(sp, 'x') >= 0 {
                match parse_dec_s(sp.take(find_first_s(sp, 'x')), u32::MAX as int) {
                    Some(v) => Some(v as u32),
                    None => None,
                }
            } else {
                None
            }
        },
    }
}

/// The named buckets that resolve to a size, in declaration order.
pub open spec fn raw_buckets_s(names: Seq<Seq<char>>, sizes: Seq<(Seq<char>, u32)>) -> Seq<
    (Seq<char>, u32),
>
    decreases names.len(),
{
    if names.len() == 0 {
        Seq::empty()
    } else {
        let rest = raw_buckets_s(names.skip(1), sizes);
        match bucket_size_s(names[0], sizes) {
            Some(v) => seq![(names[0], v)] + rest,
            None => rest,
        }
    }
}

/// Must bucket `a` stand strictly before bucket `b`?  Sized buckets come
/// before scalable ones, larger sizes first.
pub open spec fn bucket_before(a: (Seq<char>, u32), b: (Seq<char>, u32)) -> bool {
    (a.1 != 0 && b.1 == 0) || (a.1 != 0 && b.1 != 0 && a.1 > b.1)
}

/// Insertion after every element not strictly after `x`: a stable sort.
pub open spec fn insert_bucket(x: (Seq<char>, u32), l: Seq<(Seq<char>, u32)>) -> Seq<
    (Seq<char>, u32),
>
    decreases l.len(),
{
    if l.len() == 0 {
        seq![x]
    } else if bucket_before(x, l[0]) {
        seq![x] + l
    } else {
        seq![l[0]] + insert_bucket(x, l.skip(1))
    }
}

/// Buckets sorted descending by size with scalable buckets last, ties in
/// declaration order.
pub open spec fn sort_buckets(l: Seq<(Seq<char>, u32)>) -> Seq<(Seq<char>, u32)>
    decreases l.len(),
{
    if l.len() == 0 {
        Seq::empty()
    } else {
        insert_bucket(l.last(), sort_buckets(l.drop_last()))
    }
}

proof fn lemma_insert_bucket_at(x: (Seq<char>, u32), l: Seq<(Seq<char>, u32)>, p: int)
    requires
        0 <= p <= l.len(),
        forall|j: int| 0 <= j < p ==> !bucket_before(x, l[j]),
        p < l.len() ==> bucket_before(x, l[p]),
    ensures
        insert_bucket(x, l) == l.take(p) + seq![x] + l.skip(p),
    decreases p,
{
    if p == 0 {
        if l.len() == 0 {
            assert(insert_bucket(x, l) =~= l.take(0) + seq![x] + l.skip(0));
        } else {
            assert(insert_bucket(x, l) =~= l.take(0) + seq![x] + l.skip(0));
        }
    } else {
        assert(!bucket_before(x, l[0]));
        lemma_insert_bucket_at(x, l.skip(1), p - 1);
        assert(forall|j: int| 0 <= j < p - 1 ==> l.skip(1)[j] == l[j + 1]);
        assert(insert_bucket(x, l) =~= seq![l[0]] + insert_bucket(x, l.skip(1)));
        assert(l.skip(1).take(p - 1) =~= l.take(p).skip(1));
        assert(l.skip(1).skip(p - 1) =~= l.skip(p));
        assert(seq![l[0]] + (l.skip(1).take(p - 1) + seq![x] + l.skip(1).skip(p - 1)) =~= l.take(
            p,
        ) + seq![x] + l.skip(p));
    }
}

/// The rank a bucket sorts by: scalable buckets count below every
/// explicit pixel size.
pub open spec fn bucket_rank(b: (Seq<char>, u32)) -> int {
    if b.1 == 0 {
        -1
    } else {
        b.1 as int
    }
}

/// Buckets stand in descending rank order: pixel sizes descend, and
/// scalable buckets stand after every sized one.
pub open spec fn buckets_ordered(l: Seq<(Seq<char>, u32)>) -> bool {
    forall|i: int, j: int| 0 <= i < j < l.len() ==> bucket_rank(l[i]) >= bucket_rank(l[j])
}

proof fn lemma_insert_bucket_ordered(x: (Seq<char>, u32), l: Seq<(Seq<char>, u32)>)
    requires
        buckets_ordered(l),
    ensures
        buckets_ordered(insert_bucket(x, l)),
        forall|k: int|
            0 <= k < insert_bucket(x, l).len() ==> insert_bucket(x, l)[k] == x || l.contains(
                #[trigger] insert_bucket(x, l)[k],
            ),
    decreases l.len(),
{
    let r = insert_bucket(x, l);
    if l.len() == 0 {
        assert(r =~~= seq![x]);
    } else if bucket_before(x, l[0]) {
        assert(r =~~= seq![x] + l);
        assert forall|i: int, j: int|
            0 <= i < j < r.len() implies bucket_rank(r[i]) >= bucket_rank(r[j]) by {
            if i == 0 {
                assert(r[j] == l[j - 1]);
                if j > 1 {
                    assert(bucket_rank(l[0]) >= bucket_rank(l[j - 1]));
                }
            } else {
                assert(r[i] == l[i - 1] && r[j] == l[j - 1]);
            }
        }
        assert forall|k: int| 0 <= k < r.len() implies r[k] == x || l.contains(
            #[trigger] r[k],
        ) by {
            if k > 0 {
                assert(r[k] == l[k - 1]);
            }
        }
    } else {
        assert(buckets_ordered(l.skip(1))) by {
            assert(forall|i: int|
                0 <= i < l.skip(1).len() ==> #[trigger] l.skip(1)[i] == l[i + 1]);
        }
        lemma_insert_bucket_ordered(x, l.skip(1));
        let t = insert_bucket(x, l.skip(1));
        assert(r =~~= seq![l[0]] + t);
        // nothing in the inserted tail ranks above the head
        assert forall|k: int| 0 <= k < t.len() implies bucket_rank(l[0]) >= bucket_rank(
            t[k],
        ) by {
            if t[k] == x {
            } else {
                assert(l.skip(1).contains(t[k]));
                let w = choose|w: int| 0 <= w < l.skip(1).len() && l.skip(1)[w] == t[k];
                assert(l[w + 1] == t[k]);
                assert(bucket_rank(l[0]) >= bucket_rank(l[w + 1]));
            }
        }
        assert forall|i: int, j: int|
            0 <= i < j < r.len() implies bucket_rank(r[i]) >= bucket_rank(r[j]) by {
            if i == 0 {
                assert(r[j] == t[j - 1]);
            } else {
                assert(r[i] == t[i - 1] && r[j] == t[j - 1]);
            }
        }
        assert forall|k: int| 0 <= k < r.len() implies r[k] == x || l.contains(
            #[trigger] r[k],
        ) by {
            if k == 0 {
                assert(l[0] == r[0]);
                assert(l.contains(r[0]));
            } else {
                assert(r[k] == t[k - 1]);
                if t[k - 1] == x {
                } else {
                    assert(l.skip(1).contains(t[k - 1]));
                    let w = choose|w: int|
                        0 <= w < l.skip(1).len() && l.skip(1)[w] == t[k - 1];
                    assert(l[w + 1] == t[k - 1]);
                    assert(l.contains(r[k]));
                }
            }
        }
    }
}

/// The sorted bucket list is in descending size order with scalable
/// buckets last, whatever list it was sorted from.
pub proof fn lemma_sort_buckets_ordered(l: Seq<(Seq<char>, u32)>)
    ensures
        buckets_ordered(sort_buckets(l)),
    decreases l.len(),
{
    if l.len() > 0 {
        lemma_sort_buckets_ordered(l.drop_last());
        lemma_insert_bucket_ordered(l.last(), sort_buckets(l.drop_last()));
    }
}

/// The full bucket list a descriptor yields.
pub open spec fn theme_directories_s(content: Seq<char>) -> Seq<(Seq<char>, u32)> {
    sort_buckets(raw_buckets_s(dir_names_of(content), sizes_of(content)))
}

/// The fixed substitute bucket list used when a descriptor is missing or
/// names no usable bucket.
pub open spec fn fallback_buckets_s() -> Seq<(Seq<char>, u32)> {
    seq![
        ("48x48"@, 48u32),
        ("64x64"@, 64u32),
        ("32x32"@, 32u32),
        ("24x24"@, 24u32),
        ("22x22"@, 22u32),
        ("16x16"@, 16u32),
        ("scalable"@, 0u32),
    ]
}

/// The two-tier bucket lookup: the descriptor's own list when it yields
/// anything, else the fixed fallback list.
pub open spec fn buckets_of(content: Option<Seq<char>>) -> Seq<(Seq<char>, u32)> {
    match content {
        Some(c) => if theme_directories_s(c).len() > 0 {
            theme_directories_s(c)
        } else {
            fallback_buckets_s()
        },
        None => fallback_buckets_s(),
    }
}

fn ini_value(l: &str) -> (r: String)
    ensures
        r@ == ini_value_s(l@),
{
    let mut ds: Vec<char> = Vec::new();
    ds.push('=');
    proof {
        assert(ds@ =~= seq!['=']);
    }
    let ps = split_set(l, &ds);
    if ps.len() >= 2 {
        let v = ps[1].clone();
        proof {
            assert(v@ == ps.deep_view()[1]);
        }
        v
    } else {
        let r = String::new();
        proof {
            assert(r@ =~= ini_value_s(l@));
        }
        r
    }
}

fn is_header_line(l: &str) -> (r: bool)
    ensures
        r == is_header(l@),
{
    let n = l.unicode_len();
    n >= 1 && l.get_char(0) == '[' && l.get_char(n - 1) == ']'
}

/// The concatenated fields of every `key` line in the `[Icon Theme]`
/// section of `content`.
fn parse_ini_list(content: &str, key: &str) -> (r: Vec<String>)
    ensures
        r.deep_view() == ini_list_lines(split_set_s(content@, seq!['\n']), key@, false),
{
    let mut nl: Vec<char> = Vec::new();
    nl.push('\n');
    proof {
        assert(nl@ =~= seq!['\n']);
    }
    let lines = split_set(content, &nl);
    let ghost ls = lines.deep_view();
    let mut r: Vec<String> = Vec::new();
    let mut in_sec = false;
    let mut i: usize = 0;
    proof {
        assert(ls.skip(0) =~= ls);
    }
    while i < lines.len()
        invariant
            ls == lines.deep_view(),
            i <= ls.len(),
            ini_list_lines(ls, key@, false) =~~= r.deep_view() + ini_list_lines(
                ls.skip(i as int),
                key@,
                in_sec,
            ),
        decreases ls.len() - i,
    {
        proof {
            assert(ls.skip(i as int)[0] == ls[i as int]);
            assert(ls.skip(i as int).skip(1) =~= ls.skip(i + 1));
        }
        let l = trim(lines[i].as_str());
        if is_header_line(l) {
            in_sec = str_eq(l, "[Icon Theme]");
            proof {
                assert(ini_list_lines(ls, key@, false) =~~= r.deep_view() + ini_list_lines(
                    ls.skip(i + 1),
                    key@,
                    in_sec,
                ));
            }
        } else if in_sec && starts_with(l, key) {
            let value = ini_value(l);
            let mut fields = split_trim_nonempty(value.as_str(), ',');
            let ghost pre = r.deep_view();
            let ghost fv = fields.deep_view();
            r.append(&mut fields);
            proof {
                assert(r.deep_view() =~~= pre + fv);
                assert(ini_list_lines(ls.skip(i as int), key@, in_sec) =~~= fv
                    + ini_list_lines(ls.skip(i + 1), key@, in_sec));
                assert(ini_list_lines(ls, key@, false) =~~= r.deep_view() + ini_list_lines(
                    ls.skip(i + 1),
                    key@,
                    in_sec,
                ));
            }
        } else {
            proof {
                assert(ini_list_lines(ls, key@, false) =~~= r.deep_view() + ini_list_lines(
                    ls.skip(i + 1),
                    key@,
                    in_sec,
                ));
            }
        }
        i += 1;
    }
    proof {
        assert(ls.skip(ls.len() as int) =~= Seq::<Seq<char>>::empty());
        assert(ini_list_lines(ls, key@, false) =~~= r.deep_view());
    }
    r
}

/// The ordered parent themes a descriptor inherits from.
pub fn parse_inherits(content: &str) -> (r: Vec<String>)
    ensures
        r.deep_view() == inherits_of(content@),
{
    parse_ini_list(content, "Inherits=")
}

/// The `(section, size)` pairs of every usable `Size=` line.
fn parse_size_pairs(content: &str) -> (r: Vec<(String, u32)>)
    ensures
        r.deep_view() == sizes_of(content@),
{
    let mut nl: Vec<char> = Vec::new();
    nl.push('\n');
    proof {
        assert(nl@ =~= seq!['\n']);
    }
    let lines = split_set(content, &nl);
    let ghost ls = lines.deep_view();
    let mut r: Vec<(String, u32)> = Vec::new();
    let mut cur = String::new();
    let mut i: usize = 0;
    proof {
        assert(ls.skip(0) =~= ls);
        assert(cur@ =~= Seq::<char>::empty());
    }
    while i < lines.len()
        invariant
            ls == lines.deep_view(),
            i <= ls.len(),
            sizes_of(content@) =~~= r.deep_view() + sizes_pairs(ls.skip(i as int), cur@),
        decreases ls.len() - i,
    {
        proof {
            assert(ls.skip(i as int)[0] == ls[i as int]);
            assert(ls.skip(i as int).skip(1) =~= ls.skip(i + 1));
        }
        let l = trim(lines[i].as_str());
        if is_header_line(l) {
            let n = l.unicode_len();
            proof {
                assert(l@[0] == '[' && l@[n - 1] == ']');
                assert(n >= 2);
            }
            cur = l.substring_char(1, n - 1).to_owned();
            proof {
                assert(cur@ =~= section_name_s(l@));
                assert(sizes_of(content@) =~~= r.deep_view() + sizes_pairs(
                    ls.skip(i + 1),
                    cur@,
                ));
            }
        } else if cur.unicode_len() > 0 && starts_with(l, "Size=") {
            let value = ini_value(l);
            let tv = trim(value.as_str());
            match parse_u32(tv) {
                Some(v) => {
                    let ghost pre = r.deep_view();
                    r.push((cur.clone(), v));
                    proof {
                        assert(r.deep_view() =~~= pre.push((cur@, v)));
                        assert(sizes_pairs(ls.skip(i as int), cur@) =~~= seq![(cur@, v)]
                            + sizes_pairs(ls.skip(i + 1), cur@));
                        assert(sizes_of(content@) =~~= r.deep_view() + sizes_pairs(
                            ls.skip(i + 1),
                            cur@,
                        ));
                    }
                },
                None => {
                    proof {
                        assert(sizes_of(content@) =~~= r.deep_view() + sizes_pairs(
                            ls.skip(i + 1),
                            cur@,
                        ));
                    }
                },
            }
        } else {
            proof {
                assert(sizes_of(content@) =~~= r.deep_view() + sizes_pairs(
                    ls.skip(i + 1),
                    cur@,
                ));
            }
        }
        i += 1;
    }
    proof {
        assert(ls.skip(ls.len() as int) =~= Seq::<Seq<char>>::empty());
        assert(sizes_of(content@) =~~= r.deep_view());
    }
    r
}

/// The last size bound to `name`, if any.
fn last_size(ps: &Vec<(String, u32)>, name: &str) -> (r: Option<u32>)
    ensures
        r == last_val(ps.deep_view(), name@),
{
    let ghost pv = ps.deep_view();
    let mut i: usize = ps.len();
    proof {
        assert(pv.skip(0) =~= pv);
    }
    while i > 0
        invariant
            pv == ps.deep_view(),
            i <= pv.len(),
            last_val(pv, name@) == last_val(pv.take(i as int), name@),
        decreases i,
    {
        i -= 1;
        proof {
            assert(pv.take(i + 1).last() == pv[i as int]);
            assert(pv.take(i + 1).drop_last() =~= pv.take(i as int));
        }
        if str_eq(ps[i].0.as_str(), name) {
            return Some(ps[i].1);
        }
    }
    proof {
        assert(pv.take(0) =~= Seq::<(Seq<char>, u32)>::empty());
    }
    None
}

/// The size a bucket name resolves to, if it is recognized.
fn bucket_size(name: &str, sizes: &Vec<(String, u32)>) -> (r: Option<u32>)
    ensures
        r == bucket_size_s(name@, sizes.deep_view()),
{
    match last_size(sizes, name) {
        Some(v) => Some(v),
        None => {
            let sp = match find_char(name, '/') {
                Some(p) => {
                    proof {
                        lemma_find_first_at(name@, '/', p as int);
                    }
                    name.substring_char(0, p)
                },
                None => {
                    proof {
                        lemma_find_first_none(name@, '/');
                    }
                    name
                },
            };
            proof {
                assert(name@.take(find_first_s(name@, '/')) =~= name@.subrange(
                    0,
                    find_first_s(name@, '/'),
                ));
            }
            if str_eq(sp, "scalable") {
                Some(0)
            } else {
                match find_char(sp, 'x') {
                    Some(x) => {
                        proof {
                            lemma_find_first_at(sp@, 'x', x as int);
                            assert(sp@.take(x as int) =~= sp@.subrange(0, x as int));
                        }
                        let w = sp.substring_char(0, x);
                        parse_u32(w)
                    },
                    None => {
                        proof {
                            lemma_find_first_none(sp@, 'x');
                        }
                        None
                    },
                }
            }
        },
    }
}

/// The descriptor's bucket list: named buckets resolved to sizes, sorted
/// descending by size with scalable buckets last.
pub fn parse_theme_directories(content: &str) -> (r: Vec<(String, u32)>)
    ensures
        r.deep_view() == theme_directories_s(content@),
{
    let names = parse_ini_list(content, "Directories=");
    let sizes = parse_size_pairs(content);
    let ghost nv = names.deep_view();
    let ghost sv = sizes.deep_view();
    // resolve sizes in declaration order
    let mut raw: Vec<(String, u32)> = Vec::new();
    let mut i: usize = 0;
    proof {
        assert(nv.skip(0) =~= nv);
    }
    while i < names.len()
        invariant
            nv == names.deep_view(),
            sv == sizes.deep_view(),
            i <= nv.len(),
            raw_buckets_s(nv, sv) =~~= raw.deep_view() + raw_buckets_s(nv.skip(i as int), sv),
        decreases nv.len() - i,
    {
        proof {
            assert(nv.skip(i as int)[0] == nv[i as int]);
            assert(nv.skip(i as int).skip(1) =~= nv.skip(i + 1));
        }
        let ghost pre = raw.deep_view();
        match bucket_size(names[i].as_str(), &sizes) {
            Some(v) => {
                raw.push((names[i].clone(), v));
                proof {
                    assert(raw.deep_view() =~~= pre.push((nv[i as int], v)));
                    assert(raw_buckets_s(nv, sv) =~~= raw.deep_view() + raw_buckets_s(
                        nv.skip(i + 1),
                        sv,
                    ));
                }
            },
            None => {
                proof {
                    assert(raw_buckets_s(nv, sv) =~~= raw.deep_view() + raw_buckets_s(
                        nv.skip(i + 1),
                        sv,
                    ));
                }
            },
        }
        i += 1;
    }
    proof {
        assert(nv.skip(nv.len() as int) =~= Seq::<Seq<char>>::empty());
        assert(raw_buckets_s(nv, sv) =~~= raw.deep_view());
    }
    // stable insertion sort
    let ghost f = raw.deep_view();
    let mut out: Vec<(String, u32)> = Vec::new();
    let mut k: usize = 0;
    proof {
        assert(f.take(0) =~= Seq::<(Seq<char>, u32)>::empty());
    }
    while k < raw.len()
        invariant
            f == raw.deep_view(),
            k <= f.len(),
            out.deep_view() =~~= sort_buckets(f.take(k as int)),
        decreases f.len() - k,
    {
        let x = (raw[k].0.clone(), raw[k].1);
        let ghost o = out.deep_view();
        let mut p: usize = 0;
        while p < out.len() && !bucket_before_x(&x, &out[p])
            invariant
                o == out.deep_view(),
                k < f.len(),
                x.0@ == f[k as int].0 && x.1 == f[k as int].1,
                p <= o.len(),
                forall|j: int| 0 <= j < p ==> !bucket_before((x.0@, x.1), o[j]),
            decreases o.len() - p,
        {
            p += 1;
        }
        let ghost pp = p as int;
        out.insert(p, x);
        proof {
            lemma_insert_bucket_at((f[k as int].0, f[k as int].1), o, pp);
            assert(out.deep_view() =~~= o.take(pp) + seq![(f[k as int].0, f[k as int].1)]
                + o.skip(pp));
            assert(f.take(k + 1).drop_last() =~= f.take(k as int));
            assert(f.take(k + 1).last() == f[k as int]);
            assert((f[k as int].0, f[k as int].1) == f[k as int]);
            assert(sort_buckets(f.take(k + 1)) == insert_bucket(f[k as int], sort_buckets(
                f.take(k as int),
            )));
            assert(out.deep_view() =~~= sort_buckets(f.take(k + 1)));
        }
        k += 1;
    }
    proof {
        assert(f.take(f.len() as int) =~= f);
    }
    out
}

fn bucket_before_x(a: &(String, u32), b: &(String, u32)) -> (r: bool)
    ensures
        r == bucket_before((a.0@, a.1), (b.0@, b.1)),
{
    (a.1 != 0 && b.1 == 0) || (a.1 != 0 && b.1 != 0 && a.1 > b.1)
}

/// The fixed substitute bucket list.
pub fn fallback_buckets() -> (r: Vec<(String, u32)>)
    ensures
        r.deep_view() == fallback_buckets_s(),
{
    let mut r: Vec<(String, u32)> = Vec::new();
    r.push(("48x48".to_owned(), 48));
    r.push(("64x64".to_owned(), 64));
    r.push(("32x32".to_owned(), 32));
    r.push(("24x24".to_owned(), 24));
    r.push(("22x22".to_owned(), 22));
    r.push(("16x16".to_owned(), 16));
    r.push(("scalable".to_owned(), 0));
    proof {
        assert(r.deep_view() =~~= fallback_buckets_s());
    }
    r
}

/// The two-tier bucket lookup: a present descriptor's own list when it
/// yields anything, else the documented fallback list.
pub fn effective_buckets(content: Option<&str>) -> (r: Vec<(String, u32)>)
    ensures
        match content {
            Some(c) => r.deep_view() == buckets_of(Some(c@)),
            None => r.deep_view() == buckets_of(None::<Seq<char>>),
        },
{
    match content {
        Some(c) => {
            let d = parse_theme_directories(c);
            if d.len() > 0 {
                d
            } else {
                fallback_buckets()
            }
        },
        None => fallback_buckets(),
    }
}

} // verus!
