//! The directory scanner's pure half: the plan of theme scans with their
//! priorities, the directories to list inside one theme, and the
//! candidate entries one directory listing yields.  Listing directories
//! is the embedding program's job; it hands the file names back here.

use vstd::prelude::*;
use vstd::string::*;
use crate::entry::{IconEntry, EntryV};
use crate::text::{contains_char, has_char, find_last_char, lower, lower_s, str_eq, push_char};

verus! {

/// One planned theme scan: which search root (0 is the primary root),
/// which theme of the chain, and the theme priority its candidates carry.
#[derive(Debug, Clone, Copy, PartialEq, Eq, Structural)]
pub struct ScanStep {
    pub root_idx: usize,
    pub theme_idx: usize,
    pub priority: usize,
}

/// The planned step at position `k`: the chain is scanned once per root
/// in root order; under the primary root the priority is the chain
/// index, under every additional root it is the chain length plus the
/// chain index, so additional roots always rank below the primary root.
pub open spec fn step_at(chain_len: int, k: int) -> ScanStep {
    let b = k / chain_len;
    let t = k % chain_len;
    ScanStep {
        root_idx: b as usize,
        theme_idx: t as usize,
        priority: (if b == 0 {
            t
        } else {
            chain_len + t
        }) as usize,
    }
}

/// The full scan plan over a chain of `chain_len` themes and
/// `n_additional` additional roots.
pub open spec fn scan_plan_s(chain_len: int, n_additional: int) -> Seq<ScanStep> {
    Seq::new(((n_additional + 1) * chain_len) as nat, |k: int| step_at(chain_len, k))
}

pub fn scan_plan(chain_len: usize, n_additional: usize) -> (r: Vec<ScanStep>)
    requires
        chain_len <= usize::MAX / 2,
        n_additional < usize::MAX,
    ensures
        r@ == scan_plan_s(chain_len as int, n_additional as int),
{
    let mut r: Vec<ScanStep> = Vec::new();
    let mut b: usize = 0;
    while b <= n_additional
        invariant
            chain_len <= usize::MAX / 2,
            n_additional < usize::MAX,
            b <= n_additional + 1,
            r@.len() == b * chain_len,
            forall|k: int| 0 <= k < r@.len() ==> r@[k] == step_at(chain_len as int, k),
        decreases n_additional + 1 - b,
    {
        let mut t: usize = 0;
        while t < chain_len
            invariant
                chain_len <= usize::MAX / 2,
                t <= chain_len,
                r@.len() == b * chain_len + t,
                forall|k: int| 0 <= k < r@.len() ==> r@[k] == step_at(chain_len as int, k),
            decreases chain_len - t,
        {
            let priority = if b == 0 {
                t
            } else {
                chain_len + t
            };
            r.push(ScanStep { root_idx: b, theme_idx: t, priority });
            proof {
                let k = b * chain_len + t;
                vstd::arithmetic::div_mod::lemma_fundamental_div_mod_converse(
                    k as int,
                    chain_len as int,
                    b as int,
                    t as int,
                );
                assert(step_at(chain_len as int, k as int).root_idx == b);
                assert(step_at(chain_len as int, k as int).theme_idx == t);
            }
            t += 1;
        }
        proof {
            assert((b + 1) * chain_len == b * chain_len + chain_len) by (nonlinear_arith);
        }
        b += 1;
    }
    proof {
        assert(r@ =~= scan_plan_s(chain_len as int, n_additional as int));
    }
    r
}

/// The fixed semantic subdirectories scanned inside each size bucket.
pub open spec fn subdirs_s() -> Seq<Seq<char>> {
    seq![
        "apps"@,
        "actions"@,
        "devices"@,
        "places"@,
        "status"@,
        "mimetypes"@,
        "categories"@,
    ]
}

pub fn subdirectories() -> (r: Vec<String>)
    ensures
        r.deep_view() == subdirs_s(),
{
    let mut r: Vec<String> = Vec::new();
    r.push("apps".to_owned());
    r.push("actions".to_owned());
    r.push("devices".to_owned());
    r.push("places".to_owned());
    r.push("status".to_owned());
    r.push("mimetypes".to_owned());
    r.push("categories".to_owned());
    proof {
        assert(r.deep_view() =~~= subdirs_s());
    }
    r
}

/// The directories one bucket contributes: the bucket name joined with
/// each semantic subdirectory, or the name alone when it already holds a
/// path separator and so is taken as fully qualified.
pub open spec fn bucket_dirs_s(b: (Seq<char>, u32)) -> Seq<(Seq<char>, u32)> {
    if has_char(b.0, '/') {
        seq![b]
    } else {
        subdirs_s().map_values(|s: Seq<char>| (b.0 + seq!['/'] + s, b.1))
    }
}

/// The directories to list inside one theme, with the pixel size each
/// carries, in bucket order.
pub open spec fn unit_dirs_s(buckets: Seq<(Seq<char>, u32)>) -> Seq<(Seq<char>, u32)>
    decreases buckets.len(),
{
    if buckets.len() == 0 {
        Seq::empty()
    } else {
        bucket_dirs_s(buckets[0]) + unit_dirs_s(buckets.skip(1))
    }
}

#[verifier::rlimit(60)]
pub fn unit_dirs(buckets: &Vec<(String, u32)>) -> (r: Vec<(String, u32)>)
    ensures
        r.deep_view() == unit_dirs_s(buckets.deep_view()),
{
    let ghost bv = buckets.deep_view();
    let subs = subdirectories();
    let mut r: Vec<(String, u32)> = Vec::new();
    let mut i: usize = 0;
    proof {
        assert(bv.skip(0) =~= bv);
        assert(r.deep_view() =~~= Seq::<(Seq<char>, u32)>::empty());
    }
    while i < buckets.len()
        invariant
            bv == buckets.deep_view(),
            subs.deep_view() == subdirs_s(),
            i <= bv.len(),
            unit_dirs_s(bv) =~~= r.deep_view() + unit_dirs_s(bv.skip(i as int)),
        decreases bv.len() - i,
    {
        proof {
            assert(bv.skip(i as int)[0] == bv[i as int]);
            assert(bv.skip(i as int).skip(1) =~= bv.skip(i + 1));
        }
        let name = &buckets[i].0;
        let size = buckets[i].1;
        if contains_char(name.as_str(), '/') {
            let ghost pre = r.deep_view();
            r.push((name.clone(), size));
            proof {
                assert(r.deep_view() =~~= pre.push(bv[i as int]));
                assert(bucket_dirs_s(bv[i as int]) =~~= seq![bv[i as int]]);
                assert(unit_dirs_s(bv) =~~= r.deep_view() + unit_dirs_s(bv.skip(i + 1)));
            }
        } else {
            let ghost cross = bucket_dirs_s(bv[i as int]);
            let ghost pre0 = r.deep_view();
            let mut k: usize = 0;
            while k < subs.len()
                invariant
                    bv == buckets.deep_view(),
                    subs.deep_view() == subdirs_s(),
                    i < bv.len(),
                    name@ == bv[i as int].0 && size == bv[i as int].1,
                    !has_char(bv[i as int].0, '/'),
                    cross == bucket_dirs_s(bv[i as int]),
                    pre0.len() <= r.deep_view().len(),
                    k <= subs.deep_view().len(),
                    r.deep_view() =~~= pre0 + cross.take(k as int),
                decreases subs.deep_view().len() - k,
            {
                let mut joined = name.clone();
                push_char(&mut joined, '/');
                joined.append(subs[k].as_str());
                let ghost pre = r.deep_view();
                r.push((joined, size));
                proof {
                    assert(joined@ =~= bv[i as int].0 + seq!['/'] + subdirs_s()[k as int]);
                    assert(cross[k as int] == (
                        bv[i as int].0 + seq!['/'] + subdirs_s()[k as int],
                        bv[i as int].1,
                    ));
                    assert(r.deep_view() =~~= pre.push(cross[k as int]));
                    assert(cross.take(k + 1) =~= cross.take(k as int).push(cross[k as int]));
                    assert(r.deep_view() =~~= pre0 + cross.take(k + 1));
                }
                k += 1;
            }
            proof {
                assert(cross.take(cross.len() as int) =~= cross);
                assert(r.deep_view() =~~= pre0 + cross);
                assert(unit_dirs_s(bv.skip(i as int)) =~~= cross + unit_dirs_s(bv.skip(i + 1)));
                assert(unit_dirs_s(bv) =~~= r.deep_view() + unit_dirs_s(bv.skip(i + 1)));
            }
        }
        i += 1;
    }
    proof {
        assert(bv.skip(bv.len() as int) =~= Seq::<(Seq<char>, u32)>::empty());
        assert(unit_dirs_s(bv) =~~= r.deep_view());
    }
    r
}

/// The index of the last occurrence of `c`, or -1.
pub open spec fn find_last_s(s: Seq<char>, c: char) -> int
    decreases s.len(),
{
    if s.len() == 0 {
        -1
    } else if s.last() == c {
        s.len() - 1
    } else {
        find_last_s(s.drop_last(), c)
    }
}

proof fn lemma_find_last_at(s: Seq<char>, c: char, i: int)
    requires
        0 <= i < s.len(),
        s[i] == c,
        forall|j: int| i < j < s.len() ==> s[j] != c,
    ensures
        find_last_s(s, c) == i,
    decreases s.len(),
{
    if i < s.len() - 1 {
        assert(s.last() != c);
        lemma_find_last_at(s.drop_last(), c, i);
    }
}

proof fn lemma_find_last_none(s: Seq<char>, c: char)
    requires
        !has_char(s, c),
    ensures
        find_last_s(s, c) == -1,
    decreases s.len(),
{
    if s.len() > 0 {
        assert(s.last() != c);
        assert(forall|j: int| 0 <= j < s.len() - 1 ==> s.drop_last()[j] == s[j]);
        lemma_find_last_none(s.drop_last(), c);
    }
}

/// The wanted extension, lowercased, as the scanner matches it.
pub open spec fn wanted_ext(want_svg: bool) -> Seq<char> {
    if want_svg {
        "svg"@
    } else {
        "png"@
    }
}

/// The candidate entries a directory listing yields for one extension:
/// every file whose extension (the part after the last dot, never the
/// leading character) matches case-insensitively contributes its stem as
/// the icon name and its full path as the entry.
pub open spec fn listing_entries_s(
    dir: Seq<char>,
    files: Seq<Seq<char>>,
    want_svg: bool,
    size: u32,
    pri: usize,
) -> Seq<(Seq<char>, EntryV)>
    decreases files.len(),
{
    if files.len() == 0 {
        Seq::empty()
    } else {
        let f = files[0];
        let rest = listing_entries_s(dir, files.skip(1), want_svg, size, pri);
        let j = find_last_s(f, '.');
        if j >= 1 && lower_s(f.skip(j + 1)) == wanted_ext(want_svg) {
            seq![
                (
                    f.take(j),
                    EntryV {
                        path: dir + seq!['/'] + f,
                        size: size,
                        is_svg: want_svg,
                        theme_priority: pri,
                    },
                ),
            ] + rest
        } else {
            rest
        }
    }
}

pub fn entries_from_listing(
    dir: &str,
    files: &Vec<String>,
    want_svg: bool,
    size: u32,
    priority: usize,
) -> (r: Vec<(String, IconEntry)>)
    ensures
        r.deep_view() == listing_entries_s(dir@, files.deep_view(), want_svg, size, priority),
{
    let ghost fv = files.deep_view();
    let want: &str = if want_svg {
        "svg"
    } else {
        "png"
    };
    let mut r: Vec<(String, IconEntry)> = Vec::new();
    let mut i: usize = 0;
    proof {
        assert(fv.skip(0) =~= fv);
        assert(r.deep_view() =~~= Seq::<(Seq<char>, EntryV)>::empty());
    }
    while i < files.len()
        invariant
            fv == files.deep_view(),
            want@ == wanted_ext(want_svg),
            i <= fv.len(),
            listing_entries_s(dir@, fv, want_svg, size, priority) =~~= r.deep_view()
                + listing_entries_s(dir@, fv.skip(i as int), want_svg, size, priority),
        decreases fv.len() - i,
    {
        proof {
            assert(fv.skip(i as int)[0] == fv[i as int]);
            assert(fv.skip(i as int).skip(1) =~= fv.skip(i + 1));
        }
        let f = &files[i];
        let n = f.as_str().unicode_len();
        let mut matched = false;
        let mut stem_end: usize = 0;
        match find_last_char(f.as_str(), '.') {
            Some(j) => {
                proof {
                    lemma_find_last_at(f@, '.', j as int);
                }
                if j >= 1 {
                    let ext = f.as_str().substring_char(j + 1, n);
                    let el = lower(ext);
                    proof {
                        assert(ext@ =~= fv[i as int].skip(j + 1));
                    }
                    if str_eq(el.as_str(), want) {
                        matched = true;
                        stem_end = j;
                    }
                }
            },
            None => {
                proof {
                    lemma_find_last_none(f@, '.');
                }
            },
        }
        if matched {
            let stem = f.as_str().substring_char(0, stem_end).to_owned();
            let mut path = dir.to_owned();
            push_char(&mut path, '/');
            path.append(f.as_str());
            let ghost pre = r.deep_view();
            let e = IconEntry { path, size, is_svg: want_svg, theme_priority: priority };
            proof {
                assert(stem@ =~= fv[i as int].take(stem_end as int));
                assert(e@.path =~= dir@ + seq!['/'] + fv[i as int]);
            }
            r.push((stem, e));
            proof {
                assert(r.deep_view() =~~= pre.push((fv[i as int].take(stem_end as int), e@)));
                assert(listing_entries_s(dir@, fv, want_svg, size, priority) =~~= r.deep_view()
                    + listing_entries_s(dir@, fv.skip(i + 1), want_svg, size, priority));
            }
        } else {
            proof {
                assert(listing_entries_s(dir@, fv, want_svg, size, priority) =~~= r.deep_view()
                    + listing_entries_s(dir@, fv.skip(i + 1), want_svg, size, priority));
            }
        }
        i += 1;
    }
    proof {
        assert(fv.skip(fv.len() as int) =~= Seq::<Seq<char>>::empty());
        assert(listing_entries_s(dir@, fv, want_svg, size, priority) =~~= r.deep_view());
    }
    r
}

} // verus!
