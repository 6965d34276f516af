//! The on-disk form of the persistent cache record: a compact text
//! framing written and checked here, so that a saved record decodes back
//! to itself.  Numbers are decimal with a `;` terminator, strings are
//! length-prefixed with a `:` separator, booleans one letter.  The
//! embedding program only moves the text to and from the cache file.

use vstd::prelude::*;
use vstd::string::*;
use crate::entry::{IconEntry, EntryV};
use crate::icon_map::{IconMap, map_has, set_one_s};
use crate::num::{is_digit, dec_val, dec_rep, all_digits, lemma_dec_val_rep, lemma_dec_val_nonneg,
    to_dec};
use crate::record::{CacheMetadata, MetadataV, PersistentCache, RecordV, valid_s, CACHE_VERSION};
use crate::resolver::merge_fold_s;
use crate::text::push_char;

verus! {

// ------------------------------------------------------------------
// encoding, specification
// ------------------------------------------------------------------

pub open spec fn enc_num_s(v: nat) -> Seq<char> {
    dec_rep(v) + seq![';']
}

pub open spec fn enc_str_s(s: Seq<char>) -> Seq<char> {
    dec_rep(s.len()) + seq![':'] + s
}

pub open spec fn enc_bool_s(b: bool) -> Seq<char> {
    if b {
        seq!['T']
    } else {
        seq!['F']
    }
}

pub open spec fn enc_strs_s(l: Seq<Seq<char>>) -> Seq<char>
    decreases l.len(),
{
    if l.len() == 0 {
        Seq::empty()
    } else {
        enc_str_s(l[0]) + enc_strs_s(l.skip(1))
    }
}

pub open spec fn enc_entry_s(p: (Seq<char>, EntryV)) -> Seq<char> {
    enc_str_s(p.0) + enc_str_s(p.1.path) + enc_num_s(p.1.size as nat) + enc_bool_s(p.1.is_svg)
        + enc_num_s(p.1.theme_priority as nat)
}

pub open spec fn enc_entries_s(l: Seq<(Seq<char>, EntryV)>) -> Seq<char>
    decreases l.len(),
{
    if l.len() == 0 {
        Seq::empty()
    } else {
        enc_entry_s(l[0]) + enc_entries_s(l.skip(1))
    }
}

pub open spec fn enc_record_s(r: RecordV) -> Seq<char> {
    enc_num_s(r.metadata.cache_version as nat) + enc_str_s(r.metadata.theme) + enc_str_s(
        r.metadata.base_path,
    ) + enc_num_s(r.metadata.additional_paths.len()) + enc_strs_s(r.metadata.additional_paths)
        + enc_num_s(r.metadata.cache_time as nat) + enc_num_s(r.metadata.icon_count as nat)
        + enc_num_s(r.icons.len()) + enc_entries_s(r.icons)
}

// ------------------------------------------------------------------
// encoding, executable
// ------------------------------------------------------------------

fn push_num(out: &mut String, v: u64)
    ensures
        final(out)@ == old(out)@ + enc_num_s(v as nat),
{
    let d = to_dec(v);
    out.append(d.as_str());
    push_char(out, ';');
    proof {
        assert(out@ =~= old(out)@ + enc_num_s(v as nat));
    }
}

fn push_str_tok(out: &mut String, s: &str)
    ensures
        final(out)@ == old(out)@ + enc_str_s(s@),
{
    let n = s.unicode_len();
    let d = to_dec(n as u64);
    out.append(d.as_str());
    push_char(out, ':');
    out.append(s);
    proof {
        assert(out@ =~= old(out)@ + enc_str_s(s@));
    }
}

fn push_bool(out: &mut String, b: bool)
    ensures
        final(out)@ == old(out)@ + enc_bool_s(b),
{
    push_char(out, if b { 'T' } else { 'F' });
    proof {
        assert(out@ =~= old(out)@ + enc_bool_s(b));
    }
}

/// Writes a record in the on-disk form.
pub fn encode_record(rec: &PersistentCache) -> (r: String)
    ensures
        r@ == enc_record_s(rec@),
{
    let ghost rv = rec@;
    let mut out = String::new();
    proof {
        assert(out@ =~= Seq::<char>::empty());
    }
    push_num(&mut out, rec.metadata.cache_version as u64);
    push_str_tok(&mut out, rec.metadata.theme.as_str());
    push_str_tok(&mut out, rec.metadata.base_path.as_str());
    push_num(&mut out, rec.metadata.additional_paths.len() as u64);
    let ghost paths = rv.metadata.additional_paths;
    let ghost head = out@;
    let mut i: usize = 0;
    proof {
        assert(paths.skip(0) =~= paths);
        assert(out@ + enc_strs_s(paths.skip(0)) =~= head + enc_strs_s(paths));
    }
    while i < rec.metadata.additional_paths.len()
        invariant
            paths == rec.metadata.additional_paths.deep_view(),
            i <= paths.len(),
            out@ + enc_strs_s(paths.skip(i as int)) =~= head + enc_strs_s(paths),
        decreases paths.len() - i,
    {
        proof {
            assert(paths.skip(i as int)[0] == paths[i as int]);
            assert(paths.skip(i as int).skip(1) =~= paths.skip(i + 1));
        }
        let ghost pre = out@;
        push_str_tok(&mut out, rec.metadata.additional_paths[i].as_str());
        proof {
            assert(enc_strs_s(paths.skip(i as int)) =~= enc_str_s(paths[i as int]) + enc_strs_s(
                paths.skip(i + 1),
            ));
            assert(out@ + enc_strs_s(paths.skip(i + 1)) =~= head + enc_strs_s(paths));
        }
        i += 1;
    }
    proof {
        assert(paths.skip(paths.len() as int) =~= Seq::<Seq<char>>::empty());
        assert(enc_strs_s(paths.skip(paths.len() as int)) =~= Seq::<char>::empty());
        assert(out@ =~= head + enc_strs_s(paths));
    }
    push_num(&mut out, rec.metadata.cache_time);
    push_num(&mut out, rec.metadata.icon_count as u64);
    push_num(&mut out, rec.icons.len() as u64);
    let ghost icons = rv.icons;
    let ghost head2 = out@;
    let n = rec.icons.len();
    let mut k: usize = 0;
    proof {
        assert(icons.skip(0) =~= icons);
    }
    while k < n
        invariant
            icons == rec.icons@,
            n == icons.len(),
            k <= n,
            out@ + enc_entries_s(icons.skip(k as int)) =~= head2 + enc_entries_s(icons),
        decreases n - k,
    {
        proof {
            assert(icons.skip(k as int)[0] == icons[k as int]);
            assert(icons.skip(k as int).skip(1) =~= icons.skip(k + 1));
        }
        let pair = rec.icons.pair_at(k);
        let ghost pre = out@;
        push_str_tok(&mut out, pair.0.as_str());
        push_str_tok(&mut out, pair.1.path.as_str());
        push_num(&mut out, pair.1.size as u64);
        push_bool(&mut out, pair.1.is_svg);
        push_num(&mut out, pair.1.theme_priority as u64);
        proof {
            assert(out@ =~= pre + enc_entry_s(icons[k as int]));
            assert(enc_entries_s(icons.skip(k as int)) =~= enc_entry_s(icons[k as int])
                + enc_entries_s(icons.skip(k + 1)));
            assert(out@ + enc_entries_s(icons.skip(k + 1)) =~= head2 + enc_entries_s(icons));
        }
        k += 1;
    }
    proof {
        assert(icons.skip(icons.len() as int) =~= Seq::<(Seq<char>, EntryV)>::empty());
        assert(enc_entries_s(icons.skip(icons.len() as int)) =~= Seq::<char>::empty());
        assert(out@ =~= head2 + enc_entries_s(icons));
        assert(out@ =~= enc_record_s(rv));
    }
    out
}

// ------------------------------------------------------------------
// decoding, specification
// ------------------------------------------------------------------

/// The end of the run of digits starting at `p`.
pub open spec fn digit_run_end(s: Seq<char>, p: int) -> int
    decreases s.len() - p,
{
    if p < 0 || p >= s.len() || !is_digit(s[p]) {
        p
    } else {
        digit_run_end(s, p + 1)
    }
}

proof fn lemma_digit_run_props(s: Seq<char>, p: int)
    requires
        0 <= p <= s.len(),
    ensures
        p <= digit_run_end(s, p) <= s.len(),
        forall|j: int| p <= j < digit_run_end(s, p) ==> is_digit(s[j]),
        digit_run_end(s, p) < s.len() ==> !is_digit(s[digit_run_end(s, p)]),
    decreases s.len() - p,
{
    if p < s.len() && is_digit(s[p]) {
        lemma_digit_run_props(s, p + 1);
    }
}

proof fn lemma_digit_run_at(s: Seq<char>, p: int, q: int)
    requires
        0 <= p <= q <= s.len(),
        forall|j: int| p <= j < q ==> is_digit(s[j]),
        q < s.len() ==> !is_digit(s[q]),
    ensures
        digit_run_end(s, p) == q,
    decreases q - p,
{
    if p < q {
        lemma_digit_run_at(s, p + 1, q);
    }
}

/// A decimal number read at `p`, up to a one-character terminator.
pub open spec fn dec_num_t(s: Seq<char>, p: int, term: char) -> Option<(nat, int)> {
    let q = digit_run_end(s, p);
    if q == p || q >= s.len() || s[q] != term {
        None
    } else if dec_val(s.subrange(p, q)) > u64::MAX {
        None
    } else {
        Some((dec_val(s.subrange(p, q)) as nat, q + 1))
    }
}

/// A length-prefixed string read at `p`.
pub open spec fn dec_str_s(s: Seq<char>, p: int) -> Option<(Seq<char>, int)> {
    match dec_num_t(s, p, ':') {
        None => None,
        Some((l, p2)) => if p2 + l <= s.len() {
            Some((s.subrange(p2, p2 + l), p2 + l))
        } else {
            None
        },
    }
}

pub open spec fn dec_bool_s(s: Seq<char>, p: int) -> Option<(bool, int)> {
    if 0 <= p < s.len() && s[p] == 'T' {
        Some((true, p + 1))
    } else if 0 <= p < s.len() && s[p] == 'F' {
        Some((false, p + 1))
    } else {
        None
    }
}

/// `k` length-prefixed strings in a row.
pub open spec fn dec_strs_s(s: Seq<char>, p: int, k: nat) -> Option<(Seq<Seq<char>>, int)>
    decreases k,
{
    if k == 0 {
        Some((Seq::empty(), p))
    } else {
        match dec_str_s(s, p) {
            None => None,
            Some((x, p2)) => match dec_strs_s(s, p2, (k - 1) as nat) {
                None => None,
                Some((l, p3)) => Some((seq![x] + l, p3)),
            },
        }
    }
}

/// One mapping entry: name, path, size, format, priority.
pub open spec fn dec_entry_s(s: Seq<char>, p: int) -> Option<((Seq<char>, EntryV), int)> {
    match dec_str_s(s, p) {
        None => None,
        Some((name, p1)) => match dec_str_s(s, p1) {
            None => None,
            Some((path, p2)) => match dec_num_t(s, p2, ';') {
                None => None,
                Some((size, p3)) => if size > u32::MAX {
                    None
                } else {
                    match dec_bool_s(s, p3) {
                        None => None,
                        Some((svg, p4)) => match dec_num_t(s, p4, ';') {
                            None => None,
                            Some((pri, p5)) => if pri > usize::MAX {
                                None
                            } else {
                                Some(
                                    (
                                        (
                                            name,
                                            EntryV {
                                                path: path,
                                                size: size as u32,
                                                is_svg: svg,
                                                theme_priority: pri as usize,
                                            },
                                        ),
                                        p5,
                                    ),
                                )
                            },
                        },
                    }
                },
            },
        },
    }
}

/// `k` mapping entries in a row.
pub open spec fn dec_entries_s(s: Seq<char>, p: int, k: nat) -> Option<
    (Seq<(Seq<char>, EntryV)>, int),
>
    decreases k,
{
    if k == 0 {
        Some((Seq::empty(), p))
    } else {
        match dec_entry_s(s, p) {
            None => None,
            Some((x, p2)) => match dec_entries_s(s, p2, (k - 1) as nat) {
                None => None,
                Some((l, p3)) => Some((seq![x] + l, p3)),
            },
        }
    }
}

/// The whole record; the text must end exactly where the record does.
pub open spec fn dec_record_s(s: Seq<char>) -> Option<RecordV> {
    match dec_num_t(s, 0, ';') {
        None => None,
        Some((ver, p1)) => if ver > u32::MAX {
            None
        } else {
            match dec_str_s(s, p1) {
                None => None,
                Some((theme, p2)) => match dec_str_s(s, p2) {
                    None => None,
                    Some((base, p3)) => match dec_num_t(s, p3, ';') {
                        None => None,
                        Some((nadd, p4)) => if nadd > usize::MAX {
                            None
                        } else {
                            match dec_strs_s(s, p4, nadd) {
                                None => None,
                                Some((paths, p5)) => match dec_num_t(s, p5, ';') {
                                    None => None,
                                    Some((time, p6)) => match dec_num_t(s, p6, ';') {
                                        None => None,
                                        Some((count, p7)) => if count > usize::MAX {
                                            None
                                        } else {
                                            match dec_num_t(s, p7, ';') {
                                                None => None,
                                                Some((nicons, p8)) => if nicons > usize::MAX {
                                                    None
                                                } else {
                                                    match dec_entries_s(s, p8, nicons) {
                                                        None => None,
                                                        Some((icons, p9)) => if p9 == s.len() {
                                                            Some(
                                                                RecordV {
                                                                    metadata: MetadataV {
                                                                        cache_version: ver as u32,
                                                                        theme: theme,
                                                                        base_path: base,
                                                                        additional_paths: paths,
                                                                        cache_time: time as u64,
                                                                        icon_count: count as usize,
                                                                    },
                                                                    icons: icons,
                                                                },
                                                            )
                                                        } else {
                                                            None
                                                        },
                                                    }
                                                },
                                            }
                                        },
                                    },
                                },
                            }
                        },
                    },
                },
            }
        },
    }
}

// ------------------------------------------------------------------
// decoding, executable
// ------------------------------------------------------------------

fn parse_num_t(s: &str, p: usize, term: char) -> (r: Option<(u64, usize)>)
    requires
        p <= s@.len(),
    ensures
        match r {
            Some(v) => dec_num_t(s@, p as int, term) == Some((v.0 as nat, v.1 as int)) && p < v.1
                <= s@.len(),
            None => dec_num_t(s@, p as int, term) is None,
        },
{
    let n = s.unicode_len();
    let ghost q = digit_run_end(s@, p as int);
    proof {
        lemma_digit_run_props(s@, p as int);
    }
    let mut i: usize = p;
    let mut acc: u64 = 0;
    let mut over = false;
    proof {
        assert(s@.subrange(p as int, p as int) =~= Seq::<char>::empty());
    }
    loop
        invariant
            n == s@.len(),
            q == digit_run_end(s@, p as int),
            p <= i <= q <= n,
            forall|j: int| p <= j < q ==> is_digit(s@[j]),
            q < n ==> !is_digit(s@[q as int]),
            !over ==> acc == dec_val(s@.subrange(p as int, i as int)) && dec_val(
                s@.subrange(p as int, i as int),
            ) <= u64::MAX,
            over ==> dec_val(s@.subrange(p as int, i as int)) > u64::MAX,
        ensures
            i == q,
        decreases n - i,
    {
        if i >= n {
            proof {
                assert(i == q);
            }
            break;
        }
        let c = s.get_char(i);
        let u = c as u32;
        if !(48 <= u && u <= 57) {
            proof {
                assert(!is_digit(s@[i as int]));
                assert(i == q) by {
                    if i < q {
                        assert(is_digit(s@[i as int]));
                    }
                }
            }
            break;
        }
        let d: u64 = ((u - 48) as u64);
        proof {
            assert(is_digit(s@[i as int]));
            assert(i < q) by {
                if i == q {
                    assert(q < n && !is_digit(s@[q as int]));
                }
            }
            assert(s@.subrange(p as int, i + 1).drop_last() =~= s@.subrange(p as int, i as int));
            assert(s@.subrange(p as int, i + 1).last() == s@[i as int]);
            assert(d == crate::num::digit_val(s@[i as int]));
        }
        if over {
            proof {
                lemma_dec_val_nonneg_sub(s@, p as int, i as int);
                assert(dec_val(s@.subrange(p as int, i + 1)) > u64::MAX);
            }
        } else {
            let t: u128 = acc as u128 * 10 + d as u128;
            if t > u64::MAX as u128 {
                over = true;
                proof {
                    assert(dec_val(s@.subrange(p as int, i + 1)) > u64::MAX);
                }
            } else {
                acc = t as u64;
                proof {
                    assert(acc == dec_val(s@.subrange(p as int, i + 1)));
                }
            }
        }
        i += 1;
    }
    if i == p {
        return None;
    }
    if i >= n {
        return None;
    }
    if s.get_char(i) != term {
        return None;
    }
    if over {
        return None;
    }
    Some((acc, i + 1))
}

proof fn lemma_dec_val_nonneg_sub(s: Seq<char>, p: int, i: int)
    requires
        0 <= p <= i <= s.len(),
        forall|j: int| p <= j < i ==> is_digit(s[j]),
    ensures
        dec_val(s.subrange(p, i)) >= 0,
{
    assert(all_digits(s.subrange(p, i)));
    lemma_dec_val_nonneg(s.subrange(p, i));
}

fn parse_str(s: &str, p: usize) -> (r: Option<(String, usize)>)
    requires
        p <= s@.len(),
    ensures
        match r {
            Some(v) => dec_str_s(s@, p as int) == Some((v.0@, v.1 as int)) && p < v.1 <= s@.len(),
            None => dec_str_s(s@, p as int) is None,
        },
{
    match parse_num_t(s, p, ':') {
        None => None,
        Some((l, p2)) => {
            let n = s.unicode_len();
            if l <= (n - p2) as u64 {
                let lu = l as usize;
                let x = s.substring_char(p2, p2 + lu).to_owned();
                proof {
                    assert(x@ =~= s@.subrange(p2 as int, p2 + l));
                }
                Some((x, p2 + lu))
            } else {
                None
            }
        },
    }
}

fn parse_bool(s: &str, p: usize) -> (r: Option<(bool, usize)>)
    requires
        p <= s@.len(),
    ensures
        match r {
            Some(v) => dec_bool_s(s@, p as int) == Some((v.0, v.1 as int)) && p < v.1 <= s@.len(),
            None => dec_bool_s(s@, p as int) is None,
        },
{
    let n = s.unicode_len();
    if p >= n {
        return None;
    }
    let c = s.get_char(p);
    if c == 'T' {
        Some((true, p + 1))
    } else if c == 'F' {
        Some((false, p + 1))
    } else {
        None
    }
}

fn parse_entry(s: &str, p: usize) -> (r: Option<((String, IconEntry), usize)>)
    requires
        p <= s@.len(),
    ensures
        match r {
            Some(v) => dec_entry_s(s@, p as int) == Some((((v.0).0@, (v.0).1@), v.1 as int)) && p
                < v.1 <= s@.len(),
            None => dec_entry_s(s@, p as int) is None,
        },
{
    let name = match parse_str(s, p) {
        None => {
            return None;
        },
        Some(v) => v,
    };
    let path = match parse_str(s, name.1) {
        None => {
            return None;
        },
        Some(v) => v,
    };
    let size = match parse_num_t(s, path.1, ';') {
        None => {
            return None;
        },
        Some(v) => v,
    };
    if size.0 > u32::MAX as u64 {
        return None;
    }
    let svg = match parse_bool(s, size.1) {
        None => {
            return None;
        },
        Some(v) => v,
    };
    let pri = match parse_num_t(s, svg.1, ';') {
        None => {
            return None;
        },
        Some(v) => v,
    };
    if pri.0 > usize::MAX as u64 {
        return None;
    }
    let e = IconEntry {
        path: path.0,
        size: size.0 as u32,
        is_svg: svg.0,
        theme_priority: pri.0 as usize,
    };
    Some(((name.0, e), pri.1))
}

/// Reads a record back from the on-disk form; any malformed text is
/// rejected whole.  When several entries carry one name the last wins,
/// as the mapping is rebuilt by rebinding.
#[verifier::loop_isolation(false)]
pub fn decode_record(s: &str) -> (r: Option<PersistentCache>)
    ensures
        match r {
            Some(rec) => {
                &&& dec_record_s(s@) is Some
                &&& rec@.metadata == dec_record_s(s@).unwrap().metadata
                &&& rec@.icons == set_fold_s(
                    Seq::<(Seq<char>, EntryV)>::empty(),
                    dec_record_s(s@).unwrap().icons,
                )
                &&& rec.icons.wf()
            },
            None => dec_record_s(s@) is None,
        },
{
    let n = s.unicode_len();
    let ver = match parse_num_t(s, 0, ';') {
        None => {
            return None;
        },
        Some(v) => v,
    };
    if ver.0 > u32::MAX as u64 {
        return None;
    }
    let theme = match parse_str(s, ver.1) {
        None => {
            return None;
        },
        Some(v) => v,
    };
    let base = match parse_str(s, theme.1) {
        None => {
            return None;
        },
        Some(v) => v,
    };
    let nadd = match parse_num_t(s, base.1, ';') {
        None => {
            return None;
        },
        Some(v) => v,
    };
    if nadd.0 > usize::MAX as u64 {
        return None;
    }
    let nadd_u = nadd.0 as usize;

    // the additional search roots
    let mut paths: Vec<String> = Vec::new();
    let mut p: usize = nadd.1;
    let mut i: usize = 0;
    while i < nadd_u
        invariant
            n == s@.len(),
            i <= nadd_u,
            p <= n,
            match dec_strs_s(s@, p as int, (nadd_u - i) as nat) {
                Some(v) => dec_strs_s(s@, nadd.1 as int, nadd_u as nat) == Some(
                    (paths.deep_view() + v.0, v.1),
                ),
                None => dec_strs_s(s@, nadd.1 as int, nadd_u as nat) is None,
            },
        decreases nadd_u - i,
    {
        match parse_str(s, p) {
            None => {
                return None;
            },
            Some(v) => {
                let ghost pre = paths.deep_view();
                proof {
                    assert(dec_str_s(s@, p as int) == Some((v.0@, v.1 as int)));
                }
                paths.push(v.0);
                proof {
                    assert(paths.deep_view() =~~= pre.push(dec_str_s(
                        s@,
                        p as int,
                    ).unwrap().0));
                    assert forall|l2: Seq<Seq<char>>| true implies pre + (seq![
                        dec_str_s(s@, p as int).unwrap().0,
                    ] + l2) =~~= paths.deep_view() + l2 by {}
                }
                p = v.1;
            },
        }
        i += 1;
    }
    proof {
        assert(paths.deep_view() + Seq::<Seq<char>>::empty() =~~= paths.deep_view());
    }

    let time = match parse_num_t(s, p, ';') {
        None => {
            return None;
        },
        Some(v) => v,
    };
    let count = match parse_num_t(s, time.1, ';') {
        None => {
            return None;
        },
        Some(v) => v,
    };
    if count.0 > usize::MAX as u64 {
        return None;
    }
    let nicons = match parse_num_t(s, count.1, ';') {
        None => {
            return None;
        },
        Some(v) => v,
    };
    if nicons.0 > usize::MAX as u64 {
        return None;
    }
    let nicons_u = nicons.0 as usize;

    // the mapping entries
    let mut map = IconMap::new();
    let ghost mut done: Seq<(Seq<char>, EntryV)> = Seq::empty();
    let mut p2: usize = nicons.1;
    let mut k: usize = 0;
    proof {
        assert(set_fold_s(Seq::<(Seq<char>, EntryV)>::empty(), done) =~~= map@);
    }
    while k < nicons_u
        invariant
            n == s@.len(),
            k <= nicons_u,
            p2 <= n,
            map.wf(),
            map@ == set_fold_s(Seq::<(Seq<char>, EntryV)>::empty(), done),
            match dec_entries_s(s@, p2 as int, (nicons_u - k) as nat) {
                Some(v) => dec_entries_s(s@, nicons.1 as int, nicons_u as nat) == Some(
                    (done + v.0, v.1),
                ),
                None => dec_entries_s(s@, nicons.1 as int, nicons_u as nat) is None,
            },
        decreases nicons_u - k,
    {
        match parse_entry(s, p2) {
            None => {
                return None;
            },
            Some(v) => {
                let (pair, pnext) = v;
                let (name, e) = pair;
                let ghost x: (Seq<char>, EntryV) = (name@, e@);
                proof {
                    assert(dec_entry_s(s@, p2 as int) == Some((x, pnext as int)));
                    lemma_set_fold_push(Seq::<(Seq<char>, EntryV)>::empty(), done, x);
                    assert forall|l2: Seq<(Seq<char>, EntryV)>| true implies done + (seq![x]
                        + l2) =~~= done.push(x) + l2 by {}
                }
                map.set(name, e);
                proof {
                    done = done.push(x);
                }
                p2 = pnext;
            },
        }
        k += 1;
    }
    proof {
        assert(done + Seq::<(Seq<char>, EntryV)>::empty() =~~= done);
    }
    if p2 != n {
        return None;
    }

    let md = CacheMetadata {
        cache_version: ver.0 as u32,
        theme: theme.0,
        base_path: base.0,
        additional_paths: paths,
        cache_time: time.0,
        icon_count: count.0 as usize,
    };
    let rec = PersistentCache { metadata: md, icons: map };
    proof {
        assert(dec_record_s(s@) is Some);
        assert(rec@.metadata == dec_record_s(s@).unwrap().metadata);
        assert(dec_record_s(s@).unwrap().icons == done);
    }
    Some(rec)
}

/// Folding one more binding at the end rebinds it over the fold of the
/// rest.
proof fn lemma_set_fold_push(
    m: Seq<(Seq<char>, EntryV)>,
    a: Seq<(Seq<char>, EntryV)>,
    x: (Seq<char>, EntryV),
)
    ensures
        set_fold_s(m, a.push(x)) == set_one_s(set_fold_s(m, a), x.0, x.1),
    decreases a.len(),
{
    if a.len() == 0 {
        assert(a.push(x)[0] == x);
        assert(a.push(x).skip(1) =~= Seq::<(Seq<char>, EntryV)>::empty());
        assert(set_fold_s(m, a) == m);
        assert(set_fold_s(set_one_s(m, x.0, x.1), a.push(x).skip(1)) == set_one_s(m, x.0, x.1));
    } else {
        assert(a.push(x)[0] == a[0]);
        assert(a.push(x).skip(1) =~= a.skip(1).push(x));
        lemma_set_fold_push(set_one_s(m, a[0].0, a[0].1), a.skip(1), x);
    }
}

// ------------------------------------------------------------------
// the round trip
// ------------------------------------------------------------------

proof fn lemma_dec_num_frame(pre: Seq<char>, v: u64, t: char, post: Seq<char>)
    requires
        !is_digit(t),
    ensures
        dec_num_t(pre + (dec_rep(v as nat) + seq![t]) + post, pre.len() as int, t) == Some(
            (v as nat, pre.len() + dec_rep(v as nat).len() + 1int),
        ),
{
    let d = dec_rep(v as nat);
    let s = pre + (d + seq![t]) + post;
    let p = pre.len() as int;
    let q = p + d.len();
    lemma_dec_val_rep(v as nat);
    assert(forall|j: int| p <= j < q ==> s[j] == d[j - p]);
    assert(forall|j: int| p <= j < q ==> is_digit(s[j]));
    assert(s[q] == t);
    lemma_digit_run_at(s, p, q);
    assert(s.subrange(p, q) =~= d);
}

proof fn lemma_dec_str_frame(pre: Seq<char>, x: Seq<char>, post: Seq<char>)
    requires
        x.len() <= u64::MAX,
    ensures
        dec_str_s(pre + enc_str_s(x) + post, pre.len() as int) == Some(
            (x, (pre.len() + enc_str_s(x).len()) as int),
        ),
{
    let v = x.len() as u64;
    let s = pre + enc_str_s(x) + post;
    assert(':' as u32 == 58);
    assert(!is_digit(':'));
    assert(s =~= pre + (dec_rep(v as nat) + seq![':']) + (x + post));
    lemma_dec_num_frame(pre, v, ':', x + post);
    let p2 = (pre.len() + dec_rep(v as nat).len() + 1) as int;
    assert(s.subrange(p2, p2 + x.len() as int) =~= x);
}

proof fn lemma_dec_bool_frame(pre: Seq<char>, b: bool, post: Seq<char>)
    ensures
        dec_bool_s(pre + enc_bool_s(b) + post, pre.len() as int) == Some((b, pre.len() + 1int)),
{
    let s = pre + enc_bool_s(b) + post;
    assert(s[pre.len() as int] == if b {
        'T'
    } else {
        'F'
    });
}

/// All string lengths in a list fit the length prefix.
pub open spec fn bounded_strs(l: Seq<Seq<char>>) -> bool {
    forall|i: int| 0 <= i < l.len() ==> #[trigger] l[i].len() <= u64::MAX
}

proof fn lemma_dec_strs_frame(pre: Seq<char>, l: Seq<Seq<char>>, post: Seq<char>)
    requires
        bounded_strs(l),
    ensures
        dec_strs_s(pre + enc_strs_s(l) + post, pre.len() as int, l.len()) == Some(
            (l, (pre.len() + enc_strs_s(l).len()) as int),
        ),
    decreases l.len(),
{
    let s = pre + enc_strs_s(l) + post;
    if l.len() == 0 {
        assert(s =~= pre + post);
        assert(l =~= Seq::<Seq<char>>::empty());
        assert(dec_strs_s(s, pre.len() as int, 0) == Some(
            (Seq::<Seq<char>>::empty(), pre.len() as int),
        ));
    } else {
        assert(s =~= pre + enc_str_s(l[0]) + (enc_strs_s(l.skip(1)) + post));
        lemma_dec_str_frame(pre, l[0], enc_strs_s(l.skip(1)) + post);
        let pre2 = pre + enc_str_s(l[0]);
        assert(s =~= pre2 + enc_strs_s(l.skip(1)) + post);
        assert(bounded_strs(l.skip(1))) by {
            assert forall|i: int|
                0 <= i < l.skip(1).len() implies (#[trigger] l.skip(1)[i].len()) <= u64::MAX by {
                assert(l.skip(1)[i] == l[i + 1]);
            }
        }
        lemma_dec_strs_frame(pre2, l.skip(1), post);
        assert(seq![l[0]] + l.skip(1) =~~= l);
        assert(enc_strs_s(l) =~= enc_str_s(l[0]) + enc_strs_s(l.skip(1)));
    }
}

#[verifier::rlimit(100)]
proof fn lemma_dec_entry_frame(pre: Seq<char>, x: (Seq<char>, EntryV), post: Seq<char>)
    requires
        x.0.len() <= u64::MAX,
        x.1.path.len() <= u64::MAX,
    ensures
        dec_entry_s(pre + enc_entry_s(x) + post, pre.len() as int) == Some(
            (x, (pre.len() + enc_entry_s(x).len()) as int),
        ),
{
    let s = pre + enc_entry_s(x) + post;
    let e1 = enc_str_s(x.0);
    let e2 = enc_str_s(x.1.path);
    let e3 = enc_num_s(x.1.size as nat);
    let e4 = enc_bool_s(x.1.is_svg);
    let e5 = enc_num_s(x.1.theme_priority as nat);
    assert(enc_entry_s(x) =~= e1 + e2 + e3 + e4 + e5);

    assert(s =~= pre + e1 + (e2 + e3 + e4 + e5 + post));
    lemma_dec_str_frame(pre, x.0, e2 + e3 + e4 + e5 + post);
    let p1 = pre + e1;
    assert(s =~= p1 + e2 + (e3 + e4 + e5 + post));
    lemma_dec_str_frame(p1, x.1.path, e3 + e4 + e5 + post);
    let p2 = p1 + e2;
    let vs = x.1.size as u64;
    assert(e3 =~= dec_rep(vs as nat) + seq![';']);
    assert(';' as u32 == 59);
    assert(!is_digit(';'));
    assert(s =~= p2 + (dec_rep(vs as nat) + seq![';']) + (e4 + e5 + post));
    lemma_dec_num_frame(p2, vs, ';', e4 + e5 + post);
    let p3 = p2 + e3;
    assert(s =~= p3 + e4 + (e5 + post));
    lemma_dec_bool_frame(p3, x.1.is_svg, e5 + post);
    let p4 = p3 + e4;
    let vp = x.1.theme_priority as u64;
    assert(e5 =~= dec_rep(vp as nat) + seq![';']);
    assert(s =~= p4 + (dec_rep(vp as nat) + seq![';']) + post);
    lemma_dec_num_frame(p4, vp, ';', post);
    assert(p1.len() == pre.len() + e1.len());
    assert(dec_entry_s(s, pre.len() as int) == Some((x, (pre.len() + enc_entry_s(x).len()) as int)));
}

/// All name and path lengths in a mapping fit the length prefix.
pub open spec fn bounded_entries(l: Seq<(Seq<char>, EntryV)>) -> bool {
    forall|i: int|
        0 <= i < l.len() ==> (#[trigger] l[i].0.len()) <= u64::MAX && l[i].1.path.len()
            <= u64::MAX
}

proof fn lemma_dec_entries_frame(pre: Seq<char>, l: Seq<(Seq<char>, EntryV)>, post: Seq<char>)
    requires
        bounded_entries(l),
    ensures
        dec_entries_s(pre + enc_entries_s(l) + post, pre.len() as int, l.len()) == Some(
            (l, (pre.len() + enc_entries_s(l).len()) as int),
        ),
    decreases l.len(),
{
    let s = pre + enc_entries_s(l) + post;
    if l.len() == 0 {
        assert(s =~= pre + post);
        assert(l =~= Seq::<(Seq<char>, EntryV)>::empty());
    } else {
        assert(s =~= pre + enc_entry_s(l[0]) + (enc_entries_s(l.skip(1)) + post));
        lemma_dec_entry_frame(pre, l[0], enc_entries_s(l.skip(1)) + post);
        let pre2 = pre + enc_entry_s(l[0]);
        assert(s =~= pre2 + enc_entries_s(l.skip(1)) + post);
        assert(bounded_entries(l.skip(1))) by {
            assert forall|i: int|
                0 <= i < l.skip(1).len() implies (#[trigger] l.skip(1)[i].0.len()) <= u64::MAX
                && l.skip(1)[i].1.path.len() <= u64::MAX by {
                assert(l.skip(1)[i] == l[i + 1]);
            }
        }
        lemma_dec_entries_frame(pre2, l.skip(1), post);
        assert(seq![l[0]] + l.skip(1) =~~= l);
        assert(enc_entries_s(l) =~= enc_entry_s(l[0]) + enc_entries_s(l.skip(1)));
    }
}

/// A record every one of whose strings fits the length prefix and whose
/// list lengths fit the machine.  Every record built from executable
/// values is bounded.
pub open spec fn bounded_record(r: RecordV) -> bool {
    &&& r.metadata.theme.len() <= u64::MAX
    &&& r.metadata.base_path.len() <= u64::MAX
    &&& r.metadata.additional_paths.len() <= usize::MAX
    &&& bounded_strs(r.metadata.additional_paths)
    &&& r.icons.len() <= usize::MAX
    &&& bounded_entries(r.icons)
}

#[verifier::rlimit(100)]
#[verifier::spinoff_prover]
proof fn lemma_decode_encode_head(r: RecordV, s: Seq<char>)
    requires
        bounded_record(r),
        s == enc_record_s(r),
    ensures
        ({
            let m = r.metadata;
            let e1 = enc_num_s(m.cache_version as nat);
            let e2 = enc_str_s(m.theme);
            let e3 = enc_str_s(m.base_path);
            let e4 = enc_num_s(m.additional_paths.len());
            &&& dec_num_t(s, 0, ';') == Some((m.cache_version as nat, e1.len() as int))
            &&& dec_str_s(s, e1.len() as int) == Some((m.theme, (e1 + e2).len() as int))
            &&& dec_str_s(s, (e1 + e2).len() as int) == Some(
                (m.base_path, (e1 + e2 + e3).len() as int),
            )
            &&& dec_num_t(s, (e1 + e2 + e3).len() as int, ';') == Some(
                (m.additional_paths.len(), (e1 + e2 + e3 + e4).len() as int),
            )
        }),
{
    let m = r.metadata;
    let e1 = enc_num_s(m.cache_version as nat);
    let e2 = enc_str_s(m.theme);
    let e3 = enc_str_s(m.base_path);
    let e4 = enc_num_s(m.additional_paths.len());
    let e5 = enc_strs_s(m.additional_paths);
    let e6 = enc_num_s(m.cache_time as nat);
    let e7 = enc_num_s(m.icon_count as nat);
    let e8 = enc_num_s(r.icons.len());
    let e9 = enc_entries_s(r.icons);
    assert(';' as u32 == 59);
    assert(!is_digit(';'));

    let v1 = m.cache_version as u64;
    assert(e1 =~= dec_rep(v1 as nat) + seq![';']);
    assert(s =~= Seq::<char>::empty() + (dec_rep(v1 as nat) + seq![';']) + (e2 + e3 + e4 + e5
        + e6 + e7 + e8 + e9));
    lemma_dec_num_frame(Seq::empty(), v1, ';', e2 + e3 + e4 + e5 + e6 + e7 + e8 + e9);
    let p1 = e1;

    assert(s =~= p1 + e2 + (e3 + e4 + e5 + e6 + e7 + e8 + e9));
    lemma_dec_str_frame(p1, m.theme, e3 + e4 + e5 + e6 + e7 + e8 + e9);
    let p2 = p1 + e2;

    assert(s =~= p2 + e3 + (e4 + e5 + e6 + e7 + e8 + e9));
    lemma_dec_str_frame(p2, m.base_path, e4 + e5 + e6 + e7 + e8 + e9);
    let p3 = p2 + e3;

    let v4 = m.additional_paths.len() as u64;
    assert(e4 =~= dec_rep(v4 as nat) + seq![';']);
    assert(s =~= p3 + (dec_rep(v4 as nat) + seq![';']) + (e5 + e6 + e7 + e8 + e9));
    lemma_dec_num_frame(p3, v4, ';', e5 + e6 + e7 + e8 + e9);
}

#[verifier::rlimit(100)]
#[verifier::spinoff_prover]
proof fn lemma_decode_encode_tail(r: RecordV, s: Seq<char>)
    requires
        bounded_record(r),
        s == enc_record_s(r),
    ensures
        ({
            let m = r.metadata;
            let e1 = enc_num_s(m.cache_version as nat);
            let e2 = enc_str_s(m.theme);
            let e3 = enc_str_s(m.base_path);
            let e4 = enc_num_s(m.additional_paths.len());
            let e5 = enc_strs_s(m.additional_paths);
            let e6 = enc_num_s(m.cache_time as nat);
            let e7 = enc_num_s(m.icon_count as nat);
            let e8 = enc_num_s(r.icons.len());
            let p4 = e1 + e2 + e3 + e4;
            let p5 = p4 + e5;
            let p6 = p5 + e6;
            let p7 = p6 + e7;
            let p8 = p7 + e8;
            &&& dec_strs_s(s, p4.len() as int, m.additional_paths.len()) == Some(
                (m.additional_paths, p5.len() as int),
            )
            &&& dec_num_t(s, p5.len() as int, ';') == Some(
                (m.cache_time as nat, p6.len() as int),
            )
            &&& dec_num_t(s, p6.len() as int, ';') == Some(
                (m.icon_count as nat, p7.len() as int),
            )
            &&& dec_num_t(s, p7.len() as int, ';') == Some((r.icons.len(), p8.len() as int))
            &&& dec_entries_s(s, p8.len() as int, r.icons.len()) == Some(
                (r.icons, s.len() as int),
            )
        }),
{
    let m = r.metadata;
    let e1 = enc_num_s(m.cache_version as nat);
    let e2 = enc_str_s(m.theme);
    let e3 = enc_str_s(m.base_path);
    let e4 = enc_num_s(m.additional_paths.len());
    let e5 = enc_strs_s(m.additional_paths);
    let e6 = enc_num_s(m.cache_time as nat);
    let e7 = enc_num_s(m.icon_count as nat);
    let e8 = enc_num_s(r.icons.len());
    let e9 = enc_entries_s(r.icons);
    let p4 = e1 + e2 + e3 + e4;
    assert(';' as u32 == 59);
    assert(!is_digit(';'));

    assert(s =~= p4 + e5 + (e6 + e7 + e8 + e9));
    lemma_dec_strs_frame(p4, m.additional_paths, e6 + e7 + e8 + e9);
    let p5 = p4 + e5;

    let v6 = m.cache_time;
    assert(e6 =~= dec_rep(v6 as nat) + seq![';']);
    assert(s =~= p5 + (dec_rep(v6 as nat) + seq![';']) + (e7 + e8 + e9));
    lemma_dec_num_frame(p5, v6, ';', e7 + e8 + e9);
    let p6 = p5 + e6;

    let v7 = m.icon_count as u64;
    assert(e7 =~= dec_rep(v7 as nat) + seq![';']);
    assert(s =~= p6 + (dec_rep(v7 as nat) + seq![';']) + (e8 + e9));
    lemma_dec_num_frame(p6, v7, ';', e8 + e9);
    let p7 = p6 + e7;

    let v8 = r.icons.len() as u64;
    assert(e8 =~= dec_rep(v8 as nat) + seq![';']);
    assert(s =~= p7 + (dec_rep(v8 as nat) + seq![';']) + e9);
    lemma_dec_num_frame(p7, v8, ';', e9);
    let p8 = p7 + e8;

    assert(s =~= p8 + e9 + Seq::<char>::empty());
    lemma_dec_entries_frame(p8, r.icons, Seq::empty());
    assert(p8.len() + e9.len() == s.len());
}

/// Decoding an encoded record yields the record back, exactly.
#[verifier::rlimit(100)]
#[verifier::spinoff_prover]
pub proof fn lemma_decode_encode(r: RecordV)
    requires
        bounded_record(r),
    ensures
        dec_record_s(enc_record_s(r)) == Some(r),
{
    let s = enc_record_s(r);
    lemma_decode_encode_head(r, s);
    lemma_decode_encode_tail(r, s);
    assert(dec_record_s(s) is Some);
    assert(dec_record_s(s).unwrap() == r);
}

/// Key distinctness of a decoded entry list.
pub open spec fn entries_distinct(l: Seq<(Seq<char>, EntryV)>) -> bool {
    forall|i: int, j: int| 0 <= i < j < l.len() ==> l[i].0 != l[j].0
}

proof fn lemma_set_fold_fresh(m: Seq<(Seq<char>, EntryV)>, raw: Seq<(Seq<char>, EntryV)>)
    requires
        entries_distinct(raw),
        forall|i: int| 0 <= i < raw.len() ==> !map_has(m, #[trigger] raw[i].0),
    ensures
        set_fold_s(m, raw) == m + raw,
    decreases raw.len(),
{
    if raw.len() == 0 {
        assert(m + raw =~= m);
    } else {
        assert(!map_has(m, raw[0].0));
        let m2 = m.push(raw[0]);
        assert(set_one_s(m, raw[0].0, raw[0].1) == m2);
        assert(entries_distinct(raw.skip(1)));
        assert forall|i: int| 0 <= i < raw.skip(1).len() implies !map_has(
            m2,
            #[trigger] raw.skip(1)[i].0,
        ) by {
            assert(raw.skip(1)[i] == raw[i + 1]);
            if map_has(m2, raw[i + 1].0) {
                let j = choose|j: int| 0 <= j < m2.len() && m2[j].0 == raw[i + 1].0;
                if j < m.len() {
                    assert(m[j] == m2[j]);
                    assert(map_has(m, raw[i + 1].0));
                } else {
                    assert(m2[j] == raw[0]);
                    assert(raw[0].0 != raw[i + 1].0);
                }
            }
        }
        lemma_set_fold_fresh(m2, raw.skip(1), );
        assert(m2 + raw.skip(1) =~= m + raw);
    }
}

/// Rebuilding a duplicate-free entry list by rebinding reproduces it.
pub proof fn lemma_set_fold_distinct(raw: Seq<(Seq<char>, EntryV)>)
    requires
        entries_distinct(raw),
    ensures
        set_fold_s(Seq::<(Seq<char>, EntryV)>::empty(), raw) == raw,
{
    lemma_set_fold_fresh(Seq::empty(), raw);
    assert(Seq::<(Seq<char>, EntryV)>::empty() + raw =~= raw);
}

/// An unchanged filesystem scans to the same candidates, and building
/// the cache from the same candidates yields byte-for-byte identical
/// persisted mapping content: a rebuild's result is the fold of the
/// scan results over an empty mapping and depends on nothing else.
pub proof fn lemma_rebuild_identical(
    batch1: Seq<(Seq<char>, EntryV)>,
    batch2: Seq<(Seq<char>, EntryV)>,
)
    requires
        batch1 == batch2,
    ensures
        enc_entries_s(merge_fold_s(Seq::<(Seq<char>, EntryV)>::empty(), batch1))
            == enc_entries_s(merge_fold_s(Seq::<(Seq<char>, EntryV)>::empty(), batch2)),
{
}

/// Saving and loading round-trips: an encoded record decodes back to
/// itself, its mapping rebuilds unchanged, and the loaded record is
/// accepted as valid against the configuration it was built from
/// whenever the theme descriptor is not newer than its build time.
pub proof fn lemma_save_load_round_trip(r: RecordV, theme_mtime: Option<u64>)
    requires
        bounded_record(r),
        entries_distinct(r.icons),
        r.metadata.cache_version == CACHE_VERSION,
        match theme_mtime {
            Some(t) => t <= r.metadata.cache_time,
            None => true,
        },
    ensures
        dec_record_s(enc_record_s(r)) == Some(r),
        set_fold_s(Seq::<(Seq<char>, EntryV)>::empty(), r.icons) == r.icons,
        valid_s(
            r.metadata,
            r.metadata.theme,
            r.metadata.base_path,
            r.metadata.additional_paths,
            theme_mtime,
        ),
{
    lemma_decode_encode(r);
    lemma_set_fold_distinct(r.icons);
}

/// The mapping built from decoded entries, later bindings replacing
/// earlier ones of the same name.
pub open spec fn set_fold_s(
    m: Seq<(Seq<char>, EntryV)>,
    raw: Seq<(Seq<char>, EntryV)>,
) -> Seq<(Seq<char>, EntryV)>
    decreases raw.len(),
{
    if raw.len() == 0 {
        m
    } else {
        set_fold_s(set_one_s(m, raw[0].0, raw[0].1), raw.skip(1))
    }
}

} // verus!
