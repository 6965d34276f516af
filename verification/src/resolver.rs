//! The resolver facade: owns the cache mapping and the configuration,
//! folds scan results into the mapping, and answers lookups with
//! absolute-path short-circuiting and the name-variation ladder.

use vstd::prelude::*;
use vstd::string::*;
use crate::entry::{IconEntry, EntryV, better_s, is_better};
use crate::icon_map::{IconMap, map_has, map_get, merge_one_s};
use crate::text::{str_eq, lower, lower_s, replace_s, replace_char, capitalize_s,
    capitalize_first, contains_char, has_char, contains_seq, lex_lt, split_set, split_set_s,
    split_nonempty, drop_empties_s, lemma_split_set_nonempty, push_char};

verus! {

/// The resolver: the serving mapping plus the configuration it was
/// resolved from.  The embedding program reads directories and files and
/// hands their contents in; everything decided here is pure.
pub struct IconResolver {
    pub cache: IconMap,
    pub base_path: String,
    pub additional_paths: Vec<String>,
    pub theme: String,
}

/// The mapping after a batch of scanned candidates is folded in, first
/// candidate first.
pub open spec fn merge_fold_s(
    m: Seq<(Seq<char>, EntryV)>,
    batch: Seq<(Seq<char>, EntryV)>,
) -> Seq<(Seq<char>, EntryV)>
    decreases batch.len(),
{
    if batch.len() == 0 {
        m
    } else {
        merge_fold_s(merge_one_s(m, batch[0].0, batch[0].1), batch.skip(1))
    }
}

/// Folding one more candidate at the end merges it into the fold of the
/// rest.
pub proof fn lemma_fold_push(
    m: Seq<(Seq<char>, EntryV)>,
    a: Seq<(Seq<char>, EntryV)>,
    x: (Seq<char>, EntryV),
)
    ensures
        merge_fold_s(m, a.push(x)) == merge_one_s(merge_fold_s(m, a), x.0, x.1),
    decreases a.len(),
{
    if a.len() == 0 {
        assert(a.push(x)[0] == x);
        assert(a.push(x).skip(1) =~= Seq::<(Seq<char>, EntryV)>::empty());
        assert(merge_fold_s(m, a) == m);
        assert(merge_fold_s(merge_one_s(m, x.0, x.1), a.push(x).skip(1)) == merge_one_s(
            m,
            x.0,
            x.1,
        ));
    } else {
        assert(a.push(x)[0] == a[0]);
        assert(a.push(x).skip(1) =~= a.skip(1).push(x));
        lemma_fold_push(merge_one_s(m, a[0].0, a[0].1), a.skip(1), x);
    }
}

/// The delimiters on which a compound window-class name is split.
pub open spec fn delim_set_s() -> Seq<char> {
    seq![' ', '*', '-', '_']
}

/// The variation ladder: the first transformed name bound in the
/// mapping, tried in this fixed order.
pub open spec fn variations_s(m: Seq<(Seq<char>, EntryV)>, n: Seq<char>) -> Option<Seq<char>> {
    let v1 = n + "-browser"@;
    let v2 = n + "-client"@;
    let v3 = "preferences-"@ + n;
    let v4 = "utilities-"@ + n;
    let v5 = "accessories-"@ + n;
    let lo = lower_s(n);
    if map_has(m, v1) {
        Some(v1)
    } else if map_has(m, v2) {
        Some(v2)
    } else if map_has(m, v3) {
        Some(v3)
    } else if map_has(m, v4) {
        Some(v4)
    } else if map_has(m, v5) {
        Some(v5)
    } else if lo != n && map_has(m, lo) {
        Some(lo)
    } else {
        variations_rd_s(m, n)
    }
}

/// The reverse-domain rung and those after it.
pub open spec fn variations_rd_s(m: Seq<(Seq<char>, EntryV)>, n: Seq<char>) -> Option<
    Seq<char>,
> {
    let rd = split_set_s(n, seq!['.']).last();
    let rdl = lower_s(rd);
    if has_char(n, '.') && rd != n && map_has(m, rd) {
        Some(rd)
    } else if has_char(n, '.') && rdl != n && map_has(m, rdl) {
        Some(rdl)
    } else {
        variations_sep_s(m, n)
    }
}

/// The separator-substitution rungs and those after them.
pub open spec fn variations_sep_s(m: Seq<(Seq<char>, EntryV)>, n: Seq<char>) -> Option<
    Seq<char>,
> {
    let sp = replace_s(lower_s(n), ' ', '-');
    let hy = replace_s(n, '-', '_');
    let hyl = replace_s(lower_s(n), '-', '_');
    let un = replace_s(n, '_', '-');
    let unl = replace_s(lower_s(n), '_', '-');
    if has_char(n, ' ') && sp != n && map_has(m, sp) {
        Some(sp)
    } else if has_char(n, '-') && map_has(m, hy) {
        Some(hy)
    } else if has_char(n, '-') && hyl != n && map_has(m, hyl) {
        Some(hyl)
    } else if has_char(n, '_') && map_has(m, un) {
        Some(un)
    } else if has_char(n, '_') && unl != n && map_has(m, unl) {
        Some(unl)
    } else {
        variations_org_s(m, n)
    }
}

/// The final reverse-domain-identifier guesses.
pub open spec fn variations_org_s(m: Seq<(Seq<char>, EntryV)>, n: Seq<char>) -> Option<
    Seq<char>,
> {
    let o1 = "org."@ + n + seq!['.'] + capitalize_s(n);
    let o2 = "org."@ + n + seq!['.'] + n;
    let o3 = "org."@ + n;
    if n.len() > 0 && map_has(m, o1) {
        Some(o1)
    } else if n.len() > 0 && map_has(m, o2) {
        Some(o2)
    } else if n.len() > 0 && map_has(m, o3) {
        Some(o3)
    } else {
        None
    }
}

/// The path of the entry bound to `k`, when `k` names one.
pub open spec fn path_of(m: Seq<(Seq<char>, EntryV)>, k: Seq<char>) -> Seq<char> {
    match map_get(m, k) {
        Some(e) => e.path,
        None => Seq::empty(),
    }
}

/// The direct lookup: the exact-name hit and the variation hit weighed
/// against each other by the one merge comparator.
pub open spec fn direct_lookup_s(m: Seq<(Seq<char>, EntryV)>, n: Seq<char>) -> Seq<char> {
    let exact = map_get(m, n);
    let var = match variations_s(m, n) {
        Some(v) => map_get(m, v),
        None => None,
    };
    match exact {
        Some(e) => match var {
            Some(ve) => if better_s(ve, e) {
                ve.path
            } else {
                e.path
            },
            None => e.path,
        },
        None => match var {
            Some(ve) => ve.path,
            None => Seq::empty(),
        },
    }
}

/// The base-token lookup tried for compound names: exact, lowercased,
/// then the variation ladder on both forms; empty when all miss.
pub open spec fn base_token_s(m: Seq<(Seq<char>, EntryV)>, fp: Seq<char>) -> Seq<char> {
    let fpl = lower_s(fp);
    if map_has(m, fp) {
        path_of(m, fp)
    } else if map_has(m, fpl) {
        path_of(m, fpl)
    } else {
        match variations_s(m, fp) {
            Some(v) => if map_has(m, v) {
                path_of(m, v)
            } else {
                base_token_lower_s(m, fpl)
            },
            None => base_token_lower_s(m, fpl),
        }
    }
}

pub open spec fn base_token_lower_s(m: Seq<(Seq<char>, EntryV)>, fpl: Seq<char>) -> Seq<
    char,
> {
    match variations_s(m, fpl) {
        Some(v) => if map_has(m, v) {
            path_of(m, v)
        } else {
            Seq::empty()
        },
        None => Seq::empty(),
    }
}

/// What `resolve` returns: an absolute path unchanged when it names an
/// existing file and empty otherwise; for other names the base-token
/// shortcut on compound names, then the direct lookup.
pub open spec fn resolve_s(
    m: Seq<(Seq<char>, EntryV)>,
    n: Seq<char>,
    absolute_exists: bool,
) -> Seq<char> {
    if n.len() > 0 && n[0] == '/' {
        if absolute_exists {
            n
        } else {
            Seq::empty()
        }
    } else {
        let parts = drop_empties_s(split_set_s(n, delim_set_s()));
        if (has_char(n, ' ') || has_char(n, '*') || has_char(n, '-') || has_char(n, '_'))
            && parts.len() > 0 && base_token_s(m, parts[0]).len() > 0 {
            base_token_s(m, parts[0])
        } else {
            direct_lookup_s(m, n)
        }
    }
}

/// A nonempty resolution is never fabricated: it is the queried name
/// itself, for an absolute path found to exist, or the path of an entry
/// bound in the mapping.
pub proof fn lemma_resolve_sound(m: Seq<(Seq<char>, EntryV)>, n: Seq<char>, ae: bool)
    requires
        resolve_s(m, n, ae).len() > 0,
    ensures
        (n.len() > 0 && n[0] == '/' && ae && resolve_s(m, n, ae) == n) || (exists|k: Seq<char>|
            map_has(m, k) && #[trigger] map_get(m, k).unwrap().path == resolve_s(m, n, ae)),
{
    let r = resolve_s(m, n, ae);
    if n.len() > 0 && n[0] == '/' {
    } else {
        let parts = drop_empties_s(split_set_s(n, delim_set_s()));
        if (has_char(n, ' ') || has_char(n, '*') || has_char(n, '-') || has_char(n, '_'))
            && parts.len() > 0 && base_token_s(m, parts[0]).len() > 0 {
            lemma_base_token_sound(m, parts[0]);
        } else {
            lemma_direct_lookup_sound(m, n);
        }
    }
}

proof fn lemma_path_of_sound(m: Seq<(Seq<char>, EntryV)>, k: Seq<char>)
    requires
        map_has(m, k),
    ensures
        map_get(m, k).unwrap().path == path_of(m, k),
{
}

proof fn lemma_base_token_sound(m: Seq<(Seq<char>, EntryV)>, fp: Seq<char>)
    requires
        base_token_s(m, fp).len() > 0,
    ensures
        exists|k: Seq<char>| map_has(m, k) && #[trigger] map_get(m, k).unwrap().path
            == base_token_s(m, fp),
{
    let fpl = lower_s(fp);
    if map_has(m, fp) {
        lemma_path_of_sound(m, fp);
    } else if map_has(m, fpl) {
        lemma_path_of_sound(m, fpl);
    } else {
        match variations_s(m, fp) {
            Some(v) => {
                if map_has(m, v) {
                    lemma_path_of_sound(m, v);
                } else {
                    lemma_base_token_lower_sound(m, fpl);
                }
            },
            None => {
                lemma_base_token_lower_sound(m, fpl);
            },
        }
    }
}

proof fn lemma_base_token_lower_sound(m: Seq<(Seq<char>, EntryV)>, fpl: Seq<char>)
    requires
        base_token_lower_s(m, fpl).len() > 0,
    ensures
        exists|k: Seq<char>| map_has(m, k) && #[trigger] map_get(m, k).unwrap().path
            == base_token_lower_s(m, fpl),
{
    match variations_s(m, fpl) {
        Some(v) => {
            if map_has(m, v) {
                lemma_path_of_sound(m, v);
            }
        },
        None => {},
    }
}

proof fn lemma_direct_lookup_sound(m: Seq<(Seq<char>, EntryV)>, n: Seq<char>)
    requires
        direct_lookup_s(m, n).len() > 0,
    ensures
        exists|k: Seq<char>| map_has(m, k) && #[trigger] map_get(m, k).unwrap().path
            == direct_lookup_s(m, n),
{
    let r = direct_lookup_s(m, n);
    let exact = map_get(m, n);
    match variations_s(m, n) {
        Some(v) => {
            match map_get(m, v) {
                Some(ve) => {
                    match exact {
                        Some(e) => {
                            if better_s(ve, e) {
                                assert(map_get(m, v).unwrap().path == r);
                            } else {
                                assert(map_get(m, n).unwrap().path == r);
                            }
                        },
                        None => {
                            assert(map_get(m, v).unwrap().path == r);
                        },
                    }
                },
                None => {
                    assert(map_get(m, n).unwrap().path == r);
                },
            }
        },
        None => {
            assert(map_get(m, n).unwrap().path == r);
        },
    }
}

impl IconResolver {
    pub open spec fn wf(&self) -> bool {
        self.cache.wf()
    }

    /// A resolver for the given configuration, with an empty mapping.
    pub fn new(theme: String, base_path: String, additional_paths: Vec<String>) -> (r:
        IconResolver)
        ensures
            r.wf(),
            r.cache@ == Seq::<(Seq<char>, EntryV)>::empty(),
            r.theme == theme,
            r.base_path == base_path,
            r.additional_paths == additional_paths,
    {
        IconResolver { cache: IconMap::new(), base_path, additional_paths, theme }
    }

    /// Replaces the mapping with the fold of the scanned candidates over
    /// an empty mapping: the result depends on the scan results alone,
    /// never on what the mapping held before.
    pub fn build_cache(&mut self, scanned: &Vec<(String, IconEntry)>)
        requires
            old(self).wf(),
        ensures
            final(self).wf(),
            final(self).cache@ == merge_fold_s(
                Seq::<(Seq<char>, EntryV)>::empty(),
                scanned.deep_view(),
            ),
            final(self).theme == old(self).theme,
            final(self).base_path == old(self).base_path,
            final(self).additional_paths == old(self).additional_paths,
    {
        let ghost sv = scanned.deep_view();
        self.cache.clear();
        let mut i: usize = 0;
        proof {
            assert(sv.take(0) =~= Seq::<(Seq<char>, EntryV)>::empty());
        }
        while i < scanned.len()
            invariant
                sv == scanned.deep_view(),
                i <= sv.len(),
                self.wf(),
                self.cache@ == merge_fold_s(
                    Seq::<(Seq<char>, EntryV)>::empty(),
                    sv.take(i as int),
                ),
                self.theme == old(self).theme,
                self.base_path == old(self).base_path,
                self.additional_paths == old(self).additional_paths,
            decreases sv.len() - i,
        {
            let name = scanned[i].0.clone();
            let e = &scanned[i].1;
            let entry = IconEntry {
                path: e.path.clone(),
                size: e.size,
                is_svg: e.is_svg,
                theme_priority: e.theme_priority,
            };
            proof {
                assert(name@ == sv[i as int].0);
                assert(entry@ == sv[i as int].1);
            }
            self.cache.merge(name, entry);
            proof {
                assert(sv.take(i + 1) =~= sv.take(i as int).push(sv[i as int]));
                lemma_fold_push(
                    Seq::<(Seq<char>, EntryV)>::empty(),
                    sv.take(i as int),
                    sv[i as int],
                );
            }
            i += 1;
        }
        proof {
            assert(sv.take(sv.len() as int) =~= sv);
        }
    }

    /// A forced rebuild: the mapping is rebuilt from the scan results and
    /// the resulting entry count returned.
    pub fn reload(&mut self, scanned: &Vec<(String, IconEntry)>) -> (r: usize)
        requires
            old(self).wf(),
        ensures
            final(self).wf(),
            final(self).cache@ == merge_fold_s(
                Seq::<(Seq<char>, EntryV)>::empty(),
                scanned.deep_view(),
            ),
            final(self).theme == old(self).theme,
            final(self).base_path == old(self).base_path,
            final(self).additional_paths == old(self).additional_paths,
            r == final(self).cache@.len(),
    {
        self.build_cache(scanned);
        self.cache.len()
    }

    /// The variation ladder, tried rung by rung; the first name the
    /// mapping binds is returned.
    pub fn try_variations(&self, name: &str) -> (r: Option<String>)
        ensures
            match r {
                Some(v) => variations_s(self.cache@, name@) == Some(v@),
                None => variations_s(self.cache@, name@) is None,
            },
    {
        let ghost m = self.cache@;
        let ghost n = name@;

        let mut v1 = name.to_owned();
        v1.append("-browser");
        if self.cache.contains_key(v1.as_str()) {
            return Some(v1);
        }
        let mut v2 = name.to_owned();
        v2.append("-client");
        if self.cache.contains_key(v2.as_str()) {
            return Some(v2);
        }
        let mut v3 = "preferences-".to_owned();
        v3.append(name);
        if self.cache.contains_key(v3.as_str()) {
            return Some(v3);
        }
        let mut v4 = "utilities-".to_owned();
        v4.append(name);
        if self.cache.contains_key(v4.as_str()) {
            return Some(v4);
        }
        let mut v5 = "accessories-".to_owned();
        v5.append(name);
        if self.cache.contains_key(v5.as_str()) {
            return Some(v5);
        }
        let lo = lower(name);
        if !str_eq(lo.as_str(), name) && self.cache.contains_key(lo.as_str()) {
            return Some(lo);
        }

        // reverse-domain rung
        if contains_char(name, '.') {
            let mut dot: Vec<char> = Vec::new();
            dot.push('.');
            proof {
                assert(dot@ =~= seq!['.']);
            }
            let ps = split_set(name, &dot);
            proof {
                lemma_split_set_nonempty(n, seq!['.']);
            }
            let rd = ps[ps.len() - 1].clone();
            proof {
                assert(rd@ == split_set_s(n, seq!['.']).last());
            }
            if !str_eq(rd.as_str(), name) && self.cache.contains_key(rd.as_str()) {
                return Some(rd);
            }
            let rdl = lower(rd.as_str());
            if !str_eq(rdl.as_str(), name) && self.cache.contains_key(rdl.as_str()) {
                return Some(rdl);
            }
        }

        // separator substitutions
        if contains_char(name, ' ') {
            let lo2 = lower(name);
            let sp = replace_char(lo2.as_str(), ' ', '-');
            if !str_eq(sp.as_str(), name) && self.cache.contains_key(sp.as_str()) {
                return Some(sp);
            }
        }
        if contains_char(name, '-') {
            let hy = replace_char(name, '-', '_');
            if self.cache.contains_key(hy.as_str()) {
                return Some(hy);
            }
            let lo2 = lower(name);
            let hyl = replace_char(lo2.as_str(), '-', '_');
            if !str_eq(hyl.as_str(), name) && self.cache.contains_key(hyl.as_str()) {
                return Some(hyl);
            }
        }
        if contains_char(name, '_') {
            let un = replace_char(name, '_', '-');
            if self.cache.contains_key(un.as_str()) {
                return Some(un);
            }
            let lo2 = lower(name);
            let unl = replace_char(lo2.as_str(), '_', '-');
            if !str_eq(unl.as_str(), name) && self.cache.contains_key(unl.as_str()) {
                return Some(unl);
            }
        }

        // reverse-domain-identifier guesses
        if name.unicode_len() > 0 {
            let cap = capitalize_first(name);
            let mut o1 = "org.".to_owned();
            o1.append(name);
            push_char(&mut o1, '.');
            o1.append(cap.as_str());
            proof {
                assert(o1@ =~= "org."@ + n + seq!['.'] + capitalize_s(n));
            }
            if self.cache.contains_key(o1.as_str()) {
                return Some(o1);
            }
            let mut o2 = "org.".to_owned();
            o2.append(name);
            push_char(&mut o2, '.');
            o2.append(name);
            proof {
                assert(o2@ =~= "org."@ + n + seq!['.'] + n);
            }
            if self.cache.contains_key(o2.as_str()) {
                return Some(o2);
            }
            let mut o3 = "org.".to_owned();
            o3.append(name);
            if self.cache.contains_key(o3.as_str()) {
                return Some(o3);
            }
        }
        None
    }

    /// Resolves a name to a path.  An absolute path is returned unchanged
    /// when the caller found it to name an existing regular file, and
    /// empty otherwise; the caller passes that finding in
    /// `absolute_exists`, which is ignored for other names.
    pub fn resolve(&self, name: &str, absolute_exists: bool) -> (r: String)
        requires
            self.wf(),
        ensures
            r@ == resolve_s(self.cache@, name@, absolute_exists),
    {
        let ghost m = self.cache@;
        let ghost n = name@;
        if name.unicode_len() > 0 && name.get_char(0) == '/' {
            if absolute_exists {
                return name.to_owned();
            } else {
                let r = String::new();
                proof {
                    assert(r@ =~= resolve_s(m, n, absolute_exists));
                }
                return r;
            }
        }

        if contains_char(name, ' ') || contains_char(name, '*') || contains_char(name, '-')
            || contains_char(name, '_') {
            let mut ds: Vec<char> = Vec::new();
            ds.push(' ');
            ds.push('*');
            ds.push('-');
            ds.push('_');
            proof {
                assert(ds@ =~= delim_set_s());
            }
            let parts = split_nonempty(name, &ds);
            if parts.len() > 0 {
                let fp = &parts[0];
                proof {
                    assert(fp@ == drop_empties_s(split_set_s(n, delim_set_s()))[0]);
                }
                let hit = self.base_token(fp.as_str());
                if hit.unicode_len() > 0 {
                    return hit;
                }
            }
        }
        self.direct_lookup(name)
    }

    /// The base-token shortcut used for compound names.
    fn base_token(&self, fp: &str) -> (r: String)
        requires
            self.wf(),
        ensures
            r@ == base_token_s(self.cache@, fp@),
    {
        let ghost m = self.cache@;
        match self.cache.get(fp) {
            Some(e) => {
                return e.path.clone();
            },
            None => {},
        }
        let fpl = lower(fp);
        match self.cache.get(fpl.as_str()) {
            Some(e) => {
                return e.path.clone();
            },
            None => {},
        }
        match self.try_variations(fp) {
            Some(v) => {
                match self.cache.get(v.as_str()) {
                    Some(e) => {
                        return e.path.clone();
                    },
                    None => {},
                }
            },
            None => {},
        }
        match self.try_variations(fpl.as_str()) {
            Some(v) => {
                match self.cache.get(v.as_str()) {
                    Some(e) => {
                        return e.path.clone();
                    },
                    None => {},
                }
            },
            None => {},
        }
        let r = String::new();
        proof {
            assert(r@ =~= base_token_s(m, fp@));
        }
        r
    }

    /// The direct lookup: exact hit and variation hit combined by the
    /// one merge comparator.
    fn direct_lookup(&self, name: &str) -> (r: String)
        requires
            self.wf(),
        ensures
            r@ == direct_lookup_s(self.cache@, name@),
    {
        let ghost m = self.cache@;
        let exact = self.cache.get(name);
        match self.try_variations(name) {
            Some(v) => {
                match self.cache.get(v.as_str()) {
                    Some(ve) => {
                        match exact {
                            Some(e) => {
                                if is_better(ve, e) {
                                    ve.path.clone()
                                } else {
                                    e.path.clone()
                                }
                            },
                            None => ve.path.clone(),
                        }
                    },
                    None => {
                        match exact {
                            Some(e) => e.path.clone(),
                            None => {
                                let r = String::new();
                                proof {
                                    assert(r@ =~= direct_lookup_s(m, name@));
                                }
                                r
                            },
                        }
                    },
                }
            },
            None => {
                match exact {
                    Some(e) => e.path.clone(),
                    None => {
                        let r = String::new();
                        proof {
                            assert(r@ =~= direct_lookup_s(m, name@));
                        }
                        r
                    },
                }
            },
        }
    }

    /// The keys matching a pattern case-insensitively, sorted.
    pub fn search(&self, pattern: &str) -> (r: Vec<String>)
        requires
            self.wf(),
        ensures
            forall|a: int| 0 <= a < r.deep_view().len() ==> map_has(
                self.cache@,
                #[trigger] r.deep_view()[a],
            ) && contains_seq(lower_s(r.deep_view()[a]), lower_s(pattern@)),
            forall|k: Seq<char>| map_has(self.cache@, k) && contains_seq(
                lower_s(k),
                lower_s(pattern@),
            ) ==> r.deep_view().contains(k),
            forall|a: int, b: int| 0 <= a < b < r.deep_view().len() ==> lex_lt(
                r.deep_view()[a],
                r.deep_view()[b],
            ),
    {
        self.cache.search_keys(pattern)
    }
}

} // verus!
