//! The name-to-entry mapping that serves lookups: one best entry per icon
//! name, keys unique, modelled as a sequence of (name, entry) pairs.

use vstd::prelude::*;
use vstd::string::*;
use crate::entry::{IconEntry, EntryV, better_s, is_better};
use crate::text::{str_eq, lower, contains_sub, lower_s, contains_seq, lex_lt, str_lt,
    lemma_lex_connected, lemma_lex_trans};

verus! {

/// The cache mapping from icon name to its single best entry.
pub struct IconMap {
    entries: Vec<(String, IconEntry)>,
}

/// Is the key `k` bound in the mapping model `m`?
pub open spec fn map_has(m: Seq<(Seq<char>, EntryV)>, k: Seq<char>) -> bool {
    exists|i: int| 0 <= i < m.len() && m[i].0 == k
}

/// The index at which `k` is bound; meaningful when keys are unique.
pub open spec fn map_idx(m: Seq<(Seq<char>, EntryV)>, k: Seq<char>) -> int {
    choose|i: int| 0 <= i < m.len() && m[i].0 == k
}

/// The entry bound to `k`, if any.
pub open spec fn map_get(m: Seq<(Seq<char>, EntryV)>, k: Seq<char>) -> Option<EntryV> {
    if map_has(m, k) {
        Some(m[map_idx(m, k)].1)
    } else {
        None
    }
}

/// The effect of one merge step: a candidate is bound if its name is new
/// or if it beats the entry already bound to that name.
pub open spec fn merge_one_s(
    m: Seq<(Seq<char>, EntryV)>,
    k: Seq<char>,
    v: EntryV,
) -> Seq<(Seq<char>, EntryV)> {
    if !map_has(m, k) {
        m.push((k, v))
    } else if better_s(v, m[map_idx(m, k)].1) {
        m.update(map_idx(m, k), (k, v))
    } else {
        m
    }
}

/// The effect of binding a key outright, replacing any previous binding.
pub open spec fn set_one_s(
    m: Seq<(Seq<char>, EntryV)>,
    k: Seq<char>,
    v: EntryV,
) -> Seq<(Seq<char>, EntryV)> {
    if map_has(m, k) {
        m.update(map_idx(m, k), (k, v))
    } else {
        m.push((k, v))
    }
}

impl View for IconMap {
    type V = Seq<(Seq<char>, EntryV)>;

    closed spec fn view(&self) -> Seq<(Seq<char>, EntryV)> {
        self.entries.view().map_values(|p: (String, IconEntry)| (p.0.view(), p.1.view()))
    }
}

impl IconMap {
    /// Keys are pairwise distinct.
    pub open spec fn wf(&self) -> bool {
        forall|i: int, j: int| 0 <= i < j < self@.len() ==> self@[i].0 != self@[j].0
    }

    pub fn new() -> (r: IconMap)
        ensures
            r@ == Seq::<(Seq<char>, EntryV)>::empty(),
            r.wf(),
    {
        let r = IconMap { entries: Vec::new() };
        proof {
            assert(r@ =~= Seq::<(Seq<char>, EntryV)>::empty());
        }
        r
    }

    pub fn len(&self) -> (r: usize)
        ensures
            r == self@.len(),
    {
        self.entries.len()
    }

    pub fn clear(&mut self)
        ensures
            final(self)@ == Seq::<(Seq<char>, EntryV)>::empty(),
            final(self).wf(),
    {
        self.entries.clear();
        proof {
            assert(self@ =~= Seq::<(Seq<char>, EntryV)>::empty());
        }
    }

    /// The pair at position `i`, for iteration.
    pub fn pair_at(&self, i: usize) -> (r: &(String, IconEntry))
        requires
            i < self@.len(),
        ensures
            r.0@ == self@[i as int].0,
            r.1@ == self@[i as int].1,
    {
        &self.entries[i]
    }

    /// The position of `name` among the entries, if bound.
    fn find_idx(&self, name: &str) -> (r: Option<usize>)
        ensures
            match r {
                Some(i) => i < self@.len() && self@[i as int].0 == name@,
                None => !map_has(self@, name@),
            },
    {
        let mut i: usize = 0;
        let n = self.entries.len();
        while i < n
            invariant
                n == self@.len(),
                i <= n,
                forall|j: int| 0 <= j < i ==> self@[j].0 != name@,
            decreases n - i,
        {
            if str_eq(self.entries[i].0.as_str(), name) {
                return Some(i);
            }
            i += 1;
        }
        None
    }

    proof fn lemma_idx_unique(&self, i: int, k: Seq<char>)
        requires
            self.wf(),
            0 <= i < self@.len(),
            self@[i].0 == k,
        ensures
            map_has(self@, k),
            map_idx(self@, k) == i,
    {
        assert(map_has(self@, k));
        let j = map_idx(self@, k);
        assert(0 <= j < self@.len() && self@[j].0 == k);
        if i < j {
            assert(self@[i].0 != self@[j].0);
        } else if j < i {
            assert(self@[j].0 != self@[i].0);
        }
    }

    pub fn contains_key(&self, name: &str) -> (r: bool)
        ensures
            r == map_has(self@, name@),
    {
        match self.find_idx(name) {
            Some(_) => true,
            None => false,
        }
    }

    pub fn get(&self, name: &str) -> (r: Option<&IconEntry>)
        requires
            self.wf(),
        ensures
            match r {
                Some(e) => map_get(self@, name@) == Some(e@),
                None => map_get(self@, name@) is None,
            },
    {
        match self.find_idx(name) {
            Some(i) => {
                proof {
                    self.lemma_idx_unique(i as int, name@);
                }
                Some(&self.entries[i].1)
            },
            None => None,
        }
    }

    /// Binds `name` outright, replacing any previous binding.
    pub fn set(&mut self, name: String, e: IconEntry)
        requires
            old(self).wf(),
        ensures
            final(self).wf(),
            final(self)@ == set_one_s(old(self)@, name@, e@),
    {
        let ghost m0 = self@;
        match self.find_idx(name.as_str()) {
            Some(i) => {
                proof {
                    self.lemma_idx_unique(i as int, name@);
                }
                self.entries[i] = (name, e);
                proof {
                    assert(self@ =~= m0.update(i as int, (m0[i as int].0, e@)));
                    assert(self@ =~= set_one_s(m0, m0[i as int].0, e@));
                }
            },
            None => {
                self.entries.push((name, e));
                proof {
                    assert(self@ =~= m0.push((name@, e@)));
                }
            },
        }
    }

    /// One merge step of the priority engine: the candidate is bound if
    /// its name is new or if it beats the entry already bound.
    pub fn merge(&mut self, name: String, e: IconEntry)
        requires
            old(self).wf(),
        ensures
            final(self).wf(),
            final(self)@ == merge_one_s(old(self)@, name@, e@),
    {
        let ghost m0 = self@;
        match self.find_idx(name.as_str()) {
            Some(i) => {
                proof {
                    self.lemma_idx_unique(i as int, name@);
                }
                if is_better(&e, &self.entries[i].1) {
                    self.entries[i] = (name, e);
                    proof {
                        assert(self@ =~= m0.update(i as int, (m0[i as int].0, e@)));
                        assert(self@ =~= merge_one_s(m0, m0[i as int].0, e@));
                    }
                }
            },
            None => {
                self.entries.push((name, e));
                proof {
                    assert(self@ =~= m0.push((name@, e@)));
                }
            },
        }
    }

    /// An element-wise copy.
    pub fn duplicate(&self) -> (r: IconMap)
        ensures
            r@ == self@,
    {
        let mut entries: Vec<(String, IconEntry)> = Vec::new();
        let mut i: usize = 0;
        while i < self.entries.len()
            invariant
                i <= self@.len(),
                entries@.len() == i,
                forall|j: int| 0 <= j < i ==> (entries@[j].0@, entries@[j].1@) == self@[j],
            decreases self@.len() - i,
        {
            let name = self.entries[i].0.clone();
            let e = &self.entries[i].1;
            let entry = IconEntry {
                path: e.path.clone(),
                size: e.size,
                is_svg: e.is_svg,
                theme_priority: e.theme_priority,
            };
            entries.push((name, entry));
            i += 1;
        }
        let r = IconMap { entries };
        proof {
            assert(r@ =~~= self@);
        }
        r
    }

    /// The keys whose lowercased form contains the lowercased pattern,
    /// in strictly ascending lexicographic order.
    pub fn search_keys(&self, pattern: &str) -> (r: Vec<String>)
        requires
            self.wf(),
        ensures
            forall|a: int| 0 <= a < r.deep_view().len() ==> map_has(
                self@,
                #[trigger] r.deep_view()[a],
            ) && contains_seq(lower_s(r.deep_view()[a]), lower_s(pattern@)),
            forall|k: Seq<char>| map_has(self@, k) && contains_seq(
                lower_s(k),
                lower_s(pattern@),
            ) ==> r.deep_view().contains(k),
            forall|a: int, b: int| 0 <= a < b < r.deep_view().len() ==> lex_lt(
                r.deep_view()[a],
                r.deep_view()[b],
            ),
    {
        let ghost m = self@;
        let ghost pat = lower_s(pattern@);
        let pl = lower(pattern);
        let n = self.entries.len();
        let mut found: Vec<String> = Vec::new();
        let ghost mut ix: Seq<int> = Seq::empty();
        let mut i: usize = 0;
        while i < n
            invariant
                self.wf(),
                m == self@,
                pat == lower_s(pattern@),
                pl@ == pat,
                n == m.len(),
                i <= n,
                found.deep_view().len() == ix.len(),
                forall|a: int| 0 <= a < ix.len() ==> 0 <= #[trigger] ix[a] < i
                    && m[ix[a]].0 == found.deep_view()[a] && contains_seq(
                    lower_s(m[ix[a]].0),
                    pat,
                ),
                forall|a: int, b: int| 0 <= a < b < ix.len() ==> ix[a] < ix[b],
                forall|j: int| 0 <= j < i && contains_seq(lower_s(m[j].0), pat)
                    ==> found.deep_view().contains(#[trigger] m[j].0),
            decreases n - i,
        {
            let key = &self.entries[i].0;
            let kl = lower(key.as_str());
            let ghost pre = found.deep_view();
            if contains_sub(kl.as_str(), pl.as_str()) {
                found.push(key.clone());
                proof {
                    ix = ix.push(i as int);
                    let fv = found.deep_view();
                    assert(fv =~= pre.push(m[i as int].0));
                    assert(kl@ == lower_s(m[i as int].0));
                    assert forall|j: int|
                        0 <= j < i + 1 && contains_seq(lower_s(m[j].0), pat) implies fv.contains(
                        #[trigger] m[j].0,
                    ) by {
                        if j < i {
                            assert(pre.contains(m[j].0));
                            let a = choose|a: int| 0 <= a < pre.len() && pre[a] == m[j].0;
                            assert(fv[a] == m[j].0);
                        } else {
                            assert(fv[pre.len() as int] == m[i as int].0);
                        }
                    }
                }
            } else {
                proof {
                    assert(kl@ == lower_s(m[i as int].0));
                }
            }
            i += 1;
        }
        // Insertion sort, ascending; the keys are pairwise distinct.
        let ghost f = found.deep_view();
        proof {
            assert forall|a: int, b: int| 0 <= a < b < f.len() implies f[a] != f[b] by {
                assert(ix[a] < ix[b]);
                assert(m[ix[a]].0 != m[ix[b]].0);
                assert(m[ix[a]].0 == f[a]);
                assert(m[ix[b]].0 == f[b]);
            }
        }
        let mut out: Vec<String> = Vec::new();
        let mut i2: usize = 0;
        while i2 < found.len()
            invariant
                f == found.deep_view(),
                i2 <= f.len(),
                forall|a: int, b: int| 0 <= a < b < f.len() ==> f[a] != f[b],
                out.deep_view().len() == i2,
                forall|x: Seq<char>| out.deep_view().contains(x) == f.take(i2 as int).contains(
                    x,
                ),
                forall|a: int, b: int| 0 <= a < b < out.deep_view().len() ==> lex_lt(
                    out.deep_view()[a],
                    out.deep_view()[b],
                ),
            decreases f.len() - i2,
        {
            let x = found[i2].clone();
            let ghost o = out.deep_view();
            let mut p: usize = 0;
            while p < out.len() && str_lt(out[p].as_str(), x.as_str())
                invariant
                    o == out.deep_view(),
                    i2 < f.len(),
                    x@ == f[i2 as int],
                    p <= o.len(),
                    forall|j: int| 0 <= j < p ==> lex_lt(o[j], x@),
                decreases o.len() - p,
            {
                p += 1;
            }
            proof {
                // x is not already among the sorted output
                assert(!o.contains(x@)) by {
                    if o.contains(x@) {
                        assert(f.take(i2 as int).contains(x@));
                        let a = choose|a: int|
                            0 <= a < f.take(i2 as int).len() && f.take(i2 as int)[a] == x@;
                        assert(f[a] == f[i2 as int]);
                    }
                }
                if p < o.len() {
                    assert(!lex_lt(o[p as int], x@));
                    assert(o[p as int] != x@) by {
                        if o[p as int] == x@ {
                            assert(o.contains(x@));
                        }
                    }
                    lemma_lex_connected_neg(x@, o[p as int]);
                }
            }
            let ghost pp = p as int;
            out.insert(p, x);
            proof {
                let o2 = out.deep_view();
                assert(o2 =~= o.take(pp) + seq![f[i2 as int]] + o.skip(pp));
                lemma_insert_contains(o, pp, f[i2 as int]);
                assert(f.take(i2 + 1) =~= f.take(i2 as int).push(f[i2 as int]));
                assert forall|y: Seq<char>| o2.contains(y) == f.take(i2 + 1).contains(y) by {
                    lemma_push_contains(f.take(i2 as int), f[i2 as int], y);
                    assert(o2.contains(y) == (o.contains(y) || y == f[i2 as int]));
                }
                assert forall|a: int, b: int| 0 <= a < b < o2.len() implies lex_lt(
                    o2[a],
                    o2[b],
                ) by {
                    if b < pp {
                        assert(o2[a] == o[a] && o2[b] == o[b]);
                    } else if a > pp {
                        assert(o2[a] == o[a - 1] && o2[b] == o[b - 1]);
                    } else if a < pp && b == pp {
                        assert(o2[a] == o[a] && o2[b] == f[i2 as int]);
                        assert(lex_lt(o[a], x@));
                    } else if a < pp && b > pp {
                        assert(o2[a] == o[a] && o2[b] == o[b - 1]);
                    } else if a == pp && b > pp {
                        assert(o2[a] == f[i2 as int] && o2[b] == o[b - 1]);
                        assert(!lex_lt(o[pp], x@));
                        assert(o[pp] != x@) by {
                            if o[pp] == x@ {
                                assert(o.contains(x@));
                            }
                        }
                        lemma_lex_connected_neg(x@, o[pp]);
                        if b - 1 > pp {
                            lemma_lex_trans(x@, o[pp], o[b - 1]);
                        }
                    }
                }
            }
            i2 += 1;
        }
        proof {
            assert(f.take(f.len() as int) =~= f);
            let ov = out.deep_view();
            assert forall|a: int| 0 <= a < ov.len() implies map_has(m, #[trigger] ov[a])
                && contains_seq(lower_s(ov[a]), pat) by {
                assert(ov.contains(ov[a]));
                assert(f.contains(ov[a]));
                let b = choose|b: int| 0 <= b < f.len() && f[b] == ov[a];
                assert(0 <= ix[b] < m.len() && m[ix[b]].0 == f[b]);
                assert(map_has(m, ov[a]));
            }
            assert forall|k: Seq<char>| map_has(m, k) && contains_seq(lower_s(k), pat)
                implies ov.contains(k) by {
                let j = choose|j: int| 0 <= j < m.len() && m[j].0 == k;
                assert(0 <= j < i);
                assert(found.deep_view().contains(m[j].0));
                assert(f.contains(k));
            }
        }
        out
    }
}

/// Membership in a sequence with one element inserted at position `p`.
proof fn lemma_insert_contains(o: Seq<Seq<char>>, p: int, x: Seq<char>)
    requires
        0 <= p <= o.len(),
    ensures
        forall|y: Seq<char>| #[trigger] (o.take(p) + seq![x] + o.skip(p)).contains(y) == (
        o.contains(y) || y == x),
{
    let o2 = o.take(p) + seq![x] + o.skip(p);
    assert forall|y: Seq<char>| #[trigger] o2.contains(y) == (o.contains(y) || y == x) by {
        if o2.contains(y) {
            let a = choose|a: int| 0 <= a < o2.len() && o2[a] == y;
            if a < p {
                assert(o[a] == y);
                assert(o.contains(y));
            } else if a > p {
                assert(o[a - 1] == y);
                assert(o.contains(y));
            }
        }
        if o.contains(y) {
            let a = choose|a: int| 0 <= a < o.len() && o[a] == y;
            if a < p {
                assert(o2[a] == y);
            } else {
                assert(o2[a + 1] == y);
            }
            assert(o2.contains(y));
        }
        if y == x {
            assert(o2[p] == y);
            assert(o2.contains(y));
        }
    }
}

/// Membership in a sequence extended by one element at the end.
proof fn lemma_push_contains(s: Seq<Seq<char>>, x: Seq<char>, y: Seq<char>)
    ensures
        s.push(x).contains(y) == (s.contains(y) || y == x),
{
    if s.push(x).contains(y) {
        let a = choose|a: int| 0 <= a < s.push(x).len() && s.push(x)[a] == y;
        if a < s.len() {
            assert(s[a] == y);
            assert(s.contains(y));
        }
    }
    if s.contains(y) {
        let a = choose|a: int| 0 <= a < s.len() && s[a] == y;
        assert(s.push(x)[a] == y);
        assert(s.push(x).contains(y));
    }
    if y == x {
        assert(s.push(x)[s.len() as int] == y);
        assert(s.push(x).contains(y));
    }
}

/// If neither order holds the sequences are equal, so if they differ and
/// one is not below the other, it is above.
proof fn lemma_lex_connected_neg(a: Seq<char>, b: Seq<char>)
    requires
        !lex_lt(b, a),
        a != b,
    ensures
        lex_lt(a, b),
{
    if !lex_lt(a, b) {
        lemma_lex_connected(a, b);
    }
}

} // verus!
