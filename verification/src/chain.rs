//! Theme-chain discovery: the ordered list of theme names reached by
//! following `Inherits=` declarations depth-first from the configured
//! theme.  A visited set guarantees termination on circular inheritance,
//! and the universal fallback theme is appended when absent.  The walk
//! itself needs descriptor files read from disk, so it is driven step by
//! step: the caller asks for the next theme to probe and hands back the
//! parsed inherits list.

use vstd::prelude::*;
use vstd::string::*;
use crate::text::str_eq;

verus! {

/// The name of the universal fallback theme.
pub open spec fn fallback_theme() -> Seq<char> {
    "hicolor"@
}

/// Does the list of names hold `k`?
pub open spec fn names_has(l: Seq<Seq<char>>, k: Seq<char>) -> bool {
    exists|i: int| 0 <= i < l.len() && l[i] == k
}

/// Are the names pairwise distinct?
pub open spec fn names_distinct(l: Seq<Seq<char>>) -> bool {
    forall|i: int, j: int| 0 <= i < j < l.len() ==> l[i] != l[j]
}

/// A finished chain: unchanged when the fallback theme is already
/// present, else extended by it at the end.
pub open spec fn finished_s(chain: Seq<Seq<char>>) -> Seq<Seq<char>> {
    if names_has(chain, fallback_theme()) {
        chain
    } else {
        chain.push(fallback_theme())
    }
}

/// Membership of a name in a list of names.
pub fn vec_has_str(v: &Vec<String>, s: &str) -> (r: bool)
    ensures
        r == names_has(v.deep_view(), s@),
{
    let mut i: usize = 0;
    while i < v.len()
        invariant
            i <= v.deep_view().len(),
            forall|j: int| 0 <= j < i ==> v.deep_view()[j] != s@,
        decreases v.deep_view().len() - i,
    {
        if str_eq(v[i].as_str(), s) {
            proof {
                assert(v.deep_view()[i as int] == s@);
            }
            return true;
        }
        i += 1;
    }
    false
}

/// The state of a depth-first chain walk: the chain built so far and a
/// stack of names still to visit, topmost last.
pub struct ChainBuilder {
    chain: Vec<String>,
    agenda: Vec<String>,
}

impl ChainBuilder {
    /// The chain built so far.
    pub closed spec fn chain_view(&self) -> Seq<Seq<char>> {
        self.chain.deep_view()
    }

    /// The names still waiting to be visited, topmost last.
    pub closed spec fn agenda_view(&self) -> Seq<Seq<char>> {
        self.agenda.deep_view()
    }

    /// The chain holds no name twice.
    pub open spec fn wf(&self) -> bool {
        names_distinct(self.chain_view())
    }

    /// A walk about to visit `start`, with nothing built yet.
    pub fn new(start: String) -> (r: ChainBuilder)
        ensures
            r.chain_view() == Seq::<Seq<char>>::empty(),
            r.agenda_view() == seq![start@],
            r.wf(),
    {
        let mut agenda: Vec<String> = Vec::new();
        agenda.push(start);
        let r = ChainBuilder { chain: Vec::new(), agenda };
        proof {
            assert(r.chain_view() =~= Seq::<Seq<char>>::empty());
            assert(r.agenda_view() =~~= seq![r.agenda@[0]@]);
        }
        r
    }

    /// Takes the next not-yet-visited name off the stack, appends it to
    /// the chain and returns it; names already visited are discarded.
    /// Returns `None` when the stack holds nothing new.
    pub fn next_theme(&mut self) -> (r: Option<String>)
        requires
            old(self).wf(),
        ensures
            final(self).wf(),
            match r {
                Some(t) => {
                    &&& final(self).chain_view() == old(self).chain_view().push(t@)
                    &&& !names_has(old(self).chain_view(), t@)
                    &&& final(self).agenda_view().len() < old(self).agenda_view().len()
                    &&& old(self).agenda_view()[final(self).agenda_view().len() as int] == t@
                    &&& final(self).agenda_view() == old(self).agenda_view().take(
                        final(self).agenda_view().len() as int,
                    )
                    &&& forall|k: int|
                        final(self).agenda_view().len() < k < old(self).agenda_view().len()
                            ==> names_has(
                            old(self).chain_view(),
                            #[trigger] old(self).agenda_view()[k],
                        )
                },
                None => {
                    &&& final(self).chain_view() == old(self).chain_view()
                    &&& final(self).agenda_view() == Seq::<Seq<char>>::empty()
                    &&& forall|k: int|
                        0 <= k < old(self).agenda_view().len() ==> names_has(
                            old(self).chain_view(),
                            #[trigger] old(self).agenda_view()[k],
                        )
                },
            },
    {
        loop
            invariant
                self.wf(),
                self.chain_view() == old(self).chain_view(),
                self.agenda_view() == old(self).agenda_view().take(
                    self.agenda_view().len() as int,
                ),
                self.agenda_view().len() <= old(self).agenda_view().len(),
                forall|k: int|
                    self.agenda_view().len() <= k < old(self).agenda_view().len()
                        ==> names_has(old(self).chain_view(), #[trigger] old(
                        self,
                    ).agenda_view()[k]),
            decreases self.agenda_view().len(),
        {
            let ghost pre_agenda = self.agenda_view();
            match self.agenda.pop() {
                None => {
                    proof {
                        assert(self.agenda_view() =~= Seq::<Seq<char>>::empty());
                    }
                    return None;
                },
                Some(x) => {
                    proof {
                        assert(self.agenda_view() =~~= pre_agenda.drop_last());
                        assert(pre_agenda[pre_agenda.len() - 1] == x@);
                        assert(self.agenda_view() =~~= old(self).agenda_view().take(
                            self.agenda_view().len() as int,
                        ));
                    }
                    if !vec_has_str(&self.chain, x.as_str()) {
                        let ghost pre_chain = self.chain_view();
                        self.chain.push(x.clone());
                        proof {
                            assert(self.chain_view() =~~= pre_chain.push(x@));
                        }
                        return Some(x);
                    }
                    proof {
                        assert(old(self).agenda_view()[self.agenda_view().len() as int] == x@);
                    }
                },
            }
        }
    }

    /// Queues the parsed inherits of the theme just visited, first name
    /// on top so that it is walked next.
    pub fn add_inherits(&mut self, inherits: Vec<String>)
        requires
            old(self).wf(),
        ensures
            final(self).wf(),
            final(self).chain_view() == old(self).chain_view(),
            final(self).agenda_view() == old(self).agenda_view()
                + inherits.deep_view().reverse(),
    {
        let ghost iv = inherits.deep_view();
        let mut i: usize = inherits.len();
        while i > 0
            invariant
                iv == inherits.deep_view(),
                i <= iv.len(),
                self.wf(),
                self.chain_view() == old(self).chain_view(),
                self.agenda_view() =~~= old(self).agenda_view() + iv.skip(i as int).reverse(),
            decreases i,
        {
            i -= 1;
            let ghost pre = self.agenda_view();
            self.agenda.push(inherits[i].clone());
            proof {
                assert(self.agenda_view() =~~= pre.push(iv[i as int]));
                assert(iv.skip(i as int).reverse() =~~= iv.skip(i + 1).reverse().push(
                    iv[i as int],
                ));
                assert(self.agenda_view() =~~= old(self).agenda_view() + iv.skip(
                    i as int,
                ).reverse());
            }
        }
        proof {
            assert(iv.skip(0) =~= iv);
        }
    }

    /// The finished chain, with the universal fallback theme appended if
    /// it was never reached through inheritance.
    pub fn finish(self) -> (r: Vec<String>)
        ensures
            r.deep_view() == finished_s(self.chain_view()),
            self.wf() ==> names_distinct(r.deep_view()),
    {
        let ChainBuilder { mut chain, agenda: _agenda } = self;
        if !vec_has_str(&chain, "hicolor") {
            let ghost pre = chain.deep_view();
            chain.push("hicolor".to_owned());
            proof {
                assert(chain.deep_view() =~~= pre.push(fallback_theme()));
            }
        }
        chain
    }
}

/// In every finished chain built from a duplicate-free walk, the
/// universal fallback theme appears exactly once; when it was already
/// reached through explicit inheritance the chain is unchanged, so its
/// position is its point of inheritance, and otherwise it stands at the
/// very end.
pub proof fn lemma_fallback_exactly_once(chain: Seq<Seq<char>>)
    requires
        names_distinct(chain),
    ensures
        names_has(finished_s(chain), fallback_theme()),
        names_distinct(finished_s(chain)),
        forall|i: int, j: int|
            0 <= i < j < finished_s(chain).len() ==> !(finished_s(chain)[i] == fallback_theme()
                && finished_s(chain)[j] == fallback_theme()),
        names_has(chain, fallback_theme()) ==> finished_s(chain) == chain,
        !names_has(chain, fallback_theme()) ==> finished_s(chain) == chain.push(
            fallback_theme(),
        ),
{
    let r = finished_s(chain);
    if names_has(chain, fallback_theme()) {
    } else {
        assert(r[r.len() - 1] == fallback_theme());
        assert(names_has(r, fallback_theme()));
        assert forall|i: int, j: int| 0 <= i < j < r.len() implies r[i] != r[j] by {
            if j < r.len() - 1 {
                assert(chain[i] != chain[j]);
            } else {
                assert(r[i] == chain[i]);
                if r[i] == fallback_theme() {
                    assert(names_has(chain, fallback_theme()));
                }
            }
        }
    }
}

} // verus!
