//! An arena-backed FIFO split into a fixed number of cyclically related
//! sections, with approximate-dedup gating on insertion.
//!
//! Entries live in an append-only arena and are linked into per-section
//! chains by index; moving an entry between sections is pure relinking, and
//! entries are never deallocated, so the whole structure is free of the
//! ownership hazards of a pointer-based intrusive list. A probabilistic
//! membership filter rejects most duplicate insertions cheaply; an exact
//! arena scan backs it up whenever the filter may be wrong, so the arena
//! never holds two entries with the same location key.

use vstd::prelude::*;
use vstd::assert_seqs_equal;
use vstd::assert_sets_equal;
use vstd::set_lib::{set_int_range, lemma_int_range, lemma_len_subset};

use std::collections::hash_map::DefaultHasher;

use cuckoofilter::CuckooFilter;

use crate::meta::{RefView, ResID, SitemapRef};

verus! {

/// The cyclically next section after `s` among `n` sections.
pub open spec fn next_section(s: int, n: int) -> int {
    if s + 1 == n {
        0
    } else {
        s + 1
    }
}

/// One advance step on the per-section views: the front entry of section
/// `s` moves to the back of the cyclically next section; an empty section
/// leaves everything unchanged.
pub open spec fn advance_views(views: Seq<Seq<RefView>>, s: int) -> Seq<Seq<RefView>> {
    if views[s].len() == 0 {
        views
    } else {
        let t = next_section(s, views.len() as int);
        views.update(s, views[s].drop_first()).update(t, views[t].push(views[s][0]))
    }
}

/// `n` advance steps, each on the section the moved entry last landed in.
pub open spec fn advance_cycle(views: Seq<Seq<RefView>>, s: int, n: nat) -> Seq<Seq<RefView>>
    decreases n,
{
    if n == 0 {
        views
    } else {
        advance_cycle(advance_views(views, s), next_section(s, views.len() as int), (n - 1) as nat)
    }
}

/// The number of advance steps that walk cyclically forward from section
/// `u` to section `s` among `n` sections.
pub open spec fn section_distance(u: int, s: int, n: int) -> int {
    if u < s {
        s - u
    } else {
        s + n - u
    }
}

/// A lone entry at section `u` marches section by section until it lands
/// at the back of section `s`.
proof fn lemma_march(views: Seq<Seq<RefView>>, s: int, u: int)
    requires
        views.len() >= 2,
        0 <= s < views.len(),
        0 <= u < views.len(),
        u != s,
        views[u].len() == 1,
        forall|t: int| 0 <= t < views.len() && t != s && t != u ==> (#[trigger] views[t]).len() == 0,
    ensures
        advance_cycle(views, u, section_distance(u, s, views.len() as int) as nat) == views.update(
            u,
            Seq::<RefView>::empty(),
        ).update(s, views[s].push(views[u][0])),
    decreases section_distance(u, s, views.len() as int),
{
    let n = views.len() as int;
    let d = section_distance(u, s, n);
    let t = next_section(u, n);
    let v1 = advance_views(views, u);
    assert(views[u].drop_first() =~= Seq::<RefView>::empty());
    if t == s {
        assert(d == 1);
        assert(advance_cycle(views, u, 1nat) == advance_cycle(v1, t, 0nat));
        assert(v1 =~~= views.update(u, Seq::<RefView>::empty()).update(
            s,
            views[s].push(views[u][0]),
        ));
    } else {
        assert(views[t].len() == 0);
        assert(v1[t] =~= seq![views[u][0]]);
        assert(v1[t].len() == 1);
        assert(section_distance(t, s, n) == d - 1);
        lemma_march(v1, s, t);
        assert(advance_cycle(views, u, d as nat) == advance_cycle(v1, t, (d - 1) as nat));
        assert(advance_cycle(v1, t, (d - 1) as nat) == v1.update(t, Seq::<RefView>::empty()).update(
            s,
            v1[s].push(v1[t][0]),
        ));
        assert(v1.update(t, Seq::<RefView>::empty()).update(s, v1[s].push(v1[t][0])) =~~=
        views.update(u, Seq::<RefView>::empty()).update(s, views[s].push(views[u][0])));
    }
}

/// Law: in a queue whose only populated section is `s`, advancing the
/// front entry through the sections exactly `N` times — once from each
/// section it lands in — returns it to its original section `s`, with its
/// payload, and the relative order of any entries behind it, preserved.
pub proof fn lemma_cyclic_advance(views: Seq<Seq<RefView>>, s: int)
    requires
        views.len() >= 2,
        0 <= s < views.len(),
        views[s].len() > 0,
        forall|t: int| 0 <= t < views.len() && t != s ==> (#[trigger] views[t]).len() == 0,
    ensures
        advance_cycle(views, s, views.len() as nat) == views.update(
            s,
            views[s].drop_first().push(views[s][0]),
        ),
{
    let n = views.len() as int;
    let u = next_section(s, n);
    let v1 = advance_views(views, s);
    assert(u != s);
    assert(v1[u] =~= seq![views[s][0]]);
    assert(v1[u].len() == 1);
    lemma_march(v1, s, u);
    assert(section_distance(u, s, n) == n - 1);
    assert(advance_cycle(views, s, n as nat) == advance_cycle(v1, u, (n - 1) as nat));
    assert(advance_cycle(v1, u, (n - 1) as nat) =~~= views.update(
        s,
        views[s].drop_first().push(views[s][0]),
    ));
}

/// A duplicate-free sequence of values drawn from `[0, bound)` is no
/// longer than `bound`.
proof fn lemma_distinct_bounded(c: Seq<int>, bound: int)
    requires
        0 <= bound,
        forall|k: int| 0 <= k < c.len() ==> 0 <= #[trigger] c[k] < bound,
        c.no_duplicates(),
    ensures
        c.len() <= bound,
{
    c.unique_seq_to_set();
    assert forall|x: int| c.to_set().contains(x) implies set_int_range(0, bound).contains(x) by {
        let i = choose|i: int| 0 <= i < c.len() && c[i] == x;
    }
    lemma_int_range(0, bound);
    lemma_len_subset(c.to_set(), set_int_range(0, bound));
}

/// One arena entry: a payload and the index of the next entry in whatever
/// section chain this entry is currently linked into.
struct QLink {
    next: Option<usize>,
    data: SitemapRef,
}

impl QLink {
    /// A fresh, unlinked entry.
    fn new(data: SitemapRef) -> (r: Self)
        ensures
            r.next is None,
            r.data == data,
    {
        QLink { next: None, data }
    }

    /// Links this entry to a successor; only an end-of-chain entry may be
    /// relinked.
    fn to(&mut self, idx: usize)
        requires
            old(self).next is None,
        ensures
            final(self).next == Some(idx),
            final(self).data == old(self).data,
    {
        self.next = Some(idx);
    }

    /// Whether a successor is linked.
    fn has_next(&self) -> (r: bool)
        ensures
            r == (self.next is Some),
    {
        self.next.is_some()
    }

    /// The linked successor's index.
    fn idx(&self) -> (r: usize)
        requires
            self.next is Some,
        ensures
            r == self.next->0,
    {
        self.next.unwrap()
    }

    /// Unlinks the successor.
    fn break_link(&mut self)
        ensures
            final(self).next is None,
            final(self).data == old(self).data,
    {
        self.next = None;
    }

    /// Unlinks and hands back the successor's index.
    fn move_link(&mut self) -> (r: Option<usize>)
        ensures
            r == old(self).next,
            final(self).next is None,
            final(self).data == old(self).data,
    {
        self.next.take()
    }

    /// Borrows the payload.
    fn get(&self) -> (r: &SitemapRef)
        ensures
            r == &self.data,
    {
        &self.data
    }
}

/// The arena and the per-section chain pointers. A section owns no data,
/// only the indices of the first and last arena entry linked into it.
pub struct Backing {
    buffer: Vec<QLink>,
    fronts: Vec<Option<usize>>,
    backs: Vec<Option<usize>>,
    lens: Vec<usize>,
    sections: usize,
    chains: Ghost<Seq<Seq<int>>>,
}

impl Backing {
    /// The number of sections this queue was configured with.
    pub closed spec fn num_sections(self) -> int {
        self.sections as int
    }

    /// The arena contents, in insertion order.
    pub closed spec fn arena(self) -> Seq<RefView> {
        self.buffer@.map_values(|q: QLink| q.data@)
    }

    /// The chain of arena indices linked into section `s`, front to back.
    pub closed spec fn chain(self, s: int) -> Seq<int> {
        self.chains@[s]
    }

    /// The payloads linked into section `s`, front to back.
    pub open spec fn section_view(self, s: int) -> Seq<RefView> {
        self.chain(s).map_values(|i: int| self.arena()[i])
    }

    /// Whether some arena entry carries the location key `k`.
    pub open spec fn has_key(self, k: Seq<char>) -> bool {
        exists|i: int| 0 <= i < self.arena().len() && (#[trigger] self.arena()[i]).location == k
    }

    /// The set of location keys present in the arena.
    pub open spec fn keys(self) -> Set<Seq<char>> {
        Set::new(|k: Seq<char>| self.has_key(k))
    }

    /// All section views, indexed by section number.
    pub open spec fn views(self) -> Seq<Seq<RefView>> {
        Seq::new(self.num_sections() as nat, |t: int| self.section_view(t))
    }

    /// Well-formedness of one section's chain: the front and back pointers
    /// and the per-entry links spell out exactly the chain sequence.
    pub closed spec fn chain_wf(self, s: int) -> bool {
        let c = self.chains@[s];
        &&& self.lens@[s] == c.len()
        &&& (c.len() == 0 <==> self.fronts@[s] is None)
        &&& (c.len() == 0 <==> self.backs@[s] is None)
        &&& (c.len() > 0 ==> self.fronts@[s]->0 as int == c[0])
        &&& (c.len() > 0 ==> self.backs@[s]->0 as int == c[c.len() - 1])
        &&& (forall|k: int| 0 <= k < c.len() ==> 0 <= #[trigger] c[k] < self.buffer@.len())
        &&& (forall|k: int|
            0 <= k < c.len() - 1 ==> (#[trigger] self.buffer@[c[k]].next) is Some
                && self.buffer@[c[k]].next->0 as int == c[k + 1])
        &&& (c.len() > 0 ==> self.buffer@[c[c.len() - 1]].next is None)
    }

    /// No arena index is linked into two chain positions at once.
    pub closed spec fn chains_disjoint(self) -> bool {
        forall|s1: int, k1: int, s2: int, k2: int|
            0 <= s1 < self.chains@.len() && 0 <= k1 < self.chains@[s1].len() && 0 <= s2
                < self.chains@.len() && 0 <= k2 < self.chains@[s2].len() && (s1 != s2 || k1 != k2)
                ==> #[trigger] self.chains@[s1][k1] != #[trigger] self.chains@[s2][k2]
    }

    /// Well-formedness of the whole structure.
    pub closed spec fn wf(self) -> bool {
        &&& self.sections >= 2
        &&& self.fronts@.len() == self.sections
        &&& self.backs@.len() == self.sections
        &&& self.lens@.len() == self.sections
        &&& self.chains@.len() == self.sections
        &&& (forall|s: int| 0 <= s < self.sections ==> #[trigger] self.chain_wf(s))
        &&& self.chains_disjoint()
    }

    /// Whether `i` is linked into any section chain.
    pub closed spec fn linked_somewhere(self, i: int) -> bool {
        exists|s: int, k: int|
            0 <= s < self.chains@.len() && 0 <= k < self.chains@[s].len()
                && #[trigger] self.chains@[s][k] == i
    }

    /// One chain never repeats an index.
    proof fn lemma_chain_no_dup(self, s: int)
        requires
            self.wf(),
            0 <= s < self.num_sections(),
        ensures
            self.chains@[s].no_duplicates(),
    {
        let c = self.chains@[s];
        assert forall|k1: int, k2: int|
            0 <= k1 < c.len() && 0 <= k2 < c.len() && k1 != k2 implies c[k1] != c[k2] by {
            assert(self.chains@[s][k1] != self.chains@[s][k2]);
        }
    }

    /// A chain fits inside the arena.
    proof fn lemma_chain_len_bounded(self, s: int)
        requires
            self.wf(),
            0 <= s < self.num_sections(),
        ensures
            self.chains@[s].len() <= self.buffer@.len(),
    {
        assert(self.chain_wf(s));
        self.lemma_chain_no_dup(s);
        lemma_distinct_bounded(self.chains@[s], self.buffer@.len() as int);
    }

    /// A queue over `sections` cyclically related sections, all empty.
    pub fn new(sections: usize) -> (r: Self)
        requires
            sections >= 2,
        ensures
            r.wf(),
            r.num_sections() == sections,
            r.arena().len() == 0,
            forall|s: int|
                0 <= s < sections ==> #[trigger] r.section_view(s) == Seq::<RefView>::empty(),
    {
        let mut fronts: Vec<Option<usize>> = Vec::new();
        let mut backs: Vec<Option<usize>> = Vec::new();
        let mut lens: Vec<usize> = Vec::new();
        let mut i: usize = 0;
        while i < sections
            invariant
                i <= sections,
                fronts@.len() == i,
                backs@.len() == i,
                lens@.len() == i,
                forall|s: int| 0 <= s < i ==> (#[trigger] fronts@[s]) is None,
                forall|s: int| 0 <= s < i ==> (#[trigger] backs@[s]) is None,
                forall|s: int| 0 <= s < i ==> (#[trigger] lens@[s]) == 0,
            decreases sections - i,
        {
            fronts.push(None);
            backs.push(None);
            lens.push(0);
            i = i + 1;
        }
        let r = Backing {
            buffer: Vec::new(),
            fronts,
            backs,
            lens,
            sections,
            chains: Ghost(Seq::new(sections as nat, |s: int| Seq::<int>::empty())),
        };
        proof {
            assert forall|s: int| 0 <= s < sections implies #[trigger] r.chain_wf(s) by {}
            assert forall|s: int| 0 <= s < sections implies #[trigger] r.section_view(s) == Seq::<
                RefView,
            >::empty() by {
                assert_seqs_equal!(r.section_view(s), Seq::<RefView>::empty());
            }
        }
        r
    }

    /// Links the already-stored arena entry `idx` at the back of section
    /// `section`. The entry must be free: unlinked, with no successor.
    fn link_level_push(&mut self, section: usize, idx: usize)
        requires
            old(self).wf(),
            section < old(self).num_sections(),
            idx < old(self).arena().len(),
            old(self).buffer@[idx as int].next is None,
            !old(self).linked_somewhere(idx as int),
        ensures
            final(self).wf(),
            final(self).num_sections() == old(self).num_sections(),
            final(self).buffer@.len() == old(self).buffer@.len(),
            final(self).arena() == old(self).arena(),
            final(self).chain(section as int) == old(self).chain(section as int).push(idx as int),
            forall|t: int|
                0 <= t < old(self).num_sections() && t != section ==> #[trigger] final(self).chain(
                    t,
                ) == old(self).chain(t),
    {
        let ghost old_self = *self;
        let ghost s = section as int;
        let ghost c = old_self.chains@[s];
        proof {
            assert(old_self.chain_wf(s));
            // the new index is in no chain, in particular not in c
            assert forall|k: int| 0 <= k < c.len() implies c[k] != idx as int by {
                assert(old_self.chains@[s][k] == c[k]);
            }
            old_self.lemma_chain_no_dup(s);
            lemma_distinct_bounded(c.push(idx as int), old_self.buffer@.len() as int);
        }
        if self.fronts[section].is_none() {
            // empty section
            self.fronts[section] = Some(idx);
            self.backs[section] = Some(idx);
        } else {
            // general case
            let old_back_idx = self.backs[section].unwrap();
            self.buffer[old_back_idx].to(idx);
            self.backs[section] = Some(idx);
        }
        let old_len = self.lens[section];
        let cap = self.buffer.len();
        proof {
            assert(old_len == c.len());
            assert(c.push(idx as int).len() <= cap);
        }
        self.lens[section] = old_len + 1;
        self.chains = Ghost(old_self.chains@.update(s, c.push(idx as int)));
        proof {
            let ghost new_self = *self;
            assert(new_self.arena() =~= old_self.arena());
            let ghost ob = if c.len() > 0 {
                c[c.len() - 1]
            } else {
                -1
            };
            assert forall|t: int| 0 <= t < new_self.sections implies #[trigger] new_self.chain_wf(
                t,
            ) by {
                assert(old_self.chain_wf(t));
                let ct = old_self.chains@[t];
                if t == s {
                    let cn = new_self.chains@[t];
                    assert(cn == c.push(idx as int));
                    assert forall|k: int| 0 <= k < cn.len() - 1 implies (
                    #[trigger] new_self.buffer@[cn[k]].next) is Some
                        && new_self.buffer@[cn[k]].next->0 as int == cn[k + 1] by {
                        if k < c.len() - 1 {
                            // untouched inner link: its index is not the old back
                            assert(c[k] != ob);
                        }
                    }
                } else {
                    assert(new_self.chains@[t] == ct);
                    // entries of other chains are untouched: none of them is
                    // the old back of section s, nor the new index
                    assert forall|k: int| 0 <= k < ct.len() implies new_self.buffer@[ct[k]]
                        == old_self.buffer@[ct[k]] by {
                        if c.len() > 0 {
                            assert(old_self.chains@[t][k] != old_self.chains@[s][c.len() - 1]);
                        }
                    }
                }
            }
            assert forall|s1: int, k1: int, s2: int, k2: int|
                0 <= s1 < new_self.chains@.len() && 0 <= k1 < new_self.chains@[s1].len() && 0 <= s2
                    < new_self.chains@.len() && 0 <= k2 < new_self.chains@[s2].len() && (s1 != s2
                    || k1 != k2) implies #[trigger] new_self.chains@[s1][k1]
                != #[trigger] new_self.chains@[s2][k2] by {
                if s1 == s && k1 == c.len() {
                    assert(new_self.chains@[s1][k1] == idx as int);
                    assert(old_self.chains@[s2][k2] == new_self.chains@[s2][k2]);
                    assert(!old_self.linked_somewhere(idx as int));
                } else if s2 == s && k2 == c.len() {
                    assert(new_self.chains@[s2][k2] == idx as int);
                    assert(old_self.chains@[s1][k1] == new_self.chains@[s1][k1]);
                    assert(!old_self.linked_somewhere(idx as int));
                } else {
                    assert(new_self.chains@[s1][k1] == old_self.chains@[s1][k1]);
                    assert(new_self.chains@[s2][k2] == old_self.chains@[s2][k2]);
                }
            }
        }
    }

    /// Stores `data` in the arena and links it at the back of `section`.
    pub fn push_to_section(&mut self, data: SitemapRef, section: usize)
        requires
            old(self).wf(),
            section < old(self).num_sections(),
        ensures
            final(self).wf(),
            final(self).num_sections() == old(self).num_sections(),
            final(self).arena() == old(self).arena().push(data@),
            final(self).section_view(section as int) == old(self).section_view(
                section as int,
            ).push(data@),
            forall|t: int|
                0 <= t < old(self).num_sections() && t != section ==> #[trigger] final(self).section_view(t) == old(self).section_view(t),
            final(self).keys() == old(self).keys().insert(data@.location),
    {
        let ghost old_self = *self;
        let ghost key = data@.location;
        let add_idx = self.buffer.len();
        self.buffer.push(QLink::new(data));
        let ghost mid = *self;
        proof {
            assert forall|t: int| 0 <= t < mid.sections implies #[trigger] mid.chain_wf(t) by {
                assert(old_self.chain_wf(t));
                let ct = mid.chains@[t];
                assert forall|k: int| 0 <= k < ct.len() implies mid.buffer@[ct[k]]
                    == old_self.buffer@[ct[k]] by {}
            }
            assert(!mid.linked_somewhere(add_idx as int)) by {
                if mid.linked_somewhere(add_idx as int) {
                    let (s, k) = choose|s: int, k: int|
                        0 <= s < mid.chains@.len() && 0 <= k < mid.chains@[s].len()
                            && #[trigger] mid.chains@[s][k] == add_idx as int;
                    assert(old_self.chain_wf(s));
                    assert(old_self.chains@[s][k] < old_self.buffer@.len());
                }
            }
        }
        self.link_level_push(section, add_idx);
        proof {
            let new_self = *self;
            let s = section as int;
            assert(new_self.arena() =~= old_self.arena().push(data@)) by {
                assert(mid.buffer@[add_idx as int].data@ == data@);
                assert(new_self.arena() == mid.arena());
                assert(mid.arena() =~= old_self.arena().push(data@));
            }
            assert forall|t: int|
                0 <= t < old_self.num_sections() && t != s implies #[trigger] new_self.section_view(
                t,
            ) == old_self.section_view(t) by {
                assert(old_self.chain_wf(t));
                assert_seqs_equal!(new_self.section_view(t), old_self.section_view(t), k => {
                    assert(new_self.chain(t) == old_self.chain(t));
                    assert(0 <= old_self.chain(t)[k] < old_self.buffer@.len());
                });
            }
            assert(new_self.section_view(s) =~= old_self.section_view(s).push(data@)) by {
                assert(old_self.chain_wf(s));
                assert(new_self.chain(s) == old_self.chain(s).push(add_idx as int));
                assert forall|k: int| 0 <= k < new_self.chain(s).len() implies new_self.section_view(
                    s,
                )[k] == old_self.section_view(s).push(data@)[k] by {
                    if k < old_self.chain(s).len() {
                        assert(0 <= old_self.chain(s)[k] < old_self.buffer@.len());
                    } else {
                        assert(new_self.chain(s)[k] == add_idx as int);
                    }
                }
            }
            assert_sets_equal!(new_self.keys(), old_self.keys().insert(key), k => {
                if new_self.keys().contains(k) {
                    let i = choose|i: int| 0 <= i < new_self.arena().len()
                        && (#[trigger] new_self.arena()[i]).location == k;
                    if i < old_self.arena().len() {
                        assert(old_self.arena()[i].location == k);
                        assert(old_self.has_key(k));
                    } else {
                        assert(k == key);
                    }
                }
                if old_self.keys().insert(key).contains(k) {
                    if old_self.has_key(k) {
                        let i = choose|i: int| 0 <= i < old_self.arena().len()
                            && (#[trigger] old_self.arena()[i]).location == k;
                        assert(new_self.arena()[i].location == k);
                        assert(new_self.has_key(k));
                    } else {
                        assert(k == key);
                        assert(new_self.arena()[old_self.arena().len() as int].location == k);
                        assert(new_self.has_key(k));
                    }
                }
            });
        }
    }

    /// Stores `data` and links it at the back of the main section.
    pub fn push(&mut self, data: SitemapRef)
        requires
            old(self).wf(),
        ensures
            final(self).wf(),
            final(self).num_sections() == old(self).num_sections(),
            final(self).arena() == old(self).arena().push(data@),
            final(self).section_view(0) == old(self).section_view(0).push(data@),
            forall|t: int|
                0 <= t < old(self).num_sections() && t != 0 ==> #[trigger] final(self).section_view(
                    t,
                ) == old(self).section_view(t),
            final(self).keys() == old(self).keys().insert(data@.location),
    {
        self.push_to_section(data, 0);
    }

    /// Borrows the payload at the front of `section`, if the section is
    /// not empty.
    pub fn peek_section(&self, section: usize) -> (r: Option<&SitemapRef>)
        requires
            self.wf(),
            section < self.num_sections(),
        ensures
            r is Some <==> self.section_view(section as int).len() > 0,
            r is Some ==> r->0@ == self.section_view(section as int)[0],
    {
        proof {
            assert(self.chain_wf(section as int));
        }
        if self.fronts[section].is_none() {
            return None;
        }
        let i = self.fronts[section].unwrap();
        Some(self.buffer[i].get())
    }

    /// Borrows the payload at the front of the main section.
    pub fn peek(&self) -> (r: Option<&SitemapRef>)
        requires
            self.wf(),
        ensures
            r is Some <==> self.section_view(0).len() > 0,
            r is Some ==> r->0@ == self.section_view(0)[0],
    {
        self.peek_section(0)
    }

    /// Whether `section` has at least one linked entry.
    pub fn check_section(&self, section: usize) -> (r: bool)
        requires
            self.wf(),
            section < self.num_sections(),
        ensures
            r == (self.section_view(section as int).len() > 0),
    {
        proof {
            assert(self.chain_wf(section as int));
        }
        self.fronts[section].is_some()
    }

    /// The number of entries linked into `section`.
    pub fn section_len(&self, section: usize) -> (r: usize)
        requires
            self.wf(),
            section < self.num_sections(),
        ensures
            r == self.section_view(section as int).len(),
    {
        proof {
            assert(self.chain_wf(section as int));
        }
        self.lens[section]
    }

    /// Whether the arena holds no entry at all.
    pub fn is_empty(&self) -> (r: bool)
        ensures
            r == (self.arena().len() == 0),
    {
        self.buffer.is_empty()
    }

    /// The number of entries ever stored in the arena.
    pub fn len(&self) -> (r: usize)
        ensures
            r == self.arena().len(),
    {
        self.buffer.len()
    }

    /// Detaches the front entry of `section` from its chain and hands back
    /// its arena index; the entry stays in the arena, linked nowhere.
    fn detach_front(&mut self, section: usize) -> (idx: usize)
        requires
            old(self).wf(),
            section < old(self).num_sections(),
            old(self).chain(section as int).len() > 0,
        ensures
            final(self).wf(),
            final(self).num_sections() == old(self).num_sections(),
            final(self).arena() == old(self).arena(),
            final(self).buffer@.len() == old(self).buffer@.len(),
            final(self).chain(section as int) == old(self).chain(section as int).drop_first(),
            forall|t: int|
                0 <= t < old(self).num_sections() && t != section ==> #[trigger] final(self).chain(
                    t,
                ) == old(self).chain(t),
            idx as int == old(self).chain(section as int)[0],
            final(self).buffer@[idx as int].next is None,
            !final(self).linked_somewhere(idx as int),
    {
        let ghost old_self = *self;
        let ghost s = section as int;
        let ghost c = old_self.chains@[s];
        proof {
            assert(old_self.chain_wf(s));
            old_self.lemma_chain_no_dup(s);
        }
        let front_idx = self.fronts[section].unwrap();
        let nxt = self.buffer[front_idx].move_link();
        self.fronts[section] = nxt;
        if nxt.is_none() {
            self.backs[section] = None;
        }
        let l = self.lens[section];
        self.lens[section] = l - 1;
        self.chains = Ghost(old_self.chains@.update(s, c.drop_first()));
        proof {
            let new_self = *self;
            assert(new_self.arena() =~= old_self.arena());
            assert(c.drop_first() =~= c.subrange(1, c.len() as int));
            assert forall|t: int| 0 <= t < new_self.sections implies #[trigger] new_self.chain_wf(
                t,
            ) by {
                assert(old_self.chain_wf(t));
                let ct = old_self.chains@[t];
                if t == s {
                    let cn = new_self.chains@[t];
                    assert(cn == c.drop_first());
                    assert forall|k: int| 0 <= k < cn.len() implies new_self.buffer@[cn[k]]
                        == old_self.buffer@[cn[k]] by {
                        assert(cn[k] == c[k + 1]);
                        assert(c[k + 1] != c[0]);
                    }
                    if c.len() > 1 {
                        assert((old_self.buffer@[c[0]].next) is Some);
                        assert(nxt is Some && nxt->0 as int == c[1]);
                    } else {
                        assert(old_self.buffer@[c[0]].next is None);
                        assert(nxt is None);
                    }
                } else {
                    assert(new_self.chains@[t] == ct);
                    assert forall|k: int| 0 <= k < ct.len() implies new_self.buffer@[ct[k]]
                        == old_self.buffer@[ct[k]] by {
                        assert(old_self.chains@[t][k] != old_self.chains@[s][0]);
                    }
                }
            }
            assert forall|s1: int, k1: int, s2: int, k2: int|
                0 <= s1 < new_self.chains@.len() && 0 <= k1 < new_self.chains@[s1].len() && 0 <= s2
                    < new_self.chains@.len() && 0 <= k2 < new_self.chains@[s2].len() && (s1 != s2
                    || k1 != k2) implies #[trigger] new_self.chains@[s1][k1]
                != #[trigger] new_self.chains@[s2][k2] by {
                let v1 = if s1 == s {
                    old_self.chains@[s1][k1 + 1]
                } else {
                    old_self.chains@[s1][k1]
                };
                let v2 = if s2 == s {
                    old_self.chains@[s2][k2 + 1]
                } else {
                    old_self.chains@[s2][k2]
                };
                assert(new_self.chains@[s1][k1] == v1);
                assert(new_self.chains@[s2][k2] == v2);
            }
            assert(!new_self.linked_somewhere(front_idx as int)) by {
                if new_self.linked_somewhere(front_idx as int) {
                    let (s2, k2) = choose|s2: int, k2: int|
                        0 <= s2 < new_self.chains@.len() && 0 <= k2 < new_self.chains@[s2].len()
                            && #[trigger] new_self.chains@[s2][k2] == front_idx as int;
                    if s2 == s {
                        assert(old_self.chains@[s][k2 + 1] == old_self.chains@[s][0]);
                    } else {
                        assert(old_self.chains@[s2][k2] == old_self.chains@[s][0]);
                    }
                }
            }
        }
        front_idx
    }

    /// Moves the front entry of `section` to the back of the cyclically
    /// next section; an empty section is left untouched.
    pub fn advance_section(&mut self, section: usize)
        requires
            old(self).wf(),
            section < old(self).num_sections(),
        ensures
            final(self).wf(),
            final(self).num_sections() == old(self).num_sections(),
            final(self).arena() == old(self).arena(),
            old(self).section_view(section as int).len() == 0 ==> forall|t: int|
                0 <= t < old(self).num_sections() ==> #[trigger] final(self).section_view(t) == old(self).section_view(t),
            old(self).section_view(section as int).len() > 0 ==> {
                let tgt = next_section(section as int, old(self).num_sections());
                &&& final(self).section_view(section as int) == old(self).section_view(
                    section as int,
                ).drop_first()
                &&& final(self).section_view(tgt) == old(self).section_view(tgt).push(
                    old(self).section_view(section as int)[0],
                )
                &&& forall|t: int|
                    0 <= t < old(self).num_sections() && t != section && t != tgt
                        ==> #[trigger] final(self).section_view(t) == old(self).section_view(t)
            },
            final(self).views() == advance_views(old(self).views(), section as int),
    {
        let ghost old_self = *self;
        let ghost s = section as int;
        proof {
            assert(old_self.chain_wf(s));
        }
        let target: usize = if section + 1 == self.sections {
            0
        } else {
            section + 1
        };
        if self.fronts[section].is_none() {
            proof {
                assert forall|t: int|
                    0 <= t < old_self.num_sections() implies #[trigger] (*self).section_view(t)
                    == old_self.section_view(t) by {}
                assert(old_self.views()[s].len() == 0);
                assert((*self).views() =~~= advance_views(old_self.views(), s));
            }
            return ;
        }
        let front_idx = self.detach_front(section);
        let ghost mid = *self;
        self.link_level_push(target, front_idx);
        proof {
            let new_self = *self;
            let tgt = target as int;
            assert(new_self.arena() =~= old_self.arena());
            assert forall|t: int|
                0 <= t < old_self.num_sections() && t != s && t != tgt implies #[trigger] new_self
                .section_view(t) == old_self.section_view(t) by {
                assert(new_self.chain(t) == old_self.chain(t));
                assert_seqs_equal!(new_self.section_view(t), old_self.section_view(t));
            }
            assert(new_self.section_view(s) =~= old_self.section_view(s).drop_first()) by {
                assert(new_self.chain(s) == old_self.chain(s).drop_first());
            }
            assert(new_self.section_view(tgt) =~= old_self.section_view(tgt).push(
                old_self.section_view(s)[0],
            )) by {
                assert(new_self.chain(tgt) == old_self.chain(tgt).push(front_idx as int));
                assert(old_self.chain_wf(tgt));
                assert(front_idx as int == old_self.chain(s)[0]);
                assert(0 <= old_self.chain(s)[0] < old_self.buffer@.len());
            }
            assert(old_self.views()[s].len() > 0);
            assert(new_self.views() =~~= advance_views(old_self.views(), s));
        }
    }

    /// Moves the front entry of the main section to the back of the next
    /// section.
    pub fn advance(&mut self)
        requires
            old(self).wf(),
        ensures
            final(self).wf(),
            final(self).num_sections() == old(self).num_sections(),
            final(self).arena() == old(self).arena(),
            old(self).section_view(0).len() == 0 ==> forall|t: int|
                0 <= t < old(self).num_sections() ==> #[trigger] final(self).section_view(t) == old(self).section_view(t),
            old(self).section_view(0).len() > 0 ==> {
                &&& final(self).section_view(0) == old(self).section_view(0).drop_first()
                &&& final(self).section_view(1) == old(self).section_view(1).push(
                    old(self).section_view(0)[0],
                )
                &&& forall|t: int|
                    0 <= t < old(self).num_sections() && t != 0 && t != 1 ==> #[trigger] final(self).section_view(t) == old(self).section_view(t)
            },
    {
        proof {
            assert(next_section(0, old(self).num_sections()) == 1);
        }
        self.advance_section(0);
    }

    /// Unlinks the front entry of `section` without relinking it anywhere:
    /// the entry stays in the arena (so its key still blocks duplicates)
    /// but belongs to no section any more.
    pub fn unlink_front(&mut self, section: usize)
        requires
            old(self).wf(),
            section < old(self).num_sections(),
            old(self).section_view(section as int).len() > 0,
        ensures
            final(self).wf(),
            final(self).num_sections() == old(self).num_sections(),
            final(self).arena() == old(self).arena(),
            final(self).section_view(section as int) == old(self).section_view(
                section as int,
            ).drop_first(),
            forall|t: int|
                0 <= t < old(self).num_sections() && t != section ==> #[trigger] final(self).section_view(t) == old(self).section_view(t),
    {
        let ghost old_self = *self;
        let ghost s = section as int;
        self.detach_front(section);
        proof {
            let new_self = *self;
            assert(new_self.section_view(s) =~= old_self.section_view(s).drop_first()) by {
                assert(new_self.chain(s) == old_self.chain(s).drop_first());
            }
            assert forall|t: int|
                0 <= t < old_self.num_sections() && t != s implies #[trigger] new_self.section_view(
                t,
            ) == old_self.section_view(t) by {
                assert(new_self.chain(t) == old_self.chain(t));
                assert_seqs_equal!(new_self.section_view(t), old_self.section_view(t));
            }
        }
    }

    /// Splices all of section `b`'s chain onto the tail of section `a`,
    /// leaving `b` empty; former `b` entries follow all former `a` entries
    /// in their original relative order.
    pub fn merge_sections(&mut self, a: usize, b: usize)
        requires
            old(self).wf(),
            a < old(self).num_sections(),
            b < old(self).num_sections(),
            a != b,
        ensures
            final(self).wf(),
            final(self).num_sections() == old(self).num_sections(),
            final(self).arena() == old(self).arena(),
            final(self).section_view(a as int) == old(self).section_view(a as int) + old(self).section_view(b as int),
            final(self).section_view(b as int) == Seq::<RefView>::empty(),
            forall|t: int|
                0 <= t < old(self).num_sections() && t != a && t != b ==> #[trigger] final(self).section_view(t) == old(self).section_view(t),
    {
        let ghost old_self = *self;
        let ghost sa = a as int;
        let ghost sb = b as int;
        let ghost ca = old_self.chains@[sa];
        let ghost cb = old_self.chains@[sb];
        proof {
            assert(old_self.chain_wf(sa));
            assert(old_self.chain_wf(sb));
            old_self.lemma_chain_no_dup(sa);
            old_self.lemma_chain_no_dup(sb);
            assert((ca + cb).no_duplicates()) by {
                assert forall|k1: int, k2: int|
                    0 <= k1 < (ca + cb).len() && 0 <= k2 < (ca + cb).len() && k1 != k2 implies (ca
                    + cb)[k1] != (ca + cb)[k2] by {
                    if k1 < ca.len() && k2 >= ca.len() {
                        assert(old_self.chains@[sa][k1] != old_self.chains@[sb][k2 - ca.len()]);
                    } else if k1 >= ca.len() && k2 < ca.len() {
                        assert(old_self.chains@[sa][k2] != old_self.chains@[sb][k1 - ca.len()]);
                    }
                }
            }
            assert forall|k: int| 0 <= k < (ca + cb).len() implies 0 <= #[trigger] (ca + cb)[k]
                < old_self.buffer@.len() by {}
            lemma_distinct_bounded(ca + cb, old_self.buffer@.len() as int);
        }
        if self.fronts[b].is_none() {
            proof {
                assert(cb.len() == 0);
                assert(ca + cb =~= ca);
                assert forall|t: int|
                    0 <= t < old_self.num_sections() && t != sa && t != sb implies #[trigger] (
                *self).section_view(t) == old_self.section_view(t) by {}
                assert((*self).section_view(sa) =~= old_self.section_view(sa)
                    + old_self.section_view(sb));
                assert((*self).section_view(sb) =~= Seq::<RefView>::empty());
            }
            return ;
        }
        let bf = self.fronts[b].unwrap();
        if self.fronts[a].is_some() {
            let old_back_idx = self.backs[a].unwrap();
            self.buffer[old_back_idx].to(bf);
            self.backs[a] = self.backs[b];
        } else {
            self.fronts[a] = self.fronts[b];
            self.backs[a] = self.backs[b];
        }
        self.fronts[b] = None;
        self.backs[b] = None;
        let la = self.lens[a];
        let lb = self.lens[b];
        let cap = self.buffer.len();
        proof {
            assert(la == ca.len());
            assert(lb == cb.len());
            assert((ca + cb).len() <= cap);
        }
        self.lens[a] = la + lb;
        self.lens[b] = 0;
        self.chains = Ghost(old_self.chains@.update(sa, ca + cb).update(sb, Seq::<int>::empty()));
        proof {
            let new_self = *self;
            assert(new_self.arena() =~= old_self.arena());
            let ghost ob = if ca.len() > 0 {
                ca[ca.len() - 1]
            } else {
                -1
            };
            assert forall|t: int| 0 <= t < new_self.sections implies #[trigger] new_self.chain_wf(
                t,
            ) by {
                assert(old_self.chain_wf(t));
                if t == sa {
                    let cn = new_self.chains@[t];
                    assert(cn == ca + cb);
                    assert forall|k: int| 0 <= k < cn.len() - 1 implies (
                    #[trigger] new_self.buffer@[cn[k]].next) is Some
                        && new_self.buffer@[cn[k]].next->0 as int == cn[k + 1] by {
                        if k < ca.len() - 1 {
                            assert(cn[k] == ca[k]);
                            assert(ca[k] != ob);
                            assert(old_self.buffer@[ca[k]].next is Some);
                        } else if ca.len() > 0 && k == ca.len() - 1 {
                            assert(cn[k] == ob);
                            assert(cn[k + 1] == cb[0]);
                            assert(old_self.fronts@[sb]->0 as int == cb[0]);
                        } else {
                            assert(cn[k] == cb[k - ca.len()]);
                            assert(old_self.chains@[sa].len() == 0 || old_self.chains@[sb][k
                                - ca.len()] != old_self.chains@[sa][ca.len() - 1]);
                            assert(old_self.buffer@[cb[k - ca.len()]].next is Some);
                        }
                    }
                    if cn.len() > 0 {
                        assert(cn[cn.len() - 1] == cb[cb.len() - 1]);
                        assert(old_self.chains@[sa].len() == 0 || old_self.chains@[sb][cb.len() - 1]
                            != old_self.chains@[sa][ca.len() - 1]);
                        assert(new_self.buffer@[cn[cn.len() - 1]].next is None);
                    }
                } else if t == sb {
                    assert(new_self.chains@[t] == Seq::<int>::empty());
                } else {
                    let ct = old_self.chains@[t];
                    assert(new_self.chains@[t] == ct);
                    assert forall|k: int| 0 <= k < ct.len() implies new_self.buffer@[ct[k]]
                        == old_self.buffer@[ct[k]] by {
                        if ca.len() > 0 {
                            assert(old_self.chains@[t][k] != old_self.chains@[sa][ca.len() - 1]);
                        }
                    }
                }
            }
            assert forall|s1: int, k1: int, s2: int, k2: int|
                0 <= s1 < new_self.chains@.len() && 0 <= k1 < new_self.chains@[s1].len() && 0 <= s2
                    < new_self.chains@.len() && 0 <= k2 < new_self.chains@[s2].len() && (s1 != s2
                    || k1 != k2) implies #[trigger] new_self.chains@[s1][k1]
                != #[trigger] new_self.chains@[s2][k2] by {
                let v1 = if s1 == sa {
                    if k1 < ca.len() {
                        old_self.chains@[sa][k1]
                    } else {
                        old_self.chains@[sb][k1 - ca.len()]
                    }
                } else {
                    old_self.chains@[s1][k1]
                };
                let v2 = if s2 == sa {
                    if k2 < ca.len() {
                        old_self.chains@[sa][k2]
                    } else {
                        old_self.chains@[sb][k2 - ca.len()]
                    }
                } else {
                    old_self.chains@[s2][k2]
                };
                assert(new_self.chains@[s1][k1] == v1);
                assert(new_self.chains@[s2][k2] == v2);
            }
            assert forall|t: int|
                0 <= t < old_self.num_sections() && t != sa && t != sb implies #[trigger] new_self
                .section_view(t) == old_self.section_view(t) by {
                assert(new_self.chain(t) == old_self.chain(t));
                assert_seqs_equal!(new_self.section_view(t), old_self.section_view(t));
            }
            assert(new_self.section_view(sa) =~= old_self.section_view(sa) + old_self.section_view(
                sb,
            )) by {
                assert(new_self.chain(sa) == ca + cb);
            }
            assert(new_self.section_view(sb) =~= Seq::<RefView>::empty());
        }
    }

    /// Collapses every other section into the main section, front to back
    /// in section order, leaving only the main section populated.
    pub fn merge(&mut self)
        requires
            old(self).wf(),
        ensures
            final(self).wf(),
            final(self).num_sections() == old(self).num_sections(),
            final(self).arena() == old(self).arena(),
            final(self).section_view(0) == old(self).concat_sections(old(self).num_sections()),
            forall|t: int|
                1 <= t < old(self).num_sections() ==> #[trigger] final(self).section_view(t)
                    == Seq::<RefView>::empty(),
    {
        let ghost old_self = *self;
        let n = self.sections;
        let mut i: usize = 1;
        proof {
            assert(old_self.concat_sections(0) =~= Seq::<RefView>::empty());
            assert(old_self.concat_sections(1) =~= old_self.concat_sections(0)
                + old_self.section_view(0));
            assert(old_self.concat_sections(1) =~= old_self.section_view(0));
        }
        while i < n
            invariant
                (*self).wf(),
                (*self).num_sections() == old_self.num_sections(),
                (*self).arena() == old_self.arena(),
                n == old_self.num_sections(),
                1 <= i <= n,
                (*self).section_view(0) == old_self.concat_sections(i as int),
                forall|t: int|
                    1 <= t < i ==> #[trigger] (*self).section_view(t) == Seq::<RefView>::empty(),
                forall|t: int|
                    i <= t < n ==> #[trigger] (*self).section_view(t) == old_self.section_view(t),
            decreases n - i,
        {
            self.merge_sections(0, i);
            i = i + 1;
            proof {
                assert((*self).section_view(0) =~= old_self.concat_sections(i as int));
            }
        }
    }

    /// The concatenation of the first `upto` section views, in order.
    pub open spec fn concat_sections(self, upto: int) -> Seq<RefView>
        decreases upto,
    {
        if upto <= 0 {
            Seq::<RefView>::empty()
        } else {
            self.concat_sections(upto - 1) + self.section_view(upto - 1)
        }
    }

    /// Replaces the resource identity recorded on the front entry of
    /// `section`; the entry's location and everything else stay put.
    pub fn set_front_id(&mut self, section: usize, id: ResID)
        requires
            old(self).wf(),
            section < old(self).num_sections(),
            old(self).section_view(section as int).len() > 0,
        ensures
            final(self).wf(),
            final(self).num_sections() == old(self).num_sections(),
            final(self).arena().len() == old(self).arena().len(),
            forall|i: int|
                0 <= i < old(self).arena().len() ==> (#[trigger] final(self).arena()[i]).location
                    == old(self).arena()[i].location,
            final(self).keys() == old(self).keys(),
            final(self).section_view(section as int) == old(self).section_view(
                section as int,
            ).update(
                0,
                RefView {
                    location: old(self).section_view(section as int)[0].location,
                    id: id@,
                },
            ),
            forall|t: int|
                0 <= t < old(self).num_sections() && t != section ==> #[trigger] final(self).section_view(t) == old(self).section_view(t),
    {
        let ghost old_self = *self;
        let ghost s = section as int;
        proof {
            assert(old_self.chain_wf(s));
            old_self.lemma_chain_no_dup(s);
        }
        let i = self.fronts[section].unwrap();
        let ghost idv = id@;
        self.buffer[i].data.last_id = id;
        proof {
            let new_self = *self;
            let fi = old_self.chains@[s][0];
            assert forall|t: int| 0 <= t < new_self.sections implies #[trigger] new_self.chain_wf(
                t,
            ) by {
                assert(old_self.chain_wf(t));
                assert forall|k: int| 0 <= k < new_self.chains@[t].len() implies new_self.buffer@[
                    new_self.chains@[t][k]
                ].next == old_self.buffer@[new_self.chains@[t][k]].next by {}
            }
            assert forall|j: int| 0 <= j < old_self.arena().len() implies (
            #[trigger] new_self.arena()[j]).location == old_self.arena()[j].location by {}
            assert_sets_equal!(new_self.keys(), old_self.keys(), k => {
                if new_self.has_key(k) {
                    let j = choose|j: int| 0 <= j < new_self.arena().len()
                        && (#[trigger] new_self.arena()[j]).location == k;
                    assert(old_self.arena()[j].location == k);
                }
                if old_self.has_key(k) {
                    let j = choose|j: int| 0 <= j < old_self.arena().len()
                        && (#[trigger] old_self.arena()[j]).location == k;
                    assert(new_self.arena()[j].location == k);
                }
            });
            assert(new_self.section_view(s) =~= old_self.section_view(s).update(
                0,
                RefView { location: old_self.section_view(s)[0].location, id: idv },
            )) by {
                assert forall|k: int| 0 <= k < new_self.chain(s).len() implies new_self.section_view(
                    s,
                )[k] == old_self.section_view(s).update(
                    0,
                    RefView { location: old_self.section_view(s)[0].location, id: idv },
                )[k] by {
                    if k > 0 {
                        assert(old_self.chains@[s][k] != old_self.chains@[s][0]);
                    }
                }
            }
            assert forall|t: int|
                0 <= t < old_self.num_sections() && t != s implies #[trigger] new_self.section_view(
                t,
            ) == old_self.section_view(t) by {
                assert(old_self.chain_wf(t));
                assert_seqs_equal!(new_self.section_view(t), old_self.section_view(t), k => {
                    assert(old_self.chains@[t][k] != old_self.chains@[s][0]);
                });
            }
        }
    }

    /// Exact scan: whether some arena entry carries `data`'s location key.
    pub fn contains(&self, data: &SitemapRef) -> (r: bool)
        ensures
            r == self.has_key(data@.location),
    {
        let n = self.buffer.len();
        let mut j: usize = 0;
        while j < n
            invariant
                j <= n,
                n == self.buffer@.len(),
                forall|t: int|
                    0 <= t < j ==> (#[trigger] self.arena()[t]).location != data@.location,
            decreases n - j,
        {
            if self.buffer[j].get().location == data.location {
                proof {
                    assert(self.arena()[j as int].location == data@.location);
                }
                return true;
            }
            proof {
                assert(self.arena()[j as int] == self.buffer@[j as int].data@);
            }
            j = j + 1;
        }
        false
    }
}

#[verifier::external_type_specification]
#[verifier::external_body]
#[verifier::reject_recursive_types(H)]
pub struct ExCuckooFilter<H>(CuckooFilter<H>);

/// The set of location keys that were added to the membership filter and
/// never evicted from it. A cuckoo filter may report keys outside this set
/// as present (false positives), but never keys inside it as absent.
pub uninterp spec fn filter_keys(f: CuckooFilter<DefaultHasher>) -> Set<Seq<char>>;

/// Relies on `cuckoofilter::CuckooFilter::new`: a fresh filter has had
/// nothing added to it.
#[verifier::external_body]
fn filter_new() -> (f: CuckooFilter<DefaultHasher>)
    ensures
        filter_keys(f) == Set::<Seq<char>>::empty(),
{
    CuckooFilter::new()
}

/// Relies on `cuckoofilter::CuckooFilter::contains`: a cuckoo filter has
/// no false negatives, so a key that was added and never evicted is always
/// reported present. Nothing is promised when the answer is `true`: that
/// may be a false positive.
#[verifier::external_body]
fn filter_contains(f: &CuckooFilter<DefaultHasher>, key: &str) -> (r: bool)
    ensures
        filter_keys(*f).contains(key@) ==> r,
{
    f.contains(key)
}

/// Relies on `cuckoofilter::CuckooFilter::add`: on `Ok` the key was stored
/// and every displaced fingerprint was re-housed, so the stored-key set
/// grows by exactly this key. On `Err(NotEnoughSpace)` the crate documents
/// that the key is stored but some random other element is evicted, so
/// nothing is promised about the final contents.
#[verifier::external_body]
fn filter_add(f: &mut CuckooFilter<DefaultHasher>, key: &str) -> (r: bool)
    ensures
        r ==> filter_keys(*final(f)) == filter_keys(*old(f)).insert(key@),
{
    f.add(key).is_ok()
}

/// A two-section queue of sitemap references — section 0 is the main
/// (fresh) queue, section 1 the stale queue — with approximate-dedup
/// gating: the membership filter cheaply rejects most duplicate pushes,
/// and an exact arena scan backs it up whenever the filter may be wrong.
pub struct SectionedList {
    intern: Backing,
    filter: CuckooFilter<DefaultHasher>,
    degraded: bool,
    false_positive: usize,
}

impl SectionedList {
    /// The arena contents, in insertion order.
    pub closed spec fn arena(self) -> Seq<RefView> {
        self.intern.arena()
    }

    /// The entries linked into the main section, front to back.
    pub closed spec fn main_view(self) -> Seq<RefView> {
        self.intern.section_view(0)
    }

    /// The entries linked into the stale section, front to back.
    pub closed spec fn stale_view(self) -> Seq<RefView> {
        self.intern.section_view(1)
    }

    /// Whether some arena entry carries the location key `k`.
    pub closed spec fn has_key(self, k: Seq<char>) -> bool {
        self.intern.has_key(k)
    }

    /// The set of location keys present in the arena.
    pub closed spec fn keys(self) -> Set<Seq<char>> {
        self.intern.keys()
    }

    /// The arena never holds two entries with the same location key.
    pub open spec fn dedup_ok(self) -> bool {
        forall|i: int, j: int|
            0 <= i < self.arena().len() && 0 <= j < self.arena().len() && i != j ==> (
            #[trigger] self.arena()[i]).location != (#[trigger] self.arena()[j]).location
    }

    /// Invariant: a well-formed two-section backing, a duplicate-free
    /// arena, and — until the filter has ever failed an insertion — every
    /// arena key still stored in the filter, so a filter miss is a
    /// trustworthy proof of absence.
    pub closed spec fn inv(self) -> bool {
        &&& self.intern.wf()
        &&& self.intern.num_sections() == 2
        &&& self.dedup_ok()
        &&& (!self.degraded ==> forall|i: int|
            0 <= i < self.arena().len() ==> filter_keys(self.filter).contains(
                (#[trigger] self.arena()[i]).location,
            ))
    }

    /// An empty two-section queue.
    pub fn new() -> (r: Self)
        ensures
            r.inv(),
            r.arena() == Seq::<RefView>::empty(),
            r.main_view() == Seq::<RefView>::empty(),
            r.stale_view() == Seq::<RefView>::empty(),
            r.keys() == Set::<Seq<char>>::empty(),
    {
        let r = SectionedList {
            intern: Backing::new(2),
            filter: filter_new(),
            degraded: false,
            false_positive: 0,
        };
        proof {
            assert(r.arena() =~= Seq::<RefView>::empty());
            assert_sets_equal!(r.keys(), Set::<Seq<char>>::empty(), k => {
                if r.keys().contains(k) {
                    let i = choose|i: int| 0 <= i < r.arena().len()
                        && (#[trigger] r.arena()[i]).location == k;
                }
            });
        }
        r
    }

    /// Whether the arena holds no entry at all.
    pub fn is_empty(&self) -> (r: bool)
        ensures
            r == (self.arena().len() == 0),
    {
        self.intern.is_empty()
    }

    /// Whether the stale section holds an entry.
    pub fn has_stale(&self) -> (r: bool)
        requires
            self.inv(),
        ensures
            r == (self.stale_view().len() > 0),
    {
        self.intern.check_section(1)
    }

    /// Whether the main section holds an entry.
    pub fn has_main(&self) -> (r: bool)
        requires
            self.inv(),
        ensures
            r == (self.main_view().len() > 0),
    {
        self.intern.check_section(0)
    }

    /// Records that the filter reported a key present although the arena
    /// held no such entry.
    fn add_false_positive(&mut self)
        ensures
            final(self).intern == old(self).intern,
            final(self).filter == old(self).filter,
            final(self).degraded == old(self).degraded,
    {
        if self.false_positive < usize::MAX {
            self.false_positive = self.false_positive + 1;
        }
    }

    /// Appends `data` to the main section unless an entry with the same
    /// location key is already in the arena — in any section, or consumed.
    /// Returns whether the entry was newly inserted. The filter gates the
    /// exact scan; a false positive still inserts, a filter failure only
    /// degrades to always scanning, so the arena stays duplicate-free.
    pub fn push_main(&mut self, data: SitemapRef) -> (added: bool)
        requires
            old(self).inv(),
        ensures
            final(self).inv(),
            added == !old(self).has_key(data@.location),
            added ==> {
                &&& final(self).arena() == old(self).arena().push(data@)
                &&& final(self).main_view() == old(self).main_view().push(data@)
                &&& final(self).stale_view() == old(self).stale_view()
                &&& final(self).keys() == old(self).keys().insert(data@.location)
            },
            !added ==> {
                &&& final(self).arena() == old(self).arena()
                &&& final(self).main_view() == old(self).main_view()
                &&& final(self).stale_view() == old(self).stale_view()
                &&& final(self).keys() == old(self).keys()
            },
    {
        let ghost key = data@.location;
        let hit = filter_contains(&self.filter, data.location.as_str());
        if !hit && !self.degraded {
            proof {
                if old(self).has_key(key) {
                    let i = choose|i: int|
                        0 <= i < old(self).arena().len() && (#[trigger] old(self).arena()[
                            i
                        ]).location == key;
                    assert(filter_keys(old(self).filter).contains(key));
                }
            }
            let ok = filter_add(&mut self.filter, data.location.as_str());
            if !ok {
                self.degraded = true;
            }
            self.intern.push(data);
            proof {
                self.lemma_after_insert(*old(self), key);
            }
            true
        } else if !self.intern.contains(&data) {
            if hit {
                self.add_false_positive();
            }
            let ok = filter_add(&mut self.filter, data.location.as_str());
            if !ok {
                self.degraded = true;
            }
            self.intern.push(data);
            proof {
                self.lemma_after_insert(*old(self), key);
            }
            true
        } else {
            proof {
                assert_sets_equal!(self.keys(), old(self).keys());
            }
            false
        }
    }

    /// After a gated insert of a fresh key, the invariant holds again.
    proof fn lemma_after_insert(self, prev: SectionedList, key: Seq<char>)
        requires
            prev.inv(),
            !prev.has_key(key),
            self.intern.wf(),
            self.intern.num_sections() == 2,
            self.arena().len() == prev.arena().len() + 1,
            forall|i: int| 0 <= i < prev.arena().len() ==> self.arena()[i] == prev.arena()[i],
            self.arena()[prev.arena().len() as int].location == key,
            !self.degraded ==> !prev.degraded,
            !self.degraded ==> filter_keys(self.filter) == filter_keys(prev.filter).insert(key),
        ensures
            self.inv(),
    {
        assert forall|i: int, j: int|
            0 <= i < self.arena().len() && 0 <= j < self.arena().len() && i != j implies (
        #[trigger] self.arena()[i]).location != (#[trigger] self.arena()[j]).location by {
            if i < prev.arena().len() && j < prev.arena().len() {
                assert(prev.dedup_ok());
            } else if i < prev.arena().len() {
                assert(!prev.has_key(key));
                if prev.arena()[i].location == key {
                    assert(prev.has_key(key));
                }
            } else if j < prev.arena().len() {
                if prev.arena()[j].location == key {
                    assert(prev.has_key(key));
                }
            }
        }
        if !self.degraded {
            assert forall|i: int| 0 <= i < self.arena().len() implies filter_keys(
                self.filter,
            ).contains((#[trigger] self.arena()[i]).location) by {
                if i < prev.arena().len() {
                    assert(filter_keys(prev.filter).contains(prev.arena()[i].location));
                }
            }
        }
    }

    /// Borrows the entry at the front of the main section.
    pub fn peek_main(&self) -> (r: Option<&SitemapRef>)
        requires
            self.inv(),
        ensures
            r is Some <==> self.main_view().len() > 0,
            r is Some ==> r->0@ == self.main_view()[0],
    {
        self.intern.peek()
    }

    /// Moves the front entry of the main section to the back of the stale
    /// section; an empty main section is left untouched.
    pub fn skip_main(&mut self)
        requires
            old(self).inv(),
        ensures
            final(self).inv(),
            final(self).arena() == old(self).arena(),
            final(self).keys() == old(self).keys(),
            old(self).main_view().len() == 0 ==> final(self).main_view() == old(self).main_view()
                && final(self).stale_view() == old(self).stale_view(),
            old(self).main_view().len() > 0 ==> final(self).main_view() == old(
                self,
            ).main_view().drop_first() && final(self).stale_view() == old(self).stale_view().push(
                old(self).main_view()[0],
            ),
    {
        self.intern.advance();
        proof {
            self.lemma_same_arena_same_keys(*old(self));
        }
    }

    /// Two states over the same arena expose the same key set.
    proof fn lemma_same_arena_same_keys(self, prev: SectionedList)
        requires
            self.arena() == prev.arena(),
        ensures
            self.keys() == prev.keys(),
    {
        assert_sets_equal!(self.keys(), prev.keys());
    }

    /// Unlinks the front entry of the main section without re-enqueuing
    /// it anywhere: the entry stays in the arena, so its key still blocks
    /// duplicate insertions, but it belongs to no section any more.
    pub fn consume_main(&mut self)
        requires
            old(self).inv(),
        ensures
            final(self).inv(),
            final(self).arena() == old(self).arena(),
            final(self).keys() == old(self).keys(),
            final(self).stale_view() == old(self).stale_view(),
            old(self).main_view().len() == 0 ==> final(self).main_view() == old(self).main_view(),
            old(self).main_view().len() > 0 ==> final(self).main_view() == old(
                self,
            ).main_view().drop_first(),
    {
        if self.intern.check_section(0) {
            self.intern.unlink_front(0);
        }
        proof {
            self.lemma_same_arena_same_keys(*old(self));
        }
    }

    /// Replaces the resource identity recorded on the front entry of the
    /// main section; its location and everything else stay put.
    pub(crate) fn set_main_front_id(&mut self, id: ResID)
        requires
            old(self).inv(),
            old(self).main_view().len() > 0,
        ensures
            final(self).inv(),
            final(self).keys() == old(self).keys(),
            final(self).main_view() == old(self).main_view().update(
                0,
                RefView { location: old(self).main_view()[0].location, id: id@ },
            ),
            final(self).stale_view() == old(self).stale_view(),
            final(self).arena().len() == old(self).arena().len(),
            forall|i: int|
                0 <= i < old(self).arena().len() ==> (#[trigger] final(self).arena()[i]).location
                    == old(self).arena()[i].location,
    {
        self.intern.set_front_id(0, id);
        proof {
            assert(self.dedup_ok()) by {
                assert forall|i: int, j: int|
                    0 <= i < self.arena().len() && 0 <= j < self.arena().len() && i != j implies (
                #[trigger] self.arena()[i]).location != (#[trigger] self.arena()[j]).location by {
                    assert(old(self).arena()[i].location != old(self).arena()[j].location);
                }
            }
            if !self.degraded {
                assert(self.filter == old(self).filter);
                assert(!old(self).degraded);
                assert forall|i: int| 0 <= i < self.arena().len() implies filter_keys(
                    self.filter,
                ).contains((#[trigger] self.arena()[i]).location) by {
                    assert(0 <= i < old(self).arena().len());
                    assert(filter_keys(old(self).filter).contains(
                        (#[trigger] old(self).arena()[i]).location,
                    ));
                    assert(self.arena()[i].location == old(self).arena()[i].location);
                }
            }
        }
    }

    /// The number of entries waiting in the main section.
    pub fn len(&self) -> (r: usize)
        requires
            self.inv(),
        ensures
            r == self.main_view().len(),
    {
        self.intern.section_len(0)
    }

    /// The number of entries parked in the stale section.
    pub fn stale_len(&self) -> (r: usize)
        requires
            self.inv(),
        ensures
            r == self.stale_view().len(),
    {
        self.intern.section_len(1)
    }

    /// Splices the stale section onto the tail of the main section: all
    /// former stale entries follow all main entries, in their original
    /// relative order, and the stale section is left empty.
    pub fn merge(&mut self)
        requires
            old(self).inv(),
        ensures
            final(self).inv(),
            final(self).arena() == old(self).arena(),
            final(self).keys() == old(self).keys(),
            final(self).main_view() == old(self).main_view() + old(self).stale_view(),
            final(self).stale_view() == Seq::<RefView>::empty(),
    {
        self.intern.merge_sections(0, 1);
        proof {
            self.lemma_same_arena_same_keys(*old(self));
        }
    }
}

/// What it means for a queue to hold a location key: some arena entry
/// carries it.
pub proof fn lemma_has_key_arena(q: SectionedList, k: Seq<char>)
    ensures
        q.has_key(k) <==> exists|i: int|
            0 <= i < q.arena().len() && (#[trigger] q.arena()[i]).location == k,
{
}

/// The key set is exactly the keys the arena holds.
pub proof fn lemma_keys_has_key(q: SectionedList, k: Seq<char>)
    ensures
        q.keys().contains(k) <==> q.has_key(k),
{
}

/// A section never holds more entries than the arena stores.
pub proof fn lemma_main_in_arena(q: SectionedList)
    requires
        q.inv(),
    ensures
        q.main_view().len() <= q.arena().len(),
        q.stale_view().len() <= q.arena().len(),
{
    q.intern.lemma_chain_len_bounded(0);
    q.intern.lemma_chain_len_bounded(1);
}

/// Law: however the queue was built, the arena holds at most one entry
/// per distinct location key — also on insertions where the probabilistic
/// filter reported a false positive, since the exact scan gates those.
pub proof fn lemma_dedup(q: SectionedList)
    requires
        q.inv(),
    ensures
        forall|i: int, j: int|
            0 <= i < q.arena().len() && 0 <= j < q.arena().len() && i != j ==> (
            #[trigger] q.arena()[i]).location != (#[trigger] q.arena()[j]).location,
{
}

} // verus!


