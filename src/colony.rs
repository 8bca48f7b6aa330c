use vstd::prelude::*;

use crate::types::Census;
use crate::network::{
    derived_from, has_link_at, has_pair, in_prefix, masked, relabeled, Link, Network,
};

verus! {

/// A growing filament tip: whether it is alive, the index of the hypha it
/// branched from, and the continuous state the caller keeps on it.
#[derive(Clone, Copy)]
pub struct Hypha<P> {
    pub alive: bool,
    pub parent: Option<usize>,
    pub body: P,
}

/// How many positions before `i` are marked in `keep`: the new index of a
/// kept hypha after compaction.
pub open spec fn kept_before(keep: Seq<bool>, i: int) -> nat
    decreases i,
{
    if i <= 0 {
        0
    } else {
        kept_before(keep, i - 1) + if keep[i - 1] {
            1nat
        } else {
            0nat
        }
    }
}

/// The new index of each old one when the unmarked hyphae are removed.
pub open spec fn compaction_map(keep: Seq<bool>) -> Seq<Option<usize>> {
    Seq::new(
        keep.len(),
        |i: int|
            if keep[i] {
                Some(kept_before(keep, i) as usize)
            } else {
                None
            },
    )
}

/// A parent reference after compaction: gone if the parent was removed.
pub open spec fn remap_parent(parent: Option<usize>, keep: Seq<bool>) -> Option<usize> {
    match parent {
        Some(p) => if p < keep.len() && keep[p as int] {
            Some(kept_before(keep, p as int) as usize)
        } else {
            None
        },
        None => None,
    }
}

/// Hypha `h` after compaction by `keep`: the same, with its parent renamed.
pub open spec fn moved<P>(h: Hypha<P>, keep: Seq<bool>) -> Hypha<P> {
    Hypha { parent: remap_parent(h.parent, keep), ..h }
}

/// The live hyphae of `s`.
pub open spec fn live<P>(s: Seq<Hypha<P>>) -> Seq<Hypha<P>> {
    s.filter(|h: Hypha<P>| h.alive)
}

/// For each link, whether both of its endpoints are alive.
pub open spec fn live_links<P, C>(h: Seq<Hypha<P>>, l: Seq<Link<C>>) -> Seq<bool> {
    Seq::new(l.len(), |k: int| h[l[k].a as int].alive && h[l[k].b as int].alive)
}

/// The renaming under which hypha `absorbed` becomes `survivor` and every
/// other hypha keeps its index.
pub open spec fn absorb_map(n: nat, survivor: usize, absorbed: usize) -> Seq<Option<usize>> {
    Seq::new(
        n,
        |x: int|
            if x == absorbed {
                Some(survivor)
            } else {
                Some(x as usize)
            },
    )
}

/// Whether hypha `i` is dead, or marked weak: a first choice for eviction.
pub open spec fn evictable<P>(h: Seq<Hypha<P>>, weak: Seq<bool>, i: int) -> bool {
    !h[i].alive || weak[i]
}

/// How many of the positions before `i` are evictable.
pub open spec fn evictable_before<P>(h: Seq<Hypha<P>>, weak: Seq<bool>, i: int) -> nat
    decreases i,
{
    if i <= 0 {
        0
    } else {
        evictable_before(h, weak, i - 1) + if evictable(h, weak, i - 1) {
            1nat
        } else {
            0nat
        }
    }
}

/// The eviction mask when enough hyphae are evictable: the first `excess`
/// evictable hyphae, in index order, are removed and all others kept.
pub open spec fn first_evictable_removed<P>(h: Seq<Hypha<P>>, weak: Seq<bool>, excess: int) -> Seq<bool> {
    Seq::new(
        h.len(),
        |j: int| !(evictable(h, weak, j) && evictable_before(h, weak, j) < excess),
    )
}

/// `nh` and `nl` are what is left of hyphae `oh` and links `ol` when the
/// hyphae unmarked in `keep` are removed: the kept hyphae in their order, with
/// parents renamed, and the links renamed by the same map.
pub open spec fn compacted<P, C>(
    oh: Seq<Hypha<P>>,
    ol: Seq<Link<C>>,
    keep: Seq<bool>,
    nh: Seq<Hypha<P>>,
    nl: Seq<Link<C>>,
) -> bool {
    &&& keep.len() == oh.len()
    &&& nh.len() == kept_before(keep, oh.len() as int)
    &&& forall|i: int|
        0 <= i < oh.len() && keep[i] ==> #[trigger] nh[kept_before(keep, i) as int] == moved(oh[i], keep)
    &&& nl.len() <= ol.len()
    &&& forall|m: int|
        0 <= m < nl.len() ==> #[trigger] derived_from(
            nl[m],
            ol,
            ol.len() as int,
            compaction_map(keep),
        )
    &&& forall|k: int|
        0 <= k < ol.len() && (#[trigger] relabeled(ol[k], compaction_map(keep))) is Some
            ==> has_link_at(nl, relabeled(ol[k], compaction_map(keep))->0)
}

proof fn lemma_kept_before_mono(keep: Seq<bool>, i: int, j: int)
    requires
        0 <= i <= j <= keep.len(),
    ensures
        kept_before(keep, i) <= kept_before(keep, j),
        kept_before(keep, j) - kept_before(keep, i) <= j - i,
    decreases j - i,
{
    if i < j {
        lemma_kept_before_mono(keep, i, j - 1);
    }
}

proof fn lemma_kept_before_strict(keep: Seq<bool>, i: int, j: int)
    requires
        0 <= i < j <= keep.len(),
        keep[i],
    ensures
        kept_before(keep, i) < kept_before(keep, j),
{
    lemma_kept_before_mono(keep, i + 1, j);
}

proof fn lemma_kept_before_update(keep: Seq<bool>, i: int, j: int)
    requires
        0 <= i < keep.len(),
        0 <= j <= keep.len(),
        keep[i],
    ensures
        kept_before(keep.update(i, false), j) == kept_before(keep, j) - if i < j {
            1int
        } else {
            0int
        },
    decreases j,
{
    if j > 0 {
        lemma_kept_before_update(keep, i, j - 1);
    }
}

/// The hyphae of a colony and the network of connections between them.
pub struct Colony<P, C> {
    hyphae: Vec<Hypha<P>>,
    network: Network<C>,
}

impl<P: Copy, C: Copy> Colony<P, C> {
    /// The hyphae, in index order.
    pub closed spec fn hyphae_seq(&self) -> Seq<Hypha<P>> {
        self.hyphae@
    }

    /// The connections, in list order.
    pub closed spec fn links_seq(&self) -> Seq<Link<C>> {
        self.network@
    }

    /// The network of connections.
    pub closed spec fn net(&self) -> Network<C> {
        self.network
    }

    /// The network is well formed and every reference it or a parent holds
    /// points inside the population.
    pub closed spec fn wf(&self) -> bool {
        &&& self.network.wf()
        &&& forall|k: int|
            0 <= k < self.network@.len() ==> #[trigger] self.network@[k].b < self.hyphae@.len()
        &&& forall|i: int|
            0 <= i < self.hyphae@.len() && (#[trigger] self.hyphae@[i]).parent is Some
                ==> self.hyphae@[i].parent->0 < self.hyphae@.len()
    }

    pub fn new() -> (r: Self)
        ensures
            r.wf(),
            r.hyphae_seq() == Seq::<Hypha<P>>::empty(),
            r.links_seq() == Seq::<Link<C>>::empty(),
    {
        Colony { hyphae: Vec::new(), network: Network::new() }
    }

    pub fn len(&self) -> (r: usize)
        ensures
            r == self.hyphae_seq().len(),
    {
        self.hyphae.len()
    }

    pub fn hypha(&self, i: usize) -> (r: Hypha<P>)
        requires
            i < self.hyphae_seq().len(),
        ensures
            r == self.hyphae_seq()[i as int],
    {
        self.hyphae[i]
    }

    pub fn link_count(&self) -> (r: usize)
        ensures
            r == self.links_seq().len(),
    {
        self.network.len()
    }

    pub fn link(&self, k: usize) -> (r: Link<C>)
        requires
            k < self.links_seq().len(),
        ensures
            r == self.links_seq()[k as int],
    {
        self.network.link(k)
    }

    /// Whether hyphae `i` and `j` are connected.
    pub fn connected(&self, i: usize, j: usize) -> (r: bool)
        requires
            self.wf(),
        ensures
            r == (has_pair(self.links_seq(), i as int, j as int) || has_pair(
                self.links_seq(),
                j as int,
                i as int,
            )),
    {
        self.network.contains(i, j)
    }

    /// Replaces the caller's state on hypha `i`.
    pub fn set_body(&mut self, i: usize, body: P)
        requires
            old(self).wf(),
            i < old(self).hyphae_seq().len(),
        ensures
            final(self).wf(),
            final(self).hyphae_seq() == old(self).hyphae_seq().update(
                i as int,
                Hypha { body, ..old(self).hyphae_seq()[i as int] },
            ),
            final(self).links_seq() == old(self).links_seq(),
    {
        let h = self.hyphae[i];
        self.hyphae.set(i, Hypha { alive: h.alive, parent: h.parent, body });
        proof {
            assert forall|j: int|
                0 <= j < self.hyphae@.len() && (#[trigger] self.hyphae@[j]).parent is Some
                    implies self.hyphae@[j].parent->0 < self.hyphae@.len() by {
                assert(old(self).hyphae@[j].parent == self.hyphae@[j].parent);
            }
        }
    }

    /// Marks hypha `i` dead; it stays in place, inert, until compaction.
    pub fn kill(&mut self, i: usize)
        requires
            old(self).wf(),
            i < old(self).hyphae_seq().len(),
        ensures
            final(self).wf(),
            final(self).hyphae_seq() == old(self).hyphae_seq().update(
                i as int,
                Hypha { alive: false, ..old(self).hyphae_seq()[i as int] },
            ),
            final(self).links_seq() == old(self).links_seq(),
    {
        let h = self.hyphae[i];
        self.hyphae.set(i, Hypha { alive: false, parent: h.parent, body: h.body });
        proof {
            assert forall|j: int|
                0 <= j < self.hyphae@.len() && (#[trigger] self.hyphae@[j]).parent is Some
                    implies self.hyphae@[j].parent->0 < self.hyphae@.len() by {
                assert(old(self).hyphae@[j].parent == self.hyphae@[j].parent);
            }
        }
    }

    /// Adds a live hypha with no parent (a seed tip, a germinated spore, or a
    /// requested spawn) and returns its index.
    pub fn spawn(&mut self, body: P) -> (r: usize)
        requires
            old(self).wf(),
        ensures
            final(self).wf(),
            r == old(self).hyphae_seq().len(),
            final(self).hyphae_seq() == old(self).hyphae_seq().push(
                Hypha { alive: true, parent: None, body },
            ),
            final(self).links_seq() == old(self).links_seq(),
    {
        let r = self.hyphae.len();
        self.hyphae.push(Hypha { alive: true, parent: None, body });
        proof {
            assert forall|j: int|
                0 <= j < self.hyphae@.len() && (#[trigger] self.hyphae@[j]).parent is Some
                    implies self.hyphae@[j].parent->0 < self.hyphae@.len() by {
                if j < r {
                    assert(old(self).hyphae@[j] == self.hyphae@[j]);
                }
            }
        }
        r
    }

    /// Adds a live branch of hypha `parent` and returns its index.
    pub fn branch(&mut self, parent: usize, body: P) -> (r: usize)
        requires
            old(self).wf(),
            parent < old(self).hyphae_seq().len(),
        ensures
            final(self).wf(),
            r == old(self).hyphae_seq().len(),
            final(self).hyphae_seq() == old(self).hyphae_seq().push(
                Hypha { alive: true, parent: Some(parent), body },
            ),
            final(self).links_seq() == old(self).links_seq(),
    {
        let r = self.hyphae.len();
        self.hyphae.push(Hypha { alive: true, parent: Some(parent), body });
        proof {
            assert forall|j: int|
                0 <= j < self.hyphae@.len() && (#[trigger] self.hyphae@[j]).parent is Some
                    implies self.hyphae@[j].parent->0 < self.hyphae@.len() by {
                if j < r {
                    assert(old(self).hyphae@[j] == self.hyphae@[j]);
                }
            }
        }
        r
    }
}

impl<P: Copy, C: Copy> Colony<P, C> {
    /// Connects two live hyphae unless they are the same or already
    /// connected; out-of-range or dead hyphae are skipped.
    pub fn connect(&mut self, i: usize, j: usize, data: C) -> (r: bool)
        requires
            old(self).wf(),
        ensures
            final(self).wf(),
            final(self).hyphae_seq() == old(self).hyphae_seq(),
            r == (i < old(self).hyphae_seq().len() && j < old(self).hyphae_seq().len()
                && old(self).hyphae_seq()[i as int].alive && old(self).hyphae_seq()[j as int].alive
                && i != j && !has_pair(
                old(self).links_seq(),
                if i < j { i as int } else { j as int },
                if i < j { j as int } else { i as int },
            )),
            r ==> final(self).links_seq() == old(self).links_seq().push(
                Link { a: if i < j { i } else { j }, b: if i < j { j } else { i }, data },
            ),
            !r ==> final(self).links_seq() == old(self).links_seq(),
    {
        if i >= self.hyphae.len() || j >= self.hyphae.len() {
            return false;
        }
        if !self.hyphae[i].alive || !self.hyphae[j].alive {
            return false;
        }
        let r = self.network.connect(i, j, data);
        proof {
            assert forall|k: int| 0 <= k < self.network@.len() implies #[trigger] self.network@[k].b
                < self.hyphae@.len() by {
                if k < old(self).network@.len() {
                    assert(self.network@[k] == old(self).network@[k]);
                }
            }
        }
        r
    }

    /// Replaces the caller's state on link `k`.
    pub fn set_link_data(&mut self, k: usize, data: C)
        requires
            old(self).wf(),
            k < old(self).links_seq().len(),
        ensures
            final(self).wf(),
            final(self).hyphae_seq() == old(self).hyphae_seq(),
            final(self).links_seq() == old(self).links_seq().update(
                k as int,
                Link { data, ..old(self).links_seq()[k as int] },
            ),
    {
        self.network.set_data(k, data);
        proof {
            assert forall|m: int| 0 <= m < self.network@.len() implies #[trigger] self.network@[m].b
                < self.hyphae@.len() by {
                assert(self.network@[m].b == old(self).network@[m].b);
            }
        }
    }

    proof fn lemma_retained_in_bounds(&self, old_net: Seq<Link<C>>)
        requires
            forall|k: int| 0 <= k < old_net.len() ==> #[trigger] old_net[k].b < self.hyphae@.len(),
            forall|m: int|
                0 <= m < self.network@.len() ==> #[trigger] in_prefix(
                    self.network@[m],
                    old_net,
                    old_net.len() as int,
                ),
        ensures
            forall|m: int|
                0 <= m < self.network@.len() ==> #[trigger] self.network@[m].b < self.hyphae@.len(),
    {
        assert forall|m: int| 0 <= m < self.network@.len() implies #[trigger] self.network@[m].b
            < self.hyphae@.len() by {
            assert(in_prefix(self.network@[m], old_net, old_net.len() as int));
            let k = choose|k: int| 0 <= k < old_net.len() && k < old_net.len() && self.network@[m] == old_net[k];
            assert(old_net[k].b < self.hyphae@.len());
        }
    }

    /// Removes every connection that has a dead endpoint.
    pub fn drop_dead_links(&mut self)
        requires
            old(self).wf(),
        ensures
            final(self).wf(),
            final(self).hyphae_seq() == old(self).hyphae_seq(),
            final(self).links_seq() == masked(
                old(self).links_seq(),
                live_links(old(self).hyphae_seq(), old(self).links_seq()),
            ),
    {
        let n = self.network.len();
        let mut keep: Vec<bool> = Vec::new();
        let mut k: usize = 0;
        while k < n
            invariant
                self.wf(),
                n == self.network@.len(),
                k <= n,
                keep@.len() == k,
                forall|m: int| 0 <= m < k ==> keep@[m] == #[trigger] live_links(self.hyphae@, self.network@)[m],
            decreases n - k,
        {
            let l = self.network.link(k);
            proof {
                lemma_one_link_canonical(&self.network, k as int);
            }
            keep.push(self.hyphae[l.a].alive && self.hyphae[l.b].alive);
            k = k + 1;
        }
        assert(keep@ =~= live_links(self.hyphae@, self.network@));
        let ghost old_net = self.network@;
        self.network.retain_marked(&keep);
        proof {
            self.lemma_retained_in_bounds(old_net);
        }
    }

    /// Keeps the connections marked in `keep` and removes the others.
    pub fn prune_links(&mut self, keep: &Vec<bool>)
        requires
            old(self).wf(),
            keep@.len() == old(self).links_seq().len(),
        ensures
            final(self).wf(),
            final(self).hyphae_seq() == old(self).hyphae_seq(),
            final(self).links_seq() == masked(old(self).links_seq(), keep@),
    {
        let ghost old_net = self.network@;
        self.network.retain_marked(keep);
        proof {
            self.lemma_retained_in_bounds(old_net);
        }
    }

    /// Fuses hypha `absorbed` into `survivor`: every connection of the
    /// absorbed hypha is re-pointed onto the survivor (a connection between
    /// the two, or one the survivor already has, is dropped), and the
    /// absorbed hypha is marked dead, to be removed at the next compaction.
    pub fn absorb(&mut self, survivor: usize, absorbed: usize)
        requires
            old(self).wf(),
            survivor < old(self).hyphae_seq().len(),
            absorbed < old(self).hyphae_seq().len(),
            survivor != absorbed,
        ensures
            final(self).wf(),
            final(self).hyphae_seq() == old(self).hyphae_seq().update(
                absorbed as int,
                Hypha { alive: false, ..old(self).hyphae_seq()[absorbed as int] },
            ),
            forall|m: int|
                0 <= m < final(self).links_seq().len() ==> #[trigger] derived_from(
                    final(self).links_seq()[m],
                    old(self).links_seq(),
                    old(self).links_seq().len() as int,
                    absorb_map(old(self).hyphae_seq().len(), survivor, absorbed),
                ),
            forall|k: int|
                0 <= k < old(self).links_seq().len() && (#[trigger] relabeled(
                    old(self).links_seq()[k],
                    absorb_map(old(self).hyphae_seq().len(), survivor, absorbed),
                )) is Some ==> has_link_at(
                    final(self).links_seq(),
                    relabeled(
                        old(self).links_seq()[k],
                        absorb_map(old(self).hyphae_seq().len(), survivor, absorbed),
                    )->0,
                ),
            forall|m: int|
                0 <= m < final(self).links_seq().len() ==> (#[trigger] final(self).links_seq()[m]).a
                    != absorbed && final(self).links_seq()[m].b != absorbed,
    {
        let n = self.hyphae.len();
        let mut map: Vec<Option<usize>> = Vec::new();
        let mut x: usize = 0;
        while x < n
            invariant
                x <= n,
                n == self.hyphae@.len(),
                map@.len() == x,
                forall|y: int| 0 <= y < x ==> map@[y] == #[trigger] absorb_map(n as nat, survivor, absorbed)[y],
            decreases n - x,
        {
            if x == absorbed {
                map.push(Some(survivor));
            } else {
                map.push(Some(x));
            }
            x = x + 1;
        }
        assert(map@ =~= absorb_map(n as nat, survivor, absorbed));
        let ghost old_net = self.network@;
        self.network.relabel(&map);
        proof {
            assert forall|m: int| 0 <= m < self.network@.len() implies (#[trigger] self.network@[m]).a
                != absorbed && self.network@[m].b != absorbed && self.network@[m].b < n by {
                assert(derived_from(self.network@[m], old_net, old_net.len() as int, map@));
                let k = choose|k: int|
                    0 <= k < old_net.len() && k < old_net.len() && relabeled(old_net[k], map@) == Some(
                        (self.network@[m].a, self.network@[m].b),
                    ) && self.network@[m].data == old_net[k].data;
                assert(old_net[k].a < old_net[k].b) by {
                    lemma_one_link_canonical(&old(self).network, k);
                }
            }
        }
        self.kill(absorbed);
    }

    /// The live counts: hyphae alive in the colony, spores marked alive in
    /// `spores_alive`, connections, and the `fruit_bodies` given.
    pub fn census(&self, spores_alive: &Vec<bool>, fruit_bodies: usize) -> (r: Census)
        ensures
            r.hyphae == live(self.hyphae_seq()).len(),
            r.spores == spores_alive@.filter(|b: bool| b).len(),
            r.connections == self.links_seq().len(),
            r.fruit_bodies == fruit_bodies,
    {
        let hyphae = self.alive_count();
        let n = spores_alive.len();
        let mut spores: usize = 0;
        let mut i: usize = 0;
        while i < n
            invariant
                n == spores_alive@.len(),
                i <= n,
                spores == spores_alive@.take(i as int).filter(|b: bool| b).len(),
                spores <= i,
            decreases n - i,
        {
            proof {
                assert(spores_alive@.take(i + 1) =~= spores_alive@.take(i as int).push(spores_alive@[i as int]));
                spores_alive@.take(i as int).lemma_filter_push(spores_alive@[i as int], |b: bool| b);
            }
            if spores_alive[i] {
                spores = spores + 1;
            }
            i = i + 1;
        }
        assert(spores_alive@.take(n as int) =~= spores_alive@);
        Census { hyphae, spores, connections: self.network.len(), fruit_bodies }
    }

    /// Number of live hyphae.
    pub fn alive_count(&self) -> (r: usize)
        ensures
            r == live(self.hyphae_seq()).len(),
    {
        let n = self.hyphae.len();
        let mut count: usize = 0;
        let mut i: usize = 0;
        while i < n
            invariant
                n == self.hyphae@.len(),
                i <= n,
                count == live(self.hyphae@.take(i as int)).len(),
                count <= i,
            decreases n - i,
        {
            proof {
                assert(self.hyphae@.take(i + 1) =~= self.hyphae@.take(i as int).push(self.hyphae@[i as int]));
                self.hyphae@.take(i as int).lemma_filter_push(self.hyphae@[i as int], |h: Hypha<P>| h.alive);
            }
            if self.hyphae[i].alive {
                count = count + 1;
            }
            i = i + 1;
        }
        assert(self.hyphae@.take(n as int) =~= self.hyphae@);
        count
    }
}

impl<P: Copy, C: Copy> Colony<P, C> {
    /// Removes the hyphae unmarked in `keep`. The kept ones close up in their
    /// order; parent references and connection endpoints follow them to their
    /// new indices, and a reference to a removed hypha is cleared (a parent)
    /// or dropped with its connection.
    pub fn compact(&mut self, keep: &Vec<bool>)
        requires
            old(self).wf(),
            keep@.len() == old(self).hyphae_seq().len(),
        ensures
            final(self).wf(),
            compacted(
                old(self).hyphae_seq(),
                old(self).links_seq(),
                keep@,
                final(self).hyphae_seq(),
                final(self).links_seq(),
            ),
    {
        let n = self.hyphae.len();
        let mut map: Vec<Option<usize>> = Vec::new();
        let mut count: usize = 0;
        let mut i: usize = 0;
        while i < n
            invariant
                n == keep@.len(),
                i <= n,
                map@.len() == i,
                count == kept_before(keep@, i as int),
                forall|x: int| 0 <= x < i ==> map@[x] == #[trigger] compaction_map(keep@)[x],
            decreases n - i,
        {
            proof {
                lemma_kept_before_mono(keep@, 0, i as int);
            }
            if keep[i] {
                map.push(Some(count));
                count = count + 1;
            } else {
                map.push(None);
            }
            i = i + 1;
        }
        assert(map@ =~= compaction_map(keep@));
        let ghost total = kept_before(keep@, n as int);
        let mut out: Vec<Hypha<P>> = Vec::new();
        i = 0;
        while i < n
            invariant
                n == keep@.len(),
                n == self.hyphae@.len(),
                i <= n,
                map@ == compaction_map(keep@),
                total == kept_before(keep@, n as int),
                out@.len() == kept_before(keep@, i as int),
                forall|j: int|
                    0 <= j < i && keep@[j] ==> #[trigger] out@[kept_before(keep@, j) as int]
                        == moved(self.hyphae@[j], keep@),
                forall|m: int|
                    0 <= m < out@.len() && (#[trigger] out@[m]).parent is Some ==> out@[m].parent->0
                        < total,
            decreases n - i,
        {
            if keep[i] {
                let h = self.hyphae[i];
                let parent = match h.parent {
                    Some(p) => if p < n {
                        map[p]
                    } else {
                        None
                    },
                    None => None,
                };
                proof {
                    if parent is Some {
                        let p = h.parent->0;
                        lemma_kept_before_strict(keep@, p as int, n as int);
                    }
                }
                let ghost before = out@;
                out.push(Hypha { alive: h.alive, parent, body: h.body });
                proof {
                    assert forall|j: int|
                        0 <= j < i + 1 && keep@[j] implies #[trigger] out@[kept_before(keep@, j) as int]
                            == moved(self.hyphae@[j], keep@) by {
                        if j < i {
                            lemma_kept_before_strict(keep@, j, i as int);
                            assert(out@[kept_before(keep@, j) as int] == before[kept_before(keep@, j) as int]);
                        }
                    }
                }
            }
            i = i + 1;
        }
        let ghost old_net = self.network@;
        self.hyphae = out;
        self.network.relabel(&map);
        proof {
            assert forall|m: int| 0 <= m < self.network@.len() implies #[trigger] self.network@[m].b
                < self.hyphae@.len() by {
                assert(derived_from(self.network@[m], old_net, old_net.len() as int, map@));
                let k = choose|k: int|
                    0 <= k < old_net.len() && k < old_net.len() && relabeled(old_net[k], map@) == Some(
                        (self.network@[m].a, self.network@[m].b),
                    ) && self.network@[m].data == old_net[k].data;
                let l = old_net[k];
                assert(l.a < l.b) by {
                    lemma_one_link_canonical(&old(self).network, k);
                }
                lemma_kept_before_strict(keep@, l.a as int, n as int);
                lemma_kept_before_strict(keep@, l.b as int, n as int);
            }
        }
    }

    /// Removes every dead hypha (see `compact`) and returns the mask of the
    /// hyphae that stayed.
    pub fn remove_dead(&mut self) -> (keep: Vec<bool>)
        requires
            old(self).wf(),
        ensures
            final(self).wf(),
            keep@.len() == old(self).hyphae_seq().len(),
            forall|i: int| 0 <= i < keep@.len() ==> keep@[i] == (#[trigger] old(self).hyphae_seq()[i]).alive,
            compacted(
                old(self).hyphae_seq(),
                old(self).links_seq(),
                keep@,
                final(self).hyphae_seq(),
                final(self).links_seq(),
            ),
            forall|i: int| 0 <= i < final(self).hyphae_seq().len() ==> (#[trigger] final(self).hyphae_seq()[i]).alive,
            final(self).hyphae_seq().len() == live(old(self).hyphae_seq()).len(),
    {
        let n = self.hyphae.len();
        let mut keep: Vec<bool> = Vec::new();
        let mut i: usize = 0;
        while i < n
            invariant
                n == self.hyphae@.len(),
                i <= n,
                keep@.len() == i,
                forall|j: int| 0 <= j < i ==> keep@[j] == (#[trigger] self.hyphae@[j]).alive,
            decreases n - i,
        {
            keep.push(self.hyphae[i].alive);
            i = i + 1;
        }
        self.compact(&keep);
        proof {
            lemma_kept_is_live(old(self).hyphae@, keep@, n as int);
            assert(old(self).hyphae@.take(n as int) =~= old(self).hyphae@);
            lemma_compacted_covers(keep@, n as int);
            assert forall|i: int| 0 <= i < self.hyphae@.len() implies (#[trigger] self.hyphae@[i]).alive by {
                assert(new_index_of_kept(keep@, n as int, i));
                let j = choose|j: int| 0 <= j < n && keep@[j] && kept_before(keep@, j) == i;
                assert(self.hyphae@[kept_before(keep@, j) as int].alive == old(self).hyphae@[j].alive);
            }
        }
        keep
    }
}

proof fn lemma_kept_is_live<P>(h: Seq<Hypha<P>>, keep: Seq<bool>, n: int)
    requires
        0 <= n <= h.len(),
        keep.len() == h.len(),
        forall|i: int| 0 <= i < keep.len() ==> keep[i] == (#[trigger] h[i]).alive,
    ensures
        kept_before(keep, n) == live(h.take(n)).len(),
    decreases n,
{
    if n > 0 {
        lemma_kept_is_live(h, keep, n - 1);
        assert(h.take(n) =~= h.take(n - 1).push(h[n - 1]));
        h.take(n - 1).lemma_filter_push(h[n - 1], |x: Hypha<P>| x.alive);
    }
}

/// `m` is the new index of one of the first `n` positions kept in `keep`.
spec fn new_index_of_kept(keep: Seq<bool>, n: int, m: int) -> bool {
    exists|j: int| 0 <= j < n && keep[j] && kept_before(keep, j) == m
}

/// Every index below the number of kept positions is the new index of some
/// kept position.
proof fn lemma_compacted_covers(keep: Seq<bool>, n: int)
    requires
        0 <= n <= keep.len(),
    ensures
        forall|m: int| 0 <= m < kept_before(keep, n) ==> #[trigger] new_index_of_kept(keep, n, m),
    decreases n,
{
    if n > 0 {
        lemma_compacted_covers(keep, n - 1);
        assert forall|m: int| 0 <= m < kept_before(keep, n) implies #[trigger] new_index_of_kept(
            keep,
            n,
            m,
        ) by {
            if m < kept_before(keep, n - 1) {
                assert(new_index_of_kept(keep, n - 1, m));
                let j = choose|j: int| 0 <= j < n - 1 && keep[j] && kept_before(keep, j) == m;
                assert(0 <= j < n);
            } else {
                assert(keep[n - 1] && kept_before(keep, n - 1) == m);
            }
        }
    }
}

impl<P: Copy, C: Copy> Colony<P, C> {
    /// Enforces a population cap: when `cap > 0` and the colony holds more
    /// than `cap` hyphae, the excess is removed (see `compact`). Dead hyphae
    /// and those marked in `weak` go first, in index order; then the hyphae
    /// listed in `by_age` (oldest first), in that order; then, should that
    /// still not be enough, the highest indices. Returns the mask of the
    /// hyphae that stayed.
    pub fn enforce_cap(&mut self, cap: usize, weak: &Vec<bool>, by_age: &Vec<usize>) -> (keep: Vec<bool>)
        requires
            old(self).wf(),
            weak@.len() == old(self).hyphae_seq().len(),
        ensures
            final(self).wf(),
            keep@.len() == old(self).hyphae_seq().len(),
            cap == 0 || old(self).hyphae_seq().len() <= cap ==> {
                &&& forall|i: int| 0 <= i < keep@.len() ==> #[trigger] keep@[i]
                &&& final(self).hyphae_seq() == old(self).hyphae_seq()
                &&& final(self).links_seq() == old(self).links_seq()
            },
            cap > 0 ==> final(self).hyphae_seq().len() <= cap,
            cap > 0 && old(self).hyphae_seq().len() > cap ==> {
                &&& final(self).hyphae_seq().len() == cap
                &&& compacted(
                    old(self).hyphae_seq(),
                    old(self).links_seq(),
                    keep@,
                    final(self).hyphae_seq(),
                    final(self).links_seq(),
                )
            },
            cap > 0 && old(self).hyphae_seq().len() > cap && evictable_before(
                old(self).hyphae_seq(),
                weak@,
                old(self).hyphae_seq().len() as int,
            ) >= old(self).hyphae_seq().len() - cap ==> keep@ == first_evictable_removed(
                old(self).hyphae_seq(),
                weak@,
                old(self).hyphae_seq().len() - cap,
            ),
    {
        let n = self.hyphae.len();
        let mut keep: Vec<bool> = Vec::new();
        let mut i: usize = 0;
        while i < n
            invariant
                i <= n,
                keep@.len() == i,
                forall|j: int| 0 <= j < i ==> #[trigger] keep@[j],
            decreases n - i,
        {
            keep.push(true);
            i = i + 1;
        }
        if cap == 0 || n <= cap {
            return keep;
        }
        let excess = n - cap;
        let ghost h = self.hyphae@;
        let mut count: usize = 0;
        proof {
            lemma_kept_before_all(keep@, n as int);
        }
        i = 0;
        while i < n
            invariant
                h == self.hyphae@,
                n == h.len(),
                weak@.len() == n,
                keep@.len() == n,
                i <= n,
                excess == n - cap,
                0 < cap < n,
                count == if evictable_before(h, weak@, i as int) < excess {
                    evictable_before(h, weak@, i as int)
                } else {
                    excess as nat
                },
                forall|j: int| 0 <= j < i ==> keep@[j] == #[trigger] first_evictable_removed(h, weak@, excess as int)[j],
                forall|j: int| i <= j < n ==> #[trigger] keep@[j],
                kept_before(keep@, n as int) + count == n,
            decreases n - i,
        {
            if count < excess && (!self.hyphae[i].alive || weak[i]) {
                proof {
                    lemma_kept_before_update(keep@, i as int, n as int);
                }
                keep.set(i, false);
                count = count + 1;
            }
            i = i + 1;
        }
        let ghost after_first = keep@;
        let ghost first_count = count;
        let mut t: usize = 0;
        while t < by_age.len()
            invariant
                keep@.len() == n,
                count <= excess,
                kept_before(keep@, n as int) + count == n,
                first_count == excess ==> keep@ == after_first && count == excess,
            decreases by_age.len() - t,
        {
            if count < excess {
                let idx = by_age[t];
                if idx < n && keep[idx] {
                    proof {
                        lemma_kept_before_update(keep@, idx as int, n as int);
                    }
                    keep.set(idx, false);
                    count = count + 1;
                }
            }
            t = t + 1;
        }
        i = n;
        while i > 0
            invariant
                keep@.len() == n,
                i <= n,
                count <= excess,
                kept_before(keep@, n as int) + count == n,
                first_count == excess ==> keep@ == after_first && count == excess,
                count == excess || kept_before(keep@, n as int) == kept_before(keep@, i as int),
            decreases i,
        {
            i = i - 1;
            if count < excess && keep[i] {
                proof {
                    lemma_kept_before_update(keep@, i as int, n as int);
                    lemma_kept_before_update(keep@, i as int, i as int);
                }
                keep.set(i, false);
                count = count + 1;
            }
        }
        assert(count == excess);
        self.compact(&keep);
        keep
    }
}

proof fn lemma_kept_before_all(keep: Seq<bool>, n: int)
    requires
        0 <= n <= keep.len(),
        forall|j: int| 0 <= j < n ==> #[trigger] keep[j],
    ensures
        kept_before(keep, n) == n,
    decreases n,
{
    if n > 0 {
        lemma_kept_before_all(keep, n - 1);
    }
}

/// A colony's connections form a well-formed network: its list is the
/// colony's link list, so the network's laws (list and dedup set in step, one
/// canonical link per pair) hold of every colony.
pub proof fn lemma_colony_network<P: Copy, C: Copy>(c: &Colony<P, C>)
    requires
        c.wf(),
    ensures
        c.net().wf(),
        c.net()@ == c.links_seq(),
{
}

proof fn lemma_one_link_canonical<C: Copy>(net: &Network<C>, k: int)
    requires
        net.wf(),
        0 <= k < net@.len(),
    ensures
        net@[k].a < net@[k].b,
{
    crate::network::lemma_one_link_per_pair(net);
}

/// Every connection endpoint and every parent reference lies inside the
/// population.
pub proof fn lemma_references_in_bounds<P: Copy, C: Copy>(c: &Colony<P, C>)
    requires
        c.wf(),
    ensures
        forall|k: int|
            0 <= k < c.links_seq().len() ==> #[trigger] c.links_seq()[k].a < c.hyphae_seq().len()
                && c.links_seq()[k].b < c.hyphae_seq().len(),
        forall|i: int|
            0 <= i < c.hyphae_seq().len() && (#[trigger] c.hyphae_seq()[i]).parent is Some
                ==> c.hyphae_seq()[i].parent->0 < c.hyphae_seq().len(),
{
    assert forall|k: int| 0 <= k < c.links_seq().len() implies #[trigger] c.links_seq()[k].a
        < c.hyphae_seq().len() && c.links_seq()[k].b < c.hyphae_seq().len() by {
        lemma_one_link_canonical(&c.network, k);
    }
}

} // verus!
