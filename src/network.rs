use std::collections::HashSet;
use vstd::prelude::*;

verus! {

broadcast use vstd::std_specs::hash::group_hash_axioms;

/// One connection between two hyphae, stored with its smaller index first,
/// together with the continuous state the caller keeps on it.
#[derive(Clone, Copy)]
pub struct Link<C> {
    pub a: usize,
    pub b: usize,
    pub data: C,
}

/// The key under which the unordered pair `{a, b}` (with `a < b`) is recorded
/// in the dedup set: the two indices side by side in one 128-bit word.
pub open spec fn pair_key(a: usize, b: usize) -> u128 {
    ((a as u128) << 64u128) | (b as u128)
}

/// The keys of a sequence of links, in order.
pub open spec fn link_keys<C>(s: Seq<Link<C>>) -> Seq<u128> {
    s.map_values(|l: Link<C>| pair_key(l.a, l.b))
}

/// Every link stores its endpoints with the smaller index first.
pub open spec fn canonical<C>(s: Seq<Link<C>>) -> bool {
    forall|k: int| 0 <= k < s.len() ==> #[trigger] s[k].a < s[k].b
}

/// No two links join the same pair of hyphae.
pub open spec fn unique_pairs<C>(s: Seq<Link<C>>) -> bool {
    forall|k: int, m: int|
        0 <= k < s.len() && 0 <= m < s.len() && k != m ==> !(#[trigger] s[k].a == #[trigger] s[m].a
            && s[k].b == s[m].b)
}

/// Some link joins exactly `a` and `b`, in this order.
pub open spec fn has_pair<C>(s: Seq<Link<C>>, a: int, b: int) -> bool {
    exists|k: int| 0 <= k < s.len() && #[trigger] s[k].a == a && s[k].b == b
}

pub proof fn lemma_pair_key_injective(a: usize, b: usize, c: usize, d: usize)
    ensures
        pair_key(a, b) == pair_key(c, d) <==> (a == c && b == d),
{
    let x = a as u128;
    let y = b as u128;
    let z = c as u128;
    let w = d as u128;
    assert(x < 0x1_0000_0000_0000_0000u128 && y < 0x1_0000_0000_0000_0000u128);
    assert(z < 0x1_0000_0000_0000_0000u128 && w < 0x1_0000_0000_0000_0000u128);
    assert(((x << 64u128) | y) == ((z << 64u128) | w) <==> (x == z && y == w)) by (bit_vector)
        requires
            x < 0x1_0000_0000_0000_0000u128,
            y < 0x1_0000_0000_0000_0000u128,
            z < 0x1_0000_0000_0000_0000u128,
            w < 0x1_0000_0000_0000_0000u128,
    ;
}

proof fn lemma_push_to_set(s: Seq<u128>, x: u128)
    ensures
        s.push(x).to_set() =~= s.to_set().insert(x),
{
    assert forall|y: u128| s.push(x).contains(y) implies s.to_set().insert(x).contains(y) by {
        let k = choose|k: int| 0 <= k < s.push(x).len() && s.push(x)[k] == y;
        if k < s.len() {
            assert(s[k] == y);
        }
    }
    assert forall|y: u128| s.to_set().insert(x).contains(y) implies s.push(x).contains(y) by {
        if y == x {
            assert(s.push(x)[s.len() as int] == x);
        } else {
            let k = choose|k: int| 0 <= k < s.len() && s[k] == y;
            assert(s.push(x)[k] == y);
        }
    }
}

/// The elements of `s` whose position is marked in `keep`, in their order.
pub open spec fn masked<A>(s: Seq<A>, keep: Seq<bool>) -> Seq<A>
    decreases s.len(),
{
    if s.len() == 0 {
        Seq::empty()
    } else {
        let rest = masked(s.drop_last(), keep);
        if keep[s.len() - 1] {
            rest.push(s.last())
        } else {
            rest
        }
    }
}

/// Where a link lands when each hypha index `x` is renamed to `map[x]`
/// (`None`: the hypha is gone): the new pair, smaller index first, or `None`
/// when an endpoint is gone or both endpoints land on the same hypha.
pub open spec fn relabeled<C>(l: Link<C>, map: Seq<Option<usize>>) -> Option<(usize, usize)> {
    if l.a < map.len() && l.b < map.len() && map[l.a as int] is Some && map[l.b as int] is Some
        && map[l.a as int]->0 != map[l.b as int]->0 {
        let x = map[l.a as int]->0;
        let y = map[l.b as int]->0;
        if x < y {
            Some((x, y))
        } else {
            Some((y, x))
        }
    } else {
        None
    }
}

/// Some link joins the pair `p`, in this order.
pub open spec fn has_link_at<C>(s: Seq<Link<C>>, p: (usize, usize)) -> bool {
    has_pair(s, p.0 as int, p.1 as int)
}

/// Link `l` is where one of the first `upto` links of `src` lands under
/// `map`, and carries that link's state.
pub open spec fn derived_from<C>(l: Link<C>, src: Seq<Link<C>>, upto: int, map: Seq<Option<usize>>) -> bool {
    exists|k: int|
        0 <= k < upto && k < src.len() && relabeled(src[k], map) == Some((l.a, l.b)) && l.data
            == src[k].data
}

/// `l` is one of the first `upto` elements of `s`.
pub open spec fn in_prefix<A>(l: A, s: Seq<A>, upto: int) -> bool {
    exists|k: int| 0 <= k < upto && k < s.len() && l == s[k]
}

proof fn lemma_in_prefix_grows<A>(l: A, s: Seq<A>, upto: int)
    requires
        in_prefix(l, s, upto),
    ensures
        in_prefix(l, s, upto + 1),
{
    let k = choose|k: int| 0 <= k < upto && k < s.len() && l == s[k];
    assert(0 <= k < upto + 1);
}

proof fn lemma_derived_grows<C>(l: Link<C>, src: Seq<Link<C>>, upto: int, map: Seq<Option<usize>>)
    requires
        derived_from(l, src, upto, map),
    ensures
        derived_from(l, src, upto + 1, map),
{
    let k = choose|k: int|
        0 <= k < upto && k < src.len() && relabeled(src[k], map) == Some((l.a, l.b)) && l.data
            == src[k].data;
    assert(0 <= k < upto + 1);
}

fn make_key(a: usize, b: usize) -> (r: u128)
    ensures
        r == pair_key(a, b),
{
    ((a as u128) << 64u128) | (b as u128)
}

/// The connections of the network: a list of links and, beside it, the set of
/// their pair keys, which answers "is this pair already connected" at once.
pub struct Network<C> {
    links: Vec<Link<C>>,
    keys: HashSet<u128>,
}

impl<C> View for Network<C> {
    type V = Seq<Link<C>>;

    closed spec fn view(&self) -> Seq<Link<C>> {
        self.links@
    }
}

impl<C: Copy> Network<C> {
    /// The pair keys recorded in the dedup set.
    pub closed spec fn key_set(&self) -> Set<u128> {
        self.keys@
    }

    /// The list and the set stay in step: the set holds exactly the keys of
    /// the listed links, no key is listed twice, and every link is canonical.
    pub closed spec fn wf(&self) -> bool {
        &&& self.keys@ == link_keys(self.links@).to_set()
        &&& link_keys(self.links@).no_duplicates()
        &&& canonical(self.links@)
    }

    pub fn new() -> (r: Self)
        ensures
            r.wf(),
            r@ == Seq::<Link<C>>::empty(),
    {
        let r = Network { links: Vec::new(), keys: HashSet::new() };
        assert(link_keys(r.links@).to_set() =~= Set::empty());
        r
    }

    pub fn len(&self) -> (r: usize)
        ensures
            r == self@.len(),
    {
        self.links.len()
    }

    pub fn link(&self, k: usize) -> (r: Link<C>)
        requires
            k < self@.len(),
        ensures
            r == self@[k as int],
    {
        self.links[k]
    }

    /// Whether hyphae `i` and `j` are connected, in either order.
    pub fn contains(&self, i: usize, j: usize) -> (r: bool)
        requires
            self.wf(),
        ensures
            r == (has_pair(self@, i as int, j as int) || has_pair(self@, j as int, i as int)),
    {
        let (lo, hi) = if i <= j {
            (i, j)
        } else {
            (j, i)
        };
        let r = self.keys.contains(&make_key(lo, hi));
        proof {
            self.lemma_key_present(lo, hi);
            if has_pair(self@, hi as int, lo as int) {
                let k = choose|k: int| 0 <= k < self@.len() && #[trigger] self@[k].a == hi
                    && self@[k].b == lo;
                assert(self@[k].a < self@[k].b);
            }
        }
        r
    }

    proof fn lemma_key_present(&self, a: usize, b: usize)
        requires
            self.wf(),
        ensures
            self.keys@.contains(pair_key(a, b)) <==> has_pair(self@, a as int, b as int),
    {
        let ks = link_keys(self.links@);
        if self.keys@.contains(pair_key(a, b)) {
            assert(ks.contains(pair_key(a, b)));
            let k = choose|k: int| 0 <= k < ks.len() && ks[k] == pair_key(a, b);
            lemma_pair_key_injective(self@[k].a, self@[k].b, a, b);
            assert(self@[k].a == a && self@[k].b == b);
        }
        if has_pair(self@, a as int, b as int) {
            let k = choose|k: int| 0 <= k < self@.len() && #[trigger] self@[k].a == a && self@[k].b
                == b;
            assert(ks[k] == pair_key(a, b));
        }
    }

    /// Records a new connection between `i` and `j` unless they are the same
    /// hypha or already connected; the link is stored with the smaller index
    /// first.
    pub fn connect(&mut self, i: usize, j: usize, data: C) -> (r: bool)
        requires
            old(self).wf(),
        ensures
            final(self).wf(),
            r == (i != j && !has_pair(old(self)@, if i < j { i as int } else { j as int }, if i < j { j as int } else { i as int })),
            r ==> final(self)@ == old(self)@.push(
                Link { a: if i < j { i } else { j }, b: if i < j { j } else { i }, data },
            ),
            !r ==> final(self)@ == old(self)@,
    {
        if i == j {
            return false;
        }
        let (lo, hi) = if i < j {
            (i, j)
        } else {
            (j, i)
        };
        let key = make_key(lo, hi);
        proof {
            self.lemma_key_present(lo, hi);
        }
        if self.keys.contains(&key) {
            return false;
        }
        let ghost old_keys = link_keys(self.links@);
        self.links.push(Link { a: lo, b: hi, data });
        self.keys.insert(key);
        proof {
            let ks = link_keys(self.links@);
            assert(ks =~= old_keys.push(key));
            assert(!old_keys.contains(key));
            lemma_push_to_set(old_keys, key);
            assert(self.keys@ =~= ks.to_set());
        }
        true
    }
}

impl<C: Copy> Network<C> {
    /// Replaces the caller's state on link `k`; the endpoints stay.
    pub fn set_data(&mut self, k: usize, data: C)
        requires
            old(self).wf(),
            k < old(self)@.len(),
        ensures
            final(self).wf(),
            final(self)@ == old(self)@.update(k as int, Link { data, ..old(self)@[k as int] }),
    {
        let l = self.links[k];
        let ghost old_keys = link_keys(self.links@);
        self.links.set(k, Link { a: l.a, b: l.b, data });
        assert(link_keys(self.links@) =~= old_keys);
    }

    /// Keeps the links whose position is marked in `keep`, in their order,
    /// and drops the others from both the list and the set.
    pub fn retain_marked(&mut self, keep: &Vec<bool>)
        requires
            old(self).wf(),
            keep@.len() == old(self)@.len(),
        ensures
            final(self).wf(),
            final(self)@ == masked(old(self)@, keep@),
            forall|m: int|
                0 <= m < final(self)@.len() ==> #[trigger] in_prefix(
                    final(self)@[m],
                    old(self)@,
                    old(self)@.len() as int,
                ),
    {
        let n = self.links.len();
        let mut out: Vec<Link<C>> = Vec::new();
        let mut keys: HashSet<u128> = HashSet::new();
        let mut i: usize = 0;
        proof {
            assert(link_keys(out@).to_set() =~= Set::empty());
            assert(self.links@.take(0) =~= Seq::empty());
        }
        while i < n
            invariant
                self.wf(),
                n == self@.len(),
                keep@.len() == n,
                i <= n,
                out@ == masked(self.links@.take(i as int), keep@),
                keys@ == link_keys(out@).to_set(),
                link_keys(out@).no_duplicates(),
                canonical(out@),
                forall|m: int|
                    0 <= m < out@.len() ==> #[trigger] in_prefix(out@[m], self.links@, i as int),
            decreases n - i,
        {
            proof {
                assert(self.links@.take(i + 1).drop_last() =~= self.links@.take(i as int));
                assert forall|m: int| 0 <= m < out@.len() implies #[trigger] in_prefix(
                    out@[m],
                    self.links@,
                    i + 1,
                ) by {
                    lemma_in_prefix_grows(out@[m], self.links@, i as int);
                }
            }
            let ghost before = out@;
            if keep[i] {
                let l = self.links[i];
                let key = make_key(l.a, l.b);
                let ghost ks = link_keys(out@);
                proof {
                    if ks.contains(key) {
                        let m = choose|m: int| 0 <= m < ks.len() && ks[m] == key;
                        assert(in_prefix(out@[m], self.links@, i as int));
                        let k = choose|k: int| 0 <= k < i && k < self.links@.len() && out@[m] == self.links@[k];
                        assert(link_keys(self.links@)[k] == key);
                        assert(link_keys(self.links@)[i as int] == key);
                    }
                }
                out.push(l);
                keys.insert(key);
                proof {
                    assert(link_keys(out@) =~= ks.push(key));
                    lemma_push_to_set(ks, key);
                    assert forall|m: int| 0 <= m < out@.len() implies #[trigger] in_prefix(
                        out@[m],
                        self.links@,
                        i + 1,
                    ) by {
                        if m < before.len() {
                            assert(out@[m] == before[m]);
                            assert(in_prefix(before[m], self.links@, i + 1));
                        } else {
                            assert(out@[m] == self.links@[i as int]);
                        }
                    }
                }
            }
            i = i + 1;
        }
        proof {
            assert(self.links@.take(n as int) =~= self.links@);
        }
        self.links = out;
        self.keys = keys;
    }

    /// Renames every endpoint `x` to `map[x]`. A link whose endpoint is
    /// renamed to `None` (or lies past `map`), or whose two endpoints land on
    /// one hypha, is dropped; where several links land on one pair, the first
    /// is kept.
    pub fn relabel(&mut self, map: &Vec<Option<usize>>)
        requires
            old(self).wf(),
        ensures
            final(self).wf(),
            final(self)@.len() <= old(self)@.len(),
            forall|m: int|
                0 <= m < final(self)@.len() ==> #[trigger] derived_from(
                    final(self)@[m],
                    old(self)@,
                    old(self)@.len() as int,
                    map@,
                ),
            forall|k: int|
                0 <= k < old(self)@.len() && (#[trigger] relabeled(old(self)@[k], map@)) is Some
                    ==> has_link_at(final(self)@, relabeled(old(self)@[k], map@)->0),
    {
        let n = self.links.len();
        let mut out = Network::<C>::new();
        let mut i: usize = 0;
        while i < n
            invariant
                n == self@.len(),
                i <= n,
                out.wf(),
                out@.len() <= i,
                forall|m: int|
                    0 <= m < out@.len() ==> #[trigger] derived_from(out@[m], self@, i as int, map@),
                forall|k: int|
                    0 <= k < i && (#[trigger] relabeled(self@[k], map@)) is Some ==> has_link_at(out@, relabeled(self@[k], map@)->0),
            decreases n - i,
        {
            let l = self.links[i];
            proof {
                assert forall|m: int| 0 <= m < out@.len() implies #[trigger] derived_from(
                    out@[m],
                    self@,
                    i + 1,
                    map@,
                ) by {
                    lemma_derived_grows(out@[m], self@, i as int, map@);
                }
            }
            let ghost before = out@;
            if l.a < map.len() && l.b < map.len() {
                if let (Some(x), Some(y)) = (map[l.a], map[l.b]) {
                    if x != y {
                        let added = out.connect(x, y, l.data);
                        proof {
                            assert forall|m: int| 0 <= m < out@.len() implies #[trigger] derived_from(
                                out@[m],
                                self@,
                                i + 1,
                                map@,
                            ) by {
                                if m < before.len() {
                                    assert(out@[m] == before[m]);
                                    assert(derived_from(before[m], self@, i + 1, map@));
                                } else {
                                    assert(relabeled(self@[i as int], map@) == Some(
                                        (out@[m].a, out@[m].b),
                                    ));
                                }
                            }
                            assert forall|k: int|
                                0 <= k < i + 1 && (#[trigger] relabeled(self@[k], map@)) is Some
                                    implies has_link_at(out@, relabeled(self@[k], map@)->0) by {
                                let p = relabeled(self@[k], map@)->0;
                                if k < i {
                                    let w = choose|w: int| 0 <= w < before.len() && #[trigger] before[w].a == p.0 && before[w].b == p.1;
                                    assert(out@[w] == before[w]);
                                } else if added {
                                    assert(out@[before.len() as int].a == p.0);
                                }
                            }
                        }
                    }
                }
            }
            i = i + 1;
        }
        self.links = out.links;
        self.keys = out.keys;
    }
}

/// The list and the dedup set always agree: they have the same number of
/// entries, and a pair is in the set exactly when a listed link joins it.
pub proof fn lemma_list_matches_set<C: Copy>(net: &Network<C>)
    requires
        net.wf(),
    ensures
        net.key_set().len() == net@.len(),
        forall|a: usize, b: usize|
            #[trigger] net.key_set().contains(pair_key(a, b)) <==> has_pair(net@, a as int, b as int),
        forall|k: int| 0 <= k < net@.len() ==> net.key_set().contains(pair_key(#[trigger] net@[k].a, net@[k].b)),
{
    link_keys(net@).unique_seq_to_set();
    assert forall|a: usize, b: usize|
        #[trigger] net.key_set().contains(pair_key(a, b)) <==> has_pair(net@, a as int, b as int) by {
        net.lemma_key_present(a, b);
    }
    assert forall|k: int| 0 <= k < net@.len() implies net.key_set().contains(pair_key(#[trigger] net@[k].a, net@[k].b)) by {
        assert(link_keys(net@)[k] == pair_key(net@[k].a, net@[k].b));
    }
}

/// At most one connection exists per unordered pair of hyphae, and each is
/// stored with the smaller index first.
pub proof fn lemma_one_link_per_pair<C: Copy>(net: &Network<C>)
    requires
        net.wf(),
    ensures
        canonical(net@),
        unique_pairs(net@),
{
    assert forall|k: int, m: int|
        0 <= k < net@.len() && 0 <= m < net@.len() && k != m implies !(#[trigger] net@[k].a
            == #[trigger] net@[m].a && net@[k].b == net@[m].b) by {
        assert(link_keys(net@)[k] == pair_key(net@[k].a, net@[k].b));
        assert(link_keys(net@)[m] == pair_key(net@[m].a, net@[m].b));
    }
}

} // verus!
