//! Which BINs a mod actually loads.
//!
//! Roots are the skin BINs that the archive ships; each root's declared links are
//! followed exactly once. When nothing can be established the answer is `None`, and
//! then everything has to be inspected: reachability only ever shrinks what is
//! considered.

use std::collections::{HashMap, HashSet};
use vstd::prelude::*;
use vstd::string::*;
use crate::hashing::PathHasher;
use crate::text::{decimal, decimal_text, lemma_take_next, texts};
use crate::traits::BinProvider;

verus! {

/// Highest skin slot probed.
pub const MAX_SLOT: u32 = 200;

/// What a mod's shipped skins pull in.
pub struct Reachability {
    /// Chunk hashes that load: every shipped skin root, and each root's links.
    pub reachable: HashSet<u64>,
    /// Skin root chunk hash to its slot number, for roots actually present.
    pub skin_slot: HashMap<u64, u32>,
}

impl Reachability {
    /// Whether a BIN loads.
    pub fn loads(&self, chunk_hash: u64) -> (r: bool)
        ensures
            r == self.reachable@.contains(chunk_hash),
    {
        broadcast use vstd::std_specs::hash::group_hash_axioms;
        self.reachable.contains(&chunk_hash)
    }

    /// Slot number when this chunk is a skin root.
    pub fn slot_of(&self, chunk_hash: u64) -> (r: Option<u32>)
        ensures
            r is Some <==> self.skin_slot@.contains_key(chunk_hash),
            r matches Some(n) ==> self.skin_slot@[chunk_hash] == n,
    {
        broadcast use vstd::std_specs::hash::group_hash_axioms;
        match self.skin_slot.get(&chunk_hash) {
            Some(n) => Some(*n),
            None => None,
        }
    }
}

/// `data/characters/{champion}/animations/skin{slot}.bin`
pub open spec fn animation_path(champion: Seq<char>, slot: u32) -> Seq<char> {
    "data/characters/"@ + champion + "/animations/skin"@ + decimal(slot as nat) + ".bin"@
}

/// `data/characters/{champion}/skins/skin{slot}.bin`
pub open spec fn skin_path(champion: Seq<char>, slot: u32) -> Seq<char> {
    "data/characters/"@ + champion + "/skins/skin"@ + decimal(slot as nat) + ".bin"@
}

/// Canonical animation BIN path for a champion slot.
pub fn animation_bin_path(champion: &str, slot: u32) -> (r: String)
    ensures
        r@ == animation_path(champion@, slot),
{
    let mut s = "data/characters/".to_owned();
    s.append(champion);
    s.append("/animations/skin");
    s.append(decimal_text(slot as u64).as_str());
    s.append(".bin");
    s
}

/// Skin BIN path for a champion slot.
pub fn skin_bin_path(champion: &str, slot: u32) -> (r: String)
    ensures
        r@ == skin_path(champion@, slot),
{
    let mut s = "data/characters/".to_owned();
    s.append(champion);
    s.append("/skins/skin");
    s.append(decimal_text(slot as u64).as_str());
    s.append(".bin");
    s
}

/// The hashes of the animation BINs of the slots below `n`, each with its slot.
pub open spec fn animation_slots<H: PathHasher>(champion: Seq<char>, hasher: H, n: nat) -> Map<u64, u32>
    decreases n,
{
    if n == 0 {
        Map::empty()
    } else {
        let slot = (n - 1) as u32;
        animation_slots(champion, hasher, (n - 1) as nat).insert(hasher.of(animation_path(champion, slot)), slot)
    }
}

/// Animation BIN chunk hash to slot, for every slot of one champion.
pub fn animation_bin_slots<H: PathHasher>(champion: &str, hasher: &H) -> (r: HashMap<u64, u32>)
    ensures
        r@ == animation_slots(champion@, *hasher, (MAX_SLOT + 1) as nat),
{
    broadcast use vstd::std_specs::hash::group_hash_axioms;
    let mut out: HashMap<u64, u32> = HashMap::new();
    let mut n: u32 = 0;
    while n <= MAX_SLOT
        invariant
            n <= MAX_SLOT + 1,
            out@ == animation_slots(champion@, *hasher, n as nat),
        decreases MAX_SLOT + 1 - n,
    {
        broadcast use vstd::std_specs::hash::group_hash_axioms;
        let path = animation_bin_path(champion, n);
        out.insert(hasher.hash(path.as_str()), n);
        n = n + 1;
    }
    out
}

/// The BINs that an archive ships: chunk hashes, each with its declared links, or
/// `None` where the BIN cannot be read.
pub struct ShippedBins {
    pub entries: Vec<(u64, Option<Vec<String>>)>,
}

impl ShippedBins {
    /// The archive ships this chunk at `i`.
    pub open spec fn is_at(&self, hash: u64, i: int) -> bool {
        0 <= i < self.entries@.len() && self.entries@[i].0 == hash && forall|j: int|
            0 <= j < i ==> (#[trigger] self.entries@[j]).0 != hash
    }

    /// The archive ships this chunk.
    pub open spec fn ships(&self, hash: u64) -> bool {
        exists|i: int| self.is_at(hash, i)
    }

    /// The links that this chunk declares, where it can be read.
    pub open spec fn links(&self, hash: u64) -> Option<Seq<Seq<char>>> {
        if self.ships(hash) {
            match self.entries@[choose|i: int| self.is_at(hash, i)].1 {
                Some(v) => Some(texts(v@)),
                None => None,
            }
        } else {
            None
        }
    }

    fn find(&self, hash: u64) -> (r: Option<usize>)
        ensures
            r is Some <==> self.ships(hash),
            r matches Some(i) ==> i < self.entries@.len() && self.links(hash) == (match self.entries@[i as int].1 {
                Some(v) => Some(texts(v@)),
                None => None,
            }),
    {
        let mut i: usize = 0;
        while i < self.entries.len()
            invariant
                i <= self.entries@.len(),
                forall|j: int| 0 <= j < i ==> (#[trigger] self.entries@[j]).0 != hash,
            decreases self.entries@.len() - i,
        {
            if self.entries[i].0 == hash {
                assert(self.is_at(hash, i as int));
                let ghost k = choose|k: int| self.is_at(hash, k);
                assert(self.is_at(hash, k));
                assert(k == i) by {
                    if k < i {
                        assert(self.entries@[k].0 != hash);
                    }
                    if k > i {
                        assert(self.entries@[i as int].0 != hash);
                    }
                }
                return Some(i);
            }
            i = i + 1;
        }
        assert(forall|k: int| !self.is_at(hash, k));
        None
    }
}

/// What has been established so far.
pub struct Reach {
    pub reachable: Set<u64>,
    pub slots: Map<u64, u32>,
    /// A skin root could be read.
    pub read: bool,
}

/// `set` with the hashes of `links` added.
pub open spec fn with_links<H: PathHasher>(set: Set<u64>, links: Seq<Seq<char>>, hasher: H) -> Set<u64>
    decreases links.len(),
{
    if links.len() == 0 {
        set
    } else {
        with_links(set, links.drop_last(), hasher).insert(hasher.of(links.last()))
    }
}

/// One skin slot of a champion: where it is shipped it loads, and so do its links
/// where they can be read.
pub open spec fn slot_step<H: PathHasher>(st: Reach, champ: Seq<char>, n: u32, hasher: H, shipped: ShippedBins) -> Reach {
    let root = hasher.of(skin_path(champ, n));
    if !shipped.ships(root) {
        st
    } else {
        match shipped.links(root) {
            None => Reach { reachable: st.reachable.insert(root), slots: st.slots.insert(root, n), read: st.read },
            Some(links) => Reach {
                reachable: with_links(st.reachable.insert(root), links, hasher),
                slots: st.slots.insert(root, n),
                read: true,
            },
        }
    }
}

/// The slots of a champion below `n`.
pub open spec fn slots_below<H: PathHasher>(st: Reach, champ: Seq<char>, n: nat, hasher: H, shipped: ShippedBins) -> Reach
    decreases n,
{
    if n == 0 {
        st
    } else {
        slot_step(slots_below(st, champ, (n - 1) as nat, hasher, shipped), champ, (n - 1) as u32, hasher, shipped)
    }
}

/// One champion: all its slots, provided that its base skin is shipped.
pub open spec fn champion_step<H: PathHasher>(st: Reach, champ: Seq<char>, hasher: H, shipped: ShippedBins) -> Reach {
    if shipped.ships(hasher.of(skin_path(champ, 0))) {
        slots_below(st, champ, (MAX_SLOT + 1) as nat, hasher, shipped)
    } else {
        st
    }
}

/// All champions in order.
pub open spec fn reach<H: PathHasher>(champs: Seq<Seq<char>>, hasher: H, shipped: ShippedBins) -> Reach
    decreases champs.len(),
{
    if champs.len() == 0 {
        Reach { reachable: Set::empty(), slots: Map::empty(), read: false }
    } else {
        champion_step(reach(champs.drop_last(), hasher, shipped), champs.last(), hasher, shipped)
    }
}

/// Determine what loads.
///
/// `None` when no skin root could be read at all, which means "inspect everything".
pub fn compute<H: PathHasher>(champions: &Vec<String>, hasher: &H, shipped: &ShippedBins) -> (r: Option<Reachability>)
    ensures
        r is Some <==> reach(texts(champions@), *hasher, *shipped).read,
        r matches Some(x) ==> x.reachable@ == reach(texts(champions@), *hasher, *shipped).reachable
            && x.skin_slot@ == reach(texts(champions@), *hasher, *shipped).slots,
{
    broadcast use vstd::std_specs::hash::group_hash_axioms;
    let ghost champs = texts(champions@);
    let mut reachable: HashSet<u64> = HashSet::new();
    let mut skin_slot: HashMap<u64, u32> = HashMap::new();
    let mut read = false;
    let mut c: usize = 0;
    while c < champions.len()
        invariant
            champs == texts(champions@),
            c <= champions@.len(),
            reach(champs.take(c as int), *hasher, *shipped) == (Reach {
                reachable: reachable@,
                slots: skin_slot@,
                read,
            }),
        decreases champions@.len() - c,
    {
        broadcast use vstd::std_specs::hash::group_hash_axioms;
        proof {
            lemma_take_next(champs, c as int);
            assert(champs[c as int] == champions@[c as int]@);
        }
        let champ = champions[c].as_str();
        let ghost st = Reach { reachable: reachable@, slots: skin_slot@, read };
        let base = skin_bin_path(champ, 0);
        if shipped.find(hasher.hash(base.as_str())).is_some() {
            let mut n: u32 = 0;
            while n <= MAX_SLOT
                invariant
                    n <= MAX_SLOT + 1,
                    slots_below(st, champ@, n as nat, *hasher, *shipped) == (Reach {
                        reachable: reachable@,
                        slots: skin_slot@,
                        read,
                    }),
                decreases MAX_SLOT + 1 - n,
            {
                broadcast use vstd::std_specs::hash::group_hash_axioms;
                let path = skin_bin_path(champ, n);
                let root = hasher.hash(path.as_str());
                if let Some(i) = shipped.find(root) {
                    reachable.insert(root);
                    skin_slot.insert(root, n);
                    if let Some(links) = &shipped.entries[i].1 {
                        read = true;
                        let ghost base_set = reachable@;
                        let ghost all = texts(links@);
                        let mut k: usize = 0;
                        while k < links.len()
                            invariant
                                all == texts(links@),
                                k <= links@.len(),
                                reachable@ == with_links(base_set, all.take(k as int), *hasher),
                            decreases links@.len() - k,
                        {
                            broadcast use vstd::std_specs::hash::group_hash_axioms;
                            proof {
                                lemma_take_next(all, k as int);
                            }
                            reachable.insert(hasher.hash(links[k].as_str()));
                            k = k + 1;
                        }
                        assert(all.take(k as int) =~= all);
                    }
                }
                n = n + 1;
            }
        }
        c = c + 1;
    }
    assert(champs.take(c as int) =~= champs);
    if !read {
        return None;
    }
    Some(Reachability { reachable, skin_slot })
}

/// Read a BIN's declared dependencies: the BINs that it links to, where it can be read.
pub fn dependencies_of<P: BinProvider>(bin: &P, bytes: &[u8]) -> (r: Option<Vec<String>>)
    ensures
        r is Some <==> bin.parsed(bytes@) is Some,
        r matches Some(v) ==> texts(v@) == bin.parsed(bytes@)->0.tree.linked,
{
    match bin.parse_bytes(bytes) {
        Ok(tree) => Some(tree.linked),
        Err(_) => None,
    }
}

/// `a` claims nothing that `b` does not.
pub open spec fn extends(a: Reach, b: Reach) -> bool {
    a.reachable.subset_of(b.reachable) && (a.read ==> b.read)
}

proof fn lemma_with_links_grows<H: PathHasher>(set: Set<u64>, links: Seq<Seq<char>>, hasher: H)
    ensures
        set.subset_of(with_links(set, links, hasher)),
        forall|h: u64| #[trigger] with_links(set, links, hasher).contains(h) ==> set.contains(h) || exists|i: int|
            0 <= i < links.len() && h == hasher.of(#[trigger] links[i]),
    decreases links.len(),
{
    if links.len() > 0 {
        let head = links.drop_last();
        lemma_with_links_grows(set, head, hasher);
        assert forall|h: u64| #[trigger] with_links(set, links, hasher).contains(h) implies set.contains(h) || exists|i: int|
            0 <= i < links.len() && h == hasher.of(#[trigger] links[i]) by {
            if h == hasher.of(links.last()) {
                assert(h == hasher.of(links[links.len() - 1]));
            } else {
                assert(with_links(set, head, hasher).contains(h));
                if !set.contains(h) {
                    let i = choose|i: int| 0 <= i < head.len() && h == hasher.of(#[trigger] head[i]);
                    assert(h == hasher.of(links[i]));
                }
            }
        }
    }
}

proof fn lemma_slots_grow<H: PathHasher>(st: Reach, champ: Seq<char>, n: nat, hasher: H, shipped: ShippedBins, k: u32)
    requires
        n <= MAX_SLOT + 1,
    ensures
        extends(st, slots_below(st, champ, n, hasher, shipped)),
        k < n && shipped.ships(hasher.of(skin_path(champ, k))) ==> slots_below(
            st,
            champ,
            n,
            hasher,
            shipped,
        ).reachable.contains(hasher.of(skin_path(champ, k))),
    decreases n,
{
    if n > 0 {
        lemma_slots_grow(st, champ, (n - 1) as nat, hasher, shipped, k);
        let before = slots_below(st, champ, (n - 1) as nat, hasher, shipped);
        let root = hasher.of(skin_path(champ, (n - 1) as u32));
        if let Some(links) = shipped.links(root) {
            lemma_with_links_grows(before.reachable.insert(root), links, hasher);
        }
    }
}

/// A shipped skin of a listed champion loads, whether or not it could be read, as long
/// as the champion's base skin is shipped.
pub proof fn law_shipped_skins_load<H: PathHasher>(champs: Seq<Seq<char>>, hasher: H, shipped: ShippedBins, i: int, slot: u32)
    requires
        0 <= i < champs.len(),
        slot <= MAX_SLOT,
        shipped.ships(hasher.of(skin_path(champs[i], 0))),
        shipped.ships(hasher.of(skin_path(champs[i], slot))),
    ensures
        reach(champs, hasher, shipped).reachable.contains(hasher.of(skin_path(champs[i], slot))),
    decreases champs.len(),
{
    let head = champs.drop_last();
    let before = reach(head, hasher, shipped);
    lemma_slots_grow(before, champs.last(), (MAX_SLOT + 1) as nat, hasher, shipped, slot);
    if i < champs.len() - 1 {
        assert(head[i] == champs[i]);
        law_shipped_skins_load(head, hasher, shipped, i, slot);
    }
}

/// `h` is a shipped skin root of `champ`, or a link that one declares.
pub open spec fn one_level<H: PathHasher>(champ: Seq<char>, hasher: H, shipped: ShippedBins, slot: u32, h: u64) -> bool {
    let root = hasher.of(skin_path(champ, slot));
    shipped.ships(root) && (h == root || match shipped.links(root) {
        Some(links) => exists|i: int| 0 <= i < links.len() && h == hasher.of(#[trigger] links[i]),
        None => false,
    })
}

proof fn lemma_slots_one_level<H: PathHasher>(st: Reach, champ: Seq<char>, n: nat, hasher: H, shipped: ShippedBins, h: u64)
    requires
        n <= MAX_SLOT + 1,
        slots_below(st, champ, n, hasher, shipped).reachable.contains(h),
        !st.reachable.contains(h),
    ensures
        exists|slot: u32| slot <= MAX_SLOT && one_level(champ, hasher, shipped, slot, h),
    decreases n,
{
    if n > 0 {
        let slot = (n - 1) as u32;
        let before = slots_below(st, champ, (n - 1) as nat, hasher, shipped);
        if before.reachable.contains(h) {
            lemma_slots_one_level(st, champ, (n - 1) as nat, hasher, shipped, h);
        } else {
            let root = hasher.of(skin_path(champ, slot));
            if let Some(links) = shipped.links(root) {
                lemma_with_links_grows(before.reachable.insert(root), links, hasher);
            }
            assert(one_level(champ, hasher, shipped, slot, h));
        }
    }
}

/// The graph is one level deep: what loads is a shipped skin root of a listed champion
/// or a link that such a root declares, and nothing else.
pub proof fn law_one_level_deep<H: PathHasher>(champs: Seq<Seq<char>>, hasher: H, shipped: ShippedBins, h: u64)
    requires
        reach(champs, hasher, shipped).reachable.contains(h),
    ensures
        exists|i: int, slot: u32|
            0 <= i < champs.len() && slot <= MAX_SLOT && #[trigger] one_level(champs[i], hasher, shipped, slot, h),
    decreases champs.len(),
{
    if champs.len() > 0 {
        let head = champs.drop_last();
        let before = reach(head, hasher, shipped);
        if before.reachable.contains(h) {
            law_one_level_deep(head, hasher, shipped, h);
            let (i, slot) = choose|i: int, slot: u32|
                0 <= i < head.len() && slot <= MAX_SLOT && #[trigger] one_level(head[i], hasher, shipped, slot, h);
            assert(one_level(champs[i], hasher, shipped, slot, h));
        } else {
            lemma_slots_one_level(before, champs.last(), (MAX_SLOT + 1) as nat, hasher, shipped, h);
            let slot = choose|slot: u32| slot <= MAX_SLOT && one_level(champs.last(), hasher, shipped, slot, h);
            assert(one_level(champs[champs.len() - 1], hasher, shipped, slot, h));
        }
    }
}

proof fn lemma_with_links_has<H: PathHasher>(set: Set<u64>, links: Seq<Seq<char>>, hasher: H, k: int)
    requires
        0 <= k < links.len(),
    ensures
        with_links(set, links, hasher).contains(hasher.of(links[k])),
    decreases links.len(),
{
    if k < links.len() - 1 {
        assert(links.drop_last()[k] == links[k]);
        lemma_with_links_has(set, links.drop_last(), hasher, k);
    }
}

proof fn lemma_slots_links<H: PathHasher>(st: Reach, champ: Seq<char>, n: nat, hasher: H, shipped: ShippedBins, slot: u32, k: int)
    requires
        slot < n <= MAX_SLOT + 1,
        shipped.links(hasher.of(skin_path(champ, slot))) is Some,
        0 <= k < shipped.links(hasher.of(skin_path(champ, slot)))->0.len(),
    ensures
        slots_below(st, champ, n, hasher, shipped).read,
        slots_below(st, champ, n, hasher, shipped).reachable.contains(
            hasher.of(shipped.links(hasher.of(skin_path(champ, slot)))->0[k]),
        ),
    decreases n,
{
    let before = slots_below(st, champ, (n - 1) as nat, hasher, shipped);
    let m = (n - 1) as u32;
    let root = hasher.of(skin_path(champ, m));
    let h = hasher.of(shipped.links(hasher.of(skin_path(champ, slot)))->0[k]);
    if slot < n - 1 {
        lemma_slots_links(st, champ, (n - 1) as nat, hasher, shipped, slot, k);
        if let Some(links) = shipped.links(root) {
            lemma_with_links_grows(before.reachable.insert(root), links, hasher);
            assert(before.reachable.insert(root).contains(h));
        }
    } else {
        lemma_with_links_has(before.reachable.insert(root), shipped.links(root)->0, hasher, k);
    }
}

proof fn lemma_reach_grows<H: PathHasher>(champs: Seq<Seq<char>>, hasher: H, shipped: ShippedBins)
    requires
        champs.len() > 0,
    ensures
        extends(reach(champs.drop_last(), hasher, shipped), reach(champs, hasher, shipped)),
{
    lemma_slots_grow(reach(champs.drop_last(), hasher, shipped), champs.last(), (MAX_SLOT + 1) as nat, hasher, shipped, 0);
}

/// What a shipped skin that can be read links to loads, where the champion's base skin is
/// shipped, and then it is known what the mod loads.
pub proof fn law_links_of_shipped_skins_load<H: PathHasher>(
    champs: Seq<Seq<char>>,
    hasher: H,
    shipped: ShippedBins,
    i: int,
    slot: u32,
    k: int,
)
    requires
        0 <= i < champs.len(),
        slot <= MAX_SLOT,
        shipped.ships(hasher.of(skin_path(champs[i], 0))),
        shipped.links(hasher.of(skin_path(champs[i], slot))) is Some,
        0 <= k < shipped.links(hasher.of(skin_path(champs[i], slot)))->0.len(),
    ensures
        reach(champs, hasher, shipped).read,
        reach(champs, hasher, shipped).reachable.contains(
            hasher.of(shipped.links(hasher.of(skin_path(champs[i], slot)))->0[k]),
        ),
    decreases champs.len(),
{
    let head = champs.drop_last();
    if i < head.len() {
        assert(head[i] == champs[i]);
        law_links_of_shipped_skins_load(head, hasher, shipped, i, slot, k);
        lemma_reach_grows(champs, hasher, shipped);
    } else {
        lemma_slots_links(reach(head, hasher, shipped), champs[i], (MAX_SLOT + 1) as nat, hasher, shipped, slot, k);
    }
}

/// The links of a shipped BIN are those that the first entry under its hash lists.
pub proof fn law_links_are_those_listed(shipped: ShippedBins, i: int)
    requires
        0 <= i < shipped.entries@.len(),
        forall|j: int| 0 <= j < i ==> (#[trigger] shipped.entries@[j]).0 != shipped.entries@[i].0,
    ensures
        shipped.ships(shipped.entries@[i].0),
        match shipped.entries@[i].1 {
            Some(v) => shipped.links(shipped.entries@[i].0) == Some(texts(v@)),
            None => shipped.links(shipped.entries@[i].0) is None,
        },
{
    let hash = shipped.entries@[i].0;
    assert(shipped.is_at(hash, i));
    let k = choose|k: int| shipped.is_at(hash, k);
    assert(shipped.entries@[k].0 == hash);
    assert(k == i);
}

proof fn lemma_slots_keyed<H: PathHasher>(st: Reach, champ: Seq<char>, n: nat, hasher: H, shipped: ShippedBins, h: u64)
    requires
        n <= MAX_SLOT + 1,
    ensures
        st.slots.contains_key(h) ==> slots_below(st, champ, n, hasher, shipped).slots.contains_key(h),
        forall|slot: u32|
            slot < n && #[trigger] shipped.ships(hasher.of(skin_path(champ, slot))) ==> slots_below(
                st,
                champ,
                n,
                hasher,
                shipped,
            ).slots.contains_key(hasher.of(skin_path(champ, slot))),
    decreases n,
{
    if n > 0 {
        lemma_slots_keyed(st, champ, (n - 1) as nat, hasher, shipped, h);
    }
}

/// Every shipped skin has a slot on record.
pub proof fn law_shipped_skins_have_a_slot<H: PathHasher>(champs: Seq<Seq<char>>, hasher: H, shipped: ShippedBins, i: int, slot: u32)
    requires
        0 <= i < champs.len(),
        slot <= MAX_SLOT,
        shipped.ships(hasher.of(skin_path(champs[i], 0))),
        shipped.ships(hasher.of(skin_path(champs[i], slot))),
    ensures
        reach(champs, hasher, shipped).slots.contains_key(hasher.of(skin_path(champs[i], slot))),
    decreases champs.len(),
{
    let head = champs.drop_last();
    let h = hasher.of(skin_path(champs[i], slot));
    lemma_slots_keyed(reach(head, hasher, shipped), champs.last(), (MAX_SLOT + 1) as nat, hasher, shipped, h);
    if i < head.len() {
        assert(head[i] == champs[i]);
        law_shipped_skins_have_a_slot(head, hasher, shipped, i, slot);
    }
}

/// A slot on record is that of a shipped skin of one of the champions.
pub proof fn law_slots_are_those_of_skins<H: PathHasher>(champs: Seq<Seq<char>>, hasher: H, shipped: ShippedBins, h: u64)
    requires
        reach(champs, hasher, shipped).slots.contains_key(h),
    ensures
        reach(champs, hasher, shipped).slots[h] <= MAX_SLOT,
        exists|i: int|
            0 <= i < champs.len() && h == hasher.of(#[trigger] skin_path(champs[i], reach(champs, hasher, shipped).slots[h])),
    decreases champs.len(),
{
    if champs.len() > 0 {
        let head = champs.drop_last();
        let st = reach(head, hasher, shipped);
        lemma_slot_values(st, champs.last(), (MAX_SLOT + 1) as nat, hasher, shipped, h);
        let now = reach(champs, hasher, shipped);
        if st.slots.contains_key(h) && now.slots[h] == st.slots[h] {
            law_slots_are_those_of_skins(head, hasher, shipped, h);
            let i = choose|i: int| 0 <= i < head.len() && h == hasher.of(#[trigger] skin_path(head[i], st.slots[h]));
            assert(h == hasher.of(skin_path(champs[i], now.slots[h])));
        } else {
            assert(h == hasher.of(skin_path(champs[champs.len() - 1], now.slots[h])));
        }
    }
}

proof fn lemma_slot_values<H: PathHasher>(st: Reach, champ: Seq<char>, n: nat, hasher: H, shipped: ShippedBins, h: u64)
    requires
        n <= MAX_SLOT + 1,
    ensures
        ({
            let now = slots_below(st, champ, n, hasher, shipped).slots;
            now.contains_key(h) ==> (st.slots.contains_key(h) && now[h] == st.slots[h]) || (now[h] < n && h == hasher.of(
                skin_path(champ, now[h]),
            ))
        }),
    decreases n,
{
    if n > 0 {
        lemma_slot_values(st, champ, (n - 1) as nat, hasher, shipped, h);
    }
}

/// Every slot up to the highest has its animation BIN on record.
pub proof fn law_every_slot_has_its_animations<H: PathHasher>(champion: Seq<char>, hasher: H, n: nat, slot: u32)
    requires
        n <= MAX_SLOT + 1,
        slot < n,
    ensures
        animation_slots(champion, hasher, n).contains_key(
            hasher.of("data/characters/"@ + champion + "/animations/skin"@ + decimal(slot as nat) + ".bin"@),
        ),
    decreases n,
{
    if slot < n - 1 {
        law_every_slot_has_its_animations(champion, hasher, (n - 1) as nat, slot);
    }
}

} // verus!
