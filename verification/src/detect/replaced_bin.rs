//! Replaced BINs: a mod that ships a BIN at a path which the game ships too, and so
//! drops entries that the client still looks up, or adds stale ones.
//!
//! Without a game install, or for a BIN that the game does not ship, nothing is
//! reported.

use vstd::prelude::*;
use vstd::string::*;
use crate::bin::{object, objects, tree, BinTree, Object};
use crate::config::{ReplacedBinMode, ReplacedBinTarget};
use crate::context::FixContext;
use crate::sorting::{lemma_sorted_unique, sort_distinct, sorted_distinct};
use crate::strings::{resolve_hash_token, token_hash};
use crate::text::{decimal, decimal_text, hex, hex_text, join, joined, lemma_push_contains, lemma_take_next, texts};
use crate::traits::{GameProvider, HashProvider, WadProvider};

verus! {

/// One target's finding: which class differed, and by which keys.
#[derive(Debug)]
pub struct ReplacedBinHit {
    /// Number of the target.
    pub target_index: usize,
    /// Entry keys responsible, in ascending order.
    pub keys: Vec<u32>,
}

/// The label of a target: its own, or else its class.
pub open spec fn target_label(t: ReplacedBinTarget) -> Seq<char> {
    match t.label {
        Some(l) => l@,
        None => t.class@,
    }
}

/// The first five keys in hexadecimal.
pub open spec fn key_sample(keys: Seq<u32>) -> Seq<Seq<char>> {
    keys.take(if keys.len() < 5 { keys.len() as int } else { 5 }).map_values(|k: u32| hex(k as nat, 8))
}

/// `{label}: added|dropped {n} entry key(s) [{sample}]`
pub open spec fn hit_text(t: ReplacedBinTarget, keys: Seq<u32>) -> Seq<char> {
    target_label(t) + ": "@ + (match t.mode {
        ReplacedBinMode::Added => "added"@,
        ReplacedBinMode::Dropped => "dropped"@,
    }) + " "@ + decimal(keys.len()) + " entry key(s) ["@ + joined(key_sample(keys), ", "@) + "]"@
}

impl ReplacedBinHit {
    /// Short human summary naming a few keys.
    pub fn describe(&self, target: &ReplacedBinTarget) -> (r: String)
        ensures
            r@ == hit_text(*target, self.keys@),
    {
        let mut s = match &target.label {
            Some(l) => l.clone(),
            None => target.class.clone(),
        };
        s.append(": ");
        match target.mode {
            ReplacedBinMode::Added => s.append("added"),
            ReplacedBinMode::Dropped => s.append("dropped"),
        }
        s.append(" ");
        s.append(decimal_text(self.keys.len() as u64).as_str());
        s.append(" entry key(s) [");
        let n: usize = if self.keys.len() < 5 { self.keys.len() } else { 5 };
        let mut sample: Vec<String> = Vec::new();
        let mut i: usize = 0;
        while i < n
            invariant
                n <= self.keys@.len(),
                i <= n,
                sample@.len() == i,
                forall|j: int| 0 <= j < i ==> (#[trigger] sample@[j])@ == hex(self.keys@[j] as nat, 8),
            decreases n - i,
        {
            sample.push(hex_text(self.keys[i] as u64, 8));
            i = i + 1;
        }
        assert(texts(sample@) =~= key_sample(self.keys@));
        s.append(join(&sample, ", ").as_str());
        s.append("]");
        s
    }
}

/// The file has an entry of the class with this path hash.
pub open spec fn has_entry(os: Seq<Object>, class: u32, key: u32) -> bool {
    exists|i: int| 0 <= i < os.len() && (#[trigger] os[i]).class == class && os[i].path == key
}

fn has_entry_in(tree: &BinTree, class: u32, key: u32) -> (r: bool)
    ensures
        r == has_entry(objects(tree.objects), class, key),
{
    let ghost os = objects(tree.objects);
    let mut i: usize = 0;
    while i < tree.objects.entries.len()
        invariant
            os == objects(tree.objects),
            i <= tree.objects.entries@.len(),
            forall|j: int| 0 <= j < i ==> !((#[trigger] os[j]).class == class && os[j].path == key),
        decreases tree.objects.entries@.len() - i,
    {
        let o = &tree.objects.entries[i].1;
        assert(os[i as int] == object(tree.objects.entries@[i as int].0, *o));
        if o.class_hash.0 == class && o.path_hash.0 == key {
            return true;
        }
        i = i + 1;
    }
    false
}

/// The key counts: the target names no lethal keys, or this one among them.
pub open spec fn counts(t: ReplacedBinTarget, key: u32) -> bool {
    t.lethal_keys@.len() == 0 || exists|i: int|
        0 <= i < t.lethal_keys@.len() && token_hash((#[trigger] t.lethal_keys@[i])@) == key
}

fn is_counted(t: &ReplacedBinTarget, key: u32) -> (r: bool)
    ensures
        r == counts(*t, key),
{
    if t.lethal_keys.len() == 0 {
        return true;
    }
    let mut i: usize = 0;
    while i < t.lethal_keys.len()
        invariant
            t.lethal_keys@.len() > 0,
            i <= t.lethal_keys@.len(),
            forall|j: int| 0 <= j < i ==> token_hash((#[trigger] t.lethal_keys@[j])@) != key,
        decreases t.lethal_keys@.len() - i,
    {
        if resolve_hash_token(t.lethal_keys[i].as_str()) == key {
            return true;
        }
        i = i + 1;
    }
    false
}

/// The two files differ at this key in the direction that the target is about.
pub open spec fn differs(ours: Seq<Object>, live: Seq<Object>, t: ReplacedBinTarget, key: u32) -> bool {
    let class = token_hash(t.class@);
    counts(t, key) && match t.mode {
        ReplacedBinMode::Added => has_entry(ours, class, key) && !has_entry(live, class, key),
        ReplacedBinMode::Dropped => has_entry(live, class, key) && !has_entry(ours, class, key),
    }
}

/// The keys at which the two files differ, in ascending order.
fn differing_keys(ours: &BinTree, live: &BinTree, t: &ReplacedBinTarget) -> (r: Vec<u32>)
    ensures
        sorted_distinct(r@),
        forall|k: u32| #[trigger] r@.contains(k) <==> differs(objects(ours.objects), objects(live.objects), *t, k),
{
    let class = resolve_hash_token(t.class.as_str());
    let (with, without) = match t.mode {
        ReplacedBinMode::Added => (ours, live),
        ReplacedBinMode::Dropped => (live, ours),
    };
    let ghost os = objects(with.objects);
    let mut keys: Vec<u32> = Vec::new();
    let mut i: usize = 0;
    while i < with.objects.entries.len()
        invariant
            os == objects(with.objects),
            class == token_hash(t.class@),
            i <= with.objects.entries@.len(),
            forall|k: u32| #[trigger] keys@.contains(k) <==> has_entry(os.take(i as int), class, k) && !has_entry(
                objects(without.objects),
                class,
                k,
            ) && counts(*t, k),
        decreases with.objects.entries@.len() - i,
    {
        let o = &with.objects.entries[i].1;
        assert(os[i as int] == object(with.objects.entries@[i as int].0, *o));
        let key = o.path_hash.0;
        let ghost before = keys@;
        let hit = o.class_hash.0 == class && !has_entry_in(without, class, key) && is_counted(t, key);
        if hit {
            keys.push(key);
        }
        proof {
            let now = os.take(i + 1);
            lemma_take_next(os, i as int);
            assert forall|k: u32| #[trigger] keys@.contains(k) <==> has_entry(now, class, k) && !has_entry(
                objects(without.objects),
                class,
                k,
            ) && counts(*t, k) by {
                if has_entry(os.take(i as int), class, k) {
                    let j = choose|j: int|
                        0 <= j < i && (#[trigger] os.take(i as int)[j]).class == class && os.take(i as int)[j].path == k;
                    assert(now[j].class == class && now[j].path == k);
                }
                if has_entry(now, class, k) && !has_entry(os.take(i as int), class, k) {
                    let j = choose|j: int| 0 <= j < now.len() && (#[trigger] now[j]).class == class && now[j].path == k;
                    if j < i {
                        assert(os.take(i as int)[j].class == class);
                    }
                    assert(k == key && o.class_hash.0 == class);
                }
                if o.class_hash.0 == class && k == key {
                    assert(now[i as int].class == class && now[i as int].path == k);
                }
                if before.contains(k) {
                    let j = choose|j: int| 0 <= j < before.len() && before[j] == k;
                    assert(keys@[j] == k);
                }
                if hit && k == key {
                    assert(keys@[keys@.len() - 1] == k);
                }
                if keys@.contains(k) && !before.contains(k) {
                    assert(k == key);
                }
            }
        }
        i = i + 1;
    }
    assert(os.take(i as int) =~= os);
    sort_distinct(keys)
}

/// The numbers of the targets at which the two files differ.
pub open spec fn differing_targets(ours: Seq<Object>, live: Seq<Object>, targets: Seq<ReplacedBinTarget>) -> Seq<int>
    decreases targets.len(),
{
    if targets.len() == 0 {
        Seq::empty()
    } else {
        let before = differing_targets(ours, live, targets.drop_last());
        if exists|k: u32| differs(ours, live, targets.last(), k) {
            before.push(targets.len() - 1)
        } else {
            before
        }
    }
}

/// The file that the game ships in the place of the one under inspection.
pub open spec fn vanilla_objects<H: HashProvider, W: WadProvider, G: GameProvider>(ctx: FixContext<H, W, G>) -> Option<Seq<Object>> {
    match ctx.game {
        Some(game) => match game.bin_at(ctx.file_path@) {
            Some(t) => Some(t.objects),
            None => None,
        },
        None => None,
    }
}

/// The target numbers of a list of findings.
pub open spec fn hit_targets(v: Seq<ReplacedBinHit>) -> Seq<int> {
    v.map_values(|h: ReplacedBinHit| h.target_index as int)
}

/// The targets for which the file differs from that of the game.
pub open spec fn replaced_targets<H: HashProvider, W: WadProvider, G: GameProvider>(
    ctx: FixContext<H, W, G>,
    targets: Seq<ReplacedBinTarget>,
) -> Seq<int> {
    match vanilla_objects(ctx) {
        Some(live) => differing_targets(objects(ctx.tree.objects), live, targets),
        None => Seq::empty(),
    }
}

/// One finding per target whose class differs in the dangerous direction.
pub fn detect_hits<H: HashProvider, W: WadProvider, G: GameProvider>(
    ctx: &FixContext<H, W, G>,
    targets: &Vec<ReplacedBinTarget>,
) -> (r: Vec<ReplacedBinHit>)
    ensures
        hit_targets(r@) == replaced_targets(*ctx, targets@),
        forall|i: int| 0 <= i < r@.len() ==> hit_is_right(*ctx, targets@, #[trigger] r@[i]),
{
    let mut out: Vec<ReplacedBinHit> = Vec::new();
    assert(hit_targets(out@) =~= Seq::empty());
    let game = match ctx.game {
        Some(g) => g,
        None => {
            return out;
        },
    };
    let vanilla = match game.game_bin(ctx.file_path.as_str()) {
        Some(t) => t,
        None => {
            return out;
        },
    };
    let ghost ours = objects(ctx.tree.objects);
    let ghost live = objects(vanilla.objects);
    let mut i: usize = 0;
    while i < targets.len()
        invariant
            ours == objects(ctx.tree.objects),
            live == objects(vanilla.objects),
            vanilla_objects(*ctx) == Some(live),
            i <= targets@.len(),
            hit_targets(out@) == differing_targets(ours, live, targets@.take(i as int)),
            forall|k: int| 0 <= k < out@.len() ==> hit_is_right(*ctx, targets@, #[trigger] out@[k]),
        decreases targets@.len() - i,
    {
        proof {
            lemma_take_next(targets@, i as int);
        }
        let keys = differing_keys(&ctx.tree, &vanilla, &targets[i]);
        if keys.len() > 0 {
            let ghost o = out@;
            let ghost ks = keys@;
            proof {
                assert(ks.contains(ks[0]));
                assert(differs(ours, live, targets@[i as int], ks[0]));
            }
            out.push(ReplacedBinHit { target_index: i, keys });
            assert(hit_targets(out@) =~= hit_targets(o).push(i as int));
        } else {
            assert forall|k: u32| !differs(ours, live, targets@[i as int], k) by {
                assert(!keys@.contains(k));
            }
        }
        i = i + 1;
    }
    assert(targets@.take(i as int) =~= targets@);
    out
}

/// The finding names a target, and the keys at which the files differ for it.
pub open spec fn hit_is_right<H: HashProvider, W: WadProvider, G: GameProvider>(
    ctx: FixContext<H, W, G>,
    targets: Seq<ReplacedBinTarget>,
    hit: ReplacedBinHit,
) -> bool {
    &&& hit.target_index < targets.len()
    &&& sorted_distinct(hit.keys@)
    &&& forall|k: u32| #[trigger] hit.keys@.contains(k) <==> differs(
        objects(ctx.tree.objects),
        vanilla_objects(ctx)->0,
        targets[hit.target_index as int],
        k,
    )
}

/// Boolean verdict for the detection dispatch.
pub fn detect<H: HashProvider, W: WadProvider, G: GameProvider>(
    ctx: &FixContext<H, W, G>,
    targets: &Vec<ReplacedBinTarget>,
) -> (r: bool)
    ensures
        r == (replaced_targets(*ctx, targets@).len() > 0),
{
    let hits = detect_hits(ctx, targets);
    assert(hit_targets(hits@).len() == hits@.len());
    hits.len() > 0
}

/// `keys` lists, in ascending order, where the two files differ for a target.
pub open spec fn lists_differences(ours: Seq<Object>, live: Seq<Object>, t: ReplacedBinTarget, keys: Seq<u32>) -> bool {
    sorted_distinct(keys) && forall|k: u32| #[trigger] keys.contains(k) <==> differs(ours, live, t, k)
}

/// The keys at which the two files differ for a target, in ascending order.
pub open spec fn differences(ours: Seq<Object>, live: Seq<Object>, t: ReplacedBinTarget) -> Seq<u32> {
    choose|keys: Seq<u32>| lists_differences(ours, live, t, keys)
}

/// A finding of [`detect_hits`] lists exactly the differences for its target.
pub proof fn lemma_hit_keys<H: HashProvider, W: WadProvider, G: GameProvider>(
    ctx: FixContext<H, W, G>,
    targets: Seq<ReplacedBinTarget>,
    hit: ReplacedBinHit,
)
    requires
        hit_is_right(ctx, targets, hit),
    ensures
        hit.keys@ == differences(
            objects(ctx.tree.objects),
            vanilla_objects(ctx)->0,
            targets[hit.target_index as int],
        ),
{
    let ours = objects(ctx.tree.objects);
    let live = vanilla_objects(ctx)->0;
    let t = targets[hit.target_index as int];
    assert(lists_differences(ours, live, t, hit.keys@));
    let d = differences(ours, live, t);
    assert(lists_differences(ours, live, t, d));
    assert forall|k: u32| hit.keys@.contains(k) <==> d.contains(k) by {
        assert(hit.keys@.contains(k) <==> differs(ours, live, t, k));
        assert(d.contains(k) <==> differs(ours, live, t, k));
    }
    lemma_sorted_unique(hit.keys@, d);
}

proof fn lemma_differing_targets(ours: Seq<Object>, live: Seq<Object>, targets: Seq<ReplacedBinTarget>, t: int)
    ensures
        differing_targets(ours, live, targets).contains(t) <==> 0 <= t < targets.len() && exists|k: u32|
            differs(ours, live, targets[t], k),
    decreases targets.len(),
{
    if targets.len() > 0 {
        let head = targets.drop_last();
        lemma_differing_targets(ours, live, head, t);
        if 0 <= t < head.len() {
            assert(head[t] == targets[t]);
        }
        let last = targets.len() - 1;
        assert(targets[last] == targets.last());
        assert((exists|k: u32| differs(ours, live, targets[last], k)) <==> (exists|k: u32| differs(ours, live, targets.last(), k)));
        lemma_push_contains(differing_targets(ours, live, head), last, t);
    }
}

/// The entry at `i` of the first file is of the class of a target and one of those that
/// count for it, and the second file has none such.
pub open spec fn only_there(there: Seq<Object>, here: Seq<Object>, target: ReplacedBinTarget, i: int) -> bool {
    &&& 0 <= i < there.len()
    &&& there[i].class == token_hash(target.class@)
    &&& forall|j: int| 0 <= j < here.len() ==> (#[trigger] here[j]).class != there[i].class || here[j].path != there[i].path
    &&& target.lethal_keys@.len() == 0 || exists|j: int|
        0 <= j < target.lethal_keys@.len() && token_hash((#[trigger] target.lethal_keys@[j])@) == there[i].path
}

/// A target is hit by an entry of its class that one of the two files has and the other
/// has not, the mod's for what was added and the game's for what was dropped, where the
/// entry is one of those that count or all count.
pub proof fn law_one_sided_entries_hit<H: HashProvider, W: WadProvider, G: GameProvider>(
    ctx: FixContext<H, W, G>,
    targets: Seq<ReplacedBinTarget>,
    live: Seq<Object>,
    t: int,
    i: int,
)
    requires
        ctx.game matches Some(g) && g.bin_at(ctx.file_path@) matches Some(b) && b.objects == live,
        0 <= t < targets.len(),
        match targets[t].mode {
            ReplacedBinMode::Added => only_there(objects(ctx.tree.objects), live, targets[t], i),
            ReplacedBinMode::Dropped => only_there(live, objects(ctx.tree.objects), targets[t], i),
        },
    ensures
        replaced_targets(ctx, targets).contains(t),
{
    let ours = objects(ctx.tree.objects);
    match targets[t].mode {
        ReplacedBinMode::Added => {
            assert(has_entry(ours, ours[i].class, ours[i].path));
            assert(differs(ours, live, targets[t], ours[i].path));
        },
        ReplacedBinMode::Dropped => {
            assert(has_entry(live, live[i].class, live[i].path));
            assert(differs(ours, live, targets[t], live[i].path));
        },
    }
    lemma_differing_targets(ours, live, targets, t);
}

/// A file that has the same entries as the game's hits no target, and neither does one of
/// which the game has no counterpart.
pub proof fn law_same_entries_hit_nothing<H: HashProvider, W: WadProvider, G: GameProvider>(
    ctx: FixContext<H, W, G>,
    targets: Seq<ReplacedBinTarget>,
    t: int,
)
    requires
        ctx.game matches Some(g) ==> (g.bin_at(ctx.file_path@) matches Some(b) ==> b.objects == objects(ctx.tree.objects)),
    ensures
        !replaced_targets(ctx, targets).contains(t),
{
    if let Some(live) = vanilla_objects(ctx) {
        lemma_differing_targets(objects(ctx.tree.objects), live, targets, t);
    }
}

/// What one file adds to another is what the other drops of it.
pub proof fn law_added_and_dropped_mirror(ours: Seq<Object>, live: Seq<Object>, a: ReplacedBinTarget, b: ReplacedBinTarget, key: u32)
    requires
        a.mode is Added,
        b.mode is Dropped,
        a.class@ == b.class@,
        a.lethal_keys@ == b.lethal_keys@,
    ensures
        differs(ours, live, a, key) <==> differs(live, ours, b, key),
{
}

} // verus!
