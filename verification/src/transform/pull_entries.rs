//! Pulls entries that the main entries link to, but that are defined nowhere, out of
//! the BIN files of the game. A link that cannot be pulled costs the main entry a
//! fallback field, where one is configured, and is kept otherwise.

use vstd::prelude::*;
use vstd::string::*;
use crate::bin::{
    copy_object, entry_keys, field_keys, fields, lemma_field_keys, lemma_no_slot, lemma_object_keys, object, object_keys, objects, put,
    slot, tree, val, BinObject, BinProperty, BinTree, Field, Object, OrderedMap, PropertyValue, Val,
};
use crate::config::EntryValidationTarget;
use crate::context::{same_but_tree, FixContext};
use crate::detect::dead_links::{
    closure_paths, collect_dead_links, dead_entry_links, dead_view, game_closure, game_visits, readable,
};
use crate::detect::rules::{target_type, target_type_of};
use crate::seeds::{discover_seeds, discovered, seed_path, seeds, Seed};
use crate::text::{lemma_take_next, lemma_texts_push, texts};
use crate::diagnostic::opt_text;
use crate::traits::{GameProvider, HashProvider, WadProvider};
use crate::walk::{add_count, capped};

verus! {

/// Where the search for missing entries starts: the skin BIN that the file is, then its
/// links.
pub open spec fn pull_roots(file_path: Seq<char>, links: Seq<Seq<char>>) -> Seq<Seq<char>> {
    discovered(seq![file_path]).map_values(|s: Seed| seed_path(s)) + links
}

/// The first entry under `key` in the BIN files of the game at these paths.
pub open spec fn game_entry<G: GameProvider>(game: G, paths: Seq<Seq<char>>, key: u32) -> Option<Object>
    decreases paths.len(),
{
    if paths.len() == 0 {
        None
    } else {
        match game_entry(game, paths.drop_last(), key) {
            Some(o) => Some(o),
            None => match game.bin_at(paths.last()) {
                Some(t) => match slot(object_keys(t.objects), key) {
                    Some(i) => Some(t.objects[i]),
                    None => None,
                },
                None => None,
            },
        }
    }
}

/// The entry of the game for a dead link, where it is of the type that the target asks
/// for.
pub open spec fn pullable<H: HashProvider, G: GameProvider>(
    game: G,
    hashes: H,
    paths: Seq<Seq<char>>,
    target: EntryValidationTarget,
    key: u32,
) -> Option<Object> {
    match game_entry(game, paths, key) {
        Some(o) => if target_type(target, hashes) == Some(o.class) { Some(o) } else { None },
        None => None,
    }
}

/// The entries with those pulled for the dead links, in order.
pub open spec fn pulled<H: HashProvider, G: GameProvider>(
    os: Seq<Object>,
    game: G,
    hashes: H,
    paths: Seq<Seq<char>>,
    targets: Seq<EntryValidationTarget>,
    dead: Seq<(int, u32)>,
) -> Seq<Object>
    decreases dead.len(),
{
    if dead.len() == 0 {
        os
    } else {
        let before = pulled(os, game, hashes, paths, targets, dead.drop_last());
        let (t, key) = dead.last();
        match pullable(game, hashes, paths, targets[t], key) {
            Some(o) => put(before, slot(object_keys(before), key), Object { key, ..o }),
            None => before,
        }
    }
}

/// How many of the dead links can be pulled.
pub open spec fn pulls<H: HashProvider, G: GameProvider>(
    game: G,
    hashes: H,
    paths: Seq<Seq<char>>,
    targets: Seq<EntryValidationTarget>,
    dead: Seq<(int, u32)>,
) -> nat
    decreases dead.len(),
{
    if dead.len() == 0 {
        0
    } else {
        let (t, key) = dead.last();
        pulls(game, hashes, paths, targets, dead.drop_last()) + (if pullable(game, hashes, paths, targets[t], key) is Some {
            1nat
        } else {
            0nat
        })
    }
}

/// The property holds a class instance with this field.
pub open spec fn nests(f: Field, key: u32) -> bool {
    match f.value {
        Val::Struct(_, fs) => slot(field_keys(fs), key) is Some,
        Val::Embedded(_, fs) => slot(field_keys(fs), key) is Some,
        _ => false,
    }
}

/// The class instance that a property holds, without the field.
pub open spec fn without_nested(f: Field, key: u32) -> Field {
    match f.value {
        Val::Struct(c, fs) => Field { value: Val::Struct(c, fs.remove(slot(field_keys(fs), key)->0)), ..f },
        Val::Embedded(c, fs) => Field { value: Val::Embedded(c, fs.remove(slot(field_keys(fs), key)->0)), ..f },
        _ => f,
    }
}

/// `i` is the first property that holds a class instance with this field.
pub open spec fn first_nesting(fs: Seq<Field>, key: u32, i: int) -> bool {
    0 <= i < fs.len() && nests(fs[i], key) && forall|j: int| 0 <= j < i ==> !nests(#[trigger] fs[j], key)
}

/// The properties without the field: at the top level, or else in the first class
/// instance that has it; `None` where none has.
pub open spec fn without_field(fs: Seq<Field>, key: u32) -> Option<Seq<Field>> {
    match slot(field_keys(fs), key) {
        Some(i) => Some(fs.remove(i)),
        None => if exists|i: int| first_nesting(fs, key, i) {
            let i = choose|i: int| first_nesting(fs, key, i);
            Some(fs.update(i, without_nested(fs[i], key)))
        } else {
            None
        },
    }
}

/// Remove a field, one level down at most; whether there was one.
fn remove_field_one_level(props: &mut OrderedMap<BinProperty>, key: u32) -> (r: bool)
    ensures
        r == (without_field(fields(*old(props)), key) is Some),
        r ==> fields(*final(props)) == without_field(fields(*old(props)), key)->0,
        !r ==> fields(*final(props)) == fields(*old(props)),
{
    let ghost before = *props;
    let ghost fs = fields(before);
    proof {
        lemma_field_keys(before);
        lemma_no_slot(entry_keys(before.entries@), key);
    }
    if props.shift_remove(key).is_some() {
        assert(fields(*props) =~= fs.remove(slot(field_keys(fs), key)->0));
        return true;
    }
    assert(fields(*props) =~= fs);
    let mut i: usize = 0;
    let len = props.entries.len();
    while i < len
        invariant
            before == *old(props),
            props.entries@ == before.entries@,
            fs == fields(before),
            fields(*props) == fs,
            slot(field_keys(fs), key) is None,
            len == props.entries@.len(),
            i <= len,
            forall|j: int| 0 <= j < i ==> !nests(#[trigger] fs[j], key),
        decreases len - i,
    {
        let inner_len = match &props.entries[i].1.value {
            PropertyValue::Struct(s) => {
                proof {
                    lemma_field_keys(s.properties);
                }
                s.properties.find(key)
            },
            PropertyValue::Embedded(s) => {
                proof {
                    lemma_field_keys(s.properties);
                }
                s.properties.find(key)
            },
            _ => None,
        };
        assert(fs[i as int].value == val(props.entries@[i as int].1.value));
        if inner_len.is_some() {
            assert(first_nesting(fs, key, i as int));
            proof {
                let k = choose|k: int| first_nesting(fs, key, k);
                assert(first_nesting(fs, key, k));
                assert(k == i) by {
                    if k < i {
                        assert(!nests(fs[k], key));
                    }
                    if k > i {
                        assert(!nests(fs[i as int], key));
                    }
                }
            }
            remove_nested(&mut props.entries[i].1.value, key);
            proof {
                let want = fs.update(i as int, without_nested(fs[i as int], key));
                assert(fields(*props) =~= want);
            }
            return true;
        }
        i = i + 1;
    }
    assert(forall|k: int| !first_nesting(fs, key, k));
    false
}

fn remove_nested(value: &mut PropertyValue, key: u32)
    requires
        nests(Field { key: 0, name: 0, value: val(*old(value)) }, key),
    ensures
        val(*final(value)) == without_nested(Field { key: 0, name: 0, value: val(*old(value)) }, key).value,
{
    match value {
        PropertyValue::Struct(s) => {
            let ghost before = s.properties;
            proof {
                lemma_field_keys(before);
                lemma_no_slot(entry_keys(before.entries@), key);
            }
            let _ = s.properties.shift_remove(key);
            assert(fields(s.properties) =~= fields(before).remove(slot(field_keys(fields(before)), key)->0));
        },
        PropertyValue::Embedded(s) => {
            let ghost before = s.properties;
            proof {
                lemma_field_keys(before);
                lemma_no_slot(entry_keys(before.entries@), key);
            }
            let _ = s.properties.shift_remove(key);
            assert(fields(s.properties) =~= fields(before).remove(slot(field_keys(fields(before)), key)->0));
        },
        _ => {},
    }
}

/// The main entries without the fallback field, where they have it.
pub open spec fn nuked(os: Seq<Object>, main: u32, key: u32) -> Seq<Object> {
    os.map_values(
        |o: Object| if o.class == main && without_field(o.fields, key) is Some {
            Object { fields: without_field(o.fields, key)->0, ..o }
        } else {
            o
        },
    )
}

/// How many main entries have the fallback field.
pub open spec fn nukes(os: Seq<Object>, main: u32, key: u32) -> nat
    decreases os.len(),
{
    if os.len() == 0 {
        0
    } else {
        nukes(os.drop_last(), main, key) + (if os.last().class == main && without_field(os.last().fields, key) is Some {
            1nat
        } else {
            0nat
        })
    }
}

fn nuke_field(map: &mut OrderedMap<BinObject>, main: u32, key: u32) -> (n: u32)
    ensures
        objects(*final(map)) == nuked(objects(*old(map)), main, key),
        n == capped(nukes(objects(*old(map)), main, key)),
{
    let ghost before = *map;
    let ghost os = objects(before);
    let ghost want = nuked(os, main, key);
    let mut n: u32 = 0;
    let mut i: usize = 0;
    let len = map.entries.len();
    while i < len
        invariant
            os == objects(before),
            want == nuked(os, main, key),
            len == before.entries@.len(),
            map.entries@.len() == len,
            i <= len,
            forall|j: int| i <= j < len ==> map.entries@[j] == before.entries@[j],
            forall|j: int| 0 <= j < i ==> (#[trigger] objects(*map)[j]) == want[j],
            n == capped(nukes(os.take(i as int), main, key)),
        decreases len - i,
    {
        proof {
            lemma_take_next(os, i as int);
        }
        let ghost mid = *map;
        let ghost done = nukes(os.take(i as int), main, key);
        let ghost n0 = n;
        assert(os[i as int] == object(mid.entries@[i as int].0, mid.entries@[i as int].1));
        let mut hit: u32 = 0;
        if map.entries[i].1.class_hash.0 == main {
            if remove_field_one_level(&mut map.entries[i].1.properties, key) {
                hit = 1;
            }
        }
        n = add_count(n, hit);
        proof {
            assert(n0 == capped(done) && hit == capped(hit as nat));
            assert(n == capped((done + hit as nat) as nat));
            assert forall|j: int| 0 <= j < i + 1 implies (#[trigger] objects(*map)[j]) == want[j] by {
                if j < i {
                    assert(map.entries@[j] == mid.entries@[j]);
                    assert(objects(mid)[j] == want[j]);
                }
            }
        }
        i = i + 1;
    }
    assert(os.take(i as int) =~= os);
    assert(objects(*map) =~= want);
    n
}

fn find_pull_roots(file_path: &str, linked: &Vec<String>) -> (r: Vec<String>)
    ensures
        texts(r@) == pull_roots(file_path@, texts(linked@)),
{
    let mut one: Vec<String> = Vec::new();
    one.push(file_path.to_owned());
    assert(texts(one@) =~= seq![file_path@]);
    let found = discover_seeds(&one);
    let ghost first = discovered(seq![file_path@]).map_values(|s: Seed| seed_path(s));
    let mut out: Vec<String> = Vec::new();
    let mut i: usize = 0;
    while i < found.len()
        invariant
            seeds(found@) == discovered(seq![file_path@]),
            first == discovered(seq![file_path@]).map_values(|s: Seed| seed_path(s)),
            i <= found@.len(),
            out@.len() == i,
            forall|j: int| 0 <= j < i ==> (#[trigger] out@[j])@ == first[j],
        decreases found@.len() - i,
    {
        assert(seeds(found@)[i as int] == found@[i as int]@);
        out.push(found[i].bin_path());
        i = i + 1;
    }
    assert(texts(out@) =~= first);
    let ghost links = texts(linked@);
    let mut k: usize = 0;
    assert(first + links.take(0) =~= first);
    while k < linked.len()
        invariant
            links == texts(linked@),
            k <= linked@.len(),
            texts(out@) == first + links.take(k as int),
        decreases linked@.len() - k,
    {
        let ghost o = out@;
        out.push(linked[k].clone());
        proof {
            lemma_texts_push(o, out@.last());
            assert(out@ =~= o.push(out@.last()));
            assert(texts(out@) =~= first + links.take(k + 1));
        }
        k = k + 1;
    }
    assert(links.take(k as int) =~= links);
    out
}

/// The first entry under `key` in a list of BIN files.
pub open spec fn first_entry(bins: Seq<(String, BinTree)>, key: u32) -> Option<Object>
    decreases bins.len(),
{
    if bins.len() == 0 {
        None
    } else {
        match first_entry(bins.drop_last(), key) {
            Some(o) => Some(o),
            None => {
                let os = objects(bins.last().1.objects);
                match slot(object_keys(os), key) {
                    Some(i) => Some(os[i]),
                    None => None,
                }
            },
        }
    }
}

proof fn lemma_first_entry<G: GameProvider>(game: G, bins: Seq<(String, BinTree)>, paths: Seq<Seq<char>>, key: u32)
    requires
        forall|i: int| 0 <= i < bins.len() ==> game.bin_at((#[trigger] bins[i]).0@) == Some(tree(bins[i].1)),
        closure_paths(bins) == readable(game, paths),
    ensures
        first_entry(bins, key) == game_entry(game, paths, key),
    decreases paths.len(),
{
    if paths.len() > 0 {
        let head = paths.drop_last();
        if game.bin_at(paths.last()) is Some {
            let less = bins.drop_last();
            assert(closure_paths(bins).len() == bins.len());
            assert(closure_paths(less) =~= readable(game, head)) by {
                assert(closure_paths(bins).drop_last() =~= readable(game, head));
                assert(closure_paths(less) =~= closure_paths(bins).drop_last());
            }
            assert forall|i: int| 0 <= i < less.len() implies game.bin_at((#[trigger] less[i]).0@) == Some(tree(less[i].1)) by {
                assert(less[i] == bins[i]);
            }
            lemma_first_entry(game, less, head, key);
            assert(closure_paths(bins).last() == bins.last().0@);
            assert(bins[bins.len() - 1].0@ == paths.last());
        } else {
            lemma_first_entry(game, bins, head, key);
        }
    } else {
        assert(closure_paths(bins).len() == bins.len());
    }
}

fn find_entry(bins: &Vec<(String, BinTree)>, key: u32) -> (r: Option<&BinObject>)
    ensures
        r is Some <==> first_entry(bins@, key) is Some,
        r matches Some(o) ==> first_entry(bins@, key) == Some(object(key, *o)),
{
    let mut i: usize = 0;
    while i < bins.len()
        invariant
            i <= bins@.len(),
            first_entry(bins@.take(i as int), key) is None,
        decreases bins@.len() - i,
    {
        proof {
            lemma_take_next(bins@, i as int);
            lemma_object_keys(bins@[i as int].1.objects);
        }
        if let Some(k) = bins[i].1.objects.find(key) {
            proof {
                let o = object(key, bins@[i as int].1.objects.entries@[k as int].1);
                assert(first_entry(bins@.take(i + 1), key) == Some(o));
                lemma_first_entry_stays(bins@, key, i + 1);
            }
            return Some(&bins[i].1.objects.entries[k].1);
        }
        i = i + 1;
    }
    assert(bins@.take(i as int) =~= bins@);
    None
}

proof fn lemma_first_entry_stays(bins: Seq<(String, BinTree)>, key: u32, n: int)
    requires
        0 <= n <= bins.len(),
        first_entry(bins.take(n), key) is Some,
    ensures
        first_entry(bins, key) == first_entry(bins.take(n), key),
    decreases bins.len(),
{
    if n < bins.len() {
        let less = bins.drop_last();
        assert(less.take(n) =~= bins.take(n));
        lemma_first_entry_stays(less, key, n);
    } else {
        assert(bins.take(n) =~= bins);
    }
}

/// The entries after the repair, and the number of changes: pulls, and where a link
/// could not be pulled and a fallback field is configured, removals of that field.
pub open spec fn pull_result<H: HashProvider, W: WadProvider, G: GameProvider>(
    ctx: FixContext<H, W, G>,
    game: G,
    main_type: Seq<char>,
    targets: Seq<EntryValidationTarget>,
    fallback: Option<Seq<char>>,
) -> (Seq<Object>, nat) {
    let os = objects(ctx.tree.objects);
    let dead = dead_entry_links(ctx, main_type, targets);
    let paths = game_visits(game, pull_roots(ctx.file_path@, texts(ctx.tree.linked@)), Seq::empty());
    let after = pulled(os, game, *ctx.hashes, paths, targets, dead);
    let n = pulls(game, *ctx.hashes, paths, targets, dead);
    let field = match fallback {
        Some(name) => ctx.hashes.hash_of_field(name),
        None => None,
    };
    match (ctx.hashes.hash_of_type(main_type), field) {
        (Some(main), Some(key)) => if n < dead.len() {
            (nuked(after, main, key), n + nukes(after, main, key))
        } else {
            (after, n)
        },
        _ => (after, n),
    }
}

proof fn lemma_pulls_bounded<H: HashProvider, G: GameProvider>(
    game: G,
    hashes: H,
    paths: Seq<Seq<char>>,
    targets: Seq<EntryValidationTarget>,
    dead: Seq<(int, u32)>,
)
    ensures
        pulls(game, hashes, paths, targets, dead) <= dead.len(),
    decreases dead.len(),
{
    if dead.len() > 0 {
        lemma_pulls_bounded(game, hashes, paths, targets, dead.drop_last());
    }
}

/// Pull entries that are linked but missing out of the game. Returns the number of
/// changes. Without a game nothing is done.
pub fn apply<H: HashProvider, W: WadProvider, G: GameProvider>(
    ctx: &mut FixContext<H, W, G>,
    main_entry_type: &str,
    targets: &Vec<EntryValidationTarget>,
    nuke_fallback_field: &Option<String>,
) -> (n: u32)
    ensures
        match old(ctx).game {
            Some(game) => {
                let w = pull_result(*old(ctx), *game, main_entry_type@, targets@, opt_text(*nuke_fallback_field));
                objects(final(ctx).tree.objects) == w.0 && n == capped(w.1)
            },
            None => objects(final(ctx).tree.objects) == objects(old(ctx).tree.objects) && n == 0,
        },
        final(ctx).tree.linked == old(ctx).tree.linked,
        final(ctx).tree.trailer_files == old(ctx).tree.trailer_files,
        final(ctx).tree.trailing == old(ctx).tree.trailing,
        same_but_tree(*final(ctx), *old(ctx)),
{
    let game = match ctx.game {
        Some(g) => g,
        None => {
            return 0;
        },
    };
    let hashes = ctx.hashes;
    let dead = collect_dead_links(ctx, main_entry_type, targets);
    let ghost d = dead_view(dead@);
    let roots = find_pull_roots(ctx.file_path.as_str(), &ctx.tree.linked);
    let closure = game_closure(game, roots);
    let bins = closure.1;
    let ghost paths = texts(closure.0@);
    let ghost os = objects(ctx.tree.objects);
    let mut n: u32 = 0;
    let mut unpulled = false;
    let mut i: usize = 0;
    while i < dead.len()
        invariant
            d == dead_view(dead@),
            hashes == old(ctx).hashes,
            forall|k: int| 0 <= k < dead@.len() ==> (#[trigger] dead@[k]).0 < targets@.len(),
            forall|k: int| 0 <= k < bins@.len() ==> game.bin_at((#[trigger] bins@[k]).0@) == Some(tree(bins@[k].1)),
            closure_paths(bins@) == readable(*game, paths),
            i <= dead@.len(),
            objects(ctx.tree.objects) == pulled(os, *game, *hashes, paths, targets@, d.take(i as int)),
            n == capped(pulls(*game, *hashes, paths, targets@, d.take(i as int))),
            unpulled == (pulls(*game, *hashes, paths, targets@, d.take(i as int)) < i),
            ctx.tree.linked == old(ctx).tree.linked,
            ctx.tree.trailer_files == old(ctx).tree.trailer_files,
            ctx.tree.trailing == old(ctx).tree.trailing,
            same_but_tree(*ctx, *old(ctx)),
        decreases dead@.len() - i,
    {
        let (t, key) = dead[i];
        let ghost done = pulls(*game, *hashes, paths, targets@, d.take(i as int));
        let ghost n0 = n;
        proof {
            lemma_take_next(d, i as int);
            assert(dead@[i as int].0 < targets@.len());
            assert(d[i as int] == (t as int, key));
            lemma_first_entry(*game, bins@, paths, key);
            lemma_pulls_bounded(*game, *hashes, paths, targets@, d.take(i as int));
        }
        let wanted = target_type_of(&targets[t], hashes);
        let mut hit: u32 = 0;
        if let Some(o) = find_entry(&bins, key) {
            if let Some(class) = wanted {
                if class == o.class_hash.0 {
                    let ghost before = ctx.tree.objects;
                    let copy = copy_object(o);
                    proof {
                        lemma_object_keys(before);
                        lemma_no_slot(entry_keys(before.entries@), key);
                    }
                    ctx.tree.objects.insert(key, copy);
                    assert(objects(ctx.tree.objects) =~= put(
                        objects(before),
                        slot(object_keys(objects(before)), key),
                        object(key, *o),
                    )) by {
                        assert(object(key, copy) == object(key, *o));
                    }
                    hit = 1;
                }
            }
        }
        if hit == 0 {
            unpulled = true;
        }
        n = add_count(n, hit);
        proof {
            assert(hit == (if pullable(*game, *hashes, paths, targets@[t as int], key) is Some { 1u32 } else { 0u32 }));
            assert(n0 == capped(done) && hit == capped(hit as nat));
            assert(n == capped((done + hit as nat) as nat));
        }
        i = i + 1;
    }
    assert(d.take(i as int) =~= d);
    if !unpulled {
        return n;
    }
    let main = match hashes.type_hash(main_entry_type) {
        Some(h) => h.0,
        None => {
            return n;
        },
    };
    if let Some(name) = nuke_fallback_field {
        if let Some(field) = hashes.field_hash(name.as_str()) {
            let ghost done = pulls(*game, *hashes, paths, targets@, d);
            let ghost after = objects(ctx.tree.objects);
            let ghost n0 = n;
            let k = nuke_field(&mut ctx.tree.objects, main, field.0);
            n = add_count(n, k);
            assert(n == capped((done + nukes(after, main, field.0)) as nat)) by {
                assert(n0 == capped(done) && k == capped(nukes(after, main, field.0)));
            }
        }
    }
    n
}

/// Links that can be pulled or not, without a fallback field no main entry loses a
/// property: the entries under other keys than the pulled ones stay as they are.
pub proof fn law_without_fallback_entries_stay<H: HashProvider, G: GameProvider>(
    os: Seq<Object>,
    game: G,
    hashes: H,
    paths: Seq<Seq<char>>,
    targets: Seq<EntryValidationTarget>,
    dead: Seq<(int, u32)>,
    i: int,
)
    requires
        0 <= i < os.len(),
        forall|k: int| 0 <= k < dead.len() ==> (#[trigger] dead[k]).1 != os[i].key,
    ensures
        pulled(os, game, hashes, paths, targets, dead).len() >= os.len(),
        pulled(os, game, hashes, paths, targets, dead)[i] == os[i],
    decreases dead.len(),
{
    if dead.len() > 0 {
        let head = dead.drop_last();
        assert forall|k: int| 0 <= k < head.len() implies (#[trigger] head[k]).1 != os[i].key by {
            assert(head[k] == dead[k]);
        }
        law_without_fallback_entries_stay(os, game, hashes, paths, targets, head, i);
        let before = pulled(os, game, hashes, paths, targets, head);
        let key = dead[dead.len() - 1].1;
        lemma_no_slot(object_keys(before), key);
        if let Some(k) = slot(object_keys(before), key) {
            assert(object_keys(before)[i] == os[i].key);
            assert(k != i);
        }
    }
}

/// The BIN at a path of the game holds an entry under a key, and no BIN before it among
/// the searched ones does.
pub open spec fn first_holder<G: GameProvider>(game: G, paths: Seq<Seq<char>>, key: u32, p: int, i: int) -> bool {
    &&& 0 <= p < paths.len()
    &&& game.bin_at(paths[p]) matches Some(t) && first_under(t.objects, key, i)
    &&& forall|q: int| 0 <= q < p ==> !holds_key(game, #[trigger] paths[q], key)
}

/// `i` is the first place of a key among the entries.
pub open spec fn first_under(os: Seq<Object>, key: u32, i: int) -> bool {
    0 <= i < os.len() && os[i].key == key && forall|j: int| 0 <= j < i ==> (#[trigger] os[j]).key != key
}

/// The game has a BIN at a path with an entry under a key.
pub open spec fn holds_key<G: GameProvider>(game: G, path: Seq<char>, key: u32) -> bool {
    match game.bin_at(path) {
        Some(t) => exists|j: int| 0 <= j < t.objects.len() && (#[trigger] t.objects[j]).key == key,
        None => false,
    }
}

proof fn lemma_first_under(os: Seq<Object>, key: u32, i: int)
    requires
        first_under(os, key, i),
    ensures
        slot(object_keys(os), key) == Some(i),
{
    lemma_no_slot(object_keys(os), key);
    assert(object_keys(os)[i] == key);
    let k = slot(object_keys(os), key)->0;
    if k < i {
        assert(os[k].key == object_keys(os)[k]);
    }
}

proof fn lemma_game_entry<G: GameProvider>(game: G, paths: Seq<Seq<char>>, key: u32, p: int, i: int)
    requires
        first_holder(game, paths, key, p, i),
    ensures
        game_entry(game, paths, key) == Some(game.bin_at(paths[p])->0.objects[i]),
    decreases paths.len(),
{
    let head = paths.drop_last();
    if p < head.len() {
        assert forall|q: int| 0 <= q < p implies !holds_key(game, #[trigger] head[q], key) by {
            assert(head[q] == paths[q]);
        }
        assert(head[p] == paths[p]);
        lemma_game_entry(game, head, key, p, i);
    } else {
        assert forall|q: int| 0 <= q < head.len() implies !holds_key(game, #[trigger] head[q], key) by {
            assert(head[q] == paths[q]);
        }
        lemma_no_entry(game, head, key);
        lemma_first_under(game.bin_at(paths.last())->0.objects, key, i);
    }
}

proof fn lemma_no_entry<G: GameProvider>(game: G, paths: Seq<Seq<char>>, key: u32)
    requires
        forall|q: int| 0 <= q < paths.len() ==> !holds_key(game, #[trigger] paths[q], key),
    ensures
        game_entry(game, paths, key) is None,
    decreases paths.len(),
{
    if paths.len() > 0 {
        let head = paths.drop_last();
        assert forall|q: int| 0 <= q < head.len() implies !holds_key(game, #[trigger] head[q], key) by {
            assert(head[q] == paths[q]);
        }
        lemma_no_entry(game, head, key);
        let last = paths.len() - 1;
        assert(!holds_key(game, paths[last], key));
        if let Some(t) = game.bin_at(paths.last()) {
            lemma_no_slot(object_keys(t.objects), key);
            if slot(object_keys(t.objects), key) is Some {
                let k = slot(object_keys(t.objects), key)->0;
                assert(t.objects[k].key == object_keys(t.objects)[k]);
            }
        }
    }
}

/// A link of a target whose entry the game defines, with the class of the target, is
/// pulled: the file then holds the entry of the first searched BIN that has it.
pub proof fn law_dead_links_are_pulled<H: HashProvider, G: GameProvider>(
    os: Seq<Object>,
    game: G,
    hashes: H,
    paths: Seq<Seq<char>>,
    targets: Seq<EntryValidationTarget>,
    dead: Seq<(int, u32)>,
    d: int,
    p: int,
    i: int,
)
    requires
        0 <= d < dead.len(),
        first_holder(game, paths, dead[d].1, p, i),
        target_type(targets[dead[d].0], hashes) == Some(game.bin_at(paths[p])->0.objects[i].class),
    ensures
        pulled(os, game, hashes, paths, targets, dead).contains(game.bin_at(paths[p])->0.objects[i]),
    decreases dead.len(),
{
    let head = dead.drop_last();
    let before = pulled(os, game, hashes, paths, targets, head);
    let now = pulled(os, game, hashes, paths, targets, dead);
    let o = game.bin_at(paths[p])->0.objects[i];
    let (t, key) = dead.last();
    lemma_no_slot(object_keys(before), key);
    if d < head.len() {
        assert(head[d] == dead[d]);
        law_dead_links_are_pulled(os, game, hashes, paths, targets, head, d, p, i);
        let k = choose|k: int| 0 <= k < before.len() && before[k] == o;
        if let Some(x) = pullable(game, hashes, paths, targets[t], key) {
            let s = slot(object_keys(before), key);
            if s == Some(k) {
                assert(object_keys(before)[k] == o.key);
                lemma_game_entry(game, paths, key, p, i);
                assert(now[k] == Object { key, ..x });
            } else {
                assert(now[k] == o);
            }
        }
    } else {
        lemma_game_entry(game, paths, key, p, i);
        match slot(object_keys(before), key) {
            Some(k) => {
                assert(now[k] == o);
            },
            None => {
                assert(now[before.len() as int] == o);
            },
        }
    }
}

/// A link that no searched BIN of the game has an entry for pulls nothing in.
pub proof fn law_unknown_links_pull_nothing<H: HashProvider, G: GameProvider>(
    os: Seq<Object>,
    game: G,
    hashes: H,
    paths: Seq<Seq<char>>,
    targets: Seq<EntryValidationTarget>,
    dead: Seq<(int, u32)>,
)
    requires
        forall|d: int, q: int|
            0 <= d < dead.len() && 0 <= q < paths.len() ==> !holds_key(game, #[trigger] paths[q], (#[trigger] dead[d]).1),
    ensures
        pulled(os, game, hashes, paths, targets, dead) == os,
        pulls(game, hashes, paths, targets, dead) == 0,
    decreases dead.len(),
{
    if dead.len() > 0 {
        let head = dead.drop_last();
        assert forall|d: int, q: int|
            0 <= d < head.len() && 0 <= q < paths.len() implies !holds_key(game, #[trigger] paths[q], (#[trigger] head[d]).1) by {
            assert(head[d] == dead[d]);
        }
        law_unknown_links_pull_nothing(os, game, hashes, paths, targets, head);
        let last = dead.len() - 1;
        assert forall|q: int| 0 <= q < paths.len() implies !holds_key(game, #[trigger] paths[q], dead[last].1) by {}
        lemma_no_entry(game, paths, dead[last].1);
    }
}

proof fn lemma_pulls_short<H: HashProvider, G: GameProvider>(
    game: G,
    hashes: H,
    paths: Seq<Seq<char>>,
    targets: Seq<EntryValidationTarget>,
    dead: Seq<(int, u32)>,
    d: int,
)
    requires
        0 <= d < dead.len(),
        pullable(game, hashes, paths, targets[dead[d].0], dead[d].1) is None,
    ensures
        pulls(game, hashes, paths, targets, dead) < dead.len(),
    decreases dead.len(),
{
    let head = dead.drop_last();
    lemma_pulls_bound(game, hashes, paths, targets, head);
    if d < head.len() {
        assert(head[d] == dead[d]);
        lemma_pulls_short(game, hashes, paths, targets, head, d);
    }
}

proof fn lemma_pulls_bound<H: HashProvider, G: GameProvider>(
    game: G,
    hashes: H,
    paths: Seq<Seq<char>>,
    targets: Seq<EntryValidationTarget>,
    dead: Seq<(int, u32)>,
)
    ensures
        pulls(game, hashes, paths, targets, dead) <= dead.len(),
    decreases dead.len(),
{
    if dead.len() > 0 {
        lemma_pulls_bound(game, hashes, paths, targets, dead.drop_last());
    }
}

/// Where a dead link finds no entry in the searched BINs of the game, each main entry loses
/// the first property under the key of the fallback field, where it has one.
pub proof fn law_unpullable_links_cost_the_fallback<H: HashProvider, W: WadProvider, G: GameProvider>(
    ctx: FixContext<H, W, G>,
    game: G,
    main_type: Seq<char>,
    targets: Seq<EntryValidationTarget>,
    name: Seq<char>,
    paths: Seq<Seq<char>>,
    d: int,
    i: int,
    f: int,
)
    requires
        paths == game_visits(game, pull_roots(ctx.file_path@, texts(ctx.tree.linked@)), Seq::empty()),
        0 <= d < dead_entry_links(ctx, main_type, targets).len(),
        forall|q: int|
            0 <= q < paths.len() ==> !holds_key(game, #[trigger] paths[q], dead_entry_links(ctx, main_type, targets)[d].1),
        0 <= i < objects(ctx.tree.objects).len(),
        ctx.hashes.hash_of_type(main_type) == Some(objects(ctx.tree.objects)[i].class),
        forall|k: int|
            0 <= k < dead_entry_links(ctx, main_type, targets).len() ==> (#[trigger] dead_entry_links(ctx, main_type, targets)[k]).1
                != objects(ctx.tree.objects)[i].key,
        0 <= f < objects(ctx.tree.objects)[i].fields.len(),
        ctx.hashes.hash_of_field(name) == Some(objects(ctx.tree.objects)[i].fields[f].key),
        forall|j: int|
            0 <= j < f ==> (#[trigger] objects(ctx.tree.objects)[i].fields[j]).key != objects(ctx.tree.objects)[i].fields[f].key,
    ensures
        ({
            let o = objects(ctx.tree.objects)[i];
            let r = pull_result(ctx, game, main_type, targets, Some(name)).0;
            i < r.len() && r[i] == Object { fields: o.fields.remove(f), ..o }
        }),
{
    let os = objects(ctx.tree.objects);
    let dead = dead_entry_links(ctx, main_type, targets);
    let fs = os[i].fields;
    lemma_no_entry(game, paths, dead[d].1);
    lemma_pulls_short(game, *ctx.hashes, paths, targets, dead, d);
    law_without_fallback_entries_stay(os, game, *ctx.hashes, paths, targets, dead, i);
    lemma_no_slot(field_keys(fs), fs[f].key);
    assert(field_keys(fs)[f] == fs[f].key);
    let s = slot(field_keys(fs), fs[f].key)->0;
    if s < f {
        assert(field_keys(fs)[s] == fs[s].key);
    }
    assert(s == f);
}

/// A link whose entry has another class in the game than its target asks for pulls nothing
/// in.
pub proof fn law_entries_of_other_classes_are_not_pulled<H: HashProvider, G: GameProvider>(
    os: Seq<Object>,
    game: G,
    hashes: H,
    paths: Seq<Seq<char>>,
    targets: Seq<EntryValidationTarget>,
    t: int,
    key: u32,
    p: int,
    i: int,
)
    requires
        first_holder(game, paths, key, p, i),
        target_type(targets[t], hashes) != Some(game.bin_at(paths[p])->0.objects[i].class),
    ensures
        pulled(os, game, hashes, paths, targets, seq![(t, key)]) == os,
        pulls(game, hashes, paths, targets, seq![(t, key)]) == 0,
{
    let dead = seq![(t, key)];
    lemma_game_entry(game, paths, key, p, i);
    assert(dead.drop_last() =~= Seq::<(int, u32)>::empty());
    assert(dead.last() == (t, key));
    reveal_with_fuel(pulled, 2);
    reveal_with_fuel(pulls, 2);
}

} // verus!
