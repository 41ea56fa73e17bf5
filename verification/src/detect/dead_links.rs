//! Dead entry links: link fields on a main entry that refer to entries defined
//! nowhere: not in the file, not in a BIN that the mod links, and not in a BIN that
//! the game loads along with it. Such links crash the client.

use vstd::prelude::*;
use vstd::string::*;
use crate::bin::{
    entry_keys, fields, lemma_object_keys, object, object_keys, objects, pairs, tree, val, vals, BinProperty, BinTree, Field, Object,
    OrderedMap, PropertyValue, Val,
};
use crate::config::EntryValidationTarget;
use crate::context::FixContext;
use crate::links::{links_in, links_of, Tables};
use crate::seeds::{discover_seeds, discovered, seeds, Seed};
use crate::sorting::{lemma_ascend_unique, sort_texts, texts_ascend};
use crate::text::{
    decimal, decimal_text, is_listed, join, joined, lemma_listed, lemma_push_contains, lemma_sum_contains, lemma_take_next, lemma_texts_push, lowered,
    number, parse_number, texts, to_lower, trim_start, trimmed_start,
};
use crate::traits::{GameProvider, HashProvider, WadProvider};

verus! {

/// The number that a text writes in hexadecimal, `0x` or `0X` before it or not.
pub open spec fn hex_number(hex: Seq<char>) -> Option<u32> {
    match number(trimmed_start(trimmed_start(hex, "0x"@), "0X"@), 16, u32::MAX as nat) {
        Some(n) => Some(n as u32),
        None => None,
    }
}

/// Parse a hex hash like `0xcb522723`.
pub fn parse_hex_hash(hex: &str) -> (r: Option<u32>)
    ensures
        r == hex_number(hex@),
{
    let a = trim_start(hex, "0x");
    let b = trim_start(a.as_str(), "0X");
    match parse_number(b.as_str(), 16, u32::MAX as u64) {
        Some(n) => Some(n as u32),
        None => None,
    }
}

/// Bound on game BINs visited.
pub const GAME_CLOSURE_CAP: usize = 64;

/// Highest skin slot probed when the multi-skins BIN name is put together.
pub const MAX_SKIN_SLOT: u32 = 300;

/// `data/characters/{champ}/skins/{name}.bin`
pub open spec fn skin_file(champ: Seq<char>, name: Seq<char>) -> Seq<char> {
    "data/characters/"@ + champ + "/skins/"@ + name + ".bin"@
}

fn skin_file_path(champ: &str, name: &str) -> (r: String)
    ensures
        r@ == skin_file(champ@, name@),
{
    let mut s = "data/characters/".to_owned();
    s.append(champ);
    s.append("/skins/");
    s.append(name);
    s.append(".bin");
    s
}

/// The name of a skin BIN that the game ships for a champion: `root`, or `skin{n}` up
/// to the highest slot.
pub open spec fn slot_name<G: GameProvider>(game: G, champ: Seq<char>, name: Seq<char>) -> bool {
    (name == "root"@ || numbered(name, (MAX_SKIN_SLOT + 1) as nat)) && game.ships_path(skin_file(champ, name))
}

/// `name` is `skin{k}` for a `k` below `n`.
pub open spec fn numbered(name: Seq<char>, n: nat) -> bool {
    exists|k: nat| k < n && name == "skin"@ + #[trigger] decimal(k)
}

/// The names of the skin BINs that the game ships for a champion, in ascending order.
pub open spec fn slot_names<G: GameProvider>(game: G, champ: Seq<char>) -> Seq<Seq<char>> {
    choose|s: Seq<Seq<char>>| lists_slots(game, champ, s)
}

/// `s` lists the names of the skin BINs in ascending order.
pub open spec fn lists_slots<G: GameProvider>(game: G, champ: Seq<char>, s: Seq<Seq<char>>) -> bool {
    texts_ascend(s) && forall|y: Seq<char>| #[trigger] s.contains(y) <==> slot_name(game, champ, y)
}

/// The path of the game's multi-skins BIN of a champion: named after every skin BIN
/// that the champion has, in lexicographic order.
pub open spec fn multi_skins_path<G: GameProvider>(game: G, champ: Seq<char>) -> Option<Seq<char>> {
    let names = slot_names(game, champ);
    let path = "data/characters/"@ + champ + "/"@ + champ + "_multi_skins_"@ + joined(names, "_skins_"@) + ".bin"@;
    if names.len() > 0 && game.ships_path(path) {
        Some(path)
    } else {
        None
    }
}

/// The path of the game's multi-skins BIN of a champion, if the game ships it.
pub fn find_game_multi_skins_bin<G: GameProvider>(game: &G, champ: &str) -> (r: Option<String>)
    ensures
        r is Some <==> multi_skins_path(*game, champ@) is Some,
        r matches Some(p) ==> multi_skins_path(*game, champ@) == Some(p@),
{
    let mut names: Vec<String> = Vec::new();
    let root = skin_file_path(champ, "root");
    if game.has_path(root.as_str()) {
        names.push("root".to_owned());
        assert(texts(names@)[0] == "root"@);
    }
    let mut n: u32 = 0;
    let ghost base = texts(names@);
    assert forall|y: Seq<char>| #[trigger] texts(names@).contains(y) <==> (y == "root"@ || numbered(y, 0))
        && game.ships_path(skin_file(champ@, y)) by {
        if texts(names@).contains(y) {
            let i = choose|i: int| 0 <= i < texts(names@).len() && texts(names@)[i] == y;
            assert(names@[i]@ == y);
        }
    }
    while n <= MAX_SKIN_SLOT
        invariant
            n <= MAX_SKIN_SLOT + 1,
            forall|y: Seq<char>| #[trigger] texts(names@).contains(y) <==> (y == "root"@ || numbered(y, n as nat))
                && game.ships_path(skin_file(champ@, y)),
        decreases MAX_SKIN_SLOT + 1 - n,
    {
        let mut name = "skin".to_owned();
        name.append(decimal_text(n as u64).as_str());
        let path = skin_file_path(champ, name.as_str());
        let ghost before = names@;
        let ghost this = name@;
        let ships = game.has_path(path.as_str());
        if ships {
            names.push(name);
        }
        proof {
            assert forall|y: Seq<char>| #[trigger] texts(names@).contains(y) <==> (y == "root"@ || numbered(
                y,
                (n + 1) as nat,
            )) && game.ships_path(skin_file(champ@, y)) by {
                if texts(before).contains(y) {
                    let i = choose|i: int| 0 <= i < texts(before).len() && texts(before)[i] == y;
                    assert(texts(names@)[i] == y);
                    if numbered(y, n as nat) {
                        let k = choose|k: nat| k < n && y == "skin"@ + #[trigger] decimal(k);
                        assert(y == "skin"@ + decimal(k));
                    }
                }
                if texts(names@).contains(y) && !texts(before).contains(y) {
                    let i = choose|i: int| 0 <= i < texts(names@).len() && texts(names@)[i] == y;
                    if i < before.len() {
                        assert(texts(before)[i] == y);
                    }
                    assert(y == "skin"@ + decimal(n as nat));
                }
                if numbered(y, (n + 1) as nat) && game.ships_path(skin_file(champ@, y)) {
                    let k = choose|k: nat| k < n + 1 && y == "skin"@ + #[trigger] decimal(k);
                    if k < n {
                        assert(numbered(y, n as nat));
                    } else {
                        assert(y == this);
                        assert(texts(names@)[names@.len() - 1] == y);
                    }
                }
            }
        }
        n = n + 1;
    }
    let ghost unsorted = texts(names@);
    let sorted = sort_texts(names);
    proof {
        let s = texts(sorted@);
        assert forall|y: Seq<char>| #[trigger] s.contains(y) <==> slot_name(*game, champ@, y) by {
            assert(s.contains(y) <==> unsorted.contains(y));
        }
        assert(lists_slots(*game, champ@, s));
        let t = slot_names(*game, champ@);
        assert(lists_slots(*game, champ@, t));
        assert forall|y: Seq<char>| s.contains(y) <==> t.contains(y) by {
            assert(s.contains(y) <==> slot_name(*game, champ@, y));
            assert(t.contains(y) <==> slot_name(*game, champ@, y));
        }
        lemma_ascend_unique(s, t);
    }
    if sorted.len() == 0 {
        return None;
    }
    let mut path = "data/characters/".to_owned();
    path.append(champ);
    path.append("/");
    path.append(champ);
    path.append("_multi_skins_");
    path.append(join(&sorted, "_skins_").as_str());
    path.append(".bin");
    if game.has_path(path.as_str()) {
        Some(path)
    } else {
        None
    }
}

/// The links in the properties that carry the name `field`, wherever they are nested, depth first.
pub open spec fn field_links_in(field: u32, v: Val) -> Seq<u32>
    decreases v,
{
    match v {
        Val::Leaf(p) => Seq::empty(),
        Val::Text(s) => Seq::empty(),
        Val::Struct(c, fs) => field_links_in_fields(field, fs),
        Val::Embedded(c, fs) => field_links_in_fields(field, fs),
        Val::Container(items) => field_links_in_items(field, items),
        Val::UnorderedContainer(items) => field_links_in_items(field, items),
        Val::Present(x) => field_links_in(field, *x),
        Val::Table(entries) => field_links_in_pairs(field, entries),
        Val::Absent => Seq::empty(),
    }
}

/// The links in the properties that carry the name `field`, wherever they are nested, over a list of values.
pub open spec fn field_links_in_items(field: u32, items: Seq<Val>) -> Seq<u32>
    decreases items,
{
    if items.len() == 0 {
        Seq::empty()
    } else {
        field_links_in_items(field, items.drop_last()) + field_links_in(field, items.last())
    }
}

/// The links in the properties that carry the name `field`, wherever they are nested, over a property table.
pub open spec fn field_links_in_fields(field: u32, fs: Seq<Field>) -> Seq<u32>
    decreases fs,
{
    if fs.len() == 0 {
        Seq::empty()
    } else {
        field_links_in_fields(field, fs.drop_last()) + (if fs.last().name == field {
            links_in(Tables::Values, fs.last().value)
        } else {
            field_links_in(field, fs.last().value)
        })
    }
}

/// The links in the properties that carry the name `field`, wherever they are nested, over a list of pairs.
pub open spec fn field_links_in_pairs(field: u32, items: Seq<(Val, Val)>) -> Seq<u32>
    decreases items,
{
    if items.len() == 0 {
        Seq::empty()
    } else {
        field_links_in_pairs(field, items.drop_last()) + (field_links_in(field, items.last().1))
    }
}

fn collect_field_links(field: u32, value: &PropertyValue, out: &mut Vec<u32>)
    ensures
        final(out)@ == old(out)@ + field_links_in(field, val(*value)),
    decreases *value,
{
    let ghost before = out@;
    match value {
        PropertyValue::Struct(s) => collect_field_links_properties(field, &s.properties, out),
        PropertyValue::Embedded(s) => collect_field_links_properties(field, &s.properties, out),
        PropertyValue::Container(items) => collect_field_links_items(field, items, out),
        PropertyValue::UnorderedContainer(items) => collect_field_links_items(field, items, out),
        PropertyValue::Optional(inner) => {
            match &**inner {
                Some(x) => collect_field_links(field, x, out),
                None => {
                    assert(out@ =~= before + field_links_in(field, val(*value)));
                },
            }
        },
        PropertyValue::Table(entries) => collect_field_links_pairs(field, entries, out),
        _ => {
            assert(out@ =~= before + field_links_in(field, val(*value)));
        },
    }
}

fn collect_field_links_items(field: u32, items: &Vec<PropertyValue>, out: &mut Vec<u32>)
    ensures
        final(out)@ == old(out)@ + field_links_in_items(field, vals(*items)),
    decreases *items,
{
    let ghost before = out@;
    let ghost models = vals(*items);
    let mut i: usize = 0;
    assert(before + field_links_in_items(field, models.take(0)) =~= before);
    while i < items.len()
        invariant
            models == vals(*items),
            i <= items@.len(),
            out@ == before + field_links_in_items(field, models.take(i as int)),
        decreases items@.len() - i,
    {
        proof {
            assert(decreases_to!(*items => items@[i as int]));
            lemma_take_next(models, i as int);
        }
        collect_field_links(field, &items[i], out);
        assert(out@ =~= before + field_links_in_items(field, models.take(i + 1)));
        i = i + 1;
    }
    assert(models.take(i as int) =~= models);
}

fn collect_field_links_properties(field: u32, props: &OrderedMap<BinProperty>, out: &mut Vec<u32>)
    ensures
        final(out)@ == old(out)@ + field_links_in_fields(field, fields(*props)),
    decreases *props,
{
    let ghost before = out@;
    let ghost models = fields(*props);
    let mut i: usize = 0;
    assert(before + field_links_in_fields(field, models.take(0)) =~= before);
    while i < props.entries.len()
        invariant
            models == fields(*props),
            i <= props.entries@.len(),
            out@ == before + field_links_in_fields(field, models.take(i as int)),
        decreases props.entries@.len() - i,
    {
        proof {
            assert(decreases_to!(*props => props.entries@[i as int]));
            lemma_take_next(models, i as int);
        }
        if props.entries[i].1.name_hash.0 == field {
            let mut found = links_of(Tables::Values, &props.entries[i].1.value);
            out.append(&mut found);
        } else {
            collect_field_links(field, &props.entries[i].1.value, out);
        }
        assert(out@ =~= before + field_links_in_fields(field, models.take(i + 1)));
        i = i + 1;
    }
    assert(models.take(i as int) =~= models);
}

fn collect_field_links_pairs(field: u32, items: &Vec<(PropertyValue, PropertyValue)>, out: &mut Vec<u32>)
    ensures
        final(out)@ == old(out)@ + field_links_in_pairs(field, pairs(*items)),
    decreases *items,
{
    let ghost before = out@;
    let ghost models = pairs(*items);
    let mut i: usize = 0;
    assert(before + field_links_in_pairs(field, models.take(0)) =~= before);
    while i < items.len()
        invariant
            models == pairs(*items),
            i <= items@.len(),
            out@ == before + field_links_in_pairs(field, models.take(i as int)),
        decreases items@.len() - i,
    {
        proof {
            assert(decreases_to!(*items => items@[i as int]));
            lemma_take_next(models, i as int);
        }
        collect_field_links(field, &items[i].1, out);
        assert(out@ =~= before + field_links_in_pairs(field, models.take(i + 1)));
        i = i + 1;
    }
    assert(models.take(i as int) =~= models);
}

/// The links in the properties that carry the name `field`.
fn field_links_of(field: u32, props: &OrderedMap<BinProperty>) -> (r: Vec<u32>)
    ensures
        r@ == field_links_in_fields(field, fields(*props)),
{
    let mut out: Vec<u32> = Vec::new();
    collect_field_links_properties(field, props, &mut out);
    assert(out@ =~= field_links_in_fields(field, fields(*props)));
    out
}

/// The links of `links` to BINs that have not been visited.
pub open spec fn unvisited(links: Seq<Seq<char>>, visited: Seq<Seq<char>>) -> Seq<Seq<char>>
    decreases links.len(),
{
    if links.len() == 0 {
        Seq::empty()
    } else {
        let before = unvisited(links.drop_last(), visited);
        if visited.contains(links.last()) {
            before
        } else {
            before.push(links.last())
        }
    }
}

/// The game BINs that a breadth-first search over links visits from `queue` on, each
/// once and at most [`GAME_CLOSURE_CAP`] in all, whether or not the game ships them.
pub open spec fn game_visits<G: GameProvider>(game: G, queue: Seq<Seq<char>>, visited: Seq<Seq<char>>) -> Seq<Seq<char>>
    decreases GAME_CLOSURE_CAP - visited.len(), queue.len(),
{
    if queue.len() == 0 {
        visited
    } else {
        let path = queue[0];
        let rest = queue.skip(1);
        if visited.len() >= GAME_CLOSURE_CAP || visited.contains(path) {
            game_visits(game, rest, visited)
        } else {
            match game.bin_at(path) {
                Some(t) => game_visits(game, rest + unvisited(t.linked, visited), visited.push(path)),
                None => game_visits(game, rest, visited.push(path)),
            }
        }
    }
}

/// `key` is the key of an entry of one of these game BINs.
pub open spec fn defined_by_game<G: GameProvider>(game: G, paths: Seq<Seq<char>>, key: u32) -> bool {
    exists|i: int|
        0 <= i < paths.len() && (match game.bin_at(#[trigger] paths[i]) {
            Some(t) => object_keys(t.objects).contains(key),
            None => false,
        })
}

fn push_unvisited(queue: &mut Vec<String>, links: &Vec<String>, visited: &Vec<String>)
    ensures
        texts(final(queue)@) == texts(old(queue)@) + unvisited(texts(links@), texts(visited@)),
{
    let ghost before = texts(queue@);
    let ghost all = texts(links@);
    let ghost seen = texts(visited@);
    let mut i: usize = 0;
    assert(texts(queue@) =~= before + unvisited(all.take(0), seen));
    while i < links.len()
        invariant
            all == texts(links@),
            seen == texts(visited@),
            i <= links@.len(),
            texts(queue@) == before + unvisited(all.take(i as int), seen),
        decreases links@.len() - i,
    {
        proof {
            lemma_take_next(all, i as int);
            lemma_listed(visited@, links@[i as int]@);
        }
        if !is_listed(visited, links[i].as_str()) {
            let ghost q = queue@;
            queue.push(links[i].clone());
            proof {
                lemma_texts_push(q, queue@.last());
                assert(queue@ =~= q.push(queue@.last()));
                assert(texts(queue@) =~= before + unvisited(all.take(i + 1), seen));
            }
        }
        i = i + 1;
    }
    assert(all.take(i as int) =~= all);
}

/// The BINs that the game loads from `queue` on, with the path of each: those that a
/// breadth-first search over links visits and that can be read.
pub fn game_closure<G: GameProvider>(game: &G, queue: Vec<String>) -> (r: (Vec<String>, Vec<(String, BinTree)>))
    ensures
        texts(r.0@) == game_visits(*game, texts(queue@), Seq::empty()),
        forall|key: u32| #[trigger] keys_among(r.1@, key) <==> defined_by_game(*game, texts(r.0@), key),
        forall|i: int| 0 <= i < r.1@.len() ==> game.bin_at((#[trigger] r.1@[i]).0@) == Some(tree(r.1@[i].1)),
        closure_paths(r.1@) == readable(*game, texts(r.0@)),
{
    let ghost all = game_visits(*game, texts(queue@), Seq::empty());
    let mut pending = queue;
    let mut visited: Vec<String> = Vec::new();
    let mut bins: Vec<(String, BinTree)> = Vec::new();
    assert(texts(visited@) =~= Seq::empty());
    assert(closure_paths(bins@) =~= readable(*game, texts(visited@)));
    while pending.len() > 0
        invariant
            all == game_visits(*game, texts(pending@), texts(visited@)),
            visited@.len() <= GAME_CLOSURE_CAP,
            forall|i: int| 0 <= i < bins@.len() ==> game.bin_at((#[trigger] bins@[i]).0@) == Some(tree(bins@[i].1)),
            closure_paths(bins@) == readable(*game, texts(visited@)),
        decreases GAME_CLOSURE_CAP - visited@.len(), pending@.len(),
    {
        let ghost q = texts(pending@);
        let path = pending.remove(0);
        proof {
            assert(q[0] == path@);
            assert(texts(pending@) =~= q.skip(1));
            lemma_listed(visited@, path@);
            assert(texts(visited@).len() == visited@.len());
        }
        if visited.len() >= GAME_CLOSURE_CAP || is_listed(&visited, path.as_str()) {
            continue;
        }
        let ghost seen = texts(visited@);
        let ghost this = path@;
        match game.game_bin(path.as_str()) {
            Some(t) => {
                push_unvisited(&mut pending, &t.linked, &visited);
                let ghost b = bins@;
                bins.push((path.clone(), t));
                visited.push(path);
                proof {
                    assert(texts(visited@) =~= seen.push(this));
                    assert(closure_paths(bins@) =~= closure_paths(b).push(this));
                    assert(seen.push(this).drop_last() =~= seen);
                }
            },
            None => {
                visited.push(path);
                proof {
                    assert(texts(visited@) =~= seen.push(this));
                    assert(seen.push(this).drop_last() =~= seen);
                }
            },
        }
    }
    proof {
        let v = texts(visited@);
        assert forall|key: u32| #[trigger] keys_among(bins@, key) <==> defined_by_game(*game, v, key) by {
            lemma_keys_among(*game, bins@, v, key);
        }
    }
    (visited, bins)
}

/// The paths of a list of BINs.
pub open spec fn closure_paths(bins: Seq<(String, BinTree)>) -> Seq<Seq<char>> {
    bins.map_values(|b: (String, BinTree)| b.0@)
}

/// Those of `paths` at which the game has a BIN that can be read.
pub open spec fn readable<G: GameProvider>(game: G, paths: Seq<Seq<char>>) -> Seq<Seq<char>>
    decreases paths.len(),
{
    if paths.len() == 0 {
        Seq::empty()
    } else {
        let before = readable(game, paths.drop_last());
        if game.bin_at(paths.last()) is Some {
            before.push(paths.last())
        } else {
            before
        }
    }
}

proof fn lemma_readable<G: GameProvider>(game: G, paths: Seq<Seq<char>>, p: Seq<char>)
    ensures
        readable(game, paths).contains(p) <==> paths.contains(p) && game.bin_at(p) is Some,
    decreases paths.len(),
{
    if paths.len() > 0 {
        let head = paths.drop_last();
        lemma_readable(game, head, p);
        let before = readable(game, head);
        let now = readable(game, paths);
        if paths.contains(p) {
            let i = choose|i: int| 0 <= i < paths.len() && paths[i] == p;
            if i < head.len() {
                assert(head[i] == p);
            }
        }
        if head.contains(p) {
            let i = choose|i: int| 0 <= i < head.len() && head[i] == p;
            assert(paths[i] == p);
        }
        if before.contains(p) {
            let i = choose|i: int| 0 <= i < before.len() && before[i] == p;
            assert(now[i] == p);
        }
        if game.bin_at(paths.last()) is Some {
            assert(now[now.len() - 1] == paths.last());
            assert(paths[paths.len() - 1] == paths.last());
            if now.contains(p) {
                let i = choose|i: int| 0 <= i < now.len() && now[i] == p;
                if i < before.len() {
                    assert(before[i] == p);
                }
            }
        }
    }
}

/// An entry of one of the BINs has this key.
pub open spec fn keys_among(bins: Seq<(String, BinTree)>, key: u32) -> bool {
    exists|i: int| 0 <= i < bins.len() && entry_keys((#[trigger] bins[i]).1.objects.entries@).contains(key)
}

proof fn lemma_keys_among<G: GameProvider>(game: G, bins: Seq<(String, BinTree)>, paths: Seq<Seq<char>>, key: u32)
    requires
        forall|i: int| 0 <= i < bins.len() ==> game.bin_at((#[trigger] bins[i]).0@) == Some(tree(bins[i].1)),
        closure_paths(bins) == readable(game, paths),
    ensures
        keys_among(bins, key) <==> defined_by_game(game, paths, key),
{
    if keys_among(bins, key) {
        let i = choose|i: int| 0 <= i < bins.len() && entry_keys((#[trigger] bins[i]).1.objects.entries@).contains(key);
        lemma_object_keys(bins[i].1.objects);
        let p = bins[i].0@;
        assert(closure_paths(bins)[i] == p);
        assert(readable(game, paths).contains(p));
        lemma_readable(game, paths, p);
        let k = choose|k: int| 0 <= k < paths.len() && paths[k] == p;
        assert(game.bin_at(paths[k]) is Some);
    }
    if defined_by_game(game, paths, key) {
        let k = choose|k: int|
            0 <= k < paths.len() && (match game.bin_at(#[trigger] paths[k]) {
                Some(t) => object_keys(t.objects).contains(key),
                None => false,
            });
        lemma_readable(game, paths, paths[k]);
        assert(paths.contains(paths[k]));
        assert(readable(game, paths).contains(paths[k]));
        let i = choose|i: int| 0 <= i < closure_paths(bins).len() && closure_paths(bins)[i] == paths[k];
        assert(bins[i].0@ == paths[k]);
        lemma_object_keys(bins[i].1.objects);
    }
}

/// The champion whose skin BIN a path is.
pub open spec fn seed_champions(path: Seq<char>) -> Seq<Seq<char>> {
    discovered(seq![path]).map_values(|s: Seed| lowered(s.champion))
}

/// The base BINs of a champion that the game loads along with a skin, unless the mod
/// replaces them.
pub open spec fn base_bins<W: WadProvider, G: GameProvider>(wad: W, game: G, champ: Seq<char>) -> Seq<Seq<char>> {
    let own = "data/characters/"@ + champ + "/"@ + champ + ".bin"@;
    let first = if wad.holds_path(own) { Seq::empty() } else { seq![own] };
    match multi_skins_path(game, champ) {
        Some(m) => if wad.holds_path(m) { first } else { first.push(m) },
        None => first,
    }
}

/// Where the search for definitions in the game starts: the links of the file, then
/// the base BINs of its champion.
pub open spec fn search_roots<W: WadProvider, G: GameProvider>(
    links: Seq<Seq<char>>,
    champs: Seq<Seq<char>>,
    wad: W,
    game: G,
) -> Seq<Seq<char>>
    decreases champs.len(),
{
    if champs.len() == 0 {
        links
    } else {
        search_roots(links, champs.drop_last(), wad, game) + base_bins(wad, game, champs.last())
    }
}

/// The key of an entry of the file, of a BIN that the mod links, or of a BIN that the
/// game loads along with it.
pub open spec fn defined<H: HashProvider, W: WadProvider, G: GameProvider>(ctx: FixContext<H, W, G>, key: u32) -> bool {
    ||| entry_keys(ctx.tree.objects.entries@).contains(key)
    ||| keys_among(ctx.linked_trees@, key)
    ||| match ctx.game {
        Some(game) => defined_by_game(
            *game,
            game_visits(
                *game,
                search_roots(texts(ctx.tree.linked@), seed_champions(ctx.file_path@), *ctx.wad, *game),
                Seq::empty(),
            ),
            key,
        ),
        None => false,
    }
}

/// The dead ones of a list of links, each with the number of its target.
pub open spec fn dead_of<H: HashProvider, W: WadProvider, G: GameProvider>(
    ctx: FixContext<H, W, G>,
    links: Seq<u32>,
    target: int,
) -> Seq<(int, u32)>
    decreases links.len(),
{
    if links.len() == 0 {
        Seq::empty()
    } else {
        let before = dead_of(ctx, links.drop_last(), target);
        if links.last() != 0 && !defined(ctx, links.last()) {
            before.push((target, links.last()))
        } else {
            before
        }
    }
}

/// The dead links of one entry for the targets below `n`.
pub open spec fn dead_in_entry<H: HashProvider, W: WadProvider, G: GameProvider>(
    ctx: FixContext<H, W, G>,
    o: Object,
    targets: Seq<EntryValidationTarget>,
) -> Seq<(int, u32)>
    decreases targets.len(),
{
    if targets.len() == 0 {
        Seq::empty()
    } else {
        let before = dead_in_entry(ctx, o, targets.drop_last());
        match hex_number(targets.last().link_field@) {
            Some(field) => before + dead_of(ctx, field_links_in_fields(field, o.fields), targets.len() - 1),
            None => before,
        }
    }
}

/// The dead links of the entries of the main type, in order.
pub open spec fn dead_in_entries<H: HashProvider, W: WadProvider, G: GameProvider>(
    ctx: FixContext<H, W, G>,
    os: Seq<Object>,
    main: u32,
    targets: Seq<EntryValidationTarget>,
) -> Seq<(int, u32)>
    decreases os.len(),
{
    if os.len() == 0 {
        Seq::empty()
    } else {
        let before = dead_in_entries(ctx, os.drop_last(), main, targets);
        if os.last().class == main {
            before + dead_in_entry(ctx, os.last(), targets)
        } else {
            before
        }
    }
}

/// The links of the main entries that are defined nowhere, each with the number of the
/// target that it belongs to.
pub open spec fn dead_entry_links<H: HashProvider, W: WadProvider, G: GameProvider>(
    ctx: FixContext<H, W, G>,
    main_type: Seq<char>,
    targets: Seq<EntryValidationTarget>,
) -> Seq<(int, u32)> {
    match ctx.hashes.hash_of_type(main_type) {
        Some(main) => dead_in_entries(ctx, objects(ctx.tree.objects), main, targets),
        None => Seq::empty(),
    }
}

/// The targets and hashes of a list of dead links.
pub open spec fn dead_view(v: Seq<(usize, u32)>) -> Seq<(int, u32)> {
    v.map_values(|e: (usize, u32)| (e.0 as int, e.1))
}

fn is_key_among(bins: &Vec<(String, BinTree)>, key: u32) -> (r: bool)
    ensures
        r == keys_among(bins@, key),
{
    let mut i: usize = 0;
    while i < bins.len()
        invariant
            i <= bins@.len(),
            forall|j: int| 0 <= j < i ==> !entry_keys((#[trigger] bins@[j]).1.objects.entries@).contains(key),
        decreases bins@.len() - i,
    {
        if bins[i].1.objects.contains_key(key) {
            return true;
        }
        i = i + 1;
    }
    false
}

/// The path of a champion's own BIN, and where the search in the game starts.
fn find_search_roots<W: WadProvider, G: GameProvider>(linked: &Vec<String>, file_path: &str, wad: &W, game: &G) -> (r: Vec<String>)
    ensures
        texts(r@) == search_roots(texts(linked@), seed_champions(file_path@), *wad, *game),
{
    let mut queue: Vec<String> = Vec::new();
    let mut i: usize = 0;
    while i < linked.len()
        invariant
            i <= linked@.len(),
            queue@.len() == i,
            forall|j: int| 0 <= j < i ==> (#[trigger] queue@[j])@ == linked@[j]@,
        decreases linked@.len() - i,
    {
        queue.push(linked[i].clone());
        i = i + 1;
    }
    let ghost links = texts(linked@);
    assert(texts(queue@) =~= links);
    let mut one: Vec<String> = Vec::new();
    one.push(file_path.to_owned());
    assert(texts(one@) =~= seq![file_path@]);
    let found = discover_seeds(&one);
    let ghost champs = seed_champions(file_path@);
    assert(champs =~= seeds(found@).map_values(|s: Seed| lowered(s.champion)));
    let mut k: usize = 0;
    while k < found.len()
        invariant
            champs == seeds(found@).map_values(|s: Seed| lowered(s.champion)),
            k <= found@.len(),
            texts(queue@) == search_roots(links, champs.take(k as int), *wad, *game),
        decreases found@.len() - k,
    {
        proof {
            lemma_take_next(champs, k as int);
            assert(seeds(found@)[k as int] == found@[k as int]@);
        }
        let champ = to_lower(found[k].champion.as_str());
        assert(champ@ == champs[k as int]);
        let ghost before = texts(queue@);
        let mut own = "data/characters/".to_owned();
        own.append(champ.as_str());
        own.append("/");
        own.append(champ.as_str());
        own.append(".bin");
        if !wad.has_path(own.as_str()) {
            let ghost q = queue@;
            queue.push(own);
            proof {
                lemma_texts_push(q, queue@.last());
                assert(queue@ =~= q.push(queue@.last()));
            }
        }
        if let Some(multi) = find_game_multi_skins_bin(game, champ.as_str()) {
            if !wad.has_path(multi.as_str()) {
                let ghost q = queue@;
                queue.push(multi);
                proof {
                    lemma_texts_push(q, queue@.last());
                    assert(queue@ =~= q.push(queue@.last()));
                }
            }
        }
        assert(texts(queue@) =~= before + base_bins(*wad, *game, champ@));
        k = k + 1;
    }
    assert(champs.take(k as int) =~= champs);
    queue
}

/// Find links on the main entries that are defined nowhere, each with the number of
/// the target that it belongs to.
#[verifier::loop_isolation(false)]
pub fn collect_dead_links<H: HashProvider, W: WadProvider, G: GameProvider>(
    ctx: &FixContext<H, W, G>,
    main_entry_type: &str,
    targets: &Vec<EntryValidationTarget>,
) -> (r: Vec<(usize, u32)>)
    ensures
        dead_view(r@) == dead_entry_links(*ctx, main_entry_type@, targets@),
        forall|i: int| 0 <= i < r@.len() ==> (#[trigger] r@[i]).0 < targets@.len(),
{
    let mut dead: Vec<(usize, u32)> = Vec::new();
    let main = match ctx.hashes.type_hash(main_entry_type) {
        Some(h) => h.0,
        None => {
            assert(dead_view(dead@) =~= Seq::empty());
            return dead;
        },
    };
    let bins = match ctx.game {
        Some(game) => {
            let roots = find_search_roots(&ctx.tree.linked, ctx.file_path.as_str(), ctx.wad, game);
            game_closure(game, roots).1
        },
        None => Vec::new(),
    };
    assert forall|key: u32| defined(*ctx, key) <==> entry_keys(ctx.tree.objects.entries@).contains(key) || keys_among(
        ctx.linked_trees@,
        key,
    ) || #[trigger] keys_among(bins@, key) by {}
    let ghost os = objects(ctx.tree.objects);
    let mut i: usize = 0;
    assert(dead_view(dead@) =~= dead_in_entries(*ctx, os.take(0), main, targets@));
    while i < ctx.tree.objects.entries.len()
        invariant
            i <= ctx.tree.objects.entries@.len(),
            dead_view(dead@) == dead_in_entries(*ctx, os.take(i as int), main, targets@),
            forall|k: int| 0 <= k < dead@.len() ==> (#[trigger] dead@[k]).0 < targets@.len(),
        decreases ctx.tree.objects.entries@.len() - i,
    {
        proof {
            lemma_take_next(os, i as int);
        }
        let o = &ctx.tree.objects.entries[i].1;
        assert(os[i as int] == object(ctx.tree.objects.entries@[i as int].0, *o));
        if o.class_hash.0 == main {
            let ghost base = dead_view(dead@);
            let mut t: usize = 0;
            assert(dead_view(dead@) =~= base + dead_in_entry(*ctx, os[i as int], targets@.take(0)));
            while t < targets.len()
                invariant
                    t <= targets@.len(),
                    dead_view(dead@) == base + dead_in_entry(*ctx, os[i as int], targets@.take(t as int)),
                    forall|k: int| 0 <= k < dead@.len() ==> (#[trigger] dead@[k]).0 < targets@.len(),
                decreases targets@.len() - t,
            {
                proof {
                    lemma_take_next(targets@, t as int);
                }
                if let Some(field) = parse_hex_hash(targets[t].link_field.as_str()) {
                    let links = field_links_of(field, &o.properties);
                    let ghost base2 = dead_view(dead@);
                    let mut l: usize = 0;
                    assert(dead_view(dead@) =~= base2 + dead_of(*ctx, links@.take(0), t as int));
                    while l < links.len()
                        invariant
                            l <= links@.len(),
                            dead_view(dead@) == base2 + dead_of(*ctx, links@.take(l as int), t as int),
                            forall|k: int| 0 <= k < dead@.len() ==> (#[trigger] dead@[k]).0 < targets@.len(),
                        decreases links@.len() - l,
                    {
                        proof {
                            lemma_take_next(links@, l as int);
                        }
                        let h = links[l];
                        if h != 0 && !ctx.tree.objects.contains_key(h) && !is_key_among(&ctx.linked_trees, h)
                            && !is_key_among(&bins, h) {
                            let ghost d = dead@;
                            dead.push((t, h));
                            assert(dead_view(dead@) =~= dead_view(d).push((t as int, h)));
                        }
                        assert(dead_view(dead@) =~= base2 + dead_of(*ctx, links@.take(l + 1), t as int));
                        l = l + 1;
                    }
                    assert(links@.take(l as int) =~= links@);
                    assert(dead_view(dead@) =~= base + dead_in_entry(*ctx, os[i as int], targets@.take(t + 1)));
                }
                t = t + 1;
            }
            assert(targets@.take(t as int) =~= targets@);
        }
        i = i + 1;
    }
    assert(os.take(i as int) =~= os);
    dead
}

/// The game's BIN at a path links to another.
pub open spec fn links_to<G: GameProvider>(game: G, path: Seq<char>, other: Seq<char>) -> bool {
    game.bin_at(path) matches Some(t) && t.linked.contains(other)
}

/// The game's BIN at a path defines an entry.
pub open spec fn bin_defines<G: GameProvider>(game: G, path: Seq<char>, key: u32) -> bool {
    game.bin_at(path) matches Some(t) && exists|j: int| 0 <= j < t.objects.len() && (#[trigger] t.objects[j]).key == key
}

proof fn lemma_visits_grow<G: GameProvider>(game: G, queue: Seq<Seq<char>>, visited: Seq<Seq<char>>, x: Seq<char>)
    ensures
        visited.contains(x) ==> game_visits(game, queue, visited).contains(x),
        game_visits(game, queue, visited).len() >= visited.len(),
    decreases GAME_CLOSURE_CAP - visited.len(), queue.len(),
{
    if queue.len() > 0 {
        let path = queue[0];
        let rest = queue.skip(1);
        if visited.len() >= GAME_CLOSURE_CAP || visited.contains(path) {
            lemma_visits_grow(game, rest, visited, x);
        } else {
            lemma_push_contains(visited, path, x);
            match game.bin_at(path) {
                Some(t) => lemma_visits_grow(game, rest + unvisited(t.linked, visited), visited.push(path), x),
                None => lemma_visits_grow(game, rest, visited.push(path), x),
            }
        }
    }
}

/// The BINs that a search starts from are looked into, as far as their number is allowed.
pub proof fn law_roots_are_searched<G: GameProvider>(game: G, queue: Seq<Seq<char>>, visited: Seq<Seq<char>>, i: int)
    requires
        0 <= i < queue.len(),
        i < GAME_CLOSURE_CAP - visited.len(),
    ensures
        game_visits(game, queue, visited).contains(queue[i]),
    decreases GAME_CLOSURE_CAP - visited.len(), queue.len(),
{
    let path = queue[0];
    let rest = queue.skip(1);
    if visited.contains(path) {
        if i == 0 {
            lemma_visits_grow(game, rest, visited, path);
        } else {
            law_roots_are_searched(game, rest, visited, i - 1);
        }
    } else {
        let more = match game.bin_at(path) {
            Some(t) => rest + unvisited(t.linked, visited),
            None => rest,
        };
        if i == 0 {
            lemma_push_contains(visited, path, path);
            lemma_visits_grow(game, more, visited.push(path), path);
        } else {
            assert(more[i - 1] == queue[i]);
            law_roots_are_searched(game, more, visited.push(path), i - 1);
        }
    }
}

proof fn lemma_unvisited(links: Seq<Seq<char>>, visited: Seq<Seq<char>>, x: Seq<char>)
    ensures
        unvisited(links, visited).contains(x) <==> links.contains(x) && !visited.contains(x),
    decreases links.len(),
{
    if links.len() > 0 {
        let head = links.drop_last();
        lemma_unvisited(head, visited, x);
        lemma_push_contains(head, links.last(), x);
        assert(head.push(links.last()) =~= links);
        lemma_push_contains(unvisited(head, visited), links.last(), x);
    }
}

/// Where the search was not cut short, it looked into every BIN that one of those it looked
/// into links to.
pub proof fn law_search_follows_links<G: GameProvider>(game: G, queue: Seq<Seq<char>>, visited: Seq<Seq<char>>, p: Seq<char>, x: Seq<char>)
    requires
        forall|q: Seq<char>, y: Seq<char>| #[trigger]
            visited.contains(q) && #[trigger] links_to(game, q, y) ==> visited.contains(y)
                || queue.contains(y),
        game_visits(game, queue, visited).len() < GAME_CLOSURE_CAP,
        game_visits(game, queue, visited).contains(p),
        links_to(game, p, x),
    ensures
        game_visits(game, queue, visited).contains(x),
    decreases GAME_CLOSURE_CAP - visited.len(), queue.len(),
{
    if queue.len() > 0 {
        let path = queue[0];
        let rest = queue.skip(1);
        assert forall|y: Seq<char>| queue.contains(y) implies rest.contains(y) || y == path by {
            let k = choose|k: int| 0 <= k < queue.len() && queue[k] == y;
            if k > 0 {
                assert(rest[k - 1] == y);
            }
        }
        lemma_visits_grow(game, queue, visited, p);
        if visited.contains(path) {
            law_search_follows_links(game, rest, visited, p, x);
        } else {
            let now = visited.push(path);
            let more = match game.bin_at(path) {
                Some(t) => rest + unvisited(t.linked, visited),
                None => rest,
            };
            assert forall|q: Seq<char>, y: Seq<char>| #[trigger]
                now.contains(q) && #[trigger] links_to(game, q, y) implies now.contains(y)
                || more.contains(y) by {
                lemma_push_contains(visited, path, q);
                lemma_push_contains(visited, path, y);
                if q == path {
                    let t = game.bin_at(path)->0;
                    lemma_unvisited(t.linked, visited, y);
                    lemma_sum_contains(rest, unvisited(t.linked, visited), y);
                } else {
                    assert(visited.contains(q));
                    if let Some(t) = game.bin_at(path) {
                        lemma_sum_contains(rest, unvisited(t.linked, visited), y);
                    }
                }
            }
            law_search_follows_links(game, more, now, p, x);
        }
    }
}

proof fn lemma_dead_of<H: HashProvider, W: WadProvider, G: GameProvider>(
    ctx: FixContext<H, W, G>,
    links: Seq<u32>,
    target: int,
    t: int,
    key: u32,
)
    ensures
        dead_of(ctx, links, target).contains((t, key)) <==> t == target && links.contains(key) && key != 0 && !defined(ctx, key),
    decreases links.len(),
{
    if links.len() > 0 {
        let head = links.drop_last();
        lemma_dead_of(ctx, head, target, t, key);
        lemma_push_contains(head, links.last(), key);
        assert(head.push(links.last()) =~= links);
        lemma_push_contains(dead_of(ctx, head, target), (target, links.last()), (t, key));
    }
}

proof fn lemma_dead_in_entry<H: HashProvider, W: WadProvider, G: GameProvider>(
    ctx: FixContext<H, W, G>,
    o: Object,
    targets: Seq<EntryValidationTarget>,
    t: int,
    key: u32,
)
    ensures
        dead_in_entry(ctx, o, targets).contains((t, key)) <==> {
            &&& 0 <= t < targets.len()
            &&& hex_number(targets[t].link_field@) matches Some(field) && field_links_in_fields(field, o.fields).contains(key)
            &&& key != 0
            &&& !defined(ctx, key)
        },
    decreases targets.len(),
{
    if targets.len() > 0 {
        let head = targets.drop_last();
        lemma_dead_in_entry(ctx, o, head, t, key);
        if t < head.len() && 0 <= t {
            assert(head[t] == targets[t]);
        }
        if let Some(field) = hex_number(targets.last().link_field@) {
            let more = field_links_in_fields(field, o.fields);
            lemma_dead_of(ctx, more, targets.len() - 1, t, key);
            lemma_sum_contains(dead_in_entry(ctx, o, head), dead_of(ctx, more, targets.len() - 1), (t, key));
        }
    }
}

proof fn lemma_dead_in_entries<H: HashProvider, W: WadProvider, G: GameProvider>(
    ctx: FixContext<H, W, G>,
    os: Seq<Object>,
    main: u32,
    targets: Seq<EntryValidationTarget>,
    t: int,
    key: u32,
)
    ensures
        dead_in_entries(ctx, os, main, targets).contains((t, key)) <==> exists|o: int|
            0 <= o < os.len() && (#[trigger] os[o]).class == main && dead_in_entry(ctx, os[o], targets).contains((t, key)),
    decreases os.len(),
{
    if os.len() > 0 {
        let head = os.drop_last();
        lemma_dead_in_entries(ctx, head, main, targets, t, key);
        lemma_sum_contains(dead_in_entries(ctx, head, main, targets), dead_in_entry(ctx, os.last(), targets), (t, key));
        if dead_in_entries(ctx, head, main, targets).contains((t, key)) {
            let o = choose|o: int|
                0 <= o < head.len() && (#[trigger] head[o]).class == main && dead_in_entry(ctx, head[o], targets).contains((t, key));
            assert(os[o] == head[o]);
        }
        if os.last().class == main && dead_in_entry(ctx, os.last(), targets).contains((t, key)) {
            assert(os[os.len() - 1] == os.last());
        }
        if exists|o: int|
            0 <= o < os.len() && (#[trigger] os[o]).class == main && dead_in_entry(ctx, os[o], targets).contains((t, key)) {
            let o = choose|o: int|
                0 <= o < os.len() && (#[trigger] os[o]).class == main && dead_in_entry(ctx, os[o], targets).contains((t, key));
            if o < head.len() {
                assert(head[o] == os[o]);
            }
        }
    }
}

/// A link to an entry that the file itself, a BIN that the mod links, or a BIN of the game
/// that the file links directly defines is never dead, and neither is the empty link.
pub proof fn law_defined_links_are_alive<H: HashProvider, W: WadProvider, G: GameProvider>(
    ctx: FixContext<H, W, G>,
    main_type: Seq<char>,
    targets: Seq<EntryValidationTarget>,
    t: int,
    key: u32,
)
    requires
        dead_entry_links(ctx, main_type, targets).contains((t, key)),
    ensures
        0 <= t < targets.len(),
        key != 0,
        forall|i: int| 0 <= i < ctx.tree.objects.entries@.len() ==> (#[trigger] ctx.tree.objects.entries@[i]).0 != key,
        forall|i: int, j: int|
            0 <= i < ctx.linked_trees@.len() && 0 <= j < ctx.linked_trees@[i].1.objects.entries@.len() ==> (
            #[trigger] ctx.linked_trees@[i].1.objects.entries@[j]).0 != key,
        forall|i: int|
            0 <= i < ctx.tree.linked@.len() && i < GAME_CLOSURE_CAP && ctx.game is Some ==> !bin_defines(
                *ctx.game->0,
                (#[trigger] ctx.tree.linked@[i])@,
                key,
            ),
{
    let main = ctx.hashes.hash_of_type(main_type)->0;
    let os = objects(ctx.tree.objects);
    lemma_dead_in_entries(ctx, os, main, targets, t, key);
    let o = choose|o: int|
        0 <= o < os.len() && (#[trigger] os[o]).class == main && dead_in_entry(ctx, os[o], targets).contains((t, key));
    lemma_dead_in_entry(ctx, os[o], targets, t, key);
    let keys = entry_keys(ctx.tree.objects.entries@);
    assert forall|i: int| 0 <= i < ctx.tree.objects.entries@.len() implies (#[trigger] ctx.tree.objects.entries@[i]).0 != key by {
        assert(keys[i] == ctx.tree.objects.entries@[i].0);
    }
    assert forall|i: int, j: int|
        0 <= i < ctx.linked_trees@.len() && 0 <= j < ctx.linked_trees@[i].1.objects.entries@.len() implies (
    #[trigger] ctx.linked_trees@[i].1.objects.entries@[j]).0 != key by {
        let ks = entry_keys(ctx.linked_trees@[i].1.objects.entries@);
        assert(ks[j] == ctx.linked_trees@[i].1.objects.entries@[j].0);
    }
    assert forall|i: int| 0 <= i < ctx.tree.linked@.len() && i < GAME_CLOSURE_CAP && ctx.game is Some implies !bin_defines(
        *ctx.game->0,
        (#[trigger] ctx.tree.linked@[i])@,
        key,
    ) by {
        let g = ctx.game->0;
        let b = g.bin_at(ctx.tree.linked@[i]@)->0;
        let links = texts(ctx.tree.linked@);
        let roots = search_roots(links, seed_champions(ctx.file_path@), *ctx.wad, *g);
        lemma_roots_begin(links, seed_champions(ctx.file_path@), *ctx.wad, *g);
        assert(roots[i] == roots.take(links.len() as int)[i]);
        law_roots_are_searched(*g, roots, Seq::empty(), i);
        let seen = game_visits(*g, roots, Seq::empty());
        let k = choose|k: int| 0 <= k < seen.len() && seen[k] == roots[i];
        if bin_defines(*g, ctx.tree.linked@[i]@, key) {
            let j = choose|j: int| 0 <= j < b.objects.len() && (#[trigger] b.objects[j]).key == key;
            assert(object_keys(b.objects)[j] == key);
            assert(g.bin_at(seen[k]) == Some(b));
        }
    }
}

proof fn lemma_roots_begin<W: WadProvider, G: GameProvider>(links: Seq<Seq<char>>, champs: Seq<Seq<char>>, wad: W, game: G)
    ensures
        search_roots(links, champs, wad, game).len() >= links.len(),
        search_roots(links, champs, wad, game).take(links.len() as int) == links,
    decreases champs.len(),
{
    if champs.len() > 0 {
        lemma_roots_begin(links, champs.drop_last(), wad, game);
        assert(search_roots(links, champs, wad, game).take(links.len() as int) =~= search_roots(
            links,
            champs.drop_last(),
            wad,
            game,
        ).take(links.len() as int));
    } else {
        assert(links.take(links.len() as int) =~= links);
    }
}

/// The base BINs of a character are among what a search starts from: its own BIN, unless
/// the mod ships it.
pub proof fn law_own_bin_is_a_root<W: WadProvider, G: GameProvider>(
    links: Seq<Seq<char>>,
    champs: Seq<Seq<char>>,
    wad: W,
    game: G,
    c: int,
)
    requires
        0 <= c < champs.len(),
        !wad.holds_path("data/characters/"@ + champs[c] + "/"@ + champs[c] + ".bin"@),
    ensures
        search_roots(links, champs, wad, game).contains("data/characters/"@ + champs[c] + "/"@ + champs[c] + ".bin"@),
    decreases champs.len(),
{
    let own = "data/characters/"@ + champs[c] + "/"@ + champs[c] + ".bin"@;
    lemma_sum_contains(search_roots(links, champs.drop_last(), wad, game), base_bins(wad, game, champs.last()), own);
    if c < champs.len() - 1 {
        law_own_bin_is_a_root(links, champs.drop_last(), wad, game, c);
    } else {
        assert(base_bins(wad, game, champs.last())[0] == own);
    }
}

proof fn lemma_field_links(field: u32, fs: Seq<Field>, i: int, key: u32)
    requires
        0 <= i < fs.len(),
        fs[i].name == field,
        links_in(Tables::Values, fs[i].value).contains(key),
    ensures
        field_links_in_fields(field, fs).contains(key),
    decreases fs.len(),
{
    let last = if fs.last().name == field {
        links_in(Tables::Values, fs.last().value)
    } else {
        field_links_in(field, fs.last().value)
    };
    lemma_sum_contains(field_links_in_fields(field, fs.drop_last()), last, key);
    if i < fs.len() - 1 {
        lemma_field_links(field, fs.drop_last(), i, key);
    }
}

/// A link that an entry of the main class holds in the field of a target is dead where
/// neither the file, nor a BIN that the mod links, nor any BIN of the game defines it.
pub proof fn law_undefined_links_are_dead<H: HashProvider, W: WadProvider, G: GameProvider>(
    ctx: FixContext<H, W, G>,
    main_type: Seq<char>,
    targets: Seq<EntryValidationTarget>,
    t: int,
    o: int,
    i: int,
    key: u32,
)
    requires
        0 <= t < targets.len(),
        0 <= o < objects(ctx.tree.objects).len(),
        ctx.hashes.hash_of_type(main_type) == Some(objects(ctx.tree.objects)[o].class),
        0 <= i < objects(ctx.tree.objects)[o].fields.len(),
        hex_number(targets[t].link_field@) == Some(objects(ctx.tree.objects)[o].fields[i].name),
        links_in(Tables::Values, objects(ctx.tree.objects)[o].fields[i].value).contains(key),
        key != 0,
        forall|j: int| 0 <= j < ctx.tree.objects.entries@.len() ==> (#[trigger] ctx.tree.objects.entries@[j]).0 != key,
        forall|b: int, j: int|
            0 <= b < ctx.linked_trees@.len() && 0 <= j < ctx.linked_trees@[b].1.objects.entries@.len() ==> (
            #[trigger] ctx.linked_trees@[b].1.objects.entries@[j]).0 != key,
        forall|p: Seq<char>| ctx.game is Some ==> !#[trigger] bin_defines(*ctx.game->0, p, key),
    ensures
        dead_entry_links(ctx, main_type, targets).contains((t, key)),
{
    let os = objects(ctx.tree.objects);
    lemma_dead_in_entries(ctx, os, os[o].class, targets, t, key);
    lemma_dead_in_entry(ctx, os[o], targets, t, key);
    lemma_field_links(os[o].fields[i].name, os[o].fields, i, key);
    let keys = entry_keys(ctx.tree.objects.entries@);
    assert(!keys.contains(key));
    assert(!keys_among(ctx.linked_trees@, key)) by {
        if keys_among(ctx.linked_trees@, key) {
            let b = choose|b: int|
                0 <= b < ctx.linked_trees@.len() && entry_keys((#[trigger] ctx.linked_trees@[b]).1.objects.entries@).contains(key);
            let ks = entry_keys(ctx.linked_trees@[b].1.objects.entries@);
            let j = choose|j: int| 0 <= j < ks.len() && ks[j] == key;
            assert(ctx.linked_trees@[b].1.objects.entries@[j].0 == key);
        }
    }
    if let Some(g) = ctx.game {
        let paths = game_visits(
            *g,
            search_roots(texts(ctx.tree.linked@), seed_champions(ctx.file_path@), *ctx.wad, *g),
            Seq::empty(),
        );
        if defined_by_game(*g, paths, key) {
            let k = choose|k: int|
                0 <= k < paths.len() && (match g.bin_at(#[trigger] paths[k]) {
                    Some(t) => object_keys(t.objects).contains(key),
                    None => false,
                });
            let b = g.bin_at(paths[k])->0;
            let ks = object_keys(b.objects);
            let j = choose|j: int| 0 <= j < ks.len() && ks[j] == key;
            assert(b.objects[j].key == key);
            assert(bin_defines(*g, paths[k], key));
        }
    }
}

} // verus!
