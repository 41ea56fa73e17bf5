//! Stale champion records: a mod that ships a character root older than the live
//! schema lacks fields that the client expects.
//!
//! A field is missing only if the live record has it and the mod's does not. Without
//! a game install, or where either record cannot be found, nothing is reported.

use vstd::prelude::*;
use vstd::string::*;
use crate::bin::{entry_keys, field_keys, fields, lemma_field_keys, object, objects, tree, BinObject, BinTree, Object};
use crate::context::FixContext;
use crate::seeds::below_characters;
use crate::strings::{resolve_hash_token, token_hash};
use crate::text::{begins, cat, lemma_pieces_plain, lemma_pieces_push, lemma_push_contains, lemma_without_prefix, lemma_take_next, lemma_texts_push, normal, normalize, pieces, same, split, strip_prefix, texts};
use crate::traits::{GameProvider, HashProvider, WadProvider};

verus! {

/// `i` is the first entry of a class.
pub open spec fn first_of_class(os: Seq<Object>, class: u32, i: int) -> bool {
    0 <= i < os.len() && os[i].class == class && forall|j: int| 0 <= j < i ==> (#[trigger] os[j]).class != class
}

/// The field hashes of the first entry of a class.
pub open spec fn record_keys(os: Seq<Object>, class: u32) -> Option<Seq<u32>> {
    if exists|i: int| first_of_class(os, class, i) {
        Some(field_keys(os[choose|i: int| first_of_class(os, class, i)].fields))
    } else {
        None
    }
}

/// The first entry of a class.
fn record_of(tree: &BinTree, class: u32) -> (r: Option<&BinObject>)
    ensures
        r is Some <==> record_keys(objects(tree.objects), class) is Some,
        r matches Some(o) ==> record_keys(objects(tree.objects), class) == Some(entry_keys(o.properties.entries@)),
{
    let ghost os = objects(tree.objects);
    let mut i: usize = 0;
    while i < tree.objects.entries.len()
        invariant
            os == objects(tree.objects),
            i <= tree.objects.entries@.len(),
            forall|j: int| 0 <= j < i ==> (#[trigger] os[j]).class != class,
        decreases tree.objects.entries@.len() - i,
    {
        let o = &tree.objects.entries[i].1;
        assert(os[i as int] == object(tree.objects.entries@[i as int].0, *o));
        if o.class_hash.0 == class {
            proof {
                assert(first_of_class(os, class, i as int));
                let k = choose|k: int| first_of_class(os, class, k);
                assert(first_of_class(os, class, k));
                assert(k == i) by {
                    if k < i {
                        assert(os[k].class != class);
                    }
                    if k > i {
                        assert(os[i as int].class != class);
                    }
                }
                lemma_field_keys(o.properties);
            }
            return Some(o);
        }
        i = i + 1;
    }
    assert(forall|k: int| !first_of_class(os, class, k));
    None
}

/// Those of `wanted` that the live record has and the mod's has not, in order.
pub open spec fn absent_fields(wanted: Seq<Seq<char>>, ours: Seq<u32>, live: Seq<u32>) -> Seq<Seq<char>>
    decreases wanted.len(),
{
    if wanted.len() == 0 {
        Seq::empty()
    } else {
        let before = absent_fields(wanted.drop_last(), ours, live);
        let h = token_hash(wanted.last());
        if live.contains(h) && !ours.contains(h) {
            before.push(wanted.last())
        } else {
            before
        }
    }
}

/// The fields that the mod's record lacks; none where no comparison is possible.
pub open spec fn stale_fields<H: HashProvider, W: WadProvider, G: GameProvider>(
    ctx: FixContext<H, W, G>,
    entry_type: Seq<char>,
    wanted: Seq<Seq<char>>,
) -> Seq<Seq<char>> {
    let class = token_hash(entry_type);
    match ctx.game {
        None => Seq::empty(),
        Some(game) => match game.bin_at(ctx.file_path@) {
            None => Seq::empty(),
            Some(vanilla) => match (record_keys(objects(ctx.tree.objects), class), record_keys(vanilla.objects, class)) {
                (Some(ours), Some(live)) => absent_fields(wanted, ours, live),
                _ => Seq::empty(),
            },
        },
    }
}

/// Which of the declared fields the live record has and the mod's does not.
pub fn missing_fields<H: HashProvider, W: WadProvider, G: GameProvider>(
    ctx: &FixContext<H, W, G>,
    entry_type: &str,
    wanted: &Vec<String>,
) -> (r: Vec<String>)
    ensures
        texts(r@) == stale_fields(*ctx, entry_type@, texts(wanted@)),
{
    let mut out: Vec<String> = Vec::new();
    assert(texts(out@) =~= Seq::empty());
    let game = match ctx.game {
        Some(g) => g,
        None => {
            return out;
        },
    };
    let vanilla = match game.game_bin(ctx.file_path.as_str()) {
        Some(t) => t,
        None => {
            return out;
        },
    };
    let class = resolve_hash_token(entry_type);
    let ours = match record_of(&ctx.tree, class) {
        Some(o) => o,
        None => {
            return out;
        },
    };
    let live = match record_of(&vanilla, class) {
        Some(o) => o,
        None => {
            return out;
        },
    };
    let ghost a = entry_keys(ours.properties.entries@);
    let ghost b = entry_keys(live.properties.entries@);
    let ghost all = texts(wanted@);
    let mut i: usize = 0;
    while i < wanted.len()
        invariant
            all == texts(wanted@),
            a == entry_keys(ours.properties.entries@),
            b == entry_keys(live.properties.entries@),
            i <= wanted@.len(),
            texts(out@) == absent_fields(all.take(i as int), a, b),
        decreases wanted@.len() - i,
    {
        proof {
            lemma_take_next(all, i as int);
        }
        let h = resolve_hash_token(wanted[i].as_str());
        if live.properties.contains_key(h) && !ours.properties.contains_key(h) {
            let ghost o = out@;
            out.push(wanted[i].clone());
            proof {
                lemma_texts_push(o, out@.last());
                assert(out@ =~= o.push(out@.last()));
            }
        }
        i = i + 1;
    }
    assert(all.take(i as int) =~= all);
    out
}

/// The path is that of a character's root record: `data/characters/{c}/{c}.bin`.
pub open spec fn character_root(path: Seq<char>) -> bool {
    match below_characters(normal(path)) {
        Some(rest) => {
            let parts = pieces(rest, '/');
            parts.len() == 2 && parts[0].len() > 0 && parts[1] == parts[0] + ".bin"@
        },
        None => false,
    }
}

/// Whether a BIN is a character's root record, e.g. `data/characters/jhin/jhin.bin`.
pub fn is_character_root(file_path: &str) -> (r: bool)
    ensures
        r == character_root(file_path@),
{
    let lower = normalize(file_path);
    let rest = match strip_prefix(lower.as_str(), "data/characters/") {
        Some(r) => r,
        None => match strip_prefix(lower.as_str(), "assets/characters/") {
            Some(r) => r,
            None => {
                return false;
            },
        },
    };
    let parts = split(rest.as_str(), '/');
    assert(texts(parts@).len() == parts@.len());
    if parts.len() != 2 {
        return false;
    }
    assert(texts(parts@)[0] == parts@[0]@ && texts(parts@)[1] == parts@[1]@);
    if parts[0].as_str().is_empty() {
        return false;
    }
    let own = cat(parts[0].as_str(), ".bin");
    same(parts[1].as_str(), own.as_str())
}

/// Boolean verdict for the detection dispatch.
pub fn detect<H: HashProvider, W: WadProvider, G: GameProvider>(
    ctx: &FixContext<H, W, G>,
    entry_type: &str,
    wanted: &Vec<String>,
) -> (r: bool)
    ensures
        r == (character_root(ctx.file_path@) && stale_fields(*ctx, entry_type@, texts(wanted@)).len() > 0),
{
    if !is_character_root(ctx.file_path.as_str()) {
        return false;
    }
    let missing = missing_fields(ctx, entry_type, wanted);
    assert(texts(missing@).len() == missing@.len());
    missing.len() > 0
}

proof fn lemma_absent_fields(wanted: Seq<Seq<char>>, ours: Seq<u32>, live: Seq<u32>, w: Seq<char>)
    ensures
        absent_fields(wanted, ours, live).contains(w) <==> wanted.contains(w) && live.contains(token_hash(w)) && !ours.contains(
            token_hash(w),
        ),
    decreases wanted.len(),
{
    if wanted.len() > 0 {
        let head = wanted.drop_last();
        lemma_absent_fields(head, ours, live, w);
        lemma_push_contains(head, wanted.last(), w);
        assert(head.push(wanted.last()) =~= wanted);
        lemma_push_contains(absent_fields(head, ours, live), wanted.last(), w);
    }
}

proof fn lemma_first_of_class(os: Seq<Object>, class: u32, i: int)
    requires
        first_of_class(os, class, i),
    ensures
        record_keys(os, class) == Some(field_keys(os[i].fields)),
{
    let k = choose|k: int| first_of_class(os, class, k);
    assert(first_of_class(os, class, k));
    if k < i {
        assert(os[k].class != class);
    }
    if i < k {
        assert(os[i].class != class);
    }
}

/// The entry has a property under a key.
pub open spec fn has_property(o: Object, key: u32) -> bool {
    exists|i: int| 0 <= i < o.fields.len() && (#[trigger] o.fields[i]).key == key
}

proof fn lemma_has_property(o: Object, key: u32)
    ensures
        has_property(o, key) <==> field_keys(o.fields).contains(key),
{
    let keys = field_keys(o.fields);
    if keys.contains(key) {
        let i = choose|i: int| 0 <= i < keys.len() && keys[i] == key;
        assert(o.fields[i].key == key);
    }
    if has_property(o, key) {
        let i = choose|i: int| 0 <= i < o.fields.len() && (#[trigger] o.fields[i]).key == key;
        assert(keys[i] == key);
    }
}

/// A field is found missing exactly where it is asked for, the game's record has it and
/// the mod's record has not; the records are the first entries of the class in the mod's
/// file and in the game's file at the same path.
pub proof fn law_missing_fields_are_those_the_game_added<H: HashProvider, W: WadProvider, G: GameProvider>(
    ctx: FixContext<H, W, G>,
    entry_type: Seq<char>,
    wanted: Seq<Seq<char>>,
    live: Seq<Object>,
    a: int,
    b: int,
    w: Seq<char>,
)
    requires
        ctx.game matches Some(g) && g.bin_at(ctx.file_path@) matches Some(t) && t.objects == live,
        first_of_class(objects(ctx.tree.objects), token_hash(entry_type), a),
        first_of_class(live, token_hash(entry_type), b),
    ensures
        stale_fields(ctx, entry_type, wanted).contains(w) <==> {
            &&& wanted.contains(w)
            &&& has_property(live[b], token_hash(w))
            &&& !has_property(objects(ctx.tree.objects)[a], token_hash(w))
        },
{
    let os = objects(ctx.tree.objects);
    let class = token_hash(entry_type);
    lemma_first_of_class(os, class, a);
    lemma_first_of_class(live, class, b);
    lemma_absent_fields(wanted, field_keys(os[a].fields), field_keys(live[b].fields), w);
    lemma_has_property(os[a], token_hash(w));
    lemma_has_property(live[b], token_hash(w));
}

/// Without the game, or without the game's file, no field is found missing.
pub proof fn law_no_reference_no_missing_field<H: HashProvider, W: WadProvider, G: GameProvider>(
    ctx: FixContext<H, W, G>,
    entry_type: Seq<char>,
    wanted: Seq<Seq<char>>,
)
    requires
        ctx.game is None || ctx.game->0.bin_at(ctx.file_path@) is None,
    ensures
        stale_fields(ctx, entry_type, wanted).len() == 0,
{
}

/// The file of a character is the one in the character's folder that bears its name, in
/// either root and in any case.
pub proof fn law_character_files_are_known_by_name(path: Seq<char>, root: Seq<char>, name: Seq<char>)
    requires
        root == "data/characters/"@ || root == "assets/characters/"@,
        normal(path) == root + name + seq!['/'] + (name + ".bin"@),
        name.len() > 0,
        !name.contains('/'),
    ensures
        character_root(path),
{
    reveal_strlit("data/characters/");
    reveal_strlit("assets/characters/");
    reveal_strlit(".bin");
    let file = name + ".bin"@;
    let below = name + seq!['/'] + file;
    assert(normal(path) =~= root + below);
    lemma_without_prefix(root, below);
    if root == "assets/characters/"@ {
        assert(normal(path)[0] == 'a');
        if begins(normal(path), "data/characters/"@) {
            assert(normal(path).subrange(0, "data/characters/"@.len() as int)[0] == 'd');
        }
    }
    assert(!file.contains('/')) by {
        assert forall|k: int| 0 <= k < file.len() implies file[k] != '/' by {
            if k < name.len() {
                assert(name.contains(name[k]));
            }
        }
    }
    lemma_pieces_push(name, file, '/');
    lemma_pieces_plain(name, '/');
    assert(name.push('/') + file =~= below);
    assert(pieces(below, '/') =~= seq![name, file]);
}

} // verus!
