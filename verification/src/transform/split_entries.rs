//! Moves the entries of some classes out of a BIN file into a new one at a templated
//! path.

use std::collections::BTreeMap;
use vstd::prelude::*;
use vstd::string::*;
use crate::bin::{bin, object, objects, trailers, Bin, BinObject, BinTree, Object, OrderedMap, Tree};
use crate::context::{same_surroundings, FixContext};
use crate::detect::rules::contains_hash;
use crate::seeds::below_characters;
use crate::text::{
    after_last, before_last, begins, find_digits, first_digits, is_listed, last_at, lemma_last_position, lemma_listed, lemma_take_next, lowered, pieces, replace_char,
    replace_text, replaced, rfind_char, slice, split, strip_prefix, swapped, texts, to_lower,
};
use crate::traits::{GameProvider, HashProvider, WadProvider};
use crate::walk::capped;

verus! {

/// The champion folder that a path lies in; empty where it lies in none.
pub open spec fn champion_folder(path: Seq<char>) -> Seq<char> {
    match below_characters(lowered(path)) {
        Some(rest) => if pieces(rest, '/').len() >= 2 { pieces(rest, '/')[0] } else { Seq::empty() },
        None => Seq::empty(),
    }
}

/// `template` filled in from the path of the source file.
pub open spec fn filled(template: Seq<char>, source: Seq<char>) -> Seq<char> {
    let path = swapped(source, '\\', '/');
    let dir = match before_last(path, '/') {
        Some(d) => d,
        None => Seq::empty(),
    };
    let file = after_last(path, '/');
    let stem = match before_last(file, '.') {
        Some(s) => s,
        None => file,
    };
    let ext = if before_last(file, '.') is Some { after_last(file, '.') } else { Seq::empty() };
    let a = replaced(template, "{source_dir}"@, dir);
    let b = replaced(a, "{source_stem}"@, stem);
    let c = replaced(b, "{source_ext}"@, ext);
    let d = replaced(c, "{champion}"@, champion_folder(path));
    replaced(d, "{skin}"@, first_digits(stem))
}

/// Resolve `template` against the path of the source file: `{source_dir}`,
/// `{source_stem}`, `{source_ext}`, `{champion}` and `{skin}` (the first number in the
/// stem) are filled in; what the path does not have is empty.
pub fn resolve_template(template: &str, source_file_path: &str) -> (r: String)
    ensures
        r@ == filled(template@, source_file_path@),
{
    proof {
        reveal_strlit("{source_dir}");
        reveal_strlit("{source_stem}");
        reveal_strlit("{source_ext}");
        reveal_strlit("{champion}");
        reveal_strlit("{skin}");
    }
    let path = replace_char(source_file_path, '\\', '/');
    let n = path.as_str().unicode_len();
    let (dir, file) = match rfind_char(path.as_str(), '/') {
        Some(i) => (slice(path.as_str(), 0, i), slice(path.as_str(), i + 1, n)),
        None => (String::new(), path.clone()),
    };
    assert(dir@ =~= (match before_last(path@, '/') {
        Some(d) => d,
        None => Seq::empty(),
    }));
    assert(file@ =~= after_last(path@, '/'));
    let m = file.as_str().unicode_len();
    let (stem, ext) = match rfind_char(file.as_str(), '.') {
        Some(i) => (slice(file.as_str(), 0, i), slice(file.as_str(), i + 1, m)),
        None => (file.clone(), String::new()),
    };
    assert(stem@ =~= (match before_last(file@, '.') {
        Some(s) => s,
        None => file@,
    }));
    assert(ext@ =~= (if before_last(file@, '.') is Some { after_last(file@, '.') } else { Seq::empty() }));
    let lower = to_lower(path.as_str());
    let below = match strip_prefix(lower.as_str(), "data/characters/") {
        Some(r) => Some(r),
        None => strip_prefix(lower.as_str(), "assets/characters/"),
    };
    let champion = match below {
        Some(rest) => {
            let parts = split(rest.as_str(), '/');
            assert(texts(parts@).len() == parts@.len());
            if parts.len() >= 2 {
                assert(texts(parts@)[0] == parts@[0]@);
                parts[0].clone()
            } else {
                String::new()
            }
        },
        None => String::new(),
    };
    assert(champion@ =~= champion_folder(path@));
    let skin = find_digits(stem.as_str());
    let a = replace_text(template, "{source_dir}", dir.as_str());
    let b = replace_text(a.as_str(), "{source_stem}", stem.as_str());
    let c = replace_text(b.as_str(), "{source_ext}", ext.as_str());
    let d = replace_text(c.as_str(), "{champion}", champion.as_str());
    replace_text(d.as_str(), "{skin}", skin.as_str())
}

/// A BIN file with these entries and nothing else.
pub open spec fn bin_of(os: Seq<Object>) -> Bin {
    Bin { tree: Tree { objects: os, linked: Seq::empty() }, files: Map::empty(), trailing: Seq::empty() }
}

/// The dictionary gives one of the type names this class.
pub open spec fn wanted<H: HashProvider>(hashes: H, types: Seq<String>, class: u32) -> bool {
    exists|i: int| 0 <= i < types.len() && hashes.hash_of_type((#[trigger] types[i])@) == Some(class)
}

/// The entries of which `wanted` says `yes`, in order.
pub open spec fn sorted_out<H: HashProvider>(os: Seq<Object>, hashes: H, types: Seq<String>, yes: bool) -> Seq<Object>
    decreases os.len(),
{
    if os.len() == 0 {
        Seq::empty()
    } else {
        let before = sorted_out(os.drop_last(), hashes, types, yes);
        if wanted(hashes, types, os.last().class) == yes {
            before.push(os.last())
        } else {
            before
        }
    }
}

fn resolve_class_hashes<H: HashProvider>(hashes: &H, entry_types: &Vec<String>) -> (r: Vec<u32>)
    ensures
        forall|c: u32| #[trigger] r@.contains(c) <==> wanted(*hashes, entry_types@, c),
{
    let mut out: Vec<u32> = Vec::new();
    let mut i: usize = 0;
    while i < entry_types.len()
        invariant
            i <= entry_types@.len(),
            forall|c: u32| #[trigger] out@.contains(c) <==> exists|j: int|
                0 <= j < i && hashes.hash_of_type((#[trigger] entry_types@[j])@) == Some(c),
        decreases entry_types@.len() - i,
    {
        let ghost before = out@;
        let found = hashes.type_hash(entry_types[i].as_str());
        if let Some(h) = found {
            out.push(h.0);
        }
        proof {
            assert forall|c: u32| #[trigger] out@.contains(c) <==> exists|j: int|
                0 <= j < i + 1 && hashes.hash_of_type((#[trigger] entry_types@[j])@) == Some(c) by {
                if before.contains(c) {
                    let k = choose|k: int| 0 <= k < before.len() && before[k] == c;
                    assert(out@[k] == c);
                }
                if out@.contains(c) && !before.contains(c) {
                    assert(hashes.hash_of_type(entry_types@[i as int]@) == Some(c));
                }
                if exists|j: int| 0 <= j < i + 1 && hashes.hash_of_type((#[trigger] entry_types@[j])@) == Some(c) {
                    let j = choose|j: int|
                        0 <= j < i + 1 && hashes.hash_of_type((#[trigger] entry_types@[j])@) == Some(c);
                    if j < i {
                        assert(before.contains(c));
                    } else {
                        assert(out@[out@.len() - 1] == c);
                    }
                }
            }
        }
        i = i + 1;
    }
    out
}

/// The links of the source after the split.
pub open spec fn links_after(links: Seq<Seq<char>>, new_path: Seq<char>, link: bool) -> Seq<Seq<char>> {
    if link && !links.contains(new_path) {
        links.push(new_path)
    } else {
        links
    }
}

/// Move the entries of the given types into a new BIN file. Returns the number of
/// entries moved.
///
/// Nothing is done where the dictionary knows none of the types, or the file has no
/// entry of them.
pub fn apply<H: HashProvider, W: WadProvider, G: GameProvider>(
    ctx: &mut FixContext<H, W, G>,
    entry_types: &Vec<String>,
    output_path_template: &str,
    link_in_source: bool,
) -> (n: u32)
    ensures
        same_surroundings(*final(ctx), *old(ctx)),
        final(ctx).files_to_remove == old(ctx).files_to_remove,
        final(ctx).renames == old(ctx).renames,
        final(ctx).tree.trailer_files == old(ctx).tree.trailer_files,
        final(ctx).tree.trailing == old(ctx).tree.trailing,
        ({
            let os = objects(old(ctx).tree.objects);
            let moved = sorted_out(os, *old(ctx).hashes, entry_types@, true);
            let path = filled(output_path_template@, old(ctx).file_path@);
            if moved.len() == 0 {
                &&& objects(final(ctx).tree.objects) == os
                &&& final(ctx).tree.linked == old(ctx).tree.linked
                &&& final(ctx).additional_bins == old(ctx).additional_bins
                &&& n == 0
            } else {
                &&& objects(final(ctx).tree.objects) == sorted_out(os, *old(ctx).hashes, entry_types@, false)
                &&& texts(final(ctx).tree.linked@) == links_after(texts(old(ctx).tree.linked@), path, link_in_source)
                &&& final(ctx).additional_bins@.len() == old(ctx).additional_bins@.len() + 1
                &&& final(ctx).additional_bins@.drop_last() == old(ctx).additional_bins@
                &&& final(ctx).additional_bins@.last().0@ == path
                &&& bin(final(ctx).additional_bins@.last().1) == bin_of(moved)
                &&& n == capped(moved.len())
            }
        }),
{
    let classes = resolve_class_hashes(ctx.hashes, entry_types);
    let ghost before = ctx.tree.objects;
    let ghost os = objects(before);
    let ghost hashes = *ctx.hashes;
    let mut moved: Vec<(u32, BinObject)> = Vec::new();
    let mut i: usize = 0;
    let mut seen: usize = 0;
    let len = ctx.tree.objects.entries.len();
    assert(objects(OrderedMap { entries: moved }) =~= sorted_out(os.take(0), hashes, entry_types@, true));
    assert(objects(ctx.tree.objects).take(0) =~= sorted_out(os.take(0), hashes, entry_types@, false));
    while seen < len
        invariant
            os == objects(before),
            len == before.entries@.len(),
            seen <= len,
            i <= seen,
            hashes == *old(ctx).hashes,
            forall|c: u32| #[trigger] classes@.contains(c) <==> wanted(hashes, entry_types@, c),
            same_surroundings(*ctx, *old(ctx)),
            ctx.files_to_remove == old(ctx).files_to_remove,
            ctx.renames == old(ctx).renames,
            ctx.additional_bins == old(ctx).additional_bins,
            ctx.tree.linked == old(ctx).tree.linked,
            ctx.tree.trailer_files == old(ctx).tree.trailer_files,
            ctx.tree.trailing == old(ctx).tree.trailing,
            ctx.tree.objects.entries@.len() == len - seen + i,
            forall|j: int| i <= j < ctx.tree.objects.entries@.len() ==> ctx.tree.objects.entries@[j]
                == before.entries@[j - i + seen],
            objects(OrderedMap { entries: moved }) == sorted_out(os.take(seen as int), hashes, entry_types@, true),
            objects(ctx.tree.objects).take(i as int) == sorted_out(os.take(seen as int), hashes, entry_types@, false),
        decreases len - seen,
    {
        proof {
            lemma_take_next(os, seen as int);
            assert(ctx.tree.objects.entries@[i as int] == before.entries@[seen as int]);
        }
        let ghost o = os[seen as int];
        let class = ctx.tree.objects.entries[i].1.class_hash.0;
        assert(o == object(ctx.tree.objects.entries@[i as int].0, ctx.tree.objects.entries@[i as int].1));
        let ghost kept = objects(ctx.tree.objects);
        let ghost m0 = moved@;
        let ghost e0 = ctx.tree.objects.entries@;
        if contains_hash(&classes, class) {
            let e = ctx.tree.objects.entries.remove(i);
            moved.push(e);
            proof {
                assert(objects(OrderedMap { entries: moved }) =~= sorted_out(
                    os.take(seen as int),
                    hashes,
                    entry_types@,
                    true,
                ).push(o)) by {
                    let a = objects(OrderedMap { entries: moved });
                    let b = sorted_out(os.take(seen as int), hashes, entry_types@, true);
                    assert(a.len() == b.len() + 1);
                    assert forall|k: int| 0 <= k < b.len() implies a[k] == b[k] by {
                        assert(moved@[k] == m0[k]);
                    }
                }
                assert(objects(ctx.tree.objects).take(i as int) =~= kept.take(i as int)) by {
                    assert forall|k: int| 0 <= k < i implies objects(ctx.tree.objects)[k] == kept[k] by {
                        assert(ctx.tree.objects.entries@[k] == e0[k]);
                    }
                }
            }
        } else {
            proof {
                assert(kept.take(i + 1) =~= kept.take(i as int).push(o));
            }
            i = i + 1;
        }
        seen = seen + 1;
    }
    assert(os.take(len as int) =~= os);
    assert(objects(ctx.tree.objects).take(i as int) =~= objects(ctx.tree.objects));
    let ghost all_moved = sorted_out(os, hashes, entry_types@, true);
    assert(all_moved.len() == moved@.len());
    if moved.len() == 0 {
        proof {
            lemma_none_moved(os, hashes, entry_types@);
        }
        return 0;
    }
    let n: u32 = if moved.len() >= u32::MAX as usize { u32::MAX } else { moved.len() as u32 };
    let new_path = resolve_template(output_path_template, ctx.file_path.as_str());
    proof {
        lemma_listed(ctx.tree.linked@, new_path@);
    }
    let ghost links = ctx.tree.linked@;
    if link_in_source && !is_listed(&ctx.tree.linked, new_path.as_str()) {
        ctx.tree.linked.push(new_path.clone());
        assert(texts(ctx.tree.linked@) =~= texts(links).push(new_path@));
    }
    let new_tree = BinTree {
        objects: OrderedMap { entries: moved },
        linked: Vec::new(),
        trailing: Vec::new(),
        trailer_files: BTreeMap::new(),
    };
    proof {
        assert(texts(new_tree.linked@) =~= Seq::empty());
        assert(trailers(new_tree.trailer_files@) =~= Map::empty());
        assert(bin(new_tree) =~= bin_of(sorted_out(os, hashes, entry_types@, true)));
    }
    ctx.additional_bins.push((new_path, new_tree));
    assert(ctx.additional_bins@.drop_last() =~= old(ctx).additional_bins@);
    n
}

proof fn lemma_none_moved<H: HashProvider>(os: Seq<Object>, hashes: H, types: Seq<String>)
    requires
        sorted_out(os, hashes, types, true).len() == 0,
    ensures
        sorted_out(os, hashes, types, false) == os,
    decreases os.len(),
{
    if os.len() > 0 {
        lemma_none_moved(os.drop_last(), hashes, types);
        assert(os.drop_last().push(os.last()) =~= os);
    } else {
        assert(os =~= Seq::empty());
    }
}

/// No entry is lost in a split: each goes to one of the two files.
pub proof fn law_split_keeps_every_entry<H: HashProvider>(os: Seq<Object>, hashes: H, types: Seq<String>)
    ensures
        sorted_out(os, hashes, types, true).len() + sorted_out(os, hashes, types, false).len() == os.len(),
        forall|o: Object| os.contains(o) <==> sorted_out(os, hashes, types, true).contains(o) || sorted_out(
            os,
            hashes,
            types,
            false,
        ).contains(o),
    decreases os.len(),
{
    if os.len() > 0 {
        let head = os.drop_last();
        law_split_keeps_every_entry(head, hashes, types);
        let a0 = sorted_out(head, hashes, types, true);
        let b0 = sorted_out(head, hashes, types, false);
        let a = sorted_out(os, hashes, types, true);
        let b = sorted_out(os, hashes, types, false);
        assert forall|o: Object| os.contains(o) <==> a.contains(o) || b.contains(o) by {
            assert(os.contains(o) <==> head.contains(o) || o == os.last()) by {
                if os.contains(o) {
                    let i = choose|i: int| 0 <= i < os.len() && os[i] == o;
                    if i < head.len() {
                        assert(head[i] == o);
                    }
                }
                if head.contains(o) {
                    let i = choose|i: int| 0 <= i < head.len() && head[i] == o;
                    assert(os[i] == o);
                }
                assert(os[os.len() - 1] == os.last());
            }
            lemma_push_contains(a0, os.last(), o);
            lemma_push_contains(b0, os.last(), o);
        }
    }
}

proof fn lemma_push_contains(s: Seq<Object>, x: Object, o: Object)
    ensures
        s.push(x).contains(o) <==> s.contains(o) || o == x,
{
    if s.contains(o) {
        let i = choose|i: int| 0 <= i < s.len() && s[i] == o;
        assert(s.push(x)[i] == o);
    }
    assert(s.push(x)[s.len() as int] == x);
}

/// The entries that move are those of a class that one of the type names stands for, and
/// the others stay.
pub proof fn law_entries_are_split_by_class<H: HashProvider>(os: Seq<Object>, hashes: H, types: Seq<String>, o: Object)
    ensures
        sorted_out(os, hashes, types, true).contains(o) <==> os.contains(o) && exists|i: int|
            0 <= i < types.len() && hashes.hash_of_type((#[trigger] types[i])@) == Some(o.class),
        sorted_out(os, hashes, types, false).contains(o) <==> os.contains(o) && forall|i: int|
            0 <= i < types.len() ==> hashes.hash_of_type((#[trigger] types[i])@) != Some(o.class),
    decreases os.len(),
{
    if os.len() > 0 {
        let head = os.drop_last();
        law_entries_are_split_by_class(head, hashes, types, o);
        assert(head.push(os.last()) =~= os);
        lemma_push_contains(head, os.last(), o);
        lemma_push_contains(sorted_out(head, hashes, types, true), os.last(), o);
        lemma_push_contains(sorted_out(head, hashes, types, false), os.last(), o);
    }
}

/// The file links the new one where that is wanted, keeps its links in their places, and
/// links nothing twice on that account.
pub proof fn law_source_links_the_new_file(links: Seq<Seq<char>>, new_path: Seq<char>, link: bool)
    ensures
        links.is_prefix_of(links_after(links, new_path, link)),
        link ==> links_after(links, new_path, link).contains(new_path),
        !link ==> links_after(links, new_path, link) == links,
        links.no_duplicates() ==> links_after(links, new_path, link).no_duplicates(),
        forall|l: Seq<char>| links_after(links, new_path, link).contains(l) ==> links.contains(l) || (link && l == new_path),
{
    let after = links_after(links, new_path, link);
    assert(links =~= after.subrange(0, links.len() as int));
    if link && !links.contains(new_path) {
        assert(after[links.len() as int] == new_path);
    }
}

proof fn lemma_nothing_replaced(s: Seq<char>, from: Seq<char>, to: Seq<char>)
    requires
        from.len() > 0,
        !s.contains(from[0]),
    ensures
        replaced(s, from, to) == s,
    decreases s.len(),
{
    if s.len() >= from.len() {
        assert(s[0] != from[0]) by {
            assert(s.contains(s[0]));
        }
        if begins(s, from) {
            assert(s.subrange(0, from.len() as int)[0] == s[0]);
        }
        let rest = s.skip(1);
        assert forall|i: int| 0 <= i < rest.len() implies rest[i] != from[0] by {
            assert(rest[i] == s[i + 1]);
        }
        lemma_nothing_replaced(rest, from, to);
        assert(seq![s[0]] + rest =~= s);
    }
}

proof fn lemma_front_replaced(from: Seq<char>, to: Seq<char>, rest: Seq<char>)
    requires
        from.len() > 0,
        !rest.contains(from[0]),
    ensures
        replaced(from + rest, from, to) == to + rest,
{
    let s = from + rest;
    assert(s.subrange(0, from.len() as int) =~= from);
    assert(s.skip(from.len() as int) =~= rest);
    lemma_nothing_replaced(rest, from, to);
}

/// A template without a placeholder names the same file for every source, and one that
/// begins with the source's folder names a file in that folder.
pub proof fn law_template_places_the_file(rest: Seq<char>, dir: Seq<char>, file: Seq<char>)
    requires
        !rest.contains('{'),
        !dir.contains('{'),
        !dir.contains('\\'),
        !file.contains('/'),
        !file.contains('\\'),
    ensures
        filled(rest, dir + seq!['/'] + file) == rest,
        filled("{source_dir}"@ + rest, dir + seq!['/'] + file) == dir + rest,
{
    reveal_strlit("{source_dir}");
    reveal_strlit("{source_stem}");
    reveal_strlit("{source_ext}");
    reveal_strlit("{champion}");
    reveal_strlit("{skin}");
    let source = dir + seq!['/'] + file;
    assert forall|i: int| 0 <= i < source.len() implies source[i] != '\\' by {
        if i < dir.len() {
            assert(dir.contains(dir[i]));
        } else if i > dir.len() {
            assert(file.contains(file[i - dir.len() - 1]));
        }
    }
    assert(swapped(source, '\\', '/') =~= source);
    assert(last_at(source, '/', dir.len() as int)) by {
        assert forall|j: int| dir.len() < j < source.len() implies source[j] != '/' by {
            assert(file.contains(file[j - dir.len() - 1]));
        }
    }
    lemma_last_position(source, '/', dir.len() as int);
    assert(source.subrange(0, dir.len() as int) =~= dir);
    let file_name = after_last(source, '/');
    let stem = match before_last(file_name, '.') {
        Some(s) => s,
        None => file_name,
    };
    let ext = if before_last(file_name, '.') is Some { after_last(file_name, '.') } else { Seq::empty() };
    lemma_nothing_replaced(rest, "{source_dir}"@, dir);
    lemma_nothing_replaced(rest, "{source_stem}"@, stem);
    lemma_nothing_replaced(rest, "{source_ext}"@, ext);
    lemma_nothing_replaced(rest, "{champion}"@, champion_folder(source));
    lemma_nothing_replaced(rest, "{skin}"@, first_digits(stem));
    lemma_front_replaced("{source_dir}"@, dir, rest);
    let t = dir + rest;
    assert(!t.contains('{')) by {
        if t.contains('{') {
            let i = choose|i: int| 0 <= i < t.len() && t[i] == '{';
            if i < dir.len() {
                assert(dir.contains(dir[i]));
            } else {
                assert(rest.contains(rest[i - dir.len()]));
            }
        }
    }
    lemma_nothing_replaced(t, "{source_stem}"@, stem);
    lemma_nothing_replaced(t, "{source_ext}"@, ext);
    lemma_nothing_replaced(t, "{champion}"@, champion_folder(source));
    lemma_nothing_replaced(t, "{skin}"@, first_digits(stem));
}

} // verus!
