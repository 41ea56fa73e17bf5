//! Merges the BIN files that a file links, directly or not, into the file itself: the
//! first definition of an entry wins, and the merged files leave the archive.

use vstd::prelude::*;
use vstd::string::*;
use crate::bin::{copy_object, lemma_object_keys, object, object_keys, objects, tree, BinObject, BinTree, Object, OrderedMap, Tree};
use crate::context::{same_surroundings, FixContext};
use crate::text::{is_listed, lemma_listed, lemma_push_contains, lemma_sum_contains, lemma_take_next, lemma_texts_push, same, texts};
use crate::traits::{GameProvider, HashProvider, WadProvider};
use crate::walk::{add_count, capped};

verus! {

/// The BIN files at hand, by path.
pub open spec fn shelf(trees: Seq<(String, BinTree)>) -> Seq<(Seq<char>, Tree)> {
    trees.map_values(|e: (String, BinTree)| (e.0@, tree(e.1)))
}

/// `i` is where the file of a path stands.
pub open spec fn shelved_at(shelf: Seq<(Seq<char>, Tree)>, path: Seq<char>, i: int) -> bool {
    0 <= i < shelf.len() && shelf[i].0 == path && forall|j: int| 0 <= j < i ==> (#[trigger] shelf[j]).0 != path
}

/// The file of a path.
pub open spec fn shelved(shelf: Seq<(Seq<char>, Tree)>, path: Seq<char>) -> Option<Tree> {
    if exists|i: int| shelved_at(shelf, path, i) {
        Some(shelf[choose|i: int| shelved_at(shelf, path, i)].1)
    } else {
        None
    }
}

/// How many of the files have not been visited.
pub open spec fn unvisited(shelf: Seq<(Seq<char>, Tree)>, visited: Seq<Seq<char>>) -> nat
    decreases shelf.len(),
{
    if shelf.len() == 0 {
        0
    } else {
        unvisited(shelf.drop_last(), visited) + (if visited.contains(shelf.last().0) { 0nat } else { 1nat })
    }
}

proof fn lemma_unvisited(shelf: Seq<(Seq<char>, Tree)>, visited: Seq<Seq<char>>, path: Seq<char>)
    ensures
        unvisited(shelf, visited.push(path)) <= unvisited(shelf, visited),
        !visited.contains(path) && (exists|i: int| 0 <= i < shelf.len() && (#[trigger] shelf[i]).0 == path)
            ==> unvisited(shelf, visited.push(path)) < unvisited(shelf, visited),
    decreases shelf.len(),
{
    if shelf.len() > 0 {
        let head = shelf.drop_last();
        lemma_unvisited(head, visited, path);
        let now = visited.push(path);
        assert(now[visited.len() as int] == path);
        assert forall|p: Seq<char>| visited.contains(p) implies now.contains(p) by {
            let k = choose|k: int| 0 <= k < visited.len() && visited[k] == p;
            assert(now[k] == p);
        }
        assert forall|p: Seq<char>| now.contains(p) && p != path implies visited.contains(p) by {
            let k = choose|k: int| 0 <= k < now.len() && now[k] == p;
            assert(visited[k] == p);
        }
        if exists|i: int| 0 <= i < shelf.len() && (#[trigger] shelf[i]).0 == path {
            let i = choose|i: int| 0 <= i < shelf.len() && (#[trigger] shelf[i]).0 == path;
            if i < head.len() {
                assert(head[i].0 == path);
            } else {
                assert(now.contains(shelf.last().0));
            }
        }
    }
}

/// The paths that a breadth-first search over links visits, each once, in order.
pub open spec fn visits(shelf: Seq<(Seq<char>, Tree)>, queue: Seq<Seq<char>>, visited: Seq<Seq<char>>) -> Seq<Seq<char>>
    decreases unvisited(shelf, visited), queue.len(),
    via visits_end
{
    if queue.len() == 0 {
        visited
    } else {
        let path = queue[0];
        let rest = queue.skip(1);
        if visited.contains(path) {
            visits(shelf, rest, visited)
        } else {
            match shelved(shelf, path) {
                Some(t) => visits(shelf, rest + t.linked, visited.push(path)),
                None => visits(shelf, rest, visited.push(path)),
            }
        }
    }
}

#[via_fn]
proof fn visits_end(shelf: Seq<(Seq<char>, Tree)>, queue: Seq<Seq<char>>, visited: Seq<Seq<char>>) {
    if queue.len() > 0 {
        let path = queue[0];
        lemma_unvisited(shelf, visited, path);
        if shelved(shelf, path) is Some {
            let i = choose|i: int| shelved_at(shelf, path, i);
            assert(shelf[i].0 == path);
        }
    }
}

/// Those of the paths whose file is at hand.
pub open spec fn found(shelf: Seq<(Seq<char>, Tree)>, paths: Seq<Seq<char>>) -> Seq<Seq<char>>
    decreases paths.len(),
{
    if paths.len() == 0 {
        Seq::empty()
    } else {
        let before = found(shelf, paths.drop_last());
        if shelved(shelf, paths.last()) is Some {
            before.push(paths.last())
        } else {
            before
        }
    }
}

/// `os` with those of `more` added whose key it does not have.
pub open spec fn merged(os: Seq<Object>, more: Seq<Object>) -> Seq<Object>
    decreases more.len(),
{
    if more.len() == 0 {
        os
    } else {
        let before = merged(os, more.drop_last());
        if object_keys(before).contains(more.last().key) {
            before
        } else {
            before.push(more.last())
        }
    }
}

/// `os` with the files at these paths merged in, in order.
pub open spec fn merged_all(os: Seq<Object>, shelf: Seq<(Seq<char>, Tree)>, paths: Seq<Seq<char>>) -> Seq<Object>
    decreases paths.len(),
{
    if paths.len() == 0 {
        os
    } else {
        let before = merged_all(os, shelf, paths.drop_last());
        match shelved(shelf, paths.last()) {
            Some(t) => merged(before, t.objects),
            None => before,
        }
    }
}

/// The links that are not among the merged paths.
pub open spec fn links_left(links: Seq<Seq<char>>, gone: Seq<Seq<char>>) -> Seq<Seq<char>>
    decreases links.len(),
{
    if links.len() == 0 {
        Seq::empty()
    } else {
        let before = links_left(links.drop_last(), gone);
        if gone.contains(links.last()) {
            before
        } else {
            before.push(links.last())
        }
    }
}

/// `list` with those of `more` added that it does not hold.
pub open spec fn with_new(list: Seq<Seq<char>>, more: Seq<Seq<char>>) -> Seq<Seq<char>>
    decreases more.len(),
{
    if more.len() == 0 {
        list
    } else {
        let before = with_new(list, more.drop_last());
        if before.contains(more.last()) {
            before
        } else {
            before.push(more.last())
        }
    }
}

fn find_tree<'a>(trees: &'a Vec<(String, BinTree)>, path: &str) -> (r: Option<&'a BinTree>)
    ensures
        r is Some <==> shelved(shelf(trees@), path@) is Some,
        r matches Some(t) ==> shelved(shelf(trees@), path@) == Some(tree(*t)),
{
    let ghost s = shelf(trees@);
    let mut i: usize = 0;
    while i < trees.len()
        invariant
            s == shelf(trees@),
            i <= trees@.len(),
            forall|j: int| 0 <= j < i ==> (#[trigger] s[j]).0 != path@,
        decreases trees@.len() - i,
    {
        assert(s[i as int].0 == trees@[i as int].0@);
        if same(trees[i].0.as_str(), path) {
            assert(shelved_at(s, path@, i as int));
            let ghost k = choose|k: int| shelved_at(s, path@, k);
            assert(shelved_at(s, path@, k));
            assert(k == i) by {
                if k < i {
                    assert(s[k].0 != path@);
                }
                if k > i {
                    assert(s[i as int].0 != path@);
                }
            }
            return Some(&trees[i].1);
        }
        i = i + 1;
    }
    assert(forall|k: int| !shelved_at(s, path@, k));
    None
}

fn push_all(queue: &mut Vec<String>, links: &Vec<String>)
    ensures
        texts(final(queue)@) == texts(old(queue)@) + texts(links@),
{
    let ghost before = texts(queue@);
    let mut i: usize = 0;
    assert(before + texts(links@).take(0) =~= before);
    while i < links.len()
        invariant
            i <= links@.len(),
            texts(queue@) == before + texts(links@).take(i as int),
        decreases links@.len() - i,
    {
        let ghost q = queue@;
        queue.push(links[i].clone());
        proof {
            lemma_texts_push(q, queue@.last());
            assert(queue@ =~= q.push(queue@.last()));
            assert(texts(queue@) =~= before + texts(links@).take(i + 1));
        }
        i = i + 1;
    }
    assert(texts(links@).take(i as int) =~= texts(links@));
}

/// Merge the entries of `from` into `into`. Returns the number of entries added.
fn merge_objects(into: &mut OrderedMap<BinObject>, from: &OrderedMap<BinObject>) -> (n: u32)
    ensures
        objects(*final(into)) == merged(objects(*old(into)), objects(*from)),
        final(into).entries@.len() >= old(into).entries@.len(),
        n == capped((final(into).entries@.len() - old(into).entries@.len()) as nat),
{
    let ghost base = objects(*into);
    let ghost more = objects(*from);
    let ghost len0 = into.entries@.len();
    let mut n: u32 = 0;
    let mut i: usize = 0;
    while i < from.entries.len()
        invariant
            more == objects(*from),
            i <= from.entries@.len(),
            objects(*into) == merged(base, more.take(i as int)),
            into.entries@.len() >= len0,
            n == capped((into.entries@.len() - len0) as nat),
        decreases from.entries@.len() - i,
    {
        proof {
            lemma_take_next(more, i as int);
            lemma_object_keys(*into);
        }
        let key = from.entries[i].0;
        assert(more[i as int] == object(key, from.entries@[i as int].1));
        if !into.contains_key(key) {
            let ghost before = *into;
            let copy = copy_object(&from.entries[i].1);
            into.entries.push((key, copy));
            proof {
                assert(objects(*into) =~= objects(before).push(object(key, copy)));
                assert(object(key, copy) == more[i as int]);
                assert(1u32 == capped(1nat));
            }
            let ghost n0 = n;
            n = add_count(n, 1);
            assert(n == capped(((before.entries@.len() - len0) as nat + 1) as nat)) by {
                assert(n0 == capped((before.entries@.len() - len0) as nat));
            }
        }
        i = i + 1;
    }
    assert(more.take(i as int) =~= more);
    n
}

/// What a merge does to a file: its entries, its links and the files to remove.
pub open spec fn merge_result(
    os: Seq<Object>,
    links: Seq<Seq<char>>,
    shelf: Seq<(Seq<char>, Tree)>,
) -> (Seq<Object>, Seq<Seq<char>>, Seq<Seq<char>>) {
    let seen = visits(shelf, links, Seq::empty());
    let gone = found(shelf, seen);
    (merged_all(os, shelf, seen), links_left(links, gone), gone)
}

/// Merge the linked BIN files into the file under repair. Returns the number of entries
/// added.
pub fn apply<H: HashProvider, W: WadProvider, G: GameProvider>(ctx: &mut FixContext<H, W, G>) -> (n: u32)
    ensures
        ({
            let os = objects(old(ctx).tree.objects);
            let w = merge_result(os, texts(old(ctx).tree.linked@), shelf(old(ctx).linked_trees@));
            &&& objects(final(ctx).tree.objects) == w.0
            &&& texts(final(ctx).tree.linked@) == w.1
            &&& texts(final(ctx).files_to_remove@) == with_new(texts(old(ctx).files_to_remove@), w.2)
            &&& n == capped((w.0.len() - os.len()) as nat)
        }),
        final(ctx).tree.trailer_files == old(ctx).tree.trailer_files,
        final(ctx).tree.trailing == old(ctx).tree.trailing,
        final(ctx).renames == old(ctx).renames,
        final(ctx).additional_bins == old(ctx).additional_bins,
        same_surroundings(*final(ctx), *old(ctx)),
{
    let ghost os = objects(ctx.tree.objects);
    let ghost links = texts(ctx.tree.linked@);
    let ghost sh = shelf(ctx.linked_trees@);
    let ghost all = visits(sh, links, Seq::empty());
    let mut queue: Vec<String> = Vec::new();
    push_all(&mut queue, &ctx.tree.linked);
    assert(texts(queue@) =~= links);
    let mut visited: Vec<String> = Vec::new();
    let mut gone: Vec<String> = Vec::new();
    let mut n: u32 = 0;
    assert(texts(visited@) =~= Seq::empty());
    assert(texts(gone@) =~= found(sh, texts(visited@)));
    while queue.len() > 0
        invariant
            sh == shelf(ctx.linked_trees@),
            all == visits(sh, texts(queue@), texts(visited@)),
            objects(ctx.tree.objects) == merged_all(os, sh, texts(visited@)),
            ctx.tree.objects.entries@.len() >= os.len(),
            n == capped((ctx.tree.objects.entries@.len() - os.len()) as nat),
            texts(gone@) == found(sh, texts(visited@)),
            ctx.tree.linked == old(ctx).tree.linked,
            ctx.tree.trailer_files == old(ctx).tree.trailer_files,
            ctx.tree.trailing == old(ctx).tree.trailing,
            ctx.renames == old(ctx).renames,
            ctx.files_to_remove == old(ctx).files_to_remove,
            ctx.additional_bins == old(ctx).additional_bins,
            same_surroundings(*ctx, *old(ctx)),
        decreases unvisited(sh, texts(visited@)), queue@.len(),
    {
        let ghost q = texts(queue@);
        let ghost seen = texts(visited@);
        let path = queue.remove(0);
        let ghost this = path@;
        proof {
            assert(q[0] == this);
            assert(texts(queue@) =~= q.skip(1));
            lemma_listed(visited@, this);
            lemma_unvisited(sh, seen, this);
        }
        if is_listed(&visited, path.as_str()) {
            continue;
        }
        proof {
            assert(seen.push(this).drop_last() =~= seen);
        }
        match find_tree(&ctx.linked_trees, path.as_str()) {
            Some(t) => {
                proof {
                    let i = choose|i: int| shelved_at(sh, this, i);
                    assert(sh[i].0 == this);
                }
                push_all(&mut queue, &t.linked);
                let ghost len1 = ctx.tree.objects.entries@.len();
                let ghost n0 = n;
                let k = merge_objects(&mut ctx.tree.objects, &t.objects);
                n = add_count(n, k);
                let ghost g = gone@;
                gone.push(path.clone());
                visited.push(path);
                proof {
                    let a = (len1 - os.len()) as nat;
                    let b = (ctx.tree.objects.entries@.len() - len1) as nat;
                    assert(n0 == capped(a) && k == capped(b));
                    assert(n == capped((a + b) as nat));
                    assert(texts(visited@) =~= seen.push(this));
                    assert(texts(gone@) =~= texts(g).push(this));
                }
            },
            None => {
                visited.push(path);
                assert(texts(visited@) =~= seen.push(this));
            },
        }
    }
    let ghost lost = texts(gone@);
    let mut left: Vec<String> = Vec::new();
    let mut i: usize = 0;
    assert(texts(left@) =~= links_left(links.take(0), lost));
    while i < ctx.tree.linked.len()
        invariant
            links == texts(ctx.tree.linked@),
            lost == texts(gone@),
            i <= ctx.tree.linked@.len(),
            texts(left@) == links_left(links.take(i as int), lost),
        decreases ctx.tree.linked@.len() - i,
    {
        proof {
            lemma_take_next(links, i as int);
            lemma_listed(gone@, ctx.tree.linked@[i as int]@);
        }
        if !is_listed(&gone, ctx.tree.linked[i].as_str()) {
            let ghost l = left@;
            left.push(ctx.tree.linked[i].clone());
            proof {
                lemma_texts_push(l, left@.last());
                assert(left@ =~= l.push(left@.last()));
            }
        }
        i = i + 1;
    }
    assert(links.take(i as int) =~= links);
    ctx.tree.linked = left;
    let ghost list = texts(ctx.files_to_remove@);
    let ghost kept = ctx.tree;
    let mut k: usize = 0;
    while k < gone.len()
        invariant
            lost == texts(gone@),
            k <= gone@.len(),
            ctx.tree == kept,
            texts(ctx.files_to_remove@) == with_new(list, lost.take(k as int)),
            ctx.additional_bins == old(ctx).additional_bins,
            ctx.renames == old(ctx).renames,
            same_surroundings(*ctx, *old(ctx)),
        decreases gone@.len() - k,
    {
        proof {
            lemma_take_next(lost, k as int);
            lemma_listed(ctx.files_to_remove@, gone@[k as int]@);
        }
        if !is_listed(&ctx.files_to_remove, gone[k].as_str()) {
            let ghost l = ctx.files_to_remove@;
            ctx.files_to_remove.push(gone[k].clone());
            proof {
                lemma_texts_push(l, ctx.files_to_remove@.last());
                assert(ctx.files_to_remove@ =~= l.push(ctx.files_to_remove@.last()));
            }
        }
        k = k + 1;
    }
    assert(lost.take(k as int) =~= lost);
    n
}

proof fn lemma_merged_keeps(os: Seq<Object>, more: Seq<Object>)
    ensures
        os.is_prefix_of(merged(os, more)),
        forall|i: int| 0 <= i < more.len() ==> object_keys(merged(os, more)).contains((#[trigger] more[i]).key),
    decreases more.len(),
{
    if more.len() > 0 {
        let head = more.drop_last();
        lemma_merged_keeps(os, head);
        let before = merged(os, head);
        let now = merged(os, more);
        assert forall|i: int| 0 <= i < more.len() implies object_keys(now).contains((#[trigger] more[i]).key) by {
            if i < head.len() {
                assert(head[i] == more[i]);
                let k = choose|k: int| 0 <= k < before.len() && object_keys(before)[k] == more[i].key;
                assert(object_keys(now)[k] == more[i].key);
            } else if !object_keys(before).contains(more.last().key) {
                assert(object_keys(now)[now.len() - 1] == more[i].key);
            }
        }
    }
}

/// The first definition wins: merging keeps the entries of the file as they are and in
/// their places, whatever the linked files define.
pub proof fn law_first_definition_wins(os: Seq<Object>, shelf: Seq<(Seq<char>, Tree)>, paths: Seq<Seq<char>>)
    ensures
        os.is_prefix_of(merged_all(os, shelf, paths)),
    decreases paths.len(),
{
    if paths.len() > 0 {
        law_first_definition_wins(os, shelf, paths.drop_last());
        let before = merged_all(os, shelf, paths.drop_last());
        if let Some(t) = shelved(shelf, paths.last()) {
            lemma_merged_keeps(before, t.objects);
            let now = merged(before, t.objects);
            assert(os =~= now.subrange(0, os.len() as int)) by {
                assert(before =~= now.subrange(0, before.len() as int));
            }
        }
    } else {
        assert(os =~= os.subrange(0, os.len() as int));
    }
}

/// Every entry of a merged file is defined afterwards.
pub proof fn law_merged_entries_are_defined(os: Seq<Object>, shelf: Seq<(Seq<char>, Tree)>, paths: Seq<Seq<char>>, p: int, i: int)
    requires
        0 <= p < paths.len(),
        shelved(shelf, paths[p]) is Some,
        0 <= i < shelved(shelf, paths[p])->0.objects.len(),
    ensures
        object_keys(merged_all(os, shelf, paths)).contains(shelved(shelf, paths[p])->0.objects[i].key),
    decreases paths.len(),
{
    let head = paths.drop_last();
    let before = merged_all(os, shelf, head);
    let key = shelved(shelf, paths[p])->0.objects[i].key;
    if p < head.len() {
        assert(head[p] == paths[p]);
        law_merged_entries_are_defined(os, shelf, head, p, i);
        if let Some(t) = shelved(shelf, paths.last()) {
            lemma_merged_keeps(before, t.objects);
            let now = merged(before, t.objects);
            let k = choose|k: int| 0 <= k < before.len() && object_keys(before)[k] == key;
            assert(now[k] == before[k]) by {
                assert(before =~= now.subrange(0, before.len() as int));
            }
            assert(object_keys(now)[k] == key);
        }
    } else {
        let t = shelved(shelf, paths.last())->0;
        lemma_merged_keeps(before, t.objects);
        assert(t.objects[i].key == key);
    }
}

/// The file at a path is at hand and lists a link.
pub open spec fn leads_to(shelf: Seq<(Seq<char>, Tree)>, path: Seq<char>, link: Seq<char>) -> bool {
    exists|i: int| #[trigger] shelved_at(shelf, path, i) && shelf[i].1.linked.contains(link)
}

proof fn lemma_shelved(shelf: Seq<(Seq<char>, Tree)>, path: Seq<char>, i: int)
    requires
        shelved_at(shelf, path, i),
    ensures
        shelved(shelf, path) == Some(shelf[i].1),
{
    let k = choose|k: int| shelved_at(shelf, path, k);
    assert(shelf[k].0 == path && shelf[i].0 == path);
    assert(k == i);
}

proof fn lemma_visits(shelf: Seq<(Seq<char>, Tree)>, queue: Seq<Seq<char>>, visited: Seq<Seq<char>>, x: Seq<char>)
    ensures
        visited.contains(x) || queue.contains(x) ==> visits(shelf, queue, visited).contains(x),
    decreases unvisited(shelf, visited), queue.len(),
{
    if queue.len() > 0 {
        let path = queue[0];
        let rest = queue.skip(1);
        lemma_unvisited(shelf, visited, path);
        if queue.contains(x) && x != path {
            let k = choose|k: int| 0 <= k < queue.len() && queue[k] == x;
            assert(rest[k - 1] == x);
        }
        lemma_push_contains(visited, path, x);
        if visited.contains(path) {
            lemma_visits(shelf, rest, visited, x);
        } else {
            match shelved(shelf, path) {
                Some(t) => {
                    let i = choose|i: int| shelved_at(shelf, path, i);
                    assert(shelf[i].0 == path);
                    lemma_sum_contains(rest, t.linked, x);
                    lemma_visits(shelf, rest + t.linked, visited.push(path), x);
                },
                None => {
                    lemma_visits(shelf, rest, visited.push(path), x);
                },
            }
        }
    }
}

proof fn lemma_visits_follow(
    shelf: Seq<(Seq<char>, Tree)>,
    queue: Seq<Seq<char>>,
    visited: Seq<Seq<char>>,
    p: Seq<char>,
    x: Seq<char>,
)
    requires
        forall|q: Seq<char>, y: Seq<char>| #[trigger]
            visited.contains(q) && #[trigger] leads_to(shelf, q, y) ==> visited.contains(y) || queue.contains(y),
        visits(shelf, queue, visited).contains(p),
        leads_to(shelf, p, x),
    ensures
        visits(shelf, queue, visited).contains(x),
    decreases unvisited(shelf, visited), queue.len(),
{
    if queue.len() > 0 {
        let path = queue[0];
        let rest = queue.skip(1);
        lemma_unvisited(shelf, visited, path);
        assert forall|y: Seq<char>| queue.contains(y) implies rest.contains(y) || y == path by {
            let k = choose|k: int| 0 <= k < queue.len() && queue[k] == y;
            if k > 0 {
                assert(rest[k - 1] == y);
            }
        }
        if visited.contains(path) {
            lemma_visits_follow(shelf, rest, visited, p, x);
        } else {
            let now = visited.push(path);
            let more = match shelved(shelf, path) {
                Some(t) => rest + t.linked,
                None => rest,
            };
            assert forall|q: Seq<char>, y: Seq<char>| #[trigger] now.contains(q) && #[trigger] leads_to(shelf, q, y) implies now.contains(
                y,
            ) || more.contains(y) by {
                lemma_push_contains(visited, path, q);
                lemma_push_contains(visited, path, y);
                if let Some(t) = shelved(shelf, path) {
                    lemma_sum_contains(rest, t.linked, y);
                }
                if q == path {
                    let i = choose|i: int| #[trigger] shelved_at(shelf, path, i) && shelf[i].1.linked.contains(y);
                    lemma_shelved(shelf, path, i);
                } else {
                    assert(visited.contains(q));
                }
            }
            if shelved(shelf, path) is Some {
                let i = choose|i: int| shelved_at(shelf, path, i);
                assert(shelf[i].0 == path);
            }
            lemma_visits_follow(shelf, more, now, p, x);
        }
    }
}

proof fn lemma_found(shelf: Seq<(Seq<char>, Tree)>, paths: Seq<Seq<char>>, p: Seq<char>)
    ensures
        found(shelf, paths).contains(p) <==> paths.contains(p) && shelved(shelf, p) is Some,
    decreases paths.len(),
{
    if paths.len() > 0 {
        let head = paths.drop_last();
        lemma_found(shelf, head, p);
        assert(head.push(paths.last()) =~= paths);
        lemma_push_contains(head, paths.last(), p);
        lemma_push_contains(found(shelf, head), paths.last(), p);
    }
}

proof fn lemma_links_left(links: Seq<Seq<char>>, gone: Seq<Seq<char>>, p: Seq<char>)
    ensures
        links_left(links, gone).contains(p) <==> links.contains(p) && !gone.contains(p),
    decreases links.len(),
{
    if links.len() > 0 {
        let head = links.drop_last();
        lemma_links_left(head, gone, p);
        assert(head.push(links.last()) =~= links);
        lemma_push_contains(head, links.last(), p);
        lemma_push_contains(links_left(head, gone), links.last(), p);
    }
}

/// A file that is at hand and that the file links is merged: its entries are defined, the
/// link to it goes, and it leaves the archive.
pub proof fn law_linked_files_are_merged(os: Seq<Object>, links: Seq<Seq<char>>, shelf: Seq<(Seq<char>, Tree)>, l: int, i: int, k: int)
    requires
        0 <= l < links.len(),
        shelved_at(shelf, links[l], i),
        0 <= k < shelf[i].1.objects.len(),
    ensures
        object_keys(merge_result(os, links, shelf).0).contains(shelf[i].1.objects[k].key),
        !merge_result(os, links, shelf).1.contains(links[l]),
        merge_result(os, links, shelf).2.contains(links[l]),
{
    let all = visits(shelf, links, Seq::empty());
    lemma_visits(shelf, links, Seq::empty(), links[l]);
    lemma_shelved(shelf, links[l], i);
    lemma_found(shelf, all, links[l]);
    lemma_links_left(links, found(shelf, all), links[l]);
    let p = choose|p: int| 0 <= p < all.len() && all[p] == links[l];
    law_merged_entries_are_defined(os, shelf, all, p, k);
}

/// Merging goes on through the links of the merged files: what one of them links is merged
/// too, where it is at hand.
pub proof fn law_merging_follows_links(
    os: Seq<Object>,
    links: Seq<Seq<char>>,
    shelf: Seq<(Seq<char>, Tree)>,
    p: Seq<char>,
    x: Seq<char>,
    i: int,
    k: int,
)
    requires
        merge_result(os, links, shelf).2.contains(p),
        leads_to(shelf, p, x),
        shelved_at(shelf, x, i),
        0 <= k < shelf[i].1.objects.len(),
    ensures
        merge_result(os, links, shelf).2.contains(x),
        object_keys(merge_result(os, links, shelf).0).contains(shelf[i].1.objects[k].key),
{
    let all = visits(shelf, links, Seq::empty());
    lemma_found(shelf, all, p);
    lemma_visits_follow(shelf, links, Seq::empty(), p, x);
    lemma_shelved(shelf, x, i);
    lemma_found(shelf, all, x);
    let n = choose|n: int| 0 <= n < all.len() && all[n] == x;
    law_merged_entries_are_defined(os, shelf, all, n, k);
}

/// A link whose file is not at hand stays, and no other link does.
pub proof fn law_links_to_other_files_stay(os: Seq<Object>, links: Seq<Seq<char>>, shelf: Seq<(Seq<char>, Tree)>, link: Seq<char>)
    ensures
        merge_result(os, links, shelf).1.contains(link) <==> links.contains(link) && forall|i: int|
            !#[trigger] shelved_at(shelf, link, i),
{
    let all = visits(shelf, links, Seq::empty());
    if links.contains(link) {
        lemma_visits(shelf, links, Seq::empty(), link);
    }
    lemma_found(shelf, all, link);
    lemma_links_left(links, found(shelf, all), link);
}

proof fn lemma_merged_members(os: Seq<Object>, more: Seq<Object>, o: Object)
    requires
        merged(os, more).contains(o),
    ensures
        os.contains(o) || more.contains(o),
    decreases more.len(),
{
    if more.len() > 0 {
        let head = more.drop_last();
        let before = merged(os, head);
        assert(head.push(more.last()) =~= more);
        lemma_push_contains(head, more.last(), o);
        lemma_push_contains(before, more.last(), o);
        if before.contains(o) {
            lemma_merged_members(os, head, o);
        }
    }
}

/// An entry of the result is one that the file had or one of a merged file.
pub proof fn law_merged_entries_come_from_files(os: Seq<Object>, shelf: Seq<(Seq<char>, Tree)>, paths: Seq<Seq<char>>, o: Object)
    requires
        merged_all(os, shelf, paths).contains(o),
    ensures
        os.contains(o) || exists|i: int|
            0 <= i < shelf.len() && paths.contains((#[trigger] shelf[i]).0) && shelf[i].1.objects.contains(o),
    decreases paths.len(),
{
    if paths.len() > 0 {
        let head = paths.drop_last();
        let before = merged_all(os, shelf, head);
        assert(head.push(paths.last()) =~= paths);
        if before.contains(o) {
            law_merged_entries_come_from_files(os, shelf, head, o);
            if !os.contains(o) {
                let i = choose|i: int|
                    0 <= i < shelf.len() && head.contains((#[trigger] shelf[i]).0) && shelf[i].1.objects.contains(o);
                lemma_push_contains(head, paths.last(), shelf[i].0);
            }
        } else {
            let i = choose|i: int| shelved_at(shelf, paths.last(), i);
            lemma_merged_members(before, shelf[i].1.objects, o);
            assert(shelf[i].0 == paths.last());
            lemma_push_contains(head, paths.last(), shelf[i].0);
        }
    }
}

proof fn lemma_with_new(list: Seq<Seq<char>>, more: Seq<Seq<char>>, p: Seq<char>)
    ensures
        with_new(list, more).contains(p) <==> list.contains(p) || more.contains(p),
    decreases more.len(),
{
    if more.len() > 0 {
        let head = more.drop_last();
        lemma_with_new(list, head, p);
        assert(head.push(more.last()) =~= more);
        lemma_push_contains(head, more.last(), p);
        lemma_push_contains(with_new(list, head), more.last(), p);
    }
}

/// The files to remove are those that were, and the merged ones.
pub proof fn law_merged_files_leave(list: Seq<Seq<char>>, merged_paths: Seq<Seq<char>>, p: Seq<char>)
    ensures
        with_new(list, merged_paths).contains(p) <==> list.contains(p) || merged_paths.contains(p),
{
    lemma_with_new(list, merged_paths, p);
}

} // verus!
