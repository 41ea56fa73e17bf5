//! The BIN files of an archive and those that they link to.

use vstd::prelude::*;
use vstd::string::*;
use crate::archive::{entries, entry, find_path, path_at, path_slot, paths_of, Entry, WadEntry};
use crate::bin::{bin, Bin, BinTree};
use crate::skinlite::copy_tree;
use crate::text::{lemma_push_contains, lemma_sum_contains, lemma_take_next, lemma_texts_push, same, texts};
use crate::traits::BinProvider;

verus! {

/// The BIN files of a table, by path.
pub open spec fn bins(v: Seq<(String, BinTree)>) -> Seq<(Seq<char>, Bin)> {
    v.map_values(|e: (String, BinTree)| (e.0@, bin(e.1)))
}

/// The table has a BIN file for this path.
pub open spec fn has_bin(table: Seq<(Seq<char>, Bin)>, path: Seq<char>) -> bool {
    exists|i: int| 0 <= i < table.len() && (#[trigger] table[i]).0 == path
}

/// `i` is where the BIN file of a path stands.
pub open spec fn bin_at(table: Seq<(Seq<char>, Bin)>, path: Seq<char>, i: int) -> bool {
    0 <= i < table.len() && table[i].0 == path && forall|j: int| 0 <= j < i ==> (#[trigger] table[j]).0 != path
}

/// Where the BIN file of a path stands.
pub open spec fn bin_slot(table: Seq<(Seq<char>, Bin)>, path: Seq<char>) -> Option<int> {
    if exists|i: int| bin_at(table, path, i) {
        Some(choose|i: int| bin_at(table, path, i))
    } else {
        None
    }
}

/// The table with a BIN file under a path, in place of the one that is there.
pub open spec fn put_bin(table: Seq<(Seq<char>, Bin)>, path: Seq<char>, b: Bin) -> Seq<(Seq<char>, Bin)> {
    match bin_slot(table, path) {
        Some(i) => table.update(i, (path, b)),
        None => table.push((path, b)),
    }
}

/// The links that the table has no BIN file for, in order.
pub open spec fn open_links(table: Seq<(Seq<char>, Bin)>, links: Seq<Seq<char>>) -> Seq<Seq<char>>
    decreases links.len(),
{
    if links.len() == 0 {
        Seq::empty()
    } else {
        let before = open_links(table, links.drop_last());
        if has_bin(table, links.last()) {
            before
        } else {
            before.push(links.last())
        }
    }
}

/// BIN files that were read, and links still to follow.
#[verifier::ext_equal]
pub struct Found {
    pub table: Seq<(Seq<char>, Bin)>,
    pub queue: Seq<Seq<char>>,
}

/// What reading the BIN files of a mod finds, in order. One that cannot be read is left
/// out.
pub open spec fn read_bins<P: BinProvider>(chunks: Seq<Entry>, provider: P) -> Found
    decreases chunks.len(),
{
    if chunks.len() == 0 {
        Found { table: Seq::empty(), queue: Seq::empty() }
    } else {
        let before = read_bins(chunks.drop_last(), provider);
        match provider.parsed(chunks.last().bytes) {
            Some(b) => Found {
                table: put_bin(before.table, chunks.last().path, b),
                queue: before.queue + open_links(before.table, b.tree.linked),
            },
            None => before,
        }
    }
}

/// How many of the files have no BIN file in the table.
pub open spec fn unread(files: Seq<Entry>, table: Seq<(Seq<char>, Bin)>) -> nat
    decreases files.len(),
{
    if files.len() == 0 {
        0
    } else {
        unread(files.drop_last(), table) + (if has_bin(table, files.last().path) { 0nat } else { 1nat })
    }
}

/// Reading one more file leaves fewer to read.
pub proof fn lemma_unread(files: Seq<Entry>, table: Seq<(Seq<char>, Bin)>, path: Seq<char>, b: Bin)
    ensures
        unread(files, table.push((path, b))) <= unread(files, table),
        !has_bin(table, path) && path_slot(files, path) is Some ==> unread(files, table.push((path, b))) < unread(files, table),
    decreases files.len(),
{
    let now = table.push((path, b));
    assert(now[table.len() as int].0 == path);
    assert forall|p: Seq<char>| has_bin(table, p) implies has_bin(now, p) by {
        let k = choose|k: int| 0 <= k < table.len() && (#[trigger] table[k]).0 == p;
        assert(now[k].0 == p);
    }
    if files.len() > 0 {
        lemma_unread(files.drop_last(), table, path, b);
        if path_slot(files, path) is Some {
            let i = choose|i: int| crate::archive::path_at(files, path, i);
            assert(crate::archive::path_at(files, path, i));
            if i < files.len() - 1 {
                let head = files.drop_last();
                assert(crate::archive::path_at(head, path, i)) by {
                    assert forall|j: int| 0 <= j < i implies (#[trigger] head[j]).path != path by {
                        assert(files[j].path != path);
                    }
                }
            } else {
                assert(files.last().path == path);
                assert(has_bin(now, path));
            }
        }
    }
}

/// The BIN files once all links are followed to files of the archive, breadth first.
pub open spec fn followed<P: BinProvider>(files: Seq<Entry>, f: Found, provider: P) -> Seq<(Seq<char>, Bin)>
    decreases unread(files, f.table), f.queue.len(),
{
    if f.queue.len() == 0 {
        f.table
    } else {
        let path = f.queue[0];
        let rest = f.queue.skip(1);
        let next = Found { table: f.table, queue: rest };
        if has_bin(f.table, path) {
            followed(files, next, provider)
        } else {
            match path_slot(files, path) {
                None => followed(files, next, provider),
                Some(i) => match provider.parsed(files[i].bytes) {
                    None => followed(files, next, provider),
                    Some(b) => {
                        proof {
                            lemma_unread(files, f.table, path, b);
                        }
                        followed(
                            files,
                            Found { table: f.table.push((path, b)), queue: rest + open_links(f.table, b.tree.linked) },
                            provider,
                        )
                    },
                },
            }
        }
    }
}

/// Where the BIN file of a path stands in a table.
pub fn find_bin(table: &Vec<(String, BinTree)>, path: &str) -> (r: Option<usize>)
    ensures
        r matches Some(i) ==> i < table@.len() && bin_slot(bins(table@), path@) == Some(i as int) && table@[i as int].0@
            == path@,
        r is None <==> bin_slot(bins(table@), path@) is None,
        r is Some <==> has_bin(bins(table@), path@),
{
    let ghost t = bins(table@);
    let mut i: usize = 0;
    while i < table.len()
        invariant
            t == bins(table@),
            i <= table@.len(),
            forall|j: int| 0 <= j < i ==> (#[trigger] t[j]).0 != path@,
        decreases table@.len() - i,
    {
        if same(table[i].0.as_str(), path) {
            proof {
                assert(t[i as int].0 == path@);
                assert(bin_at(t, path@, i as int));
                let k = choose|k: int| bin_at(t, path@, k);
                assert(bin_at(t, path@, k));
                if k < i {
                    assert(t[k].0 != path@);
                }
                if i < k {
                    assert(t[i as int].0 != path@);
                }
            }
            return Some(i);
        }
        assert(t[i as int].0 != path@);
        i = i + 1;
    }
    assert(forall|k: int| !bin_at(t, path@, k));
    None
}

fn push_open_links(queue: &mut Vec<String>, table: &Vec<(String, BinTree)>, links: &Vec<String>)
    ensures
        texts(final(queue)@) == texts(old(queue)@) + open_links(bins(table@), texts(links@)),
{
    let ghost base = texts(queue@);
    let ghost all = texts(links@);
    let mut i: usize = 0;
    assert(base + open_links(bins(table@), all.take(0)) =~= base);
    while i < links.len()
        invariant
            all == texts(links@),
            i <= links@.len(),
            texts(queue@) == base + open_links(bins(table@), all.take(i as int)),
        decreases links@.len() - i,
    {
        proof {
            lemma_take_next(all, i as int);
            assert(all[i as int] == links@[i as int]@);
        }
        if find_bin(table, links[i].as_str()).is_none() {
            let ghost before = queue@;
            let link = links[i].clone();
            queue.push(link);
            proof {
                lemma_texts_push(before, link);
            }
        }
        assert(texts(queue@) =~= base + open_links(bins(table@), all.take(i + 1)));
        i = i + 1;
    }
    assert(all.take(i as int) =~= all);
}

/// Read the BIN files of a mod, and follow their links to other files of the archive.
pub fn read_linked<P: BinProvider>(files: &Vec<WadEntry>, chunks: &Vec<WadEntry>, provider: &P) -> (r: Vec<(String, BinTree)>)
    ensures
        bins(r@) == followed(entries(files@), read_bins(entries(chunks@), *provider), *provider),
{
    let ghost es = entries(files@);
    let ghost cs = entries(chunks@);
    let mut table: Vec<(String, BinTree)> = Vec::new();
    let mut queue: Vec<String> = Vec::new();
    let mut i: usize = 0;
    assert(bins(table@) =~= read_bins(cs.take(0), *provider).table);
    assert(texts(queue@) =~= read_bins(cs.take(0), *provider).queue);
    while i < chunks.len()
        invariant
            cs == entries(chunks@),
            i <= chunks@.len(),
            bins(table@) == read_bins(cs.take(i as int), *provider).table,
            texts(queue@) == read_bins(cs.take(i as int), *provider).queue,
        decreases chunks@.len() - i,
    {
        proof {
            lemma_take_next(cs, i as int);
            assert(cs[i as int] == entry(chunks@[i as int]));
        }
        let path = chunks[i].1.as_str();
        if let Ok(t) = provider.parse_bytes(chunks[i].2.as_slice()) {
            push_open_links(&mut queue, &table, &t.linked);
            let ghost before = table@;
            let ghost b = bin(t);
            match find_bin(&table, path) {
                Some(k) => {
                    table[k] = (path.to_owned(), t);
                    assert(bins(table@) =~= bins(before).update(k as int, (path@, b)));
                },
                None => {
                    table.push((path.to_owned(), t));
                    assert(bins(table@) =~= bins(before).push((path@, b)));
                },
            }
        }
        i = i + 1;
    }
    assert(cs.take(i as int) =~= cs);
    let ghost goal = followed(es, read_bins(cs, *provider), *provider);
    let mut head: usize = 0;
    assert(texts(queue@).skip(0) =~= texts(queue@));
    assert(texts(queue@).len() == queue@.len());
    while head < queue.len()
        invariant
            es == entries(files@),
            head <= queue@.len(),
            texts(queue@).len() == queue@.len(),
            followed(es, Found { table: bins(table@), queue: texts(queue@).skip(head as int) }, *provider) == goal,
        decreases unread(es, bins(table@)), queue@.len() - head,
    {
        let path = queue[head].clone();
        let ghost q = texts(queue@).skip(head as int);
        let ghost t0 = bins(table@);
        proof {
            assert(q[0] == path@);
            assert(q.skip(1) =~= texts(queue@).skip(head + 1));
        }
        head = head + 1;
        if find_bin(&table, path.as_str()).is_none() {
            if let Some(k) = find_path(files, path.as_str()) {
                assert(es[k as int] == entry(files@[k as int]));
                if let Ok(t) = provider.parse_bytes(files[k].2.as_slice()) {
                    let ghost b = bin(t);
                    let ghost before = queue@;
                    push_open_links(&mut queue, &table, &t.linked);
                    let ghost old_table = table@;
                    table.push((path, t));
                    proof {
                        lemma_unread(es, t0, path@, b);
                        assert(bins(table@) =~= t0.push((path@, b)));
                        assert(texts(queue@).skip(head as int) =~= q.skip(1) + open_links(t0, b.tree.linked));
                        assert(texts(queue@).len() == queue@.len());
                    }
                }
            }
        }
    }
    assert(texts(queue@).skip(head as int) =~= Seq::empty());
    table
}

/// Those BIN files of a table that are not among the mod's own.
pub open spec fn linked_only(table: Seq<(Seq<char>, Bin)>, own: Seq<Seq<char>>) -> Seq<(Seq<char>, Bin)>
    decreases table.len(),
{
    if table.len() == 0 {
        Seq::empty()
    } else {
        let before = linked_only(table.drop_last(), own);
        if own.contains(table.last().0) {
            before
        } else {
            before.push(table.last())
        }
    }
}

fn is_own(chunks: &Vec<WadEntry>, path: &str) -> (r: bool)
    ensures
        r == paths_of(entries(chunks@)).contains(path@),
{
    let ghost ps = paths_of(entries(chunks@));
    let mut i: usize = 0;
    while i < chunks.len()
        invariant
            ps == paths_of(entries(chunks@)),
            i <= chunks@.len(),
            forall|j: int| 0 <= j < i ==> ps[j] != path@,
        decreases chunks@.len() - i,
    {
        assert(ps[i as int] == chunks@[i as int].1@);
        if same(chunks[i].1.as_str(), path) {
            return true;
        }
        i = i + 1;
    }
    false
}

/// Copies of those BIN files of a table that are not among the mod's own.
pub fn copy_linked_only(table: &Vec<(String, BinTree)>, chunks: &Vec<WadEntry>) -> (r: Vec<(String, BinTree)>)
    ensures
        bins(r@) == linked_only(bins(table@), paths_of(entries(chunks@))),
{
    let ghost t = bins(table@);
    let ghost own = paths_of(entries(chunks@));
    let mut out: Vec<(String, BinTree)> = Vec::new();
    let mut i: usize = 0;
    assert(bins(out@) =~= linked_only(t.take(0), own));
    while i < table.len()
        invariant
            t == bins(table@),
            own == paths_of(entries(chunks@)),
            i <= table@.len(),
            bins(out@) == linked_only(t.take(i as int), own),
        decreases table@.len() - i,
    {
        proof {
            lemma_take_next(t, i as int);
            assert(t[i as int] == (table@[i as int].0@, bin(table@[i as int].1)));
        }
        if !is_own(chunks, table[i].0.as_str()) {
            let ghost before = out@;
            let copy = copy_tree(&table[i].1);
            out.push((table[i].0.clone(), copy));
            assert(bins(out@) =~= bins(before).push(t[i as int]));
        }
        i = i + 1;
    }
    assert(t.take(i as int) =~= t);
    out
}

/// A copy of a table of BIN files.
pub fn copy_table(table: &Vec<(String, BinTree)>) -> (r: Vec<(String, BinTree)>)
    ensures
        bins(r@) == bins(table@),
{
    let mut out: Vec<(String, BinTree)> = Vec::new();
    let mut i: usize = 0;
    while i < table.len()
        invariant
            i <= table@.len(),
            out@.len() == i,
            forall|j: int| 0 <= j < i ==> (#[trigger] out@[j]).0@ == table@[j].0@ && bin(out@[j].1) == bin(table@[j].1),
        decreases table@.len() - i,
    {
        let copy = copy_tree(&table[i].1);
        out.push((table[i].0.clone(), copy));
        i = i + 1;
    }
    assert(bins(out@) =~= bins(table@));
    out
}

/// Following links only ever adds BIN files.
pub proof fn law_links_only_add<P: BinProvider>(files: Seq<Entry>, f: Found, provider: P)
    ensures
        f.table.len() <= followed(files, f, provider).len(),
        followed(files, f, provider).take(f.table.len() as int) == f.table,
    decreases unread(files, f.table), f.queue.len(),
{
    let out = followed(files, f, provider);
    if f.queue.len() == 0 {
        assert(f.table.take(f.table.len() as int) =~= f.table);
    } else {
        let path = f.queue[0];
        let rest = f.queue.skip(1);
        let next = Found { table: f.table, queue: rest };
        if has_bin(f.table, path) || path_slot(files, path) is None || provider.parsed(
            files[path_slot(files, path)->0].bytes,
        ) is None {
            law_links_only_add(files, next, provider);
        } else {
            let b = provider.parsed(files[path_slot(files, path)->0].bytes)->0;
            lemma_unread(files, f.table, path, b);
            let more = Found { table: f.table.push((path, b)), queue: rest + open_links(f.table, b.tree.linked) };
            law_links_only_add(files, more, provider);
            assert(out.take(f.table.len() as int) =~= out.take(more.table.len() as int).take(f.table.len() as int));
            assert(more.table.take(f.table.len() as int) =~= f.table);
        }
    }
}

/// The archive has a file at a path that parses as a BIN.
pub open spec fn reads<P: BinProvider>(files: Seq<Entry>, provider: P, path: Seq<char>) -> bool {
    exists|i: int| #[trigger] path_at(files, path, i) && provider.parsed(files[i].bytes) is Some
}

proof fn lemma_open_links(table: Seq<(Seq<char>, Bin)>, links: Seq<Seq<char>>, l: Seq<char>)
    ensures
        open_links(table, links).contains(l) <==> links.contains(l) && !has_bin(table, l),
    decreases links.len(),
{
    if links.len() > 0 {
        let head = links.drop_last();
        lemma_open_links(table, head, l);
        assert(head.push(links.last()) =~= links);
        lemma_push_contains(head, links.last(), l);
        lemma_push_contains(open_links(table, head), links.last(), l);
    }
}

/// Every readable link of a BIN of the table is settled: its BIN is in the table or still to
/// be read.
spec fn links_noted<P: BinProvider>(files: Seq<Entry>, provider: P, f: Found) -> bool {
    forall|n: int, y: Seq<char>|
        0 <= n < f.table.len() && #[trigger] f.table[n].1.tree.linked.contains(y) && reads(files, provider, y) ==> has_bin(f.table, y)
            || f.queue.contains(y)
}

proof fn lemma_not_read<P: BinProvider>(files: Seq<Entry>, provider: P, path: Seq<char>)
    requires
        path_slot(files, path) matches Some(k) ==> provider.parsed(files[k].bytes) is None,
    ensures
        !reads(files, provider, path),
{
    if reads(files, provider, path) {
        let k = choose|k: int| #[trigger] path_at(files, path, k) && provider.parsed(files[k].bytes) is Some;
        let m = choose|m: int| path_at(files, path, m);
        assert(files[k].path == path && files[m].path == path);
        assert(k == m);
    }
}

proof fn lemma_followed<P: BinProvider>(files: Seq<Entry>, f: Found, provider: P, i: int, l: Seq<char>)
    requires
        links_noted(files, provider, f),
        0 <= i < followed(files, f, provider).len(),
        followed(files, f, provider)[i].1.tree.linked.contains(l),
        reads(files, provider, l),
    ensures
        has_bin(followed(files, f, provider), l),
    decreases unread(files, f.table), f.queue.len(),
{
    if f.queue.len() > 0 {
        let path = f.queue[0];
        let rest = f.queue.skip(1);
        let next = Found { table: f.table, queue: rest };
        assert forall|y: Seq<char>| f.queue.contains(y) implies rest.contains(y) || y == path by {
            let k = choose|k: int| 0 <= k < f.queue.len() && f.queue[k] == y;
            if k > 0 {
                assert(rest[k - 1] == y);
            }
        }
        let bytes_read = match path_slot(files, path) {
            Some(k) => provider.parsed(files[k].bytes),
            None => None,
        };
        if has_bin(f.table, path) {
            assert(links_noted(files, provider, next));
            lemma_followed(files, next, provider, i, l);
        } else if bytes_read is None {
            lemma_not_read(files, provider, path);
            assert(links_noted(files, provider, next));
            lemma_followed(files, next, provider, i, l);
        } else {
            let b = bytes_read->0;
            lemma_unread(files, f.table, path, b);
            let more = Found { table: f.table.push((path, b)), queue: rest + open_links(f.table, b.tree.linked) };
            assert forall|n: int, y: Seq<char>|
                0 <= n < more.table.len() && #[trigger] more.table[n].1.tree.linked.contains(y) && reads(
                    files,
                    provider,
                    y,
                ) implies has_bin(more.table, y) || more.queue.contains(y) by {
                lemma_sum_contains(rest, open_links(f.table, b.tree.linked), y);
                lemma_open_links(f.table, b.tree.linked, y);
                assert(more.table[f.table.len() as int].0 == path);
                if has_bin(f.table, y) {
                    let m = choose|m: int| 0 <= m < f.table.len() && (#[trigger] f.table[m]).0 == y;
                    assert(more.table[m].0 == y);
                }
                if n < f.table.len() {
                    assert(f.table[n].1.tree.linked.contains(y));
                }
            }
            lemma_followed(files, more, provider, i, l);
        }
    }
}

proof fn lemma_put_bin(table: Seq<(Seq<char>, Bin)>, path: Seq<char>, b: Bin, p: Seq<char>)
    ensures
        has_bin(put_bin(table, path, b), p) <==> has_bin(table, p) || p == path,
        forall|n: int|
            0 <= n < put_bin(table, path, b).len() ==> (#[trigger] put_bin(table, path, b)[n]).1 == b || table.contains(
                put_bin(table, path, b)[n],
            ),
{
    let out = put_bin(table, path, b);
    match bin_slot(table, path) {
        Some(k) => {
            assert(bin_at(table, path, k));
            assert(out[k].0 == path);
            if has_bin(table, p) {
                let m = choose|m: int| 0 <= m < table.len() && (#[trigger] table[m]).0 == p;
                assert(out[m].0 == p);
            }
            if has_bin(out, p) {
                let m = choose|m: int| 0 <= m < out.len() && (#[trigger] out[m]).0 == p;
                assert(table[m].0 == p);
            }
            assert forall|n: int| 0 <= n < out.len() implies (#[trigger] out[n]).1 == b || table.contains(out[n]) by {
                if n != k {
                    assert(out[n] == table[n]);
                }
            }
        },
        None => {
            assert(out[table.len() as int].0 == path);
            if has_bin(table, p) {
                let m = choose|m: int| 0 <= m < table.len() && (#[trigger] table[m]).0 == p;
                assert(out[m].0 == p);
            }
            if has_bin(out, p) {
                let m = choose|m: int| 0 <= m < out.len() && (#[trigger] out[m]).0 == p;
                if m < table.len() {
                    assert(table[m].0 == p);
                }
            }
            assert forall|n: int| 0 <= n < out.len() implies (#[trigger] out[n]).1 == b || table.contains(out[n]) by {
                if n < table.len() {
                    assert(out[n] == table[n]);
                }
            }
        },
    }
}

proof fn lemma_read_noted<P: BinProvider>(files: Seq<Entry>, chunks: Seq<Entry>, provider: P)
    ensures
        links_noted(files, provider, read_bins(chunks, provider)),
    decreases chunks.len(),
{
    if chunks.len() > 0 {
        let before = read_bins(chunks.drop_last(), provider);
        lemma_read_noted(files, chunks.drop_last(), provider);
        if let Some(b) = provider.parsed(chunks.last().bytes) {
            let path = chunks.last().path;
            let now = read_bins(chunks, provider);
            assert forall|n: int, y: Seq<char>|
                0 <= n < now.table.len() && #[trigger] now.table[n].1.tree.linked.contains(y) && reads(
                    files,
                    provider,
                    y,
                ) implies has_bin(now.table, y) || now.queue.contains(y) by {
                lemma_put_bin(before.table, path, b, y);
                lemma_sum_contains(before.queue, open_links(before.table, b.tree.linked), y);
                lemma_open_links(before.table, b.tree.linked, y);
                if now.table[n].1 != b {
                    let m = choose|m: int| 0 <= m < before.table.len() && before.table[m] == now.table[n];
                    assert(before.table[m].1.tree.linked.contains(y));
                }
            }
        }
    }
}

/// The links of a BIN that was read are read too, at any depth, where the archive has a BIN
/// at their path.
pub proof fn law_linked_bins_are_read<P: BinProvider>(files: Seq<Entry>, chunks: Seq<Entry>, provider: P, i: int, l: Seq<char>)
    requires
        0 <= i < followed(files, read_bins(chunks, provider), provider).len(),
        followed(files, read_bins(chunks, provider), provider)[i].1.tree.linked.contains(l),
        reads(files, provider, l),
    ensures
        has_bin(followed(files, read_bins(chunks, provider), provider), l),
{
    lemma_read_noted(files, chunks, provider);
    lemma_followed(files, read_bins(chunks, provider), provider, i, l);
}

proof fn lemma_chunk_read<P: BinProvider>(chunks: Seq<Entry>, provider: P, c: int)
    requires
        0 <= c < chunks.len(),
        provider.parsed(chunks[c].bytes) is Some,
    ensures
        has_bin(read_bins(chunks, provider).table, chunks[c].path),
    decreases chunks.len(),
{
    let head = chunks.drop_last();
    if c < head.len() {
        assert(head[c] == chunks[c]);
        lemma_chunk_read(head, provider, c);
    }
    if let Some(b) = provider.parsed(chunks.last().bytes) {
        lemma_put_bin(read_bins(head, provider).table, chunks.last().path, b, chunks[c].path);
    }
}

/// Every chunk that parses has its BIN in the table.
pub proof fn law_readable_chunks_are_read<P: BinProvider>(files: Seq<Entry>, chunks: Seq<Entry>, provider: P, c: int)
    requires
        0 <= c < chunks.len(),
        provider.parsed(chunks[c].bytes) is Some,
    ensures
        has_bin(followed(files, read_bins(chunks, provider), provider), chunks[c].path),
{
    let f = read_bins(chunks, provider);
    lemma_chunk_read(chunks, provider, c);
    law_links_only_add(files, f, provider);
    let out = followed(files, f, provider);
    let i = choose|i: int| 0 <= i < f.table.len() && (#[trigger] f.table[i]).0 == chunks[c].path;
    assert(out.take(f.table.len() as int)[i] == out[i]);
}

/// What counts as linked only are the BINs of the table that are no chunks themselves.
pub proof fn law_linked_only_leaves_chunks_out(table: Seq<(Seq<char>, Bin)>, own: Seq<Seq<char>>, e: (Seq<char>, Bin))
    ensures
        linked_only(table, own).contains(e) <==> table.contains(e) && !own.contains(e.0),
    decreases table.len(),
{
    if table.len() > 0 {
        let head = table.drop_last();
        law_linked_only_leaves_chunks_out(head, own, e);
        assert(head.push(table.last()) =~= table);
        lemma_push_contains(head, table.last(), e);
        lemma_push_contains(linked_only(head, own), table.last(), e);
    }
}

} // verus!
