//! Archives of archives: which entries of a `.fantome` file are taken out, and what goes
//! into the repacked one.

use vstd::prelude::*;
use vstd::string::*;
use crate::text::{contains, ends, ends_with, holds, lemma_push_contains, lemma_take_next, lowered, pieces, to_lower};

verus! {

/// The largest number of entries that an archive may have.
pub const MAX_ENTRIES: usize = 1000;

/// The largest size of an entry that is taken out: 500 MiB.
pub const MAX_FILE_SIZE: u64 = 524288000;

/// The largest size of all entries that are taken out: 2 GiB.
pub const MAX_TOTAL_SIZE: u64 = 2147483648;

/// What is known of an entry before it is taken out.
#[derive(Debug)]
pub struct ZipEntryInfo {
    pub name: String,
    /// Size once unpacked.
    pub size: u64,
    /// The name is an absolute path on this system.
    pub is_absolute: bool,
}

/// Why an archive is refused.
#[derive(Debug)]
pub enum FantomeError {
    TooManyEntries { count: usize },
    /// An entry would leave the directory that it is taken out to.
    PathTraversal { index: usize },
    EntryTooLarge { index: usize, size: u64 },
    TotalTooLarge { total: u64 },
}

/// The entry is an archive that is to be processed.
pub open spec fn is_wad(name: Seq<char>) -> bool {
    ends(lowered(name), ".wad.client"@)
}

/// Whether an entry of this name is an archive that is to be processed.
pub fn is_wad_entry(name: &str) -> (r: bool)
    ensures
        r == is_wad(name@),
{
    let lower = to_lower(name);
    ends_with(lower.as_str(), ".wad.client")
}

/// The entry would leave the directory that it is taken out to.
pub open spec fn leaves(e: ZipEntryInfo) -> bool {
    holds(e.name@, ".."@) || e.is_absolute
}

/// The sum of two sizes, which stops at the largest.
pub open spec fn size_sum(a: u64, b: u64) -> u64 {
    if a + b > u64::MAX {
        u64::MAX
    } else {
        (a + b) as u64
    }
}

/// What has been taken out so far: the entries by index, and their size.
#[verifier::ext_equal]
pub struct Taken {
    pub indices: Seq<usize>,
    pub total: u64,
}

/// What is taken out of some entries, in order, or why the archive is refused.
pub open spec fn taken(es: Seq<ZipEntryInfo>) -> Result<Taken, FantomeError>
    decreases es.len(),
{
    if es.len() == 0 {
        Ok(Taken { indices: Seq::empty(), total: 0 })
    } else {
        match taken(es.drop_last()) {
            Err(e) => Err(e),
            Ok(t) => {
                let e = es.last();
                let i = (es.len() - 1) as usize;
                let total = size_sum(t.total, e.size);
                if !is_wad(e.name@) {
                    Ok(t)
                } else if leaves(e) {
                    Err(FantomeError::PathTraversal { index: i })
                } else if e.size > MAX_FILE_SIZE {
                    Err(FantomeError::EntryTooLarge { index: i, size: e.size })
                } else if total > MAX_TOTAL_SIZE {
                    Err(FantomeError::TotalTooLarge { total })
                } else {
                    Ok(Taken { indices: t.indices.push(i), total })
                }
            },
        }
    }
}

/// What is taken out of an archive, or why it is refused.
pub open spec fn extraction(es: Seq<ZipEntryInfo>) -> Result<Taken, FantomeError> {
    if es.len() > MAX_ENTRIES {
        Err(FantomeError::TooManyEntries { count: es.len() as usize })
    } else {
        taken(es)
    }
}

proof fn lemma_refusal_stays(es: Seq<ZipEntryInfo>, n: int)
    requires
        0 <= n <= es.len(),
        taken(es.take(n)) is Err,
    ensures
        taken(es) == taken(es.take(n)),
    decreases es.len(),
{
    if n < es.len() {
        assert(es.drop_last().take(n) =~= es.take(n));
        lemma_refusal_stays(es.drop_last(), n);
    } else {
        assert(es.take(n) =~= es);
    }
}

/// Plan what is taken out of an archive: its archives, by index. An archive is refused
/// where it has too many entries, an entry would leave its directory, or what is to be
/// taken out is too large.
pub fn plan_extraction(list: &Vec<ZipEntryInfo>) -> (r: Result<Vec<usize>, FantomeError>)
    ensures
        r is Ok <==> extraction(list@) is Ok,
        r matches Ok(v) ==> extraction(list@)->Ok_0.indices == v@,
        r matches Err(e) ==> extraction(list@) == Err::<Taken, FantomeError>(e),
{
    if list.len() > MAX_ENTRIES {
        return Err(FantomeError::TooManyEntries { count: list.len() });
    }
    let mut out: Vec<usize> = Vec::new();
    let mut total: u64 = 0;
    let mut i: usize = 0;
    assert(taken(list@.take(0)) == Ok::<Taken, FantomeError>(Taken { indices: out@, total })) by {
        assert(out@ =~= Seq::empty());
    }
    while i < list.len()
        invariant
            i <= list@.len(),
            taken(list@.take(i as int)) == Ok::<Taken, FantomeError>(Taken { indices: out@, total }),
            list@.len() <= MAX_ENTRIES,
        decreases list@.len() - i,
    {
        let e = &list[i];
        proof {
            lemma_take_next(list@, i as int);
            if taken(list@.take(i + 1)) is Err {
                lemma_refusal_stays(list@, i + 1);
            }
        }
        if is_wad_entry(e.name.as_str()) {
            if contains(e.name.as_str(), "..") || e.is_absolute {
                return Err(FantomeError::PathTraversal { index: i });
            }
            if e.size > MAX_FILE_SIZE {
                return Err(FantomeError::EntryTooLarge { index: i, size: e.size });
            }
            total = if total > u64::MAX - e.size { u64::MAX } else { total + e.size };
            if total > MAX_TOTAL_SIZE {
                return Err(FantomeError::TotalTooLarge { total });
            }
            out.push(i);
        }
        i = i + 1;
    }
    assert(list@.take(i as int) =~= list@);
    Ok(out)
}

/// Where an entry of a repacked archive comes from.
#[derive(Clone, Copy, Debug, PartialEq, Eq, Structural)]
pub enum EntrySource {
    /// The archive as it was repaired.
    Fixed,
    /// The entry of the original.
    Original,
}

/// Where an entry of a repacked archive comes from: a repaired archive takes the place of
/// its original, everything else is copied.
pub fn repack_source(name: &str, fixed_exists: bool) -> (r: EntrySource)
    ensures
        r == (if is_wad(name@) && fixed_exists { EntrySource::Fixed } else { EntrySource::Original }),
{
    if is_wad_entry(name) && fixed_exists {
        EntrySource::Fixed
    } else {
        EntrySource::Original
    }
}

/// Whether an archive of archives is to be repacked.
pub fn needs_repack(dry_run: bool, fixes_applied: u32) -> (r: bool)
    ensures
        r == (!dry_run && fixes_applied > 0),
{
    !dry_run && fixes_applied > 0
}

/// What is taken out is within the limits, and stays in its directory.
pub proof fn law_extraction_is_bounded(es: Seq<ZipEntryInfo>)
    requires
        es.len() <= usize::MAX,
    ensures
        taken(es) matches Ok(t) ==> t.total <= MAX_TOTAL_SIZE && t.indices.len() <= es.len() && forall|k: int|
            0 <= k < t.indices.len() ==> {
                let i = #[trigger] t.indices[k];
                i < es.len() && is_wad(es[i as int].name@) && !leaves(es[i as int]) && es[i as int].size <= MAX_FILE_SIZE
            },
    decreases es.len(),
{
    if es.len() > 0 {
        law_extraction_is_bounded(es.drop_last());
    }
}

/// A path with a `..` among its parts, split at either slash, is refused.
pub proof fn law_parent_parts_are_refused(e: ZipEntryInfo, part: int, slash: char)
    requires
        0 <= part < pieces(e.name@, slash).len(),
        pieces(e.name@, slash)[part] == ".."@,
    ensures
        leaves(e),
{
    lemma_part_is_held(e.name@, slash, part);
}

proof fn lemma_part_is_held(s: Seq<char>, c: char, k: int)
    requires
        0 <= k < pieces(s, c).len(),
    ensures
        holds(s, pieces(s, c)[k]),
        k == pieces(s, c).len() - 1 ==> ends(s, pieces(s, c)[k]),
    decreases s.len(),
{
    let ps = pieces(s, c);
    let p = ps[k];
    if s.len() == 0 {
        assert(s.subrange(0, 0) =~= p);
        assert(crate::text::occurs_at(s, p, 0));
        assert(s.subrange(s.len() - p.len(), s.len() as int) =~= p);
    } else {
        let head = s.drop_last();
        let before = pieces(head, c);
        crate::text::lemma_pieces_nonempty(head, c);
        if s.last() == c {
            if k < before.len() {
                lemma_part_is_held(head, c, k);
                let i = choose|i: int| crate::text::occurs_at(head, p, i);
                assert(s.subrange(i, i + p.len()) =~= head.subrange(i, i + p.len()));
                assert(crate::text::occurs_at(s, p, i));
            } else {
                assert(p =~= Seq::empty());
                assert(s.subrange(s.len() as int, s.len() as int) =~= p);
                assert(crate::text::occurs_at(s, p, s.len() as int));
            }
        } else {
            if k < before.len() - 1 {
                lemma_part_is_held(head, c, k);
                assert(p == before[k]);
                let i = choose|i: int| crate::text::occurs_at(head, p, i);
                assert(s.subrange(i, i + p.len()) =~= head.subrange(i, i + p.len()));
                assert(crate::text::occurs_at(s, p, i));
            } else {
                let q = before.last();
                lemma_part_is_held(head, c, before.len() - 1);
                assert(p =~= q.push(s.last()));
                let i = s.len() - p.len();
                assert(head.subrange(head.len() - q.len(), head.len() as int) == q);
                assert(s.subrange(i, s.len() as int) =~= head.subrange(i, head.len() as int).push(s.last()));
                assert(crate::text::occurs_at(s, p, i));
            }
        }
    }
}

/// Where the plan stands, it takes out every archive of the file and nothing else.
pub proof fn law_every_archive_is_taken_out(es: Seq<ZipEntryInfo>, i: int)
    requires
        es.len() <= usize::MAX,
        taken(es) is Ok,
        0 <= i < es.len(),
    ensures
        taken(es)->Ok_0.indices.contains(i as usize) <==> ends(lowered(es[i].name@), ".wad.client"@),
    decreases es.len(),
{
    let head = es.drop_last();
    let before = taken(head)->Ok_0.indices;
    lemma_push_contains(before, (es.len() - 1) as usize, i as usize);
    if i < head.len() {
        assert(head[i] == es[i]);
        law_every_archive_is_taken_out(head, i);
    } else {
        lemma_taken_below(head);
        if before.contains(i as usize) {
            let k = choose|k: int| 0 <= k < before.len() && before[k] == i as usize;
            assert(before[k] < head.len());
        }
    }
}

proof fn lemma_taken_below(es: Seq<ZipEntryInfo>)
    requires
        es.len() <= usize::MAX,
    ensures
        taken(es) matches Ok(t) ==> forall|k: int| 0 <= k < t.indices.len() ==> #[trigger] t.indices[k] < es.len(),
    decreases es.len(),
{
    if es.len() > 0 {
        lemma_taken_below(es.drop_last());
    }
}

/// An archive in the file that would leave its directory, or that is too large, has the
/// whole file refused.
pub proof fn law_bad_archives_are_refused(es: Seq<ZipEntryInfo>, i: int)
    requires
        0 <= i < es.len(),
        ends(lowered(es[i].name@), ".wad.client"@),
        holds(es[i].name@, ".."@) || es[i].is_absolute || es[i].size > MAX_FILE_SIZE,
    ensures
        taken(es) is Err,
        extraction(es) is Err,
    decreases es.len(),
{
    let head = es.drop_last();
    if i < head.len() {
        assert(head[i] == es[i]);
        law_bad_archives_are_refused(head, i);
    }
}

/// Entries that are no archives are passed over, whatever their names and sizes are.
pub proof fn law_other_entries_do_not_matter(es: Seq<ZipEntryInfo>)
    requires
        forall|i: int| 0 <= i < es.len() ==> !ends(lowered((#[trigger] es[i]).name@), ".wad.client"@),
    ensures
        taken(es) is Ok,
        taken(es)->Ok_0.indices.len() == 0,
        taken(es)->Ok_0.total == 0,
    decreases es.len(),
{
    if es.len() > 0 {
        let head = es.drop_last();
        assert(forall|i: int| 0 <= i < head.len() ==> #[trigger] head[i] == es[i]);
        law_other_entries_do_not_matter(head);
        assert(!is_wad(es[es.len() - 1].name@));
    }
}

} // verus!
