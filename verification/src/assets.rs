//! Named blobs that fix rules can inject into an archive.
//!
//! Only the universal placeholder `invis_tex` is built in; a program registers its own
//! heavier fallbacks at startup.

use vstd::prelude::*;
use vstd::string::*;
use crate::repath::{invis_tex, invis_tex_bytes};
use crate::text::{same, texts};

verus! {

/// The registered assets by name. No name is registered twice.
pub struct AssetRegistry {
    pub entries: Vec<(String, Vec<u8>)>,
}

/// The bytes registered under a name: the last that was registered.
pub open spec fn asset_bytes(entries: Seq<(Seq<char>, Seq<u8>)>, name: Seq<char>) -> Option<Seq<u8>>
    decreases entries.len(),
{
    if entries.len() == 0 {
        None
    } else if entries.last().0 == name {
        Some(entries.last().1)
    } else {
        asset_bytes(entries.drop_last(), name)
    }
}

impl View for AssetRegistry {
    type V = Seq<(Seq<char>, Seq<u8>)>;

    open spec fn view(&self) -> Seq<(Seq<char>, Seq<u8>)> {
        self.entries@.map_values(|e: (String, Vec<u8>)| (e.0@, e.1@))
    }
}

/// The names of a list of assets.
pub open spec fn asset_names(entries: Seq<(Seq<char>, Seq<u8>)>) -> Seq<Seq<char>> {
    entries.map_values(|e: (Seq<char>, Seq<u8>)| e.0)
}

proof fn lemma_asset_bytes(entries: Seq<(Seq<char>, Seq<u8>)>, name: Seq<char>)
    ensures
        asset_bytes(entries, name) is Some <==> asset_names(entries).contains(name),
    decreases entries.len(),
{
    if entries.len() > 0 {
        let head = entries.drop_last();
        lemma_asset_bytes(head, name);
        if asset_names(entries).contains(name) {
            let i = choose|i: int| 0 <= i < entries.len() && asset_names(entries)[i] == name;
            if i < head.len() {
                assert(asset_names(head)[i] == name);
            }
        }
        if asset_names(head).contains(name) {
            let i = choose|i: int| 0 <= i < head.len() && asset_names(head)[i] == name;
            assert(asset_names(entries)[i] == name);
        }
        if entries.last().0 == name {
            assert(asset_names(entries)[entries.len() - 1] == name);
        }
    }
}

proof fn lemma_asset_bytes_at(entries: Seq<(Seq<char>, Seq<u8>)>, name: Seq<char>, i: int)
    requires
        0 <= i < entries.len(),
        entries[i].0 == name,
        forall|j: int| i < j < entries.len() ==> (#[trigger] entries[j]).0 != name,
    ensures
        asset_bytes(entries, name) == Some(entries[i].1),
    decreases entries.len(),
{
    if i < entries.len() - 1 {
        assert(entries[entries.len() - 1].0 != name);
        lemma_asset_bytes_at(entries.drop_last(), name, i);
    }
}

proof fn lemma_asset_update(entries: Seq<(Seq<char>, Seq<u8>)>, i: int, x: (Seq<char>, Seq<u8>), other: Seq<char>)
    requires
        0 <= i < entries.len(),
        entries[i].0 == x.0,
        other != x.0,
    ensures
        asset_bytes(entries.update(i, x), other) == asset_bytes(entries, other),
    decreases entries.len(),
{
    let e = entries.update(i, x);
    if i < entries.len() - 1 {
        lemma_asset_update(entries.drop_last(), i, x, other);
        assert(e.drop_last() =~= entries.drop_last().update(i, x));
    } else {
        assert(e.drop_last() =~= entries.drop_last());
    }
}

impl AssetRegistry {
    /// A registry that holds the built-in placeholder.
    pub fn new() -> (r: AssetRegistry)
        ensures
            r@ == seq![("invis_tex"@, invis_tex())],
    {
        let mut entries: Vec<(String, Vec<u8>)> = Vec::new();
        entries.push(("invis_tex".to_owned(), invis_tex_bytes()));
        let r = AssetRegistry { entries };
        assert(r@ =~= seq![("invis_tex"@, invis_tex())]);
        r
    }

    fn place_of(&self, name: &str) -> (r: Option<usize>)
        ensures
            r matches Some(i) ==> i < self@.len() && self@[i as int].0 == name@
                && forall|j: int| i < j < self@.len() ==> (#[trigger] self@[j]).0 != name@,
            r is None <==> asset_bytes(self@, name@) is None,
    {
        let mut i: usize = self.entries.len();
        while i > 0
            invariant
                i <= self.entries@.len(),
                forall|j: int| i <= j < self@.len() ==> (#[trigger] self@[j]).0 != name@,
            decreases i,
        {
            i = i - 1;
            if same(self.entries[i].0.as_str(), name) {
                assert(self@[i as int].0 == name@);
                proof {
                    lemma_asset_bytes_at(self@, name@, i as int);
                }
                return Some(i);
            }
        }
        proof {
            lemma_asset_bytes(self@, name@);
            assert forall|j: int| 0 <= j < self@.len() implies asset_names(self@)[j] != name@ by {
                assert(self@[j].0 != name@);
            }
        }
        None
    }

    /// The bytes of the asset of this name, if there is one.
    pub fn get(&self, name: &str) -> (r: Option<&Vec<u8>>)
        ensures
            r is Some <==> asset_bytes(self@, name@) is Some,
            r matches Some(b) ==> asset_bytes(self@, name@) == Some(b@),
    {
        match self.place_of(name) {
            Some(i) => {
                proof {
                    lemma_asset_bytes_at(self@, name@, i as int);
                }
                Some(&self.entries[i].1)
            },
            None => None,
        }
    }

    /// Register an asset. A second call with the same name replaces the bytes.
    pub fn register(&mut self, name: &str, bytes: Vec<u8>)
        ensures
            asset_bytes(final(self)@, name@) == Some(bytes@),
            forall|other: Seq<char>| other != name@ ==> #[trigger] asset_bytes(final(self)@, other) == asset_bytes(
                old(self)@,
                other,
            ),
            asset_names(old(self)@).contains(name@) ==> asset_names(final(self)@) == asset_names(old(self)@),
            !asset_names(old(self)@).contains(name@) ==> asset_names(final(self)@) == asset_names(old(self)@).push(
                name@,
            ),
    {
        let ghost before = self@;
        let ghost b = bytes@;
        proof {
            lemma_asset_bytes(before, name@);
        }
        match self.place_of(name) {
            Some(i) => {
                self.entries[i] = (name.to_owned(), bytes);
                proof {
                    assert(self@ =~= before.update(i as int, (name@, b)));
                    lemma_asset_bytes_at(self@, name@, i as int);
                    assert forall|other: Seq<char>| other != name@ implies #[trigger] asset_bytes(self@, other)
                        == asset_bytes(before, other) by {
                        lemma_asset_update(before, i as int, (name@, b), other);
                    }
                    assert(asset_names(self@) =~= asset_names(before));
                }
            },
            None => {
                self.entries.push((name.to_owned(), bytes));
                proof {
                    assert(self@ =~= before.push((name@, b)));
                    assert(self@.drop_last() =~= before);
                    assert(asset_names(self@) =~= asset_names(before).push(name@));
                }
            },
        }
    }

    /// The names currently registered.
    pub fn registered_names(&self) -> (r: Vec<String>)
        ensures
            texts(r@) == asset_names(self@),
    {
        let mut out: Vec<String> = Vec::new();
        let mut i: usize = 0;
        while i < self.entries.len()
            invariant
                i <= self.entries@.len(),
                out@.len() == i,
                forall|j: int| 0 <= j < i ==> (#[trigger] out@[j])@ == asset_names(self@)[j],
            decreases self.entries@.len() - i,
        {
            out.push(self.entries[i].0.clone());
            i = i + 1;
        }
        assert(texts(out@) =~= asset_names(self@));
        out
    }
}

} // verus!
