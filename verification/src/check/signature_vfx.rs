//! Effects that a specific champion cannot be played without, measured on their own
//! against their own threshold.

use vstd::prelude::*;
use vstd::string::*;
use crate::check::asset_ratio::{reaches, share_reaches};
use crate::config::SignatureVfxConfig;
use crate::diagnostic::{finding, findings, Diagnostic, Finding, ReasonCatalog};
use crate::text::{
    ascii_lowered, cat, contains, decimal, decimal_text, distinct, holds, lemma_distinct, lemma_push_contains, lemma_take_next, push_distinct, same, texts, to_ascii_lower,
};
use crate::traits::NameSet;

verus! {

/// What one signature-effect measurement found.
#[derive(Clone, Copy, Debug, PartialEq, Eq, Structural)]
pub struct SignatureVerdict {
    /// Matching effects the mod references.
    pub total: usize,
    /// Of those, how many are defined nowhere.
    pub dead: usize,
}

/// The lower-case names that contain the fragment, in order.
pub open spec fn matching(refs: Seq<Seq<char>>, fragment: Seq<char>) -> Seq<Seq<char>>
    decreases refs.len(),
{
    if refs.len() == 0 {
        Seq::empty()
    } else {
        let before = matching(refs.drop_last(), fragment);
        if holds(ascii_lowered(refs.last()), fragment) {
            before.push(ascii_lowered(refs.last()))
        } else {
            before
        }
    }
}

/// The lower-case names that contain the fragment and are not defined, in order.
pub open spec fn undefined<S: NameSet>(refs: Seq<Seq<char>>, fragment: Seq<char>, defined: S) -> Seq<Seq<char>>
    decreases refs.len(),
{
    if refs.len() == 0 {
        Seq::empty()
    } else {
        let before = undefined(refs.drop_last(), fragment, defined);
        if holds(ascii_lowered(refs.last()), fragment) && !defined.holds(refs.last()) {
            before.push(ascii_lowered(refs.last()))
        } else {
            before
        }
    }
}

/// Count the effects whose name contains `fragment` (lower case), and how many of them
/// are missing, each name once.
pub fn measure<S: NameSet>(referenced: &Vec<String>, fragment: &str, is_defined: &S) -> (r: SignatureVerdict)
    ensures
        r.total == distinct(matching(texts(referenced@), fragment@)).len(),
        r.dead == distinct(undefined(texts(referenced@), fragment@, *is_defined)).len(),
{
    let ghost refs = texts(referenced@);
    let mut total: Vec<String> = Vec::new();
    let mut dead: Vec<String> = Vec::new();
    let mut i: usize = 0;
    assert(texts(total@) =~= distinct(matching(refs.take(0), fragment@)));
    assert(texts(dead@) =~= distinct(undefined(refs.take(0), fragment@, *is_defined)));
    while i < referenced.len()
        invariant
            refs == texts(referenced@),
            i <= referenced@.len(),
            texts(total@) == distinct(matching(refs.take(i as int), fragment@)),
            texts(dead@) == distinct(undefined(refs.take(i as int), fragment@, *is_defined)),
        decreases referenced@.len() - i,
    {
        proof {
            lemma_take_next(refs, i as int);
            assert(refs[i as int] == referenced@[i as int]@);
        }
        let name = referenced[i].as_str();
        let lower = to_ascii_lower(name);
        let ghost m = matching(refs.take(i as int), fragment@);
        let ghost u = undefined(refs.take(i as int), fragment@, *is_defined);
        if contains(lower.as_str(), fragment) {
            proof {
                assert(m.push(lower@).drop_last() =~= m);
                assert(u.push(lower@).drop_last() =~= u);
            }
            push_distinct(&mut total, lower.clone());
            if !is_defined.contains(name) {
                push_distinct(&mut dead, lower);
            }
        }
        i = i + 1;
    }
    assert(refs.take(i as int) =~= refs);
    assert(texts(total@).len() == total@.len());
    assert(texts(dead@).len() == dead@.len());
    SignatureVerdict { total: total.len(), dead: dead.len() }
}

/// What one entry finds for a champion.
pub open spec fn signature_findings<S: NameSet>(
    e: SignatureVfxConfig,
    catalog: ReasonCatalog,
    refs: Seq<Seq<char>>,
    champion: Seq<char>,
    defined: S,
) -> Seq<Finding> {
    let fragment = ascii_lowered(e.contains@);
    let total = distinct(matching(refs, fragment)).len();
    let dead = distinct(undefined(refs, fragment, defined)).len();
    match e.reason {
        Some(r) => if e.enabled && ascii_lowered(e.champion@) == ascii_lowered(champion) && fragment.len() > 0 && total
            > 0 && reaches(dead, total, e.dead_at) {
            seq![
                Finding {
                    detail: Some(decimal(dead) + "/"@ + decimal(total) + " "@ + e.contains@ + " effects missing"@),
                    ..finding(catalog, r@, "signature_vfx:"@ + e.champion@)
                },
            ]
        } else {
            Seq::empty()
        },
        None => Seq::empty(),
    }
}

/// What the entries find for a champion, in order.
pub open spec fn all_signature_findings<S: NameSet>(
    es: Seq<SignatureVfxConfig>,
    catalog: ReasonCatalog,
    refs: Seq<Seq<char>>,
    champion: Seq<char>,
    defined: S,
) -> Seq<Finding>
    decreases es.len(),
{
    if es.len() == 0 {
        Seq::empty()
    } else {
        all_signature_findings(es.drop_last(), catalog, refs, champion, defined) + signature_findings(
            es.last(),
            catalog,
            refs,
            champion,
            defined,
        )
    }
}

fn run_entry<S: NameSet>(
    e: &SignatureVfxConfig,
    catalog: &ReasonCatalog,
    references: &Vec<String>,
    champion: &str,
    is_defined: &S,
) -> (r: Option<Diagnostic>)
    ensures
        r matches Some(d) ==> signature_findings(*e, *catalog, texts(references@), champion@, *is_defined) == seq![d@],
        r is None ==> signature_findings(*e, *catalog, texts(references@), champion@, *is_defined) == Seq::<Finding>::empty(),
{
    if !e.enabled {
        return None;
    }
    let own = to_ascii_lower(e.champion.as_str());
    let wanted = to_ascii_lower(champion);
    if !same(own.as_str(), wanted.as_str()) {
        return None;
    }
    let reason = match &e.reason {
        Some(r) => r,
        None => {
            return None;
        },
    };
    let fragment = to_ascii_lower(e.contains.as_str());
    if fragment.as_str().is_empty() {
        return None;
    }
    let v = measure(references, fragment.as_str(), is_defined);
    if v.total == 0 || !share_reaches(v.dead, v.total, e.dead_at) {
        return None;
    }
    let mut detail = decimal_text(v.dead as u64);
    detail.append("/");
    detail.append(decimal_text(v.total as u64).as_str());
    detail.append(" ");
    detail.append(e.contains.as_str());
    detail.append(" effects missing");
    let id = cat("signature_vfx:", e.champion.as_str());
    Some(Diagnostic::new(catalog, reason.as_str(), id.as_str()).with_detail(detail.as_str()))
}

/// Run every configured signature-effect measurement for this champion: one finding per
/// entry that crossed its threshold.
pub fn run_all<S: NameSet>(
    entries: &Vec<SignatureVfxConfig>,
    catalog: &ReasonCatalog,
    references: &Vec<String>,
    champion: &str,
    is_defined: &S,
) -> (r: Vec<Diagnostic>)
    ensures
        findings(r@) == (if champion@.len() == 0 {
            Seq::<Finding>::empty()
        } else {
            all_signature_findings(entries@, *catalog, texts(references@), champion@, *is_defined)
        }),
{
    let ghost refs = texts(references@);
    let mut out: Vec<Diagnostic> = Vec::new();
    assert(findings(out@) =~= Seq::empty());
    if champion.is_empty() {
        return out;
    }
    let mut i: usize = 0;
    while i < entries.len()
        invariant
            refs == texts(references@),
            i <= entries@.len(),
            findings(out@) == all_signature_findings(entries@.take(i as int), *catalog, refs, champion@, *is_defined),
        decreases entries@.len() - i,
    {
        proof {
            lemma_take_next(entries@, i as int);
        }
        let ghost base = findings(out@);
        if let Some(d) = run_entry(&entries[i], catalog, references, champion, is_defined) {
            let ghost o = out@;
            out.push(d);
            assert(findings(out@) =~= findings(o) + seq![d@]);
        } else {
            assert(findings(out@) =~= base + Seq::<Finding>::empty());
        }
        i = i + 1;
    }
    assert(entries@.take(i as int) =~= entries@);
    out
}

/// The effects that count are those whose name has the fragment in it, in lower case, and
/// the dead ones among them are those that are defined nowhere.
pub proof fn law_effects_are_picked_by_fragment<S: NameSet>(refs: Seq<Seq<char>>, fragment: Seq<char>, defined: S, n: Seq<char>)
    ensures
        matching(refs, fragment).contains(n) <==> exists|i: int|
            0 <= i < refs.len() && ascii_lowered(#[trigger] refs[i]) == n && holds(n, fragment),
        undefined(refs, fragment, defined).contains(n) <==> exists|i: int|
            0 <= i < refs.len() && ascii_lowered(#[trigger] refs[i]) == n && holds(n, fragment) && !defined.holds(refs[i]),
    decreases refs.len(),
{
    if refs.len() > 0 {
        let head = refs.drop_last();
        let last = refs.len() - 1;
        law_effects_are_picked_by_fragment(head, fragment, defined, n);
        lemma_push_contains(matching(head, fragment), ascii_lowered(refs.last()), n);
        lemma_push_contains(undefined(head, fragment, defined), ascii_lowered(refs.last()), n);
        assert(refs[last] == refs.last());
        assert(forall|i: int| 0 <= i < head.len() ==> #[trigger] head[i] == refs[i]);
        if exists|i: int| 0 <= i < head.len() && ascii_lowered(#[trigger] head[i]) == n && holds(n, fragment) {
            let i = choose|i: int| 0 <= i < head.len() && ascii_lowered(#[trigger] head[i]) == n && holds(n, fragment);
            assert(ascii_lowered(refs[i]) == n);
        }
        if exists|i: int|
            0 <= i < head.len() && ascii_lowered(#[trigger] head[i]) == n && holds(n, fragment) && !defined.holds(head[i]) {
            let i = choose|i: int|
                0 <= i < head.len() && ascii_lowered(#[trigger] head[i]) == n && holds(n, fragment) && !defined.holds(head[i]);
            assert(ascii_lowered(refs[i]) == n && !defined.holds(refs[i]));
        }
        assert forall|i: int| 0 <= i < refs.len() && i != last implies refs[i] == #[trigger] head[i] by {}
        if exists|i: int| 0 <= i < refs.len() && ascii_lowered(#[trigger] refs[i]) == n && holds(n, fragment) {
            let i = choose|i: int| 0 <= i < refs.len() && ascii_lowered(#[trigger] refs[i]) == n && holds(n, fragment);
            if i < head.len() {
                assert(ascii_lowered(head[i]) == n);
            }
        }
        if exists|i: int|
            0 <= i < refs.len() && ascii_lowered(#[trigger] refs[i]) == n && holds(n, fragment) && !defined.holds(refs[i]) {
            let i = choose|i: int|
                0 <= i < refs.len() && ascii_lowered(#[trigger] refs[i]) == n && holds(n, fragment) && !defined.holds(refs[i]);
            if i < head.len() {
                assert(ascii_lowered(head[i]) == n && !defined.holds(head[i]));
            }
        }
    }
}

/// A champion's signature effect, of which nothing is defined any more, is reported with the
/// reason of its entry, whatever share of dead effects the entry asks for up to all.
pub proof fn law_dead_signature_is_reported<S: NameSet>(
    e: SignatureVfxConfig,
    catalog: ReasonCatalog,
    refs: Seq<Seq<char>>,
    champion: Seq<char>,
    defined: S,
    k: int,
)
    requires
        e.enabled,
        e.reason is Some,
        ascii_lowered(e.champion@) == ascii_lowered(champion),
        ascii_lowered(e.contains@).len() > 0,
        e.dead_at <= 1_000_000,
        0 <= k < refs.len(),
        holds(ascii_lowered(refs[k]), ascii_lowered(e.contains@)),
        forall|i: int| 0 <= i < refs.len() ==> !defined.holds(#[trigger] refs[i]),
    ensures
        signature_findings(e, catalog, refs, champion, defined).len() == 1,
        signature_findings(e, catalog, refs, champion, defined)[0].reason == e.reason->0@,
{
    let fragment = ascii_lowered(e.contains@);
    lemma_all_undefined(refs, fragment, defined);
    law_effects_are_picked_by_fragment(refs, fragment, defined, ascii_lowered(refs[k]));
    let ms = matching(refs, fragment);
    lemma_distinct(ms);
    assert(distinct(ms).contains(ascii_lowered(refs[k])));
    let total = distinct(ms).len();
    assert(total * 1_000_000 >= total * e.dead_at) by (nonlinear_arith)
        requires
            e.dead_at <= 1_000_000,
    ;
}

proof fn lemma_all_undefined<S: NameSet>(refs: Seq<Seq<char>>, fragment: Seq<char>, defined: S)
    requires
        forall|i: int| 0 <= i < refs.len() ==> !defined.holds(#[trigger] refs[i]),
    ensures
        undefined(refs, fragment, defined) == matching(refs, fragment),
    decreases refs.len(),
{
    if refs.len() > 0 {
        let head = refs.drop_last();
        assert(forall|i: int| 0 <= i < head.len() ==> #[trigger] head[i] == refs[i]);
        lemma_all_undefined(head, fragment, defined);
        assert(!defined.holds(refs[refs.len() - 1]));
    }
}

/// An entry for another champion, one that is switched off, and one all of whose effects are
/// defined report nothing.
pub proof fn law_live_signature_is_silent<S: NameSet>(
    e: SignatureVfxConfig,
    catalog: ReasonCatalog,
    refs: Seq<Seq<char>>,
    champion: Seq<char>,
    defined: S,
)
    requires
        !e.enabled || ascii_lowered(e.champion@) != ascii_lowered(champion) || (e.dead_at > 0 && forall|i: int|
            0 <= i < refs.len() ==> defined.holds(#[trigger] refs[i])),
    ensures
        signature_findings(e, catalog, refs, champion, defined).len() == 0,
{
    if forall|i: int| 0 <= i < refs.len() ==> defined.holds(#[trigger] refs[i]) {
        let fragment = ascii_lowered(e.contains@);
        lemma_none_undefined(refs, fragment, defined);
        let total = distinct(matching(refs, fragment)).len();
        if total > 0 && e.dead_at > 0 {
            assert(total * e.dead_at > 0) by (nonlinear_arith)
                requires
                    total > 0,
                    e.dead_at > 0,
            ;
        }
    }
}

proof fn lemma_none_undefined<S: NameSet>(refs: Seq<Seq<char>>, fragment: Seq<char>, defined: S)
    requires
        forall|i: int| 0 <= i < refs.len() ==> defined.holds(#[trigger] refs[i]),
    ensures
        undefined(refs, fragment, defined).len() == 0,
        distinct(undefined(refs, fragment, defined)).len() == 0,
    decreases refs.len(),
{
    if refs.len() > 0 {
        let head = refs.drop_last();
        assert(forall|i: int| 0 <= i < head.len() ==> #[trigger] head[i] == refs[i]);
        lemma_none_undefined(head, fragment, defined);
        assert(defined.holds(refs[refs.len() - 1]));
    }
}

} // verus!
