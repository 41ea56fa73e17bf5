//! Sorting of hashes and texts, with duplicates removed.

use vstd::prelude::*;
use vstd::string::*;
use crate::text::{chars, texts};

verus! {

/// Strictly ascending.
pub open spec fn sorted_distinct(s: Seq<u32>) -> bool {
    forall|i: int, j: int| 0 <= i < j < s.len() ==> s[i] < s[j]
}

fn insert_hash(v: &mut Vec<u32>, x: u32)
    requires
        sorted_distinct(old(v)@),
    ensures
        sorted_distinct(final(v)@),
        forall|y: u32| #[trigger] final(v)@.contains(y) <==> old(v)@.contains(y) || y == x,
{
    let ghost before = v@;
    let mut i: usize = 0;
    while i < v.len() && v[i] < x
        invariant
            v@ == before,
            i <= v@.len(),
            forall|j: int| 0 <= j < i ==> v@[j] < x,
        decreases v@.len() - i,
    {
        i = i + 1;
    }
    if i < v.len() && v[i] == x {
        assert(before.contains(x));
        return;
    }
    v.insert(i, x);
    proof {
        let now = v@;
        assert(now =~= before.insert(i as int, x));
        assert forall|y: u32| #[trigger] now.contains(y) <==> before.contains(y) || y == x by {
            if before.contains(y) {
                let k = choose|k: int| 0 <= k < before.len() && before[k] == y;
                if k < i {
                    assert(now[k] == y);
                } else {
                    assert(now[k + 1] == y);
                }
            }
            if y == x {
                assert(now[i as int] == x);
            }
            if now.contains(y) && y != x {
                let k = choose|k: int| 0 <= k < now.len() && now[k] == y;
                if k < i {
                    assert(before[k] == y);
                } else {
                    assert(before[k - 1] == y);
                }
            }
        }
        assert forall|a: int, b: int| 0 <= a < b < now.len() implies now[a] < now[b] by {
            if b < i {
            } else if b == i {
            } else if a < i {
                assert(before[a] < before[b - 1] || a == b - 1);
            } else if a == i {
                if i < before.len() {
                    assert(before[i as int] > x);
                    assert(b - 1 == i || before[i as int] < before[b - 1]);
                }
            } else {
                assert(before[a - 1] < before[b - 1]);
            }
        }
    }
}

/// The values of `v` in ascending order, each once.
pub fn sort_distinct(v: Vec<u32>) -> (r: Vec<u32>)
    ensures
        sorted_distinct(r@),
        forall|y: u32| #[trigger] r@.contains(y) <==> v@.contains(y),
{
    let mut out: Vec<u32> = Vec::new();
    let mut i: usize = 0;
    while i < v.len()
        invariant
            i <= v@.len(),
            sorted_distinct(out@),
            forall|y: u32| #[trigger] out@.contains(y) <==> v@.take(i as int).contains(y),
        decreases v@.len() - i,
    {
        insert_hash(&mut out, v[i]);
        proof {
            let now = v@.take(i + 1);
            let before = v@.take(i as int);
            assert forall|y: u32| now.contains(y) <==> before.contains(y) || y == v@[i as int] by {
                if before.contains(y) {
                    let k = choose|k: int| 0 <= k < before.len() && before[k] == y;
                    assert(now[k] == y);
                }
                if y == v@[i as int] {
                    assert(now[i as int] == y);
                }
                if now.contains(y) {
                    let k = choose|k: int| 0 <= k < now.len() && now[k] == y;
                    if k < i {
                        assert(before[k] == y);
                    }
                }
            }
        }
        i = i + 1;
    }
    assert(v@.take(i as int) =~= v@);
    out
}

/// `a` stands before `b`, compared character by character.
pub open spec fn text_less(a: Seq<char>, b: Seq<char>) -> bool
    decreases a.len(),
{
    if b.len() == 0 {
        false
    } else if a.len() == 0 {
        true
    } else if a[0] == b[0] {
        text_less(a.skip(1), b.skip(1))
    } else {
        a[0] < b[0]
    }
}

pub proof fn lemma_less_total(a: Seq<char>, b: Seq<char>)
    ensures
        text_less(a, b) || a == b || text_less(b, a),
        !(text_less(a, b) && text_less(b, a)),
        !text_less(a, a),
    decreases a.len(),
{
    if a.len() > 0 && b.len() > 0 {
        lemma_less_total(a.skip(1), b.skip(1));
        if a[0] == b[0] && a.skip(1) == b.skip(1) {
            assert(a =~= seq![a[0]] + a.skip(1));
            assert(b =~= seq![b[0]] + b.skip(1));
        }
    } else if a.len() == 0 && b.len() == 0 {
        assert(a =~= b);
    }
    if a.len() > 0 {
        lemma_less_total(a.skip(1), a.skip(1));
    }
}

pub proof fn lemma_less_trans(a: Seq<char>, b: Seq<char>, c: Seq<char>)
    requires
        text_less(a, b),
        text_less(b, c),
    ensures
        text_less(a, c),
    decreases a.len(),
{
    if a.len() > 0 && b.len() > 0 && c.len() > 0 && a[0] == b[0] && b[0] == c[0] {
        lemma_less_trans(a.skip(1), b.skip(1), c.skip(1));
    }
}

fn less_from(a: &Vec<char>, b: &Vec<char>, i: usize) -> (r: bool)
    requires
        i <= a@.len(),
        i <= b@.len(),
    ensures
        r == text_less(a@.skip(i as int), b@.skip(i as int)),
    decreases a@.len() - i,
{
    let ghost x = a@.skip(i as int);
    let ghost y = b@.skip(i as int);
    if i == b.len() {
        return false;
    }
    if i == a.len() {
        return true;
    }
    assert(x[0] == a@[i as int] && y[0] == b@[i as int]);
    if a[i] == b[i] {
        assert(x.skip(1) =~= a@.skip(i + 1));
        assert(y.skip(1) =~= b@.skip(i + 1));
        less_from(a, b, i + 1)
    } else {
        a[i] < b[i]
    }
}

/// Whether `a` stands before `b`.
pub fn is_less(a: &str, b: &str) -> (r: bool)
    ensures
        r == text_less(a@, b@),
{
    let x = chars(a);
    let y = chars(b);
    assert(x@.skip(0) =~= a@);
    assert(y@.skip(0) =~= b@);
    less_from(&x, &y, 0)
}

/// Strictly ascending.
pub open spec fn texts_ascend(s: Seq<Seq<char>>) -> bool {
    forall|i: int, j: int| 0 <= i < j < s.len() ==> text_less(#[trigger] s[i], #[trigger] s[j])
}

fn insert_text(v: &mut Vec<String>, x: String)
    requires
        texts_ascend(texts(old(v)@)),
    ensures
        texts_ascend(texts(final(v)@)),
        forall|y: Seq<char>| #[trigger] texts(final(v)@).contains(y) <==> texts(old(v)@).contains(y) || y == x@,
{
    let ghost before = texts(v@);
    let ghost original = v@;
    let mut i: usize = 0;
    while i < v.len() && is_less(v[i].as_str(), x.as_str())
        invariant
            v@ == original,
            before == texts(v@),
            i <= v@.len(),
            forall|j: int| 0 <= j < i ==> text_less(#[trigger] before[j], x@),
        decreases v@.len() - i,
    {
        assert(before[i as int] == v@[i as int]@);
        i = i + 1;
    }
    if i < v.len() && !is_less(x.as_str(), v[i].as_str()) {
        proof {
            lemma_less_total(v@[i as int]@, x@);
            assert(before[i as int] == x@);
        }
        return;
    }
    let ghost y0 = x@;
    v.insert(i, x);
    proof {
        let now = texts(v@);
        assert(now =~= before.insert(i as int, y0));
        assert forall|y: Seq<char>| #[trigger] now.contains(y) <==> before.contains(y) || y == y0 by {
            if before.contains(y) {
                let k = choose|k: int| 0 <= k < before.len() && before[k] == y;
                if k < i {
                    assert(now[k] == y);
                } else {
                    assert(now[k + 1] == y);
                }
            }
            if y == y0 {
                assert(now[i as int] == y0);
            }
            if now.contains(y) && y != y0 {
                let k = choose|k: int| 0 <= k < now.len() && now[k] == y;
                if k < i {
                    assert(before[k] == y);
                } else {
                    assert(before[k - 1] == y);
                }
            }
        }
        assert forall|a: int, b: int| 0 <= a < b < now.len() implies text_less(#[trigger] now[a], #[trigger] now[b]) by {
            if b < i {
                assert(text_less(before[a], before[b]));
            } else if b == i {
                assert(text_less(before[a], y0));
            } else if a < i {
                assert(text_less(before[a], before[b - 1]));
            } else if a == i {
                assert(text_less(y0, before[i as int]));
                if b - 1 > i {
                    assert(text_less(before[i as int], before[b - 1]));
                    lemma_less_trans(y0, before[i as int], before[b - 1]);
                }
            } else {
                assert(text_less(before[a - 1], before[b - 1]));
            }
        }
    }
}

/// The texts of `v` in ascending order, each once.
pub fn sort_texts(v: Vec<String>) -> (r: Vec<String>)
    ensures
        texts_ascend(texts(r@)),
        forall|y: Seq<char>| #[trigger] texts(r@).contains(y) <==> texts(v@).contains(y),
{
    let ghost all = texts(v@);
    let mut out: Vec<String> = Vec::new();
    let mut i: usize = 0;
    while i < v.len()
        invariant
            all == texts(v@),
            i <= v@.len(),
            texts_ascend(texts(out@)),
            forall|y: Seq<char>| #[trigger] texts(out@).contains(y) <==> all.take(i as int).contains(y),
        decreases v@.len() - i,
    {
        insert_text(&mut out, v[i].clone());
        proof {
            let now = all.take(i + 1);
            let before = all.take(i as int);
            assert forall|y: Seq<char>| now.contains(y) <==> before.contains(y) || y == all[i as int] by {
                if before.contains(y) {
                    let k = choose|k: int| 0 <= k < before.len() && before[k] == y;
                    assert(now[k] == y);
                }
                if y == all[i as int] {
                    assert(now[i as int] == y);
                }
                if now.contains(y) {
                    let k = choose|k: int| 0 <= k < now.len() && now[k] == y;
                    if k < i {
                        assert(before[k] == y);
                    }
                }
            }
        }
        i = i + 1;
    }
    assert(all.take(i as int) =~= all);
    out
}

/// Two ascending lists of the same texts are the same list.
pub proof fn lemma_ascend_unique(a: Seq<Seq<char>>, b: Seq<Seq<char>>)
    requires
        texts_ascend(a),
        texts_ascend(b),
        forall|y: Seq<char>| a.contains(y) <==> b.contains(y),
    ensures
        a == b,
    decreases a.len(),
{
    if a.len() == 0 {
        if b.len() > 0 {
            assert(b.contains(b[0]));
            assert(a.contains(b[0]));
        }
        assert(a =~= b);
    } else {
        assert(a.contains(a.last()));
        assert(b.contains(a.last()));
        let k = choose|k: int| 0 <= k < b.len() && b[k] == a.last();
        assert(b.contains(b.last()));
        assert(a.contains(b.last()));
        let m = choose|m: int| 0 <= m < a.len() && a[m] == b.last();
        if k < b.len() - 1 {
            assert(text_less(b[k], b[b.len() - 1]));
            if m < a.len() - 1 {
                assert(text_less(a[m], a[a.len() - 1]));
            }
            lemma_less_total(a.last(), b.last());
        }
        assert(a.last() == b.last());
        let x = a.drop_last();
        let y = b.drop_last();
        assert forall|s: Seq<char>| x.contains(s) <==> y.contains(s) by {
            if x.contains(s) {
                let i = choose|i: int| 0 <= i < x.len() && x[i] == s;
                assert(a[i] == s);
                assert(a.contains(s));
                let j = choose|j: int| 0 <= j < b.len() && b[j] == s;
                if j == b.len() - 1 {
                    assert(text_less(a[i], a[a.len() - 1]));
                    lemma_less_total(s, s);
                }
                assert(y[j] == s);
            }
            if y.contains(s) {
                let j = choose|j: int| 0 <= j < y.len() && y[j] == s;
                assert(b[j] == s);
                assert(b.contains(s));
                let i = choose|i: int| 0 <= i < a.len() && a[i] == s;
                if i == a.len() - 1 {
                    assert(text_less(b[j], b[b.len() - 1]));
                    lemma_less_total(s, s);
                }
                assert(x[i] == s);
            }
        }
        assert(texts_ascend(x)) by {
            assert forall|i: int, j: int| 0 <= i < j < x.len() implies text_less(#[trigger] x[i], #[trigger] x[j]) by {
                assert(text_less(a[i], a[j]));
            }
        }
        assert(texts_ascend(y)) by {
            assert forall|i: int, j: int| 0 <= i < j < y.len() implies text_less(#[trigger] y[i], #[trigger] y[j]) by {
                assert(text_less(b[i], b[j]));
            }
        }
        lemma_ascend_unique(x, y);
        assert(a =~= x.push(a.last()));
        assert(b =~= y.push(b.last()));
    }
}

/// Two ascending lists of the same numbers are the same list.
pub proof fn lemma_sorted_unique(a: Seq<u32>, b: Seq<u32>)
    requires
        sorted_distinct(a),
        sorted_distinct(b),
        forall|y: u32| a.contains(y) <==> b.contains(y),
    ensures
        a == b,
    decreases a.len(),
{
    if a.len() == 0 {
        if b.len() > 0 {
            assert(b.contains(b[0]));
            assert(a.contains(b[0]));
        }
        assert(a =~= b);
    } else {
        assert(a.contains(a.last()));
        assert(b.contains(a.last()));
        let k = choose|k: int| 0 <= k < b.len() && b[k] == a.last();
        assert(b.contains(b.last()));
        assert(a.contains(b.last()));
        let m = choose|m: int| 0 <= m < a.len() && a[m] == b.last();
        assert(a.last() == b.last());
        let x = a.drop_last();
        let y = b.drop_last();
        assert forall|s: u32| x.contains(s) <==> y.contains(s) by {
            if x.contains(s) {
                let i = choose|i: int| 0 <= i < x.len() && x[i] == s;
                assert(a[i] == s);
                assert(a.contains(s));
                let j = choose|j: int| 0 <= j < b.len() && b[j] == s;
                assert(y[j] == s);
            }
            if y.contains(s) {
                let j = choose|j: int| 0 <= j < y.len() && y[j] == s;
                assert(b[j] == s);
                assert(b.contains(s));
                let i = choose|i: int| 0 <= i < a.len() && a[i] == s;
                assert(x[i] == s);
            }
        }
        lemma_sorted_unique(x, y);
        assert(a =~= x.push(a.last()));
        assert(b =~= y.push(b.last()));
    }
}

} // verus!
