//! Pattern-based replacement in strings, and pattern-based renaming of fields.

use vstd::prelude::*;
use vstd::string::*;
use crate::bin::{entry_keys, field_keys, fields, lemma_field_keys, lemma_no_slot, object, objects, slot, BinProperty, BinTree, Field, FieldHash, Object, OrderedMap};
use crate::context::{same_but_tree, FixContext};
use crate::detect::rules::contains_hash;
use crate::patterns::{
    regex_is_match, regex_is_valid, regex_matches, regex_replace_all, regex_replace_first, regex_replaced_all,
    regex_replaced_first, regex_valid,
};
use crate::strings::{fnv1a_hash, name_hash};
use crate::text::{lemma_push_contains, lemma_take_next, same};
use crate::diagnostic::opt_text;
use crate::traits::{GameProvider, HashProvider, WadProvider};
use crate::walk::{
    add_count, capped, hits_objects_at, law_rewriting_maps_strings, law_walk_rewrites_at, lemma_fieldless_objects, only_rewrites,
    rename_property, renamed, replacement, rewritten_objects_at, strings_in_objects, walk_tree, PropertyVisitor, VisitResult,
};

verus! {

/// The field has a name that matches.
pub open spec fn name_matches<H: HashProvider>(hashes: H, pattern: Seq<char>, field: u32) -> bool {
    match hashes.name_of_field(field) {
        Some(n) => regex_matches(pattern, n),
        None => false,
    }
}

/// An entry has the field at its top level.
pub open spec fn top_field(os: Seq<Object>, field: u32) -> bool {
    exists|i: int| 0 <= i < os.len() && field_keys((#[trigger] os[i]).fields).contains(field)
}

/// The new form of a string: all matches replaced, where it has any, its field passes
/// the filter, and the replacement changes it. The filter passes the fields that stand
/// at the top level of some entry and whose name matches.
pub open spec fn regex_rewrite<H: HashProvider>(
    os: Seq<Object>,
    hashes: H,
    pattern: Seq<char>,
    replacement: Seq<char>,
    filter: Option<Seq<char>>,
    value: Seq<char>,
    field: u32,
) -> Option<Seq<char>> {
    let passes = match filter {
        None => true,
        Some(p) => top_field(os, field) && name_matches(hashes, p, field),
    };
    if passes && regex_matches(pattern, value) && regex_replaced_all(pattern, value, replacement) != value {
        Some(regex_replaced_all(pattern, value, replacement))
    } else {
        None
    }
}

/// What the rewriting visitor goes by: the pattern, the replacement, and the fields
/// whose strings are rewritten, where not all are.
pub struct RegexScope {
    pub pattern: Seq<char>,
    pub replacement: Seq<char>,
    pub matching: Option<Seq<u32>>,
}

/// The new form of a string under a field.
pub open spec fn scoped_rewrite(scope: RegexScope, value: Seq<char>, field: u32) -> Option<Seq<char>> {
    let passes = match scope.matching {
        None => true,
        Some(m) => m.contains(field),
    };
    if passes && regex_valid(scope.pattern) && regex_matches(scope.pattern, value) && regex_replaced_all(
        scope.pattern,
        value,
        scope.replacement,
    ) != value {
        Some(regex_replaced_all(scope.pattern, value, scope.replacement))
    } else {
        None
    }
}

struct RegexReplacer<'a> {
    pattern: &'a str,
    replacement: &'a str,
    /// The fields that pass the filter.
    matching: Option<Vec<u32>>,
}

impl<'a> PropertyVisitor for RegexReplacer<'a> {
    type State = RegexScope;

    closed spec fn state(&self) -> RegexScope {
        RegexScope {
            pattern: self.pattern@,
            replacement: self.replacement@,
            matching: match self.matching {
                Some(m) => Some(m@),
                None => None,
            },
        }
    }

    closed spec fn on_string(st: RegexScope, value: Seq<char>, field: u32) -> (RegexScope, Option<Seq<char>>) {
        (st, scoped_rewrite(st, value, field))
    }

    closed spec fn on_field(st: RegexScope, hash: u32) -> (RegexScope, Option<u32>) {
        (st, None)
    }

    closed spec fn on_struct(st: RegexScope, class: u32) -> (RegexScope, bool) {
        (st, true)
    }

    fn visit_string(&mut self, value: &str, field_hash: FieldHash) -> (r: VisitResult) {
        if let Some(m) = &self.matching {
            if !contains_hash(m, field_hash.0) {
                return VisitResult::Skip;
            }
        }
        if regex_is_valid(self.pattern) && regex_is_match(self.pattern, value) {
            let new = regex_replace_all(self.pattern, value, self.replacement);
            if !same(new.as_str(), value) {
                return VisitResult::Mutate(new);
            }
        }
        VisitResult::Skip
    }

    fn visit_field_hash(&mut self, hash: FieldHash) -> (r: Option<FieldHash>) {
        None
    }

    fn enter_struct(&mut self, class_hash: u32) -> (r: bool) {
        true
    }
}

fn is_name_match<H: HashProvider>(hashes: &H, pattern: &str, field: u32) -> (r: bool)
    requires
        regex_valid(pattern@),
    ensures
        r == name_matches(*hashes, pattern@, field),
{
    match hashes.resolve_field(FieldHash(field)) {
        Some(n) => regex_is_match(pattern, n),
        None => false,
    }
}

/// The top-level fields of the file whose name matches.
fn matching_fields<H: HashProvider>(tree: &BinTree, hashes: &H, pattern: &str) -> (r: Vec<u32>)
    requires
        regex_valid(pattern@),
    ensures
        forall|h: u32| #[trigger] r@.contains(h) <==> top_field(objects(tree.objects), h) && name_matches(
            *hashes,
            pattern@,
            h,
        ),
{
    let ghost os = objects(tree.objects);
    let mut out: Vec<u32> = Vec::new();
    let mut i: usize = 0;
    while i < tree.objects.entries.len()
        invariant
            os == objects(tree.objects),
            regex_valid(pattern@),
            i <= tree.objects.entries@.len(),
            forall|h: u32| #[trigger] out@.contains(h) <==> top_field(os.take(i as int), h) && name_matches(
                *hashes,
                pattern@,
                h,
            ),
        decreases tree.objects.entries@.len() - i,
    {
        let props = &tree.objects.entries[i].1.properties;
        let ghost keys = entry_keys(props.entries@);
        proof {
            lemma_take_next(os, i as int);
            lemma_field_keys(*props);
            assert(field_keys(os[i as int].fields) == keys);
        }
        let ghost base = out@;
        let mut k: usize = 0;
        while k < props.entries.len()
            invariant
                regex_valid(pattern@),
                keys == entry_keys(props.entries@),
                k <= props.entries@.len(),
                forall|h: u32| #[trigger] out@.contains(h) <==> base.contains(h) || (keys.take(k as int).contains(h)
                    && name_matches(*hashes, pattern@, h)),
            decreases props.entries@.len() - k,
        {
            let key = props.entries[k].0;
            let ghost before = out@;
            let hit = is_name_match(hashes, pattern, key);
            if hit {
                out.push(key);
            }
            proof {
                let now = keys.take(k + 1);
                lemma_take_next(keys, k as int);
                assert forall|h: u32| #[trigger] out@.contains(h) <==> base.contains(h) || (now.contains(h) && name_matches(
                    *hashes,
                    pattern@,
                    h,
                )) by {
                    if before.contains(h) {
                        let j = choose|j: int| 0 <= j < before.len() && before[j] == h;
                        assert(out@[j] == h);
                        if keys.take(k as int).contains(h) {
                            let m = choose|m: int| 0 <= m < k && keys.take(k as int)[m] == h;
                            assert(now[m] == h);
                        }
                    }
                    if out@.contains(h) && !before.contains(h) {
                        assert(h == key);
                        assert(now[k as int] == h);
                    }
                    if now.contains(h) && name_matches(*hashes, pattern@, h) {
                        let m = choose|m: int| 0 <= m < now.len() && now[m] == h;
                        if m < k {
                            assert(keys.take(k as int)[m] == h);
                            assert(before.contains(h));
                        } else {
                            assert(out@[out@.len() - 1] == h);
                        }
                    }
                    if base.contains(h) {
                        assert(before.contains(h));
                    }
                }
            }
            k = k + 1;
        }
        proof {
            let now = os.take(i + 1);
            assert(keys.take(k as int) =~= keys);
            assert forall|h: u32| #[trigger] out@.contains(h) <==> top_field(now, h) && name_matches(*hashes, pattern@, h) by {
                if top_field(os.take(i as int), h) {
                    let j = choose|j: int| 0 <= j < i && field_keys((#[trigger] os.take(i as int)[j]).fields).contains(h);
                    assert(field_keys(now[j].fields).contains(h));
                }
                if keys.contains(h) {
                    assert(field_keys(now[i as int].fields).contains(h));
                }
                if top_field(now, h) {
                    let j = choose|j: int| 0 <= j < now.len() && field_keys((#[trigger] now[j]).fields).contains(h);
                    if j < i {
                        assert(field_keys(os.take(i as int)[j].fields).contains(h));
                    } else {
                        assert(keys.contains(h));
                    }
                }
                assert(out@.contains(h) <==> base.contains(h) || (keys.contains(h) && name_matches(*hashes, pattern@, h)));
            }
        }
        i = i + 1;
    }
    assert(os.take(i as int) =~= os);
    out
}

/// The patterns of a replacement are valid.
pub open spec fn replace_usable(pattern: Seq<char>, filter: Option<String>) -> bool {
    regex_valid(pattern) && match filter {
        Some(p) => regex_valid(p@),
        None => true,
    }
}

/// Replace all matches in every string that qualifies. Returns the number of strings
/// rewritten. With an invalid pattern nothing is done.
pub fn apply_replace<H: HashProvider, W: WadProvider, G: GameProvider>(
    ctx: &mut FixContext<H, W, G>,
    pattern: &str,
    replacement: &str,
    field_filter: &Option<String>,
) -> (n: u32)
    ensures
        ({
            let os = objects(old(ctx).tree.objects);
            let f = |s: Seq<char>, field: u32| regex_rewrite(
                os,
                *old(ctx).hashes,
                pattern@,
                replacement@,
                opt_text(*field_filter),
                s,
                field,
            );
            if replace_usable(pattern@, *field_filter) {
                objects(final(ctx).tree.objects) == rewritten_objects_at(os, f) && n == capped(hits_objects_at(os, f))
            } else {
                final(ctx).tree == old(ctx).tree && n == 0
            }
        }),
        final(ctx).tree.linked == old(ctx).tree.linked,
        final(ctx).tree.trailer_files == old(ctx).tree.trailer_files,
        final(ctx).tree.trailing == old(ctx).tree.trailing,
        same_but_tree(*final(ctx), *old(ctx)),
{
    if !regex_is_valid(pattern) {
        return 0;
    }
    let matching = match field_filter {
        Some(p) => {
            if !regex_is_valid(p.as_str()) {
                return 0;
            }
            Some(matching_fields(&ctx.tree, ctx.hashes, p.as_str()))
        },
        None => None,
    };
    let ghost os = objects(ctx.tree.objects);
    let mut visitor = RegexReplacer { pattern, replacement, matching };
    let ghost st = visitor.state();
    let n = walk_tree(&mut ctx.tree, &mut visitor);
    proof {
        let f = |s: Seq<char>, field: u32| regex_rewrite(
            os,
            *old(ctx).hashes,
            pattern@,
            replacement@,
            opt_text(*field_filter),
            s,
            field,
        );
        assert forall|s: Seq<char>, field: u32| #[trigger] RegexReplacer::on_string(st, s, field) == (st, f(s, field)) by {
            if let Some(m) = st.matching {
                assert(m.contains(field) <==> top_field(os, field) && name_matches(
                    *old(ctx).hashes,
                    field_filter->0@,
                    field,
                ));
            }
        }
        assert(only_rewrites::<RegexReplacer>(st, f));
        law_walk_rewrites_at::<RegexReplacer>(st, os, f);
    }
    n
}

/// The renames that a pattern asks for in a table with these keys.
pub open spec fn pattern_renames<H: HashProvider>(
    keys: Seq<u32>,
    hashes: H,
    pattern: Seq<char>,
    replacement: Seq<char>,
) -> Seq<(u32, u32)>
    decreases keys.len(),
{
    if keys.len() == 0 {
        Seq::empty()
    } else {
        let before = pattern_renames(keys.drop_last(), hashes, pattern, replacement);
        match hashes.name_of_field(keys.last()) {
            Some(n) => if regex_matches(pattern, n) {
                before.push((keys.last(), name_hash(regex_replaced_first(pattern, n, replacement))))
            } else {
                before
            },
            None => before,
        }
    }
}

/// How many of the renames find their property, one after the other.
pub open spec fn renames_done(fs: Seq<Field>, renames: Seq<(u32, u32)>) -> nat
    decreases renames.len(),
{
    if renames.len() == 0 {
        0
    } else {
        renames_done(fs, renames.drop_last()) + (if slot(
            field_keys(renamed(fs, renames.drop_last())),
            renames.last().0,
        ) is Some {
            1nat
        } else {
            0nat
        })
    }
}

/// An entry after its top-level fields were renamed by pattern.
pub open spec fn pattern_renamed<H: HashProvider>(o: Object, hashes: H, pattern: Seq<char>, replacement: Seq<char>) -> Object {
    Object {
        fields: renamed(o.fields, pattern_renames(field_keys(o.fields), hashes, pattern, replacement)),
        ..o
    }
}

/// The entries after their top-level fields were renamed by pattern.
pub open spec fn all_pattern_renamed<H: HashProvider>(
    os: Seq<Object>,
    hashes: H,
    pattern: Seq<char>,
    replacement: Seq<char>,
) -> Seq<Object> {
    os.map_values(|o: Object| pattern_renamed(o, hashes, pattern, replacement))
}

/// How many fields of the entries were renamed by pattern.
pub open spec fn all_renames_done<H: HashProvider>(os: Seq<Object>, hashes: H, pattern: Seq<char>, replacement: Seq<char>) -> nat
    decreases os.len(),
{
    if os.len() == 0 {
        0
    } else {
        all_renames_done(os.drop_last(), hashes, pattern, replacement) + renames_done(
            os.last().fields,
            pattern_renames(field_keys(os.last().fields), hashes, pattern, replacement),
        )
    }
}

fn rename_by_pattern<H: HashProvider>(
    props: &mut OrderedMap<BinProperty>,
    hashes: &H,
    pattern: &str,
    replacement: &str,
) -> (n: u32)
    requires
        regex_valid(pattern@),
    ensures
        ({
            let fs = fields(*old(props));
            let renames = pattern_renames(field_keys(fs), *hashes, pattern@, replacement@);
            fields(*final(props)) == renamed(fs, renames) && n == capped(renames_done(fs, renames))
        }),
{
    let ghost fs = fields(*props);
    let ghost keys = entry_keys(props.entries@);
    proof {
        lemma_field_keys(*props);
    }
    let mut renames: Vec<(u32, u32)> = Vec::new();
    let mut i: usize = 0;
    assert(renames@ =~= pattern_renames(keys.take(0), *hashes, pattern@, replacement@));
    while i < props.entries.len()
        invariant
            *props == *old(props),
            regex_valid(pattern@),
            keys == entry_keys(props.entries@),
            i <= props.entries@.len(),
            renames@ == pattern_renames(keys.take(i as int), *hashes, pattern@, replacement@),
        decreases props.entries@.len() - i,
    {
        proof {
            lemma_take_next(keys, i as int);
        }
        let key = props.entries[i].0;
        if let Some(name) = hashes.resolve_field(FieldHash(key)) {
            if regex_is_match(pattern, name) {
                let new = regex_replace_first(pattern, name, replacement);
                renames.push((key, fnv1a_hash(new.as_str())));
            }
        }
        i = i + 1;
    }
    assert(keys.take(i as int) =~= keys);
    let mut n: u32 = 0;
    let mut r: usize = 0;
    while r < renames.len()
        invariant
            r <= renames@.len(),
            fields(*props) == renamed(fs, renames@.take(r as int)),
            n == capped(renames_done(fs, renames@.take(r as int))),
        decreases renames@.len() - r,
    {
        proof {
            lemma_take_next(renames@, r as int);
        }
        let ghost done = renames_done(fs, renames@.take(r as int));
        let hit: u32 = if rename_property(props, renames[r].0, renames[r].1) { 1 } else { 0 };
        assert(hit == capped(hit as nat));
        let ghost n0 = n;
        n = add_count(n, hit);
        assert(n == capped((done + hit as nat) as nat)) by {
            assert(n0 == capped(done));
        }
        r = r + 1;
    }
    assert(renames@.take(r as int) =~= renames@);
    n
}

/// Rename the top-level fields of every entry whose name matches. Returns the number
/// of fields renamed. With an invalid pattern nothing is done.
pub fn apply_rename<H: HashProvider, W: WadProvider, G: GameProvider>(
    ctx: &mut FixContext<H, W, G>,
    pattern: &str,
    replacement: &str,
) -> (n: u32)
    ensures
        ({
            let os = objects(old(ctx).tree.objects);
            if regex_valid(pattern@) {
                objects(final(ctx).tree.objects) == all_pattern_renamed(os, *old(ctx).hashes, pattern@, replacement@)
                    && n == capped(all_renames_done(os, *old(ctx).hashes, pattern@, replacement@))
            } else {
                final(ctx).tree == old(ctx).tree && n == 0
            }
        }),
        final(ctx).tree.linked == old(ctx).tree.linked,
        final(ctx).tree.trailer_files == old(ctx).tree.trailer_files,
        final(ctx).tree.trailing == old(ctx).tree.trailing,
        same_but_tree(*final(ctx), *old(ctx)),
{
    if !regex_is_valid(pattern) {
        return 0;
    }
    let hashes = ctx.hashes;
    let ghost before = ctx.tree.objects;
    let ghost os = objects(before);
    let ghost want = all_pattern_renamed(os, *hashes, pattern@, replacement@);
    let mut n: u32 = 0;
    let mut i: usize = 0;
    let len = ctx.tree.objects.entries.len();
    while i < len
        invariant
            regex_valid(pattern@),
            hashes == old(ctx).hashes,
            before == old(ctx).tree.objects,
            os == objects(before),
            want == all_pattern_renamed(os, *hashes, pattern@, replacement@),
            len == before.entries@.len(),
            ctx.tree.objects.entries@.len() == len,
            ctx.tree.linked == old(ctx).tree.linked,
            ctx.tree.trailer_files == old(ctx).tree.trailer_files,
            ctx.tree.trailing == old(ctx).tree.trailing,
            same_but_tree(*ctx, *old(ctx)),
            i <= len,
            forall|j: int| i <= j < len ==> ctx.tree.objects.entries@[j] == before.entries@[j],
            forall|j: int| 0 <= j < i ==> (#[trigger] objects(ctx.tree.objects)[j]) == want[j],
            n == capped(all_renames_done(os.take(i as int), *hashes, pattern@, replacement@)),
        decreases len - i,
    {
        proof {
            lemma_take_next(os, i as int);
        }
        let ghost mid = ctx.tree.objects;
        let ghost done = all_renames_done(os.take(i as int), *hashes, pattern@, replacement@);
        let ghost n0 = n;
        assert(os[i as int] == object(mid.entries@[i as int].0, mid.entries@[i as int].1));
        let k = rename_by_pattern(&mut ctx.tree.objects.entries[i].1.properties, hashes, pattern, replacement);
        n = add_count(n, k);
        proof {
            let fs = os[i as int].fields;
            let d = renames_done(fs, pattern_renames(field_keys(fs), *hashes, pattern@, replacement@));
            assert(n0 == capped(done) && k == capped(d));
            assert(n == capped((done + d) as nat));
            assert forall|j: int| 0 <= j < i + 1 implies (#[trigger] objects(ctx.tree.objects)[j]) == want[j] by {
                if j < i {
                    assert(ctx.tree.objects.entries@[j] == mid.entries@[j]);
                    assert(objects(mid)[j] == want[j]);
                }
            }
        }
        i = i + 1;
    }
    assert(os.take(i as int) =~= os);
    assert(objects(ctx.tree.objects) =~= want);
    n
}

/// Without a filter every string of the file becomes what the pattern makes of it, and one
/// that the pattern does not match stays.
pub proof fn law_every_match_is_replaced<H: HashProvider>(
    os: Seq<Object>,
    hashes: H,
    pattern: Seq<char>,
    replacement: Seq<char>,
    i: int,
)
    requires
        0 <= i < strings_in_objects(os).len(),
    ensures
        ({
            let before = strings_in_objects(os);
            let after = strings_in_objects(
                rewritten_objects_at(
                    os,
                    |s: Seq<char>, field: u32| regex_rewrite(os, hashes, pattern, replacement, None, s, field),
                ),
            );
            &&& after.len() == before.len()
            &&& after[i] == if regex_matches(pattern, before[i]) {
                regex_replaced_all(pattern, before[i], replacement)
            } else {
                before[i]
            }
        }),
{
    let f = |s: Seq<char>, field: u32| regex_rewrite(os, hashes, pattern, replacement, None, s, field);
    let g = |s: Seq<char>| regex_rewrite(os, hashes, pattern, replacement, None, s, 0);
    let before = strings_in_objects(os);
    assert forall|s: Seq<char>, k: u32| #[trigger] f(s, k) == g(s) by {}
    lemma_fieldless_objects(os, f, g);
    law_rewriting_maps_strings(os, g);
    assert(g(before[i]) == regex_rewrite(os, hashes, pattern, replacement, None, before[i], 0));
}

/// A filter lets the values of those fields through that stand right under an entry and
/// whose name it matches, and leaves every other value as it is.
pub proof fn law_filter_picks_fields_by_name<H: HashProvider>(
    os: Seq<Object>,
    hashes: H,
    pattern: Seq<char>,
    replacement: Seq<char>,
    filter: Seq<char>,
    value: Seq<char>,
    field: u32,
)
    ensures
        ({
            let got = regex_rewrite(os, hashes, pattern, replacement, Some(filter), value, field);
            &&& hashes.name_of_field(field) is None ==> got is None
            &&& hashes.name_of_field(field) matches Some(n) ==> (!regex_matches(filter, n) ==> got is None)
            &&& (forall|i: int, k: int|
                0 <= i < os.len() && 0 <= k < os[i].fields.len() ==> (#[trigger] os[i].fields[k]).key != field) ==> got is None
            &&& (hashes.name_of_field(field) is Some && regex_matches(filter, hashes.name_of_field(field)->0) && exists|
                i: int,
                k: int,
            |
                0 <= i < os.len() && 0 <= k < os[i].fields.len() && (#[trigger] os[i].fields[k]).key == field) ==> got
                == regex_rewrite(os, hashes, pattern, replacement, None, value, field)
        }),
{
    if top_field(os, field) {
        let i = choose|i: int| 0 <= i < os.len() && field_keys((#[trigger] os[i]).fields).contains(field);
        let k = choose|k: int| 0 <= k < os[i].fields.len() && field_keys(os[i].fields)[k] == field;
        assert(os[i].fields[k].key == field);
    }
    if exists|i: int, k: int| 0 <= i < os.len() && 0 <= k < os[i].fields.len() && (#[trigger] os[i].fields[k]).key == field {
        let (i, k) = choose|i: int, k: int|
            0 <= i < os.len() && 0 <= k < os[i].fields.len() && (#[trigger] os[i].fields[k]).key == field;
        assert(field_keys(os[i].fields)[k] == field);
    }
}

proof fn lemma_pattern_renames<H: HashProvider>(
    keys: Seq<u32>,
    hashes: H,
    pattern: Seq<char>,
    replacement: Seq<char>,
    from: u32,
    to: u32,
)
    ensures
        pattern_renames(keys, hashes, pattern, replacement).contains((from, to)) <==> keys.contains(from)
            && hashes.name_of_field(from) is Some && regex_matches(pattern, hashes.name_of_field(from)->0) && to == name_hash(
            regex_replaced_first(pattern, hashes.name_of_field(from)->0, replacement),
        ),
    decreases keys.len(),
{
    if keys.len() > 0 {
        let head = keys.drop_last();
        lemma_pattern_renames(head, hashes, pattern, replacement, from, to);
        assert(head.push(keys.last()) =~= keys);
        lemma_push_contains(head, keys.last(), from);
        if let Some(n) = hashes.name_of_field(keys.last()) {
            lemma_push_contains(
                pattern_renames(head, hashes, pattern, replacement),
                (keys.last(), name_hash(regex_replaced_first(pattern, n, replacement))),
                (from, to),
            );
        }
    }
}

/// A field is given a new key exactly where the dictionary names it and the pattern matches
/// the name, and the key is that of the name with the first match replaced.
pub proof fn law_matching_names_are_renamed<H: HashProvider>(
    fs: Seq<Field>,
    hashes: H,
    pattern: Seq<char>,
    replacement: Seq<char>,
    i: int,
    to: u32,
)
    requires
        0 <= i < fs.len(),
    ensures
        pattern_renames(field_keys(fs), hashes, pattern, replacement).contains((fs[i].key, to)) <==> (match hashes.name_of_field(
            fs[i].key,
        ) {
            Some(n) => regex_matches(pattern, n) && to == name_hash(regex_replaced_first(pattern, n, replacement)),
            None => false,
        }),
{
    assert(field_keys(fs)[i] == fs[i].key);
    lemma_pattern_renames(field_keys(fs), hashes, pattern, replacement, fs[i].key, to);
}

proof fn lemma_unmatched_keys<H: HashProvider>(keys: Seq<u32>, hashes: H, pattern: Seq<char>, replacement: Seq<char>)
    requires
        forall|i: int|
            0 <= i < keys.len() ==> (hashes.name_of_field(#[trigger] keys[i]) matches Some(n) ==> !regex_matches(pattern, n)),
    ensures
        pattern_renames(keys, hashes, pattern, replacement).len() == 0,
    decreases keys.len(),
{
    if keys.len() > 0 {
        let head = keys.drop_last();
        assert forall|i: int| 0 <= i < head.len() implies (hashes.name_of_field(#[trigger] head[i]) matches Some(n)
            ==> !regex_matches(pattern, n)) by {
            assert(head[i] == keys[i]);
        }
        lemma_unmatched_keys(head, hashes, pattern, replacement);
        assert(keys.last() == keys[keys.len() - 1]);
    }
}

/// A single field of an entry whose name the pattern matches keeps its value under the new
/// key; an entry without such a field stays as it is.
pub proof fn law_renamed_field_keeps_its_value<H: HashProvider>(o: Object, hashes: H, pattern: Seq<char>, replacement: Seq<char>)
    ensures
        (forall|i: int|
            0 <= i < o.fields.len() ==> (hashes.name_of_field((#[trigger] o.fields[i]).key) matches Some(n) ==> !regex_matches(
                pattern,
                n,
            ))) ==> pattern_renamed(o, hashes, pattern, replacement) == o,
        o.fields.len() == 1 && hashes.name_of_field(o.fields[0].key) is Some && regex_matches(
            pattern,
            hashes.name_of_field(o.fields[0].key)->0,
        ) ==> ({
            let r = pattern_renamed(o, hashes, pattern, replacement);
            &&& r.fields.len() == 1
            &&& r.fields[0].key == name_hash(
                regex_replaced_first(pattern, hashes.name_of_field(o.fields[0].key)->0, replacement),
            )
            &&& r.fields[0].value == o.fields[0].value
        }),
{
    let keys = field_keys(o.fields);
    if forall|i: int|
        0 <= i < o.fields.len() ==> (hashes.name_of_field((#[trigger] o.fields[i]).key) matches Some(n) ==> !regex_matches(pattern, n)) {
        assert forall|i: int| 0 <= i < keys.len() implies (hashes.name_of_field(#[trigger] keys[i]) matches Some(n)
            ==> !regex_matches(pattern, n)) by {
            assert(keys[i] == o.fields[i].key);
        }
        lemma_unmatched_keys(keys, hashes, pattern, replacement);
    }
    if o.fields.len() == 1 {
        assert(keys.drop_last() =~= Seq::<u32>::empty());
        assert(keys.last() == o.fields[0].key);
        reveal_with_fuel(pattern_renames, 2);
        let rs = pattern_renames(keys, hashes, pattern, replacement);
        if rs.len() == 1 {
            assert(rs.drop_last() =~= Seq::<(u32, u32)>::empty());
            reveal_with_fuel(renamed, 2);
            lemma_no_slot(keys, o.fields[0].key);
            assert(keys[0] == o.fields[0].key);
        }
    }
}

} // verus!
