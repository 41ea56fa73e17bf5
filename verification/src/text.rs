//! Text as a sequence of characters: the searches, splits and rewrites that the
//! path rules are made of, each stated over `Seq<char>`.

use vstd::prelude::*;
use vstd::string::*;
use vstd::utf8::*;

verus! {

/// `s` begins with `p`.
pub open spec fn begins(s: Seq<char>, p: Seq<char>) -> bool {
    p.len() <= s.len() && s.subrange(0, p.len() as int) == p
}

/// `s` ends with `p`.
pub open spec fn ends(s: Seq<char>, p: Seq<char>) -> bool {
    p.len() <= s.len() && s.subrange(s.len() - p.len(), s.len() as int) == p
}

/// `p` stands in `s` at position `i`.
pub open spec fn occurs_at(s: Seq<char>, p: Seq<char>, i: int) -> bool {
    0 <= i && i + p.len() <= s.len() && s.subrange(i, i + p.len()) == p
}

/// `p` stands somewhere in `s`.
pub open spec fn holds(s: Seq<char>, p: Seq<char>) -> bool {
    exists|i: int| occurs_at(s, p, i)
}

/// `i` is the first position of `p` in `s`.
pub open spec fn first_at(s: Seq<char>, p: Seq<char>, i: int) -> bool {
    occurs_at(s, p, i) && forall|j: int| 0 <= j < i ==> !occurs_at(s, p, j)
}

/// The first position of `p` in `s`.
pub open spec fn position(s: Seq<char>, p: Seq<char>) -> Option<int> {
    if exists|i: int| first_at(s, p, i) {
        Some(choose|i: int| first_at(s, p, i))
    } else {
        None
    }
}

/// `i` is the last position of the character `c` in `s`.
pub open spec fn last_at(s: Seq<char>, c: char, i: int) -> bool {
    0 <= i < s.len() && s[i] == c && forall|j: int| i < j < s.len() ==> s[j] != c
}

/// The last position of the character `c` in `s`.
pub open spec fn last_position(s: Seq<char>, c: char) -> Option<int> {
    if exists|i: int| last_at(s, c, i) {
        Some(choose|i: int| last_at(s, c, i))
    } else {
        None
    }
}

/// What is left of `s` behind the prefix `p`.
pub open spec fn without_prefix(s: Seq<char>, p: Seq<char>) -> Option<Seq<char>> {
    if begins(s, p) {
        Some(s.subrange(p.len() as int, s.len() as int))
    } else {
        None
    }
}

/// What is left of `s` before the suffix `p`.
pub open spec fn without_suffix(s: Seq<char>, p: Seq<char>) -> Option<Seq<char>> {
    if ends(s, p) {
        Some(s.subrange(0, s.len() - p.len()))
    } else {
        None
    }
}

/// The pieces of `s` between the characters `c`; one piece more than there are `c`.
pub open spec fn pieces(s: Seq<char>, c: char) -> Seq<Seq<char>>
    decreases s.len(),
{
    if s.len() == 0 {
        seq![Seq::empty()]
    } else {
        let before = pieces(s.drop_last(), c);
        if s.last() == c {
            before.push(Seq::empty())
        } else {
            before.drop_last().push(before.last().push(s.last()))
        }
    }
}

/// `parts` in order, with `sep` between neighbours.
pub open spec fn joined(parts: Seq<Seq<char>>, sep: Seq<char>) -> Seq<char>
    decreases parts.len(),
{
    if parts.len() == 0 {
        Seq::empty()
    } else if parts.len() == 1 {
        parts[0]
    } else {
        joined(parts.drop_last(), sep) + sep + parts.last()
    }
}

/// `s` with every character `a` turned into `b`.
pub open spec fn swapped(s: Seq<char>, a: char, b: char) -> Seq<char> {
    s.map_values(|c: char| if c == a { b } else { c })
}

/// The lower-case form of an ASCII letter; any other character is kept.
pub open spec fn lower_char(c: char) -> char {
    if 'A' <= c && c <= 'Z' {
        ((c as u8) + 32) as char
    } else {
        c
    }
}

/// `s` with its ASCII letters in lower case.
pub open spec fn ascii_lowered(s: Seq<char>) -> Seq<char> {
    s.map_values(|c: char| lower_char(c))
}

/// What `str::to_lowercase` makes of a text that holds a non-ASCII character.
pub uninterp spec fn unicode_lowered(s: Seq<char>) -> Seq<char>;

/// `s` in lower case: letter by letter where all of `s` is ASCII, and as Unicode
/// maps it otherwise.
pub open spec fn lowered(s: Seq<char>) -> Seq<char> {
    if is_ascii_chars(s) {
        ascii_lowered(s)
    } else {
        unicode_lowered(s)
    }
}

/// `s` in lower case with forward slashes: the form in which paths are compared.
pub open spec fn normal(s: Seq<char>) -> Seq<char> {
    swapped(lowered(s), '\\', '/')
}

/// The contents of a list of strings.
pub open spec fn texts(v: Seq<String>) -> Seq<Seq<char>> {
    v.map_values(|s: String| s@)
}

/// One of the strings of `v` is `s`.
pub open spec fn listed(v: Seq<String>, s: Seq<char>) -> bool {
    exists|i: int| 0 <= i < v.len() && (#[trigger] v[i])@ == s
}

/// The character of a decimal or hexadecimal digit.
pub open spec fn digit_char(d: nat) -> char {
    if d == 0 { '0' } else if d == 1 { '1' } else if d == 2 { '2' } else if d == 3 { '3' }
    else if d == 4 { '4' } else if d == 5 { '5' } else if d == 6 { '6' } else if d == 7 { '7' }
    else if d == 8 { '8' } else if d == 9 { '9' } else if d == 10 { 'a' } else if d == 11 { 'b' }
    else if d == 12 { 'c' } else if d == 13 { 'd' } else if d == 14 { 'e' } else { 'f' }
}

/// `n` in decimal digits.
pub open spec fn decimal(n: nat) -> Seq<char>
    decreases n,
{
    if n < 10 {
        seq![digit_char(n)]
    } else {
        decimal(n / 10).push(digit_char(n % 10))
    }
}

/// The lowest `width` hexadecimal digits of `n`, lower case.
pub open spec fn hex(n: nat, width: nat) -> Seq<char>
    decreases width,
{
    if width == 0 {
        Seq::empty()
    } else {
        hex(n / 16, (width - 1) as nat).push(digit_char(n % 16))
    }
}

/// The value of `c` as a digit in a base of at most 16.
pub open spec fn digit_value(c: char) -> int {
    if '0' <= c && c <= '9' {
        c as int - '0' as int
    } else if 'a' <= c && c <= 'f' {
        c as int - 'a' as int + 10
    } else if 'A' <= c && c <= 'F' {
        c as int - 'A' as int + 10
    } else {
        99
    }
}

/// Every character of `s` is a digit in `base`.
pub open spec fn all_digits(s: Seq<char>, base: nat) -> bool {
    forall|i: int| 0 <= i < s.len() ==> #[trigger] digit_value(s[i]) < base
}

/// The number that the digits `s` write in `base`.
pub open spec fn digits_value(s: Seq<char>, base: nat) -> int
    decreases s.len(),
{
    if s.len() == 0 {
        0
    } else {
        digits_value(s.drop_last(), base) * base + digit_value(s.last())
    }
}

/// The number that `s` writes: one optional `+`, then one digit or more, up to `max`.
pub open spec fn number(s: Seq<char>, base: nat, max: nat) -> Option<nat> {
    let d = if s.len() > 0 && s[0] == '+' { s.skip(1) } else { s };
    if d.len() > 0 && all_digits(d, base) && digits_value(d, base) <= max {
        Some(digits_value(d, base) as nat)
    } else {
        None
    }
}

pub proof fn lemma_pieces_nonempty(s: Seq<char>, c: char)
    ensures
        pieces(s, c).len() >= 1,
    decreases s.len(),
{
    if s.len() > 0 {
        lemma_pieces_nonempty(s.drop_last(), c);
    }
}

pub proof fn lemma_position(s: Seq<char>, p: Seq<char>, i: int)
    requires
        first_at(s, p, i),
    ensures
        position(s, p) == Some(i),
{
    let k = choose|k: int| first_at(s, p, k);
    assert(first_at(s, p, k));
    assert(!(k < i)) by {
        if k < i {
            assert(!occurs_at(s, p, k));
        }
    }
    assert(!(i < k)) by {
        if i < k {
            assert(!occurs_at(s, p, i));
        }
    }
}

pub proof fn lemma_holds_iff_position(s: Seq<char>, p: Seq<char>)
    ensures
        holds(s, p) <==> position(s, p) is Some,
        position(s, p) is Some ==> first_at(s, p, position(s, p)->0),
{
    if holds(s, p) {
        let i = choose|i: int| occurs_at(s, p, i);
        lemma_first_below(s, p, i);
    }
}

proof fn lemma_first_below(s: Seq<char>, p: Seq<char>, i: int)
    requires
        occurs_at(s, p, i),
    ensures
        exists|k: int| first_at(s, p, k),
    decreases i,
{
    if forall|j: int| 0 <= j < i ==> !occurs_at(s, p, j) {
        assert(first_at(s, p, i));
    } else {
        let j = choose|j: int| 0 <= j < i && occurs_at(s, p, j);
        lemma_first_below(s, p, j);
    }
}

pub proof fn lemma_last_position(s: Seq<char>, c: char, i: int)
    requires
        last_at(s, c, i),
    ensures
        last_position(s, c) == Some(i),
{
    let k = choose|k: int| last_at(s, c, k);
    assert(last_at(s, c, k));
}

/// Whether two strings have the same characters: their bytes are compared, which give the
/// characters back.
pub(crate) fn same(a: &str, b: &str) -> (r: bool)
    ensures
        r == (a@ == b@),
{
    let x = a.as_bytes();
    let y = b.as_bytes();
    if x.len() != y.len() {
        return false;
    }
    let mut i: usize = 0;
    while i < x.len()
        invariant
            x@ == encode_utf8(a@),
            y@ == encode_utf8(b@),
            x@.len() == y@.len(),
            i <= x@.len(),
            forall|j: int| 0 <= j < i ==> x@[j] == y@[j],
        decreases x@.len() - i,
    {
        if x[i] != y[i] {
            return false;
        }
        i = i + 1;
    }
    proof {
        assert(x@ =~= y@);
        encode_utf8_decode_utf8(a@);
        encode_utf8_decode_utf8(b@);
    }
    true
}

/// `String::from_iter` over characters: a string of those characters in order.
#[verifier::external_body]
pub(crate) fn from_chars(v: &Vec<char>) -> (r: String)
    ensures
        r@ == v@,
{
    String::from_iter(v)
}

/// `str::to_lowercase`: on ASCII text the letters A to Z become a to z and the rest
/// stays; on other text the result is a function of the text alone.
#[verifier::external_body]
fn std_to_lowercase(s: &str) -> (r: String)
    ensures
        is_ascii_chars(s@) ==> r@ == ascii_lowered(s@),
        !is_ascii_chars(s@) ==> r@ == unicode_lowered(s@),
{
    s.to_lowercase()
}

/// `s` in lower case.
pub fn to_lower(s: &str) -> (r: String)
    ensures
        r@ == lowered(s@),
{
    std_to_lowercase(s)
}

/// The characters of `s`.
pub fn chars(s: &str) -> (r: Vec<char>)
    ensures
        r@ == s@,
{
    let mut out: Vec<char> = Vec::new();
    for c in it: s.chars()
        invariant
            out@ == it.seq().take(it.index()),
            it.seq() == s@,
    {
        out.push(c);
        assert(s@.take(it.index() + 1) =~= s@.take(it.index()).push(c));
    }
    assert(s@.take(s@.len() as int) =~= s@);
    out
}

/// Whether `p` stands in `s` at `i`.
fn matches_at(s: &Vec<char>, p: &Vec<char>, i: usize) -> (r: bool)
    requires
        i + p@.len() <= s@.len(),
    ensures
        r == occurs_at(s@, p@, i as int),
{
    let mut k: usize = 0;
    let n = s.len();
    while k < p.len()
        invariant
            i + p@.len() <= n,
            n == s@.len(),
            k <= p@.len(),
            forall|j: int| 0 <= j < k ==> s@[i + j] == p@[j],
        decreases p@.len() - k,
    {
        if s[i + k] != p[k] {
            assert(s@.subrange(i as int, i + p@.len())[k as int] != p@[k as int]);
            return false;
        }
        k = k + 1;
    }
    assert(s@.subrange(i as int, i + p@.len()) =~= p@);
    true
}

/// `s` begins with `p`.
pub fn starts_with(s: &str, p: &str) -> (r: bool)
    ensures
        r == begins(s@, p@),
{
    let a = chars(s);
    let b = chars(p);
    if b.len() > a.len() {
        return false;
    }
    let r = matches_at(&a, &b, 0);
    r
}

/// `s` ends with `p`.
pub fn ends_with(s: &str, p: &str) -> (r: bool)
    ensures
        r == ends(s@, p@),
{
    let a = chars(s);
    let b = chars(p);
    if b.len() > a.len() {
        return false;
    }
    let at: usize = a.len() - b.len();
    let r = matches_at(&a, &b, at);
    assert(at + p@.len() == s@.len());
    r
}

/// The position, counted in characters, at which `p` first stands in `s`.
pub fn find(s: &str, p: &str) -> (r: Option<usize>)
    ensures
        r matches Some(i) ==> position(s@, p@) == Some(i as int) && i + p@.len() <= s@.len()
            && occurs_at(s@, p@, i as int),
        r is None <==> position(s@, p@) is None,
{
    let a = chars(s);
    let b = chars(p);
    let mut i: usize = 0;
    proof {
        lemma_holds_iff_position(s@, p@);
    }
    if b.len() > a.len() {
        assert(forall|j: int| !occurs_at(s@, p@, j));
        return None;
    }
    if b.len() == 0 {
        assert(s@.subrange(0, 0) =~= p@);
        proof {
            lemma_position(s@, p@, 0);
        }
        return Some(0);
    }
    let count: usize = a.len() - b.len() + 1;
    while i < count
        invariant
            a@ == s@,
            b@ == p@,
            count + b@.len() == a@.len() + 1,
            i <= count,
            forall|j: int| 0 <= j < i ==> !occurs_at(s@, p@, j),
        decreases count - i,
    {
        if matches_at(&a, &b, i) {
            proof {
                lemma_position(s@, p@, i as int);
            }
            return Some(i);
        }
        i = i + 1;
    }
    assert(forall|j: int| !occurs_at(s@, p@, j));
    None
}

/// `p` stands somewhere in `s`.
pub fn contains(s: &str, p: &str) -> (r: bool)
    ensures
        r == holds(s@, p@),
{
    proof {
        lemma_holds_iff_position(s@, p@);
    }
    find(s, p).is_some()
}

/// `c` stands somewhere in `s`.
pub fn contains_char(s: &str, c: char) -> (r: bool)
    ensures
        r == s@.contains(c),
{
    let a = chars(s);
    let mut i: usize = 0;
    while i < a.len()
        invariant
            a@ == s@,
            i <= a@.len(),
            forall|j: int| 0 <= j < i ==> s@[j] != c,
        decreases a@.len() - i,
    {
        if a[i] == c {
            return true;
        }
        i = i + 1;
    }
    false
}

/// The position, counted in characters, at which `c` last stands in `s`.
pub fn rfind_char(s: &str, c: char) -> (r: Option<usize>)
    ensures
        r matches Some(i) ==> last_position(s@, c) == Some(i as int) && last_at(s@, c, i as int),
        r is None <==> last_position(s@, c) is None,
        r is None <==> !s@.contains(c),
{
    let a = chars(s);
    let mut i: usize = a.len();
    while i > 0
        invariant
            a@ == s@,
            i <= a@.len(),
            forall|j: int| i <= j < s@.len() ==> s@[j] != c,
        decreases i,
    {
        i = i - 1;
        if a[i] == c {
            proof {
                lemma_last_position(s@, c, i as int);
            }
            return Some(i);
        }
    }
    assert(forall|j: int| !last_at(s@, c, j));
    None
}

/// The characters of `s` from `from` up to `to`.
pub fn slice(s: &str, from: usize, to: usize) -> (r: String)
    requires
        from <= to <= s@.len(),
    ensures
        r@ == s@.subrange(from as int, to as int),
{
    s.substring_char(from, to).to_owned()
}

/// What is left of `s` behind the prefix `p`, if `s` begins with it.
pub fn strip_prefix(s: &str, p: &str) -> (r: Option<String>)
    ensures
        r is Some <==> without_prefix(s@, p@) is Some,
        r matches Some(t) ==> without_prefix(s@, p@) == Some(t@),
{
    if starts_with(s, p) {
        let n = p.unicode_len();
        let m = s.unicode_len();
        Some(slice(s, n, m))
    } else {
        None
    }
}

/// What is left of `s` before the suffix `p`, if `s` ends with it.
pub fn strip_suffix(s: &str, p: &str) -> (r: Option<String>)
    ensures
        r is Some <==> without_suffix(s@, p@) is Some,
        r matches Some(t) ==> without_suffix(s@, p@) == Some(t@),
{
    if ends_with(s, p) {
        let n = p.unicode_len();
        let m = s.unicode_len();
        Some(slice(s, 0, m - n))
    } else {
        None
    }
}

/// The pieces of `s` between the characters `c`.
pub fn split(s: &str, c: char) -> (r: Vec<String>)
    ensures
        texts(r@) == pieces(s@, c),
{
    let a = chars(s);
    let mut out: Vec<String> = Vec::new();
    let mut piece: Vec<char> = Vec::new();
    let mut i: usize = 0;
    while i < a.len()
        invariant
            a@ == s@,
            i <= a@.len(),
            texts(out@).push(piece@) == pieces(s@.take(i as int), c),
        decreases a@.len() - i,
    {
        let ghost head = s@.take(i as int);
        assert(s@.take(i + 1).drop_last() =~= head);
        if a[i] == c {
            let t = from_chars(&piece);
            out.push(t);
            assert(texts(out@) =~= pieces(head, c));
            piece = Vec::new();
            assert(texts(out@).push(piece@) =~= pieces(s@.take(i + 1), c));
        } else {
            proof {
                lemma_pieces_nonempty(head, c);
                assert(pieces(head, c).drop_last() =~= texts(out@));
            }
            piece.push(a[i]);
            assert(texts(out@).push(piece@) =~= pieces(s@.take(i + 1), c));
        }
        i = i + 1;
    }
    assert(s@.take(i as int) =~= s@);
    let t = from_chars(&piece);
    out.push(t);
    assert(texts(out@) =~= pieces(s@, c));
    out
}

/// `parts` in order with `sep` between neighbours.
pub fn join(parts: &Vec<String>, sep: &str) -> (r: String)
    ensures
        r@ == joined(texts(parts@), sep@),
{
    let mut out = String::new();
    let mut i: usize = 0;
    while i < parts.len()
        invariant
            i <= parts@.len(),
            out@ == joined(texts(parts@).take(i as int), sep@),
        decreases parts@.len() - i,
    {
        let ghost all = texts(parts@);
        assert(all.take(i + 1).drop_last() =~= all.take(i as int));
        if i > 0 {
            out.append(sep);
        }
        out.append(parts[i].as_str());
        assert(out@ =~= joined(all.take(i + 1), sep@));
        i = i + 1;
    }
    assert(texts(parts@).take(i as int) =~= texts(parts@));
    out
}

/// `s` with every character `a` turned into `b`.
pub fn replace_char(s: &str, a: char, b: char) -> (r: String)
    ensures
        r@ == swapped(s@, a, b),
{
    let v = chars(s);
    let mut out: Vec<char> = Vec::new();
    let mut i: usize = 0;
    while i < v.len()
        invariant
            v@ == s@,
            i <= v@.len(),
            out@.len() == i,
            forall|j: int| 0 <= j < i ==> out@[j] == swapped(s@, a, b)[j],
        decreases v@.len() - i,
    {
        let c = v[i];
        out.push(if c == a { b } else { c });
        i = i + 1;
    }
    assert(out@ =~= swapped(s@, a, b));
    from_chars(&out)
}

/// `s` with its ASCII letters in lower case.
pub fn to_ascii_lower(s: &str) -> (r: String)
    ensures
        r@ == ascii_lowered(s@),
{
    let v = chars(s);
    let mut out: Vec<char> = Vec::new();
    let mut i: usize = 0;
    while i < v.len()
        invariant
            v@ == s@,
            i <= v@.len(),
            out@.len() == i,
            forall|j: int| 0 <= j < i ==> out@[j] == ascii_lowered(s@)[j],
        decreases v@.len() - i,
    {
        let c = v[i];
        let d = if 'A' <= c && c <= 'Z' {
            ((c as u8) + 32) as char
        } else {
            c
        };
        out.push(d);
        i = i + 1;
    }
    assert(out@ =~= ascii_lowered(s@));
    from_chars(&out)
}

/// `s` in lower case with forward slashes.
pub fn normalize(s: &str) -> (r: String)
    ensures
        r@ == normal(s@),
{
    let l = to_lower(s);
    replace_char(l.as_str(), '\\', '/')
}

/// `a` followed by `b`.
pub fn cat(a: &str, b: &str) -> (r: String)
    ensures
        r@ == a@ + b@,
{
    let mut s = a.to_owned();
    s.append(b);
    s
}

/// Whether one of the strings of `v` is `s`.
pub fn is_listed(v: &Vec<String>, s: &str) -> (r: bool)
    ensures
        r == listed(v@, s@),
{
    let mut i: usize = 0;
    while i < v.len()
        invariant
            i <= v@.len(),
            forall|j: int| 0 <= j < i ==> (#[trigger] v@[j])@ != s@,
        decreases v@.len() - i,
    {
        if same(v[i].as_str(), s) {
            return true;
        }
        i = i + 1;
    }
    false
}

fn digit_to_char(d: u8) -> (r: char)
    requires
        d < 16,
    ensures
        r == digit_char(d as nat),
{
    match d {
        0 => '0', 1 => '1', 2 => '2', 3 => '3', 4 => '4', 5 => '5', 6 => '6', 7 => '7',
        8 => '8', 9 => '9', 10 => 'a', 11 => 'b', 12 => 'c', 13 => 'd', 14 => 'e', _ => 'f',
    }
}

fn decimal_chars(n: u64) -> (r: Vec<char>)
    ensures
        r@ == decimal(n as nat),
    decreases n,
{
    if n < 10 {
        let mut v: Vec<char> = Vec::new();
        v.push(digit_to_char(n as u8));
        assert(v@ =~= decimal(n as nat));
        v
    } else {
        let mut v = decimal_chars(n / 10);
        v.push(digit_to_char((n % 10) as u8));
        v
    }
}

/// `n` in decimal digits.
pub fn decimal_text(n: u64) -> (r: String)
    ensures
        r@ == decimal(n as nat),
{
    from_chars(&decimal_chars(n))
}

fn hex_chars(n: u64, width: usize) -> (r: Vec<char>)
    ensures
        r@ == hex(n as nat, width as nat),
    decreases width,
{
    if width == 0 {
        let v: Vec<char> = Vec::new();
        assert(v@ =~= hex(n as nat, 0));
        v
    } else {
        let mut v = hex_chars(n / 16, width - 1);
        v.push(digit_to_char((n % 16) as u8));
        v
    }
}

/// The lowest `width` hexadecimal digits of `n`, lower case.
pub fn hex_text(n: u64, width: usize) -> (r: String)
    ensures
        r@ == hex(n as nat, width as nat),
{
    from_chars(&hex_chars(n, width))
}

fn digit_of(c: char) -> (r: u64)
    ensures
        r as int == digit_value(c),
{
    if '0' <= c && c <= '9' {
        (c as u64) - 48
    } else if 'a' <= c && c <= 'f' {
        (c as u64) - 87
    } else if 'A' <= c && c <= 'F' {
        (c as u64) - 55
    } else {
        99
    }
}

proof fn lemma_digits_grow(s: Seq<char>, base: nat, i: int)
    requires
        0 <= i <= s.len(),
        base >= 1,
        all_digits(s, base),
    ensures
        digits_value(s, base) >= digits_value(s.take(i), base) >= 0,
    decreases s.len(),
{
    if s.len() > 0 {
        let t = s.drop_last();
        assert forall|k: int| 0 <= k < t.len() implies #[trigger] digit_value(t[k]) < base by {
            assert(t[k] == s[k]);
        }
        if i < s.len() {
            lemma_digits_grow(t, base, i);
            assert(t.take(i) =~= s.take(i));
            let v = digits_value(t, base);
            assert(v * base >= v) by (nonlinear_arith)
                requires v >= 0, base >= 1;
        } else {
            lemma_digits_grow(t, base, t.len() as int);
            assert(t.take(t.len() as int) =~= t);
            assert(s.take(i) =~= s);
            let v = digits_value(t, base);
            assert(v * base >= v) by (nonlinear_arith)
                requires v >= 0, base >= 1;
        }
    } else {
        assert(s.take(i) =~= s);
    }
}

/// The number that `s` writes in `base`, if it writes one of at most `max`.
pub fn parse_number(s: &str, base: u64, max: u64) -> (r: Option<u64>)
    requires
        2 <= base <= 16,
    ensures
        r matches Some(n) ==> number(s@, base as nat, max as nat) == Some(n as nat),
        r is None <==> number(s@, base as nat, max as nat) is None,
{
    let v = chars(s);
    let start: usize = if v.len() > 0 && v[0] == '+' { 1 } else { 0 };
    let ghost d = if s@.len() > 0 && s@[0] == '+' { s@.skip(1) } else { s@ };
    assert(d =~= s@.subrange(start as int, s@.len() as int));
    if start == v.len() {
        return None;
    }
    let mut acc: u64 = 0;
    let mut i: usize = start;
    while i < v.len()
        invariant
            v@ == s@,
            start <= i <= v@.len(),
            2 <= base <= 16,
            d == s@.subrange(start as int, s@.len() as int),
            acc as int == digits_value(d.take(i - start), base as nat),
            acc <= max,
            all_digits(d.take(i - start), base as nat),
            number(s@, base as nat, max as nat) is Some ==> d.len() > 0 && all_digits(d, base as nat)
                && digits_value(d, base as nat) <= max,
        decreases v@.len() - i,
    {
        let x = digit_of(v[i]);
        let ghost k = i - start;
        assert(d[k] == v@[i as int]);
        assert(d.take(k + 1).drop_last() =~= d.take(k));
        if x >= base {
            assert(digit_value(d[k]) >= base);
            return None;
        }
        assert(all_digits(d.take(k + 1), base as nat)) by {
            assert forall|j: int| 0 <= j < k + 1 implies #[trigger] digit_value(d.take(k + 1)[j]) < base by {
                if j < k {
                    assert(d.take(k + 1)[j] == d.take(k)[j]);
                }
            }
        }
        proof {
            if all_digits(d, base as nat) {
                lemma_digits_grow(d, base as nat, k + 1);
            }
        }
        match acc.checked_mul(base) {
            None => {
                return None;
            },
            Some(m) => {
                match m.checked_add(x) {
                    None => {
                        return None;
                    },
                    Some(t) => {
                        if t > max {
                            return None;
                        }
                        acc = t;
                    },
                }
            },
        }
        i = i + 1;
    }
    assert(d.take(i - start) =~= d);
    Some(acc)
}

/// `s` without as many `p` at its end as there are.
pub open spec fn trimmed_end(s: Seq<char>, p: Seq<char>) -> Seq<char>
    decreases s.len(),
{
    if p.len() > 0 && ends(s, p) {
        trimmed_end(s.subrange(0, s.len() - p.len()), p)
    } else {
        s
    }
}

/// `s` without as many `p` at its start as there are.
pub open spec fn trimmed_start(s: Seq<char>, p: Seq<char>) -> Seq<char>
    decreases s.len(),
{
    if p.len() > 0 && begins(s, p) {
        trimmed_start(s.subrange(p.len() as int, s.len() as int), p)
    } else {
        s
    }
}

/// `s` without as many `p` at its end as there are.
pub fn trim_end(s: &str, p: &str) -> (r: String)
    ensures
        r@ == trimmed_end(s@, p@),
    decreases s@.len(),
{
    if p.unicode_len() > 0 && ends_with(s, p) {
        let n = p.unicode_len();
        let m = s.unicode_len();
        let t = slice(s, 0, m - n);
        trim_end(t.as_str(), p)
    } else {
        s.to_owned()
    }
}

/// `s` without as many `p` at its start as there are.
pub fn trim_start(s: &str, p: &str) -> (r: String)
    ensures
        r@ == trimmed_start(s@, p@),
    decreases s@.len(),
{
    if p.unicode_len() > 0 && starts_with(s, p) {
        let n = p.unicode_len();
        let m = s.unicode_len();
        let t = slice(s, n, m);
        trim_start(t.as_str(), p)
    } else {
        s.to_owned()
    }
}

/// The character is white space, as Unicode defines it.
pub open spec fn is_white(c: char) -> bool {
    ||| '\u{9}' <= c <= '\u{d}'
    ||| c == ' '
    ||| c == '\u{85}'
    ||| c == '\u{a0}'
    ||| c == '\u{1680}'
    ||| '\u{2000}' <= c <= '\u{200a}'
    ||| c == '\u{2028}'
    ||| c == '\u{2029}'
    ||| c == '\u{202f}'
    ||| c == '\u{205f}'
    ||| c == '\u{3000}'
}

fn is_white_space(c: char) -> (r: bool)
    ensures
        r == is_white(c),
{
    ('\u{9}' <= c && c <= '\u{d}') || c == ' ' || c == '\u{85}' || c == '\u{a0}' || c == '\u{1680}' || ('\u{2000}' <= c
        && c <= '\u{200a}') || c == '\u{2028}' || c == '\u{2029}' || c == '\u{202f}' || c == '\u{205f}' || c == '\u{3000}'
}

/// `s` without the white space at its start.
pub open spec fn left_trimmed(s: Seq<char>) -> Seq<char>
    decreases s.len(),
{
    if s.len() > 0 && is_white(s[0]) {
        left_trimmed(s.skip(1))
    } else {
        s
    }
}

/// `s` without the white space at its end.
pub open spec fn right_trimmed(s: Seq<char>) -> Seq<char>
    decreases s.len(),
{
    if s.len() > 0 && is_white(s.last()) {
        right_trimmed(s.drop_last())
    } else {
        s
    }
}

/// `s` without the white space at both ends.
pub open spec fn trimmed(s: Seq<char>) -> Seq<char> {
    right_trimmed(left_trimmed(s))
}

/// `s` without the white space at both ends.
pub fn trim(s: &str) -> (r: String)
    ensures
        r@ == trimmed(s@),
{
    let v = chars(s);
    let n = v.len();
    let mut a: usize = 0;
    assert(s@.skip(0) =~= s@);
    while a < n && is_white_space(v[a])
        invariant
            v@ == s@,
            n == v@.len(),
            a <= n,
            left_trimmed(s@) == left_trimmed(s@.skip(a as int)),
        decreases n - a,
    {
        assert(s@.skip(a as int).skip(1) =~= s@.skip(a + 1));
        a = a + 1;
    }
    let ghost left = s@.skip(a as int);
    assert(left_trimmed(s@) == left);
    let mut b: usize = n;
    assert(s@.subrange(a as int, n as int) =~= left);
    while b > a && is_white_space(v[b - 1])
        invariant
            v@ == s@,
            n == v@.len(),
            a <= b <= n,
            left == s@.skip(a as int),
            right_trimmed(left) == right_trimmed(s@.subrange(a as int, b as int)),
        decreases b,
    {
        assert(s@.subrange(a as int, b as int).drop_last() =~= s@.subrange(a as int, b - 1));
        b = b - 1;
    }
    slice(s, a, b)
}

/// A text that holds no `c` is one piece.
pub proof fn lemma_pieces_plain(t: Seq<char>, c: char)
    requires
        !t.contains(c),
    ensures
        pieces(t, c) == seq![t],
    decreases t.len(),
{
    if t.len() > 0 {
        let u = t.drop_last();
        assert(!u.contains(c)) by {
            if u.contains(c) {
                let i = choose|i: int| 0 <= i < u.len() && u[i] == c;
                assert(t[i] == c);
            }
        }
        lemma_pieces_plain(u, c);
        assert(t.last() != c);
        assert(u.push(t.last()) =~= t);
        assert(pieces(t, c) =~= seq![t]);
    } else {
        assert(t =~= Seq::empty());
        assert(pieces(t, c) =~= seq![t]);
    }
}

/// The pieces of a text that ends in `c` and a text without `c`.
pub proof fn lemma_pieces_push(s: Seq<char>, t: Seq<char>, c: char)
    requires
        !t.contains(c),
    ensures
        pieces(s.push(c) + t, c) == pieces(s, c).push(t),
    decreases t.len(),
{
    let w = s.push(c) + t;
    if t.len() == 0 {
        assert(w =~= s.push(c));
        assert(w.drop_last() =~= s);
        assert(t =~= Seq::empty());
    } else {
        let u = t.drop_last();
        assert(!u.contains(c)) by {
            if u.contains(c) {
                let i = choose|i: int| 0 <= i < u.len() && u[i] == c;
                assert(t[i] == c);
            }
        }
        lemma_pieces_push(s, u, c);
        assert(w.drop_last() =~= s.push(c) + u);
        assert(w.last() == t.last());
        assert(t.last() != c);
        assert(u.push(t.last()) =~= t);
        assert(pieces(w, c) =~= pieces(s, c).push(t));
    }
}

/// Splitting undoes joining, where no part holds the separator.
pub proof fn lemma_pieces_joined(parts: Seq<Seq<char>>, sep: Seq<char>, c: char)
    requires
        parts.len() > 0,
        sep == seq![c],
        forall|i: int| 0 <= i < parts.len() ==> !(#[trigger] parts[i]).contains(c),
    ensures
        pieces(joined(parts, sep), c) == parts,
    decreases parts.len(),
{
    if parts.len() == 1 {
        lemma_pieces_plain(parts[0], c);
        assert(seq![parts[0]] =~= parts);
    } else {
        let head = parts.drop_last();
        assert forall|i: int| 0 <= i < head.len() implies !(#[trigger] head[i]).contains(c) by {
            assert(head[i] == parts[i]);
        }
        lemma_pieces_joined(head, sep, c);
        let s = joined(head, sep);
        assert(joined(parts, sep) =~= s.push(c) + parts.last());
        assert(!parts[parts.len() - 1].contains(c));
        lemma_pieces_push(s, parts.last(), c);
        assert(head.push(parts.last()) =~= parts);
    }
}

/// Reading a number undoes writing it in decimal.
pub proof fn lemma_number_of_decimal(n: nat, max: nat)
    requires
        n <= max,
    ensures
        number(decimal(n), 10, max) == Some(n),
        all_digits(decimal(n), 10),
        decimal(n).len() > 0,
{
    lemma_decimal_digits(n);
    let d = decimal(n);
    assert(d[0] != '+') by {
        assert(digit_value(d[0]) < 10);
    }
}

proof fn lemma_decimal_digits(n: nat)
    ensures
        all_digits(decimal(n), 10),
        digits_value(decimal(n), 10) == n,
        decimal(n).len() > 0,
    decreases n,
{
    let d = decimal(n);
    if n < 10 {
        assert(d.drop_last() =~= Seq::empty());
        assert(digits_value(d.drop_last(), 10) == 0);
    } else {
        lemma_decimal_digits(n / 10);
        assert(d.drop_last() =~= decimal(n / 10));
        assert forall|i: int| 0 <= i < d.len() implies #[trigger] digit_value(d[i]) < 10 by {
            if i < d.len() - 1 {
                assert(d[i] == decimal(n / 10)[i]);
            }
        }
    }
}

/// Taking a prefix off undoes putting it on.
pub proof fn lemma_without_prefix(p: Seq<char>, s: Seq<char>)
    ensures
        without_prefix(p + s, p) == Some(s),
{
    assert((p + s).subrange(0, p.len() as int) =~= p);
    assert((p + s).subrange(p.len() as int, (p + s).len() as int) =~= s);
}

/// A longer list of strings has the longer list of contents.
pub proof fn lemma_texts_push(v: Seq<String>, s: String)
    ensures
        texts(v.push(s)) == texts(v).push(s@),
{
    assert(texts(v.push(s)) =~= texts(v).push(s@));
}

/// One item more of a sequence is its start with that item added.
pub proof fn lemma_take_next<A>(s: Seq<A>, i: int)
    requires
        0 <= i < s.len(),
    ensures
        s.take(i + 1) == s.take(i).push(s[i]),
        s.take(i + 1).drop_last() == s.take(i),
        s.take(i + 1).last() == s[i],
{
    assert(s.take(i + 1) =~= s.take(i).push(s[i]));
    assert(s.take(i + 1).drop_last() =~= s.take(i));
}

/// A list holds a string exactly where its contents do.
pub proof fn lemma_listed(v: Seq<String>, s: Seq<char>)
    ensures
        listed(v, s) <==> texts(v).contains(s),
{
    if listed(v, s) {
        let i = choose|i: int| 0 <= i < v.len() && (#[trigger] v[i])@ == s;
        assert(texts(v)[i] == s);
    }
    if texts(v).contains(s) {
        let i = choose|i: int| 0 <= i < texts(v).len() && texts(v)[i] == s;
        assert(v[i]@ == s);
    }
}

/// `s` with every `from`, read from the left, turned into `to`.
pub open spec fn replaced(s: Seq<char>, from: Seq<char>, to: Seq<char>) -> Seq<char>
    decreases s.len(),
{
    if from.len() == 0 || s.len() < from.len() {
        s
    } else if begins(s, from) {
        to + replaced(s.skip(from.len() as int), from, to)
    } else {
        seq![s[0]] + replaced(s.skip(1), from, to)
    }
}

/// `s` with every `from` turned into `to`.
pub fn replace_text(s: &str, from: &str, to: &str) -> (r: String)
    requires
        from@.len() > 0,
    ensures
        r@ == replaced(s@, from@, to@),
{
    let v = chars(s);
    let p = chars(from);
    let t = chars(to);
    let mut out: Vec<char> = Vec::new();
    let mut i: usize = 0;
    assert(s@.skip(0) =~= s@);
    assert(out@ + replaced(s@.skip(0), from@, to@) =~= replaced(s@, from@, to@));
    let n = v.len();
    while i < n
        invariant
            v@ == s@,
            n == v@.len(),
            p@ == from@,
            t@ == to@,
            from@.len() > 0,
            i <= n,
            out@ + replaced(s@.skip(i as int), from@, to@) == replaced(s@, from@, to@),
        decreases n - i,
    {
        let ghost rest = s@.skip(i as int);
        let ghost before = out@;
        if p.len() <= n - i && matches_at(&v, &p, i) {
            assert(rest.subrange(0, from@.len() as int) =~= s@.subrange(i as int, i + from@.len()));
            let mut k: usize = 0;
            while k < t.len()
                invariant
                    t@ == to@,
                    k <= t@.len(),
                    out@ == before + to@.take(k as int),
                decreases t@.len() - k,
            {
                out.push(t[k]);
                assert(out@ =~= before + to@.take(k + 1));
                k = k + 1;
            }
            assert(to@.take(k as int) =~= to@);
            assert(rest.skip(from@.len() as int) =~= s@.skip(i + from@.len()));
            assert(out@ + replaced(s@.skip(i + from@.len()), from@, to@) =~= before + replaced(rest, from@, to@));
            i = i + p.len();
        } else {
            out.push(v[i]);
            proof {
                if rest.len() >= from@.len() {
                    assert(!begins(rest, from@)) by {
                        if begins(rest, from@) {
                            assert(rest.subrange(0, from@.len() as int) =~= s@.subrange(i as int, i + from@.len()));
                        }
                    }
                    assert(rest.skip(1) =~= s@.skip(i + 1));
                    assert(out@ + replaced(s@.skip(i + 1), from@, to@) =~= before + replaced(rest, from@, to@));
                } else {
                    assert(s@.skip(i + 1).len() < from@.len());
                    assert(rest =~= seq![rest[0]] + s@.skip(i + 1));
                    assert(out@ + replaced(s@.skip(i + 1), from@, to@) =~= before + replaced(rest, from@, to@));
                }
            }
            i = i + 1;
        }
    }
    assert(s@.skip(i as int) =~= Seq::empty());
    assert(replaced(s@.skip(i as int), from@, to@) =~= Seq::empty());
    assert(out@ =~= replaced(s@, from@, to@));
    from_chars(&out)
}

/// The first run of decimal digits in `s`.
pub open spec fn first_digits(s: Seq<char>) -> Seq<char>
    decreases s.len(),
{
    if s.len() == 0 {
        Seq::empty()
    } else if '0' <= s[0] && s[0] <= '9' {
        leading_digits(s)
    } else {
        first_digits(s.skip(1))
    }
}

/// The decimal digits at the start of `s`.
pub open spec fn leading_digits(s: Seq<char>) -> Seq<char>
    decreases s.len(),
{
    if s.len() > 0 && '0' <= s[0] && s[0] <= '9' {
        seq![s[0]] + leading_digits(s.skip(1))
    } else {
        Seq::empty()
    }
}

/// The first run of decimal digits in `s`.
pub fn find_digits(s: &str) -> (r: String)
    ensures
        r@ == first_digits(s@),
{
    let v = chars(s);
    let mut i: usize = 0;
    assert(s@.skip(0) =~= s@);
    while i < v.len() && !('0' <= v[i] && v[i] <= '9')
        invariant
            v@ == s@,
            i <= v@.len(),
            first_digits(s@) == first_digits(s@.skip(i as int)),
        decreases v@.len() - i,
    {
        assert(s@.skip(i as int).skip(1) =~= s@.skip(i + 1));
        i = i + 1;
    }
    let ghost start = i as int;
    let mut out: Vec<char> = Vec::new();
    let ghost run = first_digits(s@);
    proof {
        let rest = s@.skip(start);
        if i == v@.len() {
            assert(rest =~= Seq::empty());
        }
        assert(run == leading_digits(rest));
        assert(out@ + leading_digits(rest) =~= run);
    }
    while i < v.len() && '0' <= v[i] && v[i] <= '9'
        invariant
            v@ == s@,
            i <= v@.len(),
            out@ + leading_digits(s@.skip(i as int)) == run,
        decreases v@.len() - i,
    {
        let ghost rest = s@.skip(i as int);
        let ghost before = out@;
        assert(rest.skip(1) =~= s@.skip(i + 1));
        out.push(v[i]);
        assert(out@ + leading_digits(s@.skip(i + 1)) =~= before + leading_digits(rest));
        i = i + 1;
    }
    assert(leading_digits(s@.skip(i as int)) =~= Seq::empty());
    assert(out@ =~= run);
    from_chars(&out)
}

/// What stands before the last `c` of `s`, where there is one.
pub open spec fn before_last(s: Seq<char>, c: char) -> Option<Seq<char>> {
    match last_position(s, c) {
        Some(i) => Some(s.subrange(0, i)),
        None => None,
    }
}

/// What stands behind the last `c` of `s`; all of it where there is none.
pub open spec fn after_last(s: Seq<char>, c: char) -> Seq<char> {
    match last_position(s, c) {
        Some(i) => s.skip(i + 1),
        None => s,
    }
}

/// What stands behind the last `c` of `s`; all of it where there is none.
pub fn tail_after(s: &str, c: char) -> (r: String)
    ensures
        r@ == after_last(s@, c),
{
    let n = s.unicode_len();
    match rfind_char(s, c) {
        Some(i) => {
            let r = slice(s, i + 1, n);
            assert(r@ =~= s@.skip(i + 1));
            r
        },
        None => s.to_owned(),
    }
}

/// The texts, each once, in order of first occurrence.
pub open spec fn distinct(ss: Seq<Seq<char>>) -> Seq<Seq<char>>
    decreases ss.len(),
{
    if ss.len() == 0 {
        Seq::empty()
    } else {
        let before = distinct(ss.drop_last());
        if before.contains(ss.last()) {
            before
        } else {
            before.push(ss.last())
        }
    }
}

/// Add a text to a list, unless it is there.
pub fn push_distinct(v: &mut Vec<String>, s: String)
    ensures
        texts(final(v)@) == (if texts(old(v)@).contains(s@) { texts(old(v)@) } else { texts(old(v)@).push(s@) }),
{
    proof {
        lemma_listed(v@, s@);
    }
    if !is_listed(v, s.as_str()) {
        let ghost before = v@;
        v.push(s);
        assert(texts(v@) =~= texts(before).push(s@));
    }
}

/// The same texts are listed, and none twice.
pub proof fn lemma_distinct(ss: Seq<Seq<char>>)
    ensures
        distinct(ss).no_duplicates(),
        forall|s: Seq<char>| distinct(ss).contains(s) <==> ss.contains(s),
    decreases ss.len(),
{
    if ss.len() > 0 {
        let head = ss.drop_last();
        lemma_distinct(head);
        let before = distinct(head);
        let now = distinct(ss);
        assert forall|s: Seq<char>| now.contains(s) <==> ss.contains(s) by {
            if ss.contains(s) {
                let i = choose|i: int| 0 <= i < ss.len() && ss[i] == s;
                if i < head.len() {
                    assert(head[i] == s);
                    assert(head.contains(s));
                    assert(before.contains(s));
                    let k = choose|k: int| 0 <= k < before.len() && before[k] == s;
                    assert(now[k] == s);
                } else if !before.contains(s) {
                    assert(now[now.len() - 1] == s);
                }
            }
            if now.contains(s) {
                if before.contains(s) {
                    assert(head.contains(s));
                    let k = choose|k: int| 0 <= k < head.len() && head[k] == s;
                    assert(ss[k] == s);
                } else {
                    assert(ss[ss.len() - 1] == s);
                }
            }
        }
    }
}

/// What two runs hold together.
pub proof fn lemma_sum_contains<A>(a: Seq<A>, b: Seq<A>, x: A)
    ensures
        (a + b).contains(x) <==> a.contains(x) || b.contains(x),
{
    if a.contains(x) {
        let i = choose|i: int| 0 <= i < a.len() && a[i] == x;
        assert((a + b)[i] == x);
    }
    if b.contains(x) {
        let i = choose|i: int| 0 <= i < b.len() && b[i] == x;
        assert((a + b)[a.len() + i] == x);
    }
    if (a + b).contains(x) {
        let i = choose|i: int| 0 <= i < (a + b).len() && (a + b)[i] == x;
        if i < a.len() {
            assert(a[i] == x);
        } else {
            assert(b[i - a.len()] == x);
        }
    }
}

/// What a run holds once something is put behind it.
pub proof fn lemma_push_contains<A>(a: Seq<A>, y: A, x: A)
    ensures
        a.push(y).contains(x) <==> a.contains(x) || x == y,
{
    if a.contains(x) {
        let i = choose|i: int| 0 <= i < a.len() && a[i] == x;
        assert(a.push(y)[i] == x);
    }
    if x == y {
        assert(a.push(y)[a.len() as int] == x);
    }
    if a.push(y).contains(x) {
        let i = choose|i: int| 0 <= i < a.push(y).len() && a.push(y)[i] == x;
        if i < a.len() {
            assert(a[i] == x);
        }
    }
}

/// The first piece of a text is what stands before the first separator.
pub proof fn lemma_pieces_head(head: Seq<char>, rest: Seq<char>, c: char)
    requires
        !head.contains(c),
    ensures
        pieces(head + seq![c] + rest, c).len() >= 2,
        pieces(head + seq![c] + rest, c)[0] == head,
    decreases rest.len(),
{
    let s = head + seq![c] + rest;
    if rest.len() == 0 {
        assert(s.drop_last() =~= head);
        lemma_pieces_plain(head, c);
    } else {
        assert(s.drop_last() =~= head + seq![c] + rest.drop_last());
        lemma_pieces_head(head, rest.drop_last(), c);
    }
}

} // verus!
