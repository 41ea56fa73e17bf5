//! Which archive files a rule is about: by their path and by their first bytes.

use vstd::prelude::*;
use vstd::string::*;
use crate::config::{BinaryHeaderCheck, Endian, WadDetectionRule};
use crate::patterns::{regex_is_match, regex_is_valid, regex_matches, regex_valid};
use crate::text::{after_last, chars, ends, ends_with, from_chars, lowered, same, tail_after, to_lower};

verus! {

/// What is wrong with a rule for archive files.
#[derive(Clone, Copy, Debug, PartialEq, Eq, Structural)]
pub enum WadError {
    /// A pattern is no valid regular expression.
    InvalidPattern,
    /// A version number of a size other than 1, 2 or 4 bytes.
    InvalidVersionSize(usize),
}

/// The number that bytes write, the lowest first.
pub open spec fn little_number(s: Seq<u8>) -> nat
    decreases s.len(),
{
    if s.len() == 0 {
        0
    } else {
        s[0] as nat + 256 * little_number(s.skip(1))
    }
}

/// The number that bytes write, the highest first.
pub open spec fn big_number(s: Seq<u8>) -> nat
    decreases s.len(),
{
    if s.len() == 0 {
        0
    } else {
        256 * big_number(s.drop_last()) + s.last() as nat
    }
}

/// The number that bytes write in a byte order.
pub open spec fn number_of(s: Seq<u8>, endian: Endian) -> nat {
    match endian {
        Endian::Little => little_number(s),
        Endian::Big => big_number(s),
    }
}

/// The bytes begin with `p`.
pub open spec fn begins_with(bytes: Seq<u8>, p: Seq<u8>) -> bool {
    p.len() <= bytes.len() && bytes.take(p.len() as int) == p
}

/// The number at an offset is none of the allowed versions. A file that is too short for
/// the number has none.
pub open spec fn version_not_in(bytes: Seq<u8>, offset: usize, size: usize, endian: Endian, allowed: Seq<u32>) -> Result<
    bool,
    WadError,
> {
    if offset + size > bytes.len() {
        Ok(false)
    } else if size != 1 && size != 2 && size != 4 {
        Err(WadError::InvalidVersionSize(size))
    } else {
        Ok(!allowed.contains(number_of(bytes.subrange(offset as int, offset + size), endian) as u32))
    }
}

/// The larger of a block size and one.
pub open spec fn block_of(block_size: u32) -> int {
    if block_size == 0 {
        1
    } else {
        block_size as int
    }
}

/// The 16-bit number at an offset, the lower byte first.
pub open spec fn short_at(bytes: Seq<u8>, at: int) -> int {
    bytes[at] as int + 256 * bytes[at + 1] as int
}

/// The bytes meet a condition.
pub open spec fn header_holds(bytes: Seq<u8>, check: BinaryHeaderCheck) -> Result<bool, WadError> {
    match check {
        BinaryHeaderCheck::VersionAtOffset { offset, size, endian, allowed_versions } => version_not_in(
            bytes,
            offset,
            size,
            endian,
            allowed_versions@,
        ),
        BinaryHeaderCheck::MagicSignature { signature } => Ok(begins_with(bytes, signature@)),
        BinaryHeaderCheck::BlockAlignment {
            magic,
            width_offset,
            height_offset,
            format_offset,
            block_formats,
            block_size,
        } => Ok(
            format_offset < bytes.len() && width_offset + 1 < bytes.len() && height_offset + 1 < bytes.len() && begins_with(
                bytes,
                magic@,
            ) && block_formats@.contains(bytes[format_offset as int]) && (short_at(bytes, width_offset as int) % block_of(
                block_size,
            ) != 0 || short_at(bytes, height_offset as int) % block_of(block_size) != 0),
        ),
    }
}

fn starts_with_bytes(bytes: &[u8], p: &Vec<u8>) -> (r: bool)
    ensures
        r == begins_with(bytes@, p@),
{
    if p.len() > bytes.len() {
        return false;
    }
    let mut i: usize = 0;
    while i < p.len()
        invariant
            p@.len() <= bytes@.len(),
            i <= p@.len(),
            forall|j: int| 0 <= j < i ==> bytes@[j] == p@[j],
        decreases p@.len() - i,
    {
        if bytes[i] != p[i] {
            assert(bytes@.take(p@.len() as int)[i as int] != p@[i as int]);
            return false;
        }
        i = i + 1;
    }
    assert(bytes@.take(p@.len() as int) =~= p@);
    true
}

fn lists_version(allowed: &Vec<u32>, v: u32) -> (r: bool)
    ensures
        r == allowed@.contains(v),
{
    let mut i: usize = 0;
    while i < allowed.len()
        invariant
            i <= allowed@.len(),
            forall|j: int| 0 <= j < i ==> allowed@[j] != v,
        decreases allowed@.len() - i,
    {
        if allowed[i] == v {
            return true;
        }
        i = i + 1;
    }
    false
}

fn lists_format(formats: &Vec<u8>, f: u8) -> (r: bool)
    ensures
        r == formats@.contains(f),
{
    let mut i: usize = 0;
    while i < formats.len()
        invariant
            i <= formats@.len(),
            forall|j: int| 0 <= j < i ==> formats@[j] != f,
        decreases formats@.len() - i,
    {
        if formats[i] == f {
            return true;
        }
        i = i + 1;
    }
    false
}

proof fn lemma_numbers(s: Seq<u8>)
    ensures
        s.len() == 1 ==> little_number(s) == s[0] && big_number(s) == s[0],
        s.len() == 2 ==> little_number(s) == s[0] + 256 * s[1] && big_number(s) == 256 * s[0] + s[1],
        s.len() == 4 ==> little_number(s) == s[0] + 256 * s[1] + 65536 * s[2] + 16777216 * s[3] && big_number(s)
            == 16777216 * s[0] + 65536 * s[1] + 256 * s[2] + s[3],
{
    reveal_with_fuel(little_number, 5);
    reveal_with_fuel(big_number, 5);
    if s.len() == 2 {
        assert(s.skip(1)[0] == s[1]);
        assert(s.drop_last().last() == s[0]);
    }
    if s.len() == 4 {
        let a = s.skip(1);
        let b = a.skip(1);
        let c = b.skip(1);
        assert(a[0] == s[1] && b[0] == s[2] && c[0] == s[3]);
        let x = s.drop_last();
        let y = x.drop_last();
        let z = y.drop_last();
        assert(x.last() == s[2] && y.last() == s[1] && z.last() == s[0]);
    }
}

/// Whether the version number at an offset is none of the allowed ones.
pub fn check_version_at_offset(
    bytes: &[u8],
    offset: usize,
    size: usize,
    endian: &Endian,
    allowed_versions: &Vec<u32>,
) -> (r: Result<bool, WadError>)
    ensures
        r == version_not_in(bytes@, offset, size, *endian, allowed_versions@),
{
    let n = bytes.len();
    if size > n || offset > n - size {
        return Ok(false);
    }
    let ghost s = bytes@.subrange(offset as int, offset + size);
    proof {
        lemma_numbers(s);
    }
    let version: u32 = if size == 1 {
        bytes[offset] as u32
    } else if size == 2 {
        let a = bytes[offset] as u32;
        let b = bytes[offset + 1] as u32;
        match endian {
            Endian::Little => a + 256 * b,
            Endian::Big => 256 * a + b,
        }
    } else if size == 4 {
        let a = bytes[offset] as u32;
        let b = bytes[offset + 1] as u32;
        let c = bytes[offset + 2] as u32;
        let d = bytes[offset + 3] as u32;
        match endian {
            Endian::Little => a + 256 * b + 65536 * c + 16777216 * d,
            Endian::Big => 16777216 * a + 65536 * b + 256 * c + d,
        }
    } else {
        return Err(WadError::InvalidVersionSize(size));
    };
    assert(version as nat == number_of(s, *endian));
    Ok(!lists_version(allowed_versions, version))
}

fn read_short(bytes: &[u8], at: usize) -> (r: u32)
    requires
        at + 1 < bytes@.len(),
    ensures
        r as int == short_at(bytes@, at as int),
{
    bytes[at] as u32 + 256 * (bytes[at + 1] as u32)
}

/// Whether the bytes meet a condition.
pub fn check_binary_header(bytes: &[u8], check: &BinaryHeaderCheck) -> (r: Result<bool, WadError>)
    ensures
        r == header_holds(bytes@, *check),
{
    match check {
        BinaryHeaderCheck::VersionAtOffset { offset, size, endian, allowed_versions } => check_version_at_offset(
            bytes,
            *offset,
            *size,
            endian,
            allowed_versions,
        ),
        BinaryHeaderCheck::MagicSignature { signature } => Ok(starts_with_bytes(bytes, signature)),
        BinaryHeaderCheck::BlockAlignment {
            magic,
            width_offset,
            height_offset,
            format_offset,
            block_formats,
            block_size,
        } => {
            let n = bytes.len();
            if n < 2 || *format_offset >= n || *width_offset >= n - 1 || *height_offset >= n - 1 {
                return Ok(false);
            }
            if !starts_with_bytes(bytes, magic) {
                return Ok(false);
            }
            if !lists_format(block_formats, bytes[*format_offset]) {
                return Ok(false);
            }
            let width = read_short(bytes, *width_offset);
            let height = read_short(bytes, *height_offset);
            let block: u32 = if *block_size == 0 { 1 } else { *block_size };
            Ok(width % block != 0 || height % block != 0)
        },
    }
}

/// The bytes meet a condition, where there is one.
pub open spec fn bytes_pass(bytes: Seq<u8>, check: Option<BinaryHeaderCheck>) -> Result<bool, WadError> {
    match check {
        Some(c) => header_holds(bytes, c),
        None => Ok(true),
    }
}

/// Whether the bytes meet a condition, where there is one.
pub fn check_bytes(bytes: &[u8], check: &Option<BinaryHeaderCheck>) -> (r: Result<bool, WadError>)
    ensures
        r == bytes_pass(bytes@, *check),
{
    match check {
        Some(c) => check_binary_header(bytes, c),
        None => Ok(true),
    }
}

/// One of the names, in lower case, is `name`.
pub open spec fn excluded(names: Seq<String>, name: Seq<char>) -> bool {
    exists|i: int| 0 <= i < names.len() && lowered((#[trigger] names[i])@) == name
}

/// The path ends in the extension, is not excluded by its file name, and the bytes meet
/// the condition.
pub open spec fn extension_matches(
    path: Seq<char>,
    extension: Seq<char>,
    bytes: Seq<u8>,
    check: Option<BinaryHeaderCheck>,
    exclude: Seq<String>,
) -> Result<bool, WadError> {
    let lower = lowered(path);
    if !ends(lower, extension) || excluded(exclude, after_last(lower, '/')) {
        Ok(false)
    } else {
        bytes_pass(bytes, check)
    }
}

/// Whether a file is one of those that a rule by extension is about.
pub fn check_extension(
    path: &str,
    extension: &str,
    bytes: &[u8],
    binary_check: &Option<BinaryHeaderCheck>,
    exclude_files: &Vec<String>,
) -> (r: Result<bool, WadError>)
    ensures
        r == extension_matches(path@, extension@, bytes@, *binary_check, exclude_files@),
{
    let lower = to_lower(path);
    if !ends_with(lower.as_str(), extension) {
        return Ok(false);
    }
    let name = tail_after(lower.as_str(), '/');
    let mut i: usize = 0;
    while i < exclude_files.len()
        invariant
            lower@ == lowered(path@),
            name@ == after_last(lower@, '/'),
            i <= exclude_files@.len(),
            forall|j: int| 0 <= j < i ==> lowered((#[trigger] exclude_files@[j])@) != name@,
        decreases exclude_files@.len() - i,
    {
        let other = to_lower(exclude_files[i].as_str());
        if same(other.as_str(), name.as_str()) {
            return Ok(false);
        }
        i = i + 1;
    }
    check_bytes(bytes, binary_check)
}

/// The regular expression of the inside of a file pattern: dots are plain, a star stands
/// for anything within a path segment, and two stars for anything at all.
pub open spec fn glob_body(pattern: Seq<char>) -> Seq<char>
    decreases pattern.len(),
{
    if pattern.len() == 0 {
        Seq::empty()
    } else if pattern[0] == '*' {
        if pattern.len() > 1 && pattern[1] == '*' {
            ".*"@ + glob_body(pattern.skip(2))
        } else {
            "[^/]*"@ + glob_body(pattern.skip(1))
        }
    } else if pattern[0] == '.' {
        "\\."@ + glob_body(pattern.skip(1))
    } else {
        seq![pattern[0]] + glob_body(pattern.skip(1))
    }
}

/// The regular expression of a file pattern.
pub open spec fn glob_regex(pattern: Seq<char>) -> Seq<char> {
    "^"@ + glob_body(pattern) + "$"@
}

fn push_all(out: &mut Vec<char>, s: &str)
    ensures
        final(out)@ == old(out)@ + s@,
{
    let mut more = chars(s);
    out.append(&mut more);
}

fn glob_to_regex(pattern: &str) -> (r: String)
    ensures
        r@ == glob_regex(pattern@),
{
    let v = chars(pattern);
    let mut out: Vec<char> = Vec::new();
    push_all(&mut out, "^");
    let mut i: usize = 0;
    assert(v@.skip(0) =~= v@);
    while i < v.len()
        invariant
            v@ == pattern@,
            i <= v@.len(),
            out@ + glob_body(v@.skip(i as int)) == "^"@ + glob_body(pattern@),
        decreases v@.len() - i,
    {
        let ghost rest = v@.skip(i as int);
        let ghost before = out@;
        assert(rest[0] == v@[i as int]);
        if v[i] == '*' {
            if i + 1 < v.len() && v[i + 1] == '*' {
                assert(rest[1] == v@[i + 1]);
                assert(rest.skip(2) =~= v@.skip(i + 2));
                push_all(&mut out, ".*");
                assert(out@ + glob_body(v@.skip(i + 2)) =~= before + glob_body(rest));
                i = i + 2;
                continue;
            }
            assert(rest.len() > 1 ==> rest[1] == v@[i + 1]);
            push_all(&mut out, "[^/]*");
        } else if v[i] == '.' {
            push_all(&mut out, "\\.");
        } else {
            out.push(v[i]);
        }
        assert(rest.skip(1) =~= v@.skip(i + 1));
        assert(out@ + glob_body(v@.skip(i + 1)) =~= before + glob_body(rest));
        i = i + 1;
    }
    assert(v@.skip(i as int) =~= Seq::<char>::empty());
    assert(out@ =~= "^"@ + glob_body(pattern@));
    push_all(&mut out, "$");
    from_chars(&out)
}

/// The lower-case path matches the pattern, and the bytes meet the condition.
pub open spec fn pattern_outcome(
    path: Seq<char>,
    pattern: Seq<char>,
    bytes: Seq<u8>,
    check: Option<BinaryHeaderCheck>,
) -> Result<bool, WadError> {
    if !regex_valid(glob_regex(pattern)) {
        Err(WadError::InvalidPattern)
    } else if !regex_matches(glob_regex(pattern), lowered(path)) {
        Ok(false)
    } else {
        bytes_pass(bytes, check)
    }
}

/// Whether a file is one of those that a rule by pattern is about.
pub fn check_pattern(path: &str, pattern: &str, bytes: &[u8], binary_check: &Option<BinaryHeaderCheck>) -> (r: Result<
    bool,
    WadError,
>)
    ensures
        r == pattern_outcome(path@, pattern@, bytes@, *binary_check),
{
    let regex = glob_to_regex(pattern);
    if !regex_is_valid(regex.as_str()) {
        return Err(WadError::InvalidPattern);
    }
    let lower = to_lower(path);
    if !regex_is_match(regex.as_str(), lower.as_str()) {
        return Ok(false);
    }
    check_bytes(bytes, binary_check)
}

/// The file is one of those that a rule is about.
pub open spec fn file_matches(path: Seq<char>, bytes: Seq<u8>, rule: WadDetectionRule) -> Result<bool, WadError> {
    match rule {
        WadDetectionRule::FileExtension { extension, binary_check, exclude_files } => extension_matches(
            path,
            extension@,
            bytes,
            binary_check,
            exclude_files@,
        ),
        WadDetectionRule::FilePattern { pattern, binary_check } => pattern_outcome(path, pattern@, bytes, binary_check),
        WadDetectionRule::Always => Ok(false),
    }
}

/// Check if a file matches a detection rule. A rule about the whole archive matches no
/// single file.
pub fn check_file(path: &str, bytes: &[u8], rule: &WadDetectionRule) -> (r: Result<bool, WadError>)
    ensures
        r == file_matches(path@, bytes@, *rule),
{
    match rule {
        WadDetectionRule::FileExtension { extension, binary_check, exclude_files } => check_extension(
            path,
            extension.as_str(),
            bytes,
            binary_check,
            exclude_files,
        ),
        WadDetectionRule::FilePattern { pattern, binary_check } => check_pattern(
            path,
            pattern.as_str(),
            bytes,
            binary_check,
        ),
        WadDetectionRule::Always => Ok(false),
    }
}

/// A texture whose sides are whole blocks is never reported as misaligned.
pub proof fn law_aligned_textures_pass(bytes: Seq<u8>, check: BinaryHeaderCheck)
    requires
        check is BlockAlignment,
        short_at(bytes, check->width_offset as int) % block_of(check->block_size) == 0,
        short_at(bytes, check->height_offset as int) % block_of(check->block_size) == 0,
    ensures
        header_holds(bytes, check) == Ok::<bool, WadError>(false),
{
}

/// A file too short for what a condition reads does not meet it.
pub proof fn law_truncated_files_pass(check: BinaryHeaderCheck)
    requires
        check matches BinaryHeaderCheck::VersionAtOffset { size, .. } ==> size > 0,
        check matches BinaryHeaderCheck::MagicSignature { signature } ==> signature@.len() > 0,
    ensures
        header_holds(Seq::empty(), check) == Ok::<bool, WadError>(false),
{
}

/// A file with the extension of a rule, in whatever case its path is written, is matched,
/// where its name is none of those left out and no check on its bytes is made.
pub proof fn law_extensions_are_matched(path: Seq<char>, bytes: Seq<u8>, extension: Seq<char>, exclude: Seq<String>)
    requires
        ends(lowered(path), extension),
        forall|i: int| 0 <= i < exclude.len() ==> lowered((#[trigger] exclude[i])@) != after_last(lowered(path), '/'),
    ensures
        extension_matches(path, extension, bytes, None, exclude) == Ok::<bool, WadError>(true),
        forall|check: BinaryHeaderCheck| #[trigger]
            extension_matches(path, extension, bytes, Some(check), exclude) == header_holds(bytes, check),
{
}

/// A file with another extension, or one whose name is left out, is not matched.
pub proof fn law_other_files_are_not_matched(
    path: Seq<char>,
    bytes: Seq<u8>,
    extension: Seq<char>,
    check: Option<BinaryHeaderCheck>,
    exclude: Seq<String>,
    i: int,
)
    ensures
        !ends(lowered(path), extension) ==> extension_matches(path, extension, bytes, check, exclude) == Ok::<bool, WadError>(false),
        0 <= i < exclude.len() && lowered(exclude[i]@) == after_last(lowered(path), '/') ==> extension_matches(
            path,
            extension,
            bytes,
            check,
            exclude,
        ) == Ok::<bool, WadError>(false),
{
}

/// A file of a version that is not allowed is matched and one of an allowed version is
/// not, with the version written in one, two or four bytes, lowest or highest first.
pub proof fn law_versions_are_read_from_the_header(bytes: Seq<u8>, offset: usize, endian: Endian, allowed: Seq<u32>)
    ensures
        offset + 1 <= bytes.len() ==> version_not_in(bytes, offset, 1, endian, allowed) == Ok::<bool, WadError>(
            !allowed.contains(bytes[offset as int] as u32),
        ),
        offset + 2 <= bytes.len() ==> version_not_in(bytes, offset, 2, endian, allowed) == Ok::<bool, WadError>(
            !allowed.contains(
                (match endian {
                    Endian::Little => bytes[offset as int] as int + 256 * bytes[offset + 1] as int,
                    Endian::Big => 256 * bytes[offset as int] as int + bytes[offset + 1] as int,
                }) as u32,
            ),
        ),
        offset + 4 <= bytes.len() ==> version_not_in(bytes, offset, 4, endian, allowed) == Ok::<bool, WadError>(
            !allowed.contains(
                (match endian {
                    Endian::Little => bytes[offset as int] as int + 256 * bytes[offset + 1] as int + 65536 * bytes[offset + 2] as int
                        + 16777216 * bytes[offset + 3] as int,
                    Endian::Big => 16777216 * bytes[offset as int] as int + 65536 * bytes[offset + 1] as int + 256 * bytes[offset
                        + 2] as int + bytes[offset + 3] as int,
                }) as u32,
            ),
        ),
{
    reveal_with_fuel(little_number, 5);
    reveal_with_fuel(big_number, 5);
    if offset + 1 <= bytes.len() {
        let s = bytes.subrange(offset as int, offset + 1);
        assert(s.len() == 1 && s[0] == bytes[offset as int]);
    }
    if offset + 2 <= bytes.len() {
        let s = bytes.subrange(offset as int, offset + 2);
        assert(s.skip(1)[0] == bytes[offset + 1]);
        assert(s.drop_last()[0] == bytes[offset as int]);
    }
    if offset + 4 <= bytes.len() {
        let s = bytes.subrange(offset as int, offset + 4);
        assert(s.skip(1)[0] == s[1]);
        assert(s.skip(1).skip(1)[0] == s[2]);
        assert(s.skip(1).skip(1).skip(1)[0] == s[3]);
        assert(s.drop_last().last() == s[2]);
        assert(s.drop_last().drop_last().last() == s[1]);
        assert(s.drop_last().drop_last().drop_last().last() == s[0]);
    }
}

/// A file with the signature and a block format, whose width or height is no multiple of
/// the block size, is matched.
pub proof fn law_misaligned_textures_are_matched(bytes: Seq<u8>, check: BinaryHeaderCheck)
    requires
        check is BlockAlignment,
        check->magic@.len() <= bytes.len(),
        forall|i: int| 0 <= i < check->magic@.len() ==> bytes[i] == #[trigger] check->magic@[i],
        check->format_offset < bytes.len(),
        check->width_offset + 1 < bytes.len(),
        check->height_offset + 1 < bytes.len(),
        check->block_formats@.contains(bytes[check->format_offset as int]),
        check->block_size > 0,
        (bytes[check->width_offset as int] as int + 256 * bytes[check->width_offset + 1] as int) % check->block_size as int != 0 || (
        bytes[check->height_offset as int] as int + 256 * bytes[check->height_offset + 1] as int) % check->block_size as int != 0,
    ensures
        header_holds(bytes, check) == Ok::<bool, WadError>(true),
{
    assert(bytes.take(check->magic@.len() as int) =~= check->magic@);
}

/// A signature check matches the files that begin with the signature.
pub proof fn law_signatures_are_matched(bytes: Seq<u8>, check: BinaryHeaderCheck)
    requires
        check is MagicSignature,
    ensures
        header_holds(bytes, check) == Ok::<bool, WadError>(
            check->signature@.len() <= bytes.len() && forall|i: int|
                0 <= i < check->signature@.len() ==> bytes[i] == #[trigger] check->signature@[i],
        ),
{
    let p = check->signature@;
    if p.len() <= bytes.len() {
        let head = bytes.take(p.len() as int);
        assert(forall|i: int| 0 <= i < p.len() ==> head[i] == bytes[i]);
        if forall|i: int| 0 <= i < p.len() ==> bytes[i] == #[trigger] p[i] {
            assert(head =~= p);
        }
    }
}

proof fn lemma_glob_plain(s: Seq<char>, rest: Seq<char>)
    requires
        !s.contains('*'),
        !s.contains('.'),
    ensures
        glob_body(s + rest) == s + glob_body(rest),
    decreases s.len(),
{
    if s.len() > 0 {
        let all = s + rest;
        assert(s.contains(s[0]));
        assert(all[0] == s[0]);
        let tail = s.skip(1);
        assert(all.skip(1) =~= tail + rest);
        assert forall|i: int| 0 <= i < tail.len() implies tail[i] != '*' && tail[i] != '.' by {
            assert(s.contains(s[i + 1]));
            assert(tail[i] == s[i + 1]);
        }
        lemma_glob_plain(tail, rest);
        assert(seq![s[0]] + (tail + glob_body(rest)) =~= s + glob_body(rest));
    } else {
        assert(s + rest =~= rest);
        assert(s + glob_body(rest) =~= glob_body(rest));
    }
}

/// In a pattern a single star stands for anything within a folder, two stars for anything at
/// all, a dot for itself, and other characters for themselves.
pub proof fn law_stars_are_wildcards(before: Seq<char>, after: Seq<char>)
    requires
        !before.contains('*'),
        !before.contains('.'),
        after.len() > 0 ==> after[0] != '*',
    ensures
        glob_body(before) == before,
        glob_body(before + seq!['*'] + after) == before + "[^/]*"@ + glob_body(after),
        glob_body(before + seq!['*', '*'] + after) == before + ".*"@ + glob_body(after),
        glob_body(before + seq!['.'] + after) == before + "\\."@ + glob_body(after),
{
    assert(before + Seq::<char>::empty() =~= before);
    lemma_glob_plain(before, Seq::empty());
    assert(before + seq!['*'] + after =~= before + (seq!['*'] + after));
    lemma_glob_plain(before, seq!['*'] + after);
    assert((seq!['*'] + after).skip(1) =~= after);
    assert(before + ("[^/]*"@ + glob_body(after)) =~= before + "[^/]*"@ + glob_body(after));
    assert(before + seq!['*', '*'] + after =~= before + (seq!['*', '*'] + after));
    lemma_glob_plain(before, seq!['*', '*'] + after);
    assert((seq!['*', '*'] + after).skip(2) =~= after);
    assert(before + (".*"@ + glob_body(after)) =~= before + ".*"@ + glob_body(after));
    assert(before + seq!['.'] + after =~= before + (seq!['.'] + after));
    lemma_glob_plain(before, seq!['.'] + after);
    assert((seq!['.'] + after).skip(1) =~= after);
    assert(before + ("\\."@ + glob_body(after)) =~= before + "\\."@ + glob_body(after));
}

} // verus!
