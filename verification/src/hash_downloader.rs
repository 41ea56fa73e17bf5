//! When the hash dictionary is downloaded, which release asset it is, and in which form it
//! is used.

use vstd::prelude::*;
use vstd::string::*;
use crate::text::same;

verus! {

/// The name of the release asset that holds the dictionary.
pub open spec fn asset_name() -> Seq<char> {
    "lol-hashes-combined.zst"@
}

/// A download is due: there is no dictionary, or it is not that of the latest release.
pub open spec fn download_due(data_exists: bool, installed: Option<String>, latest: Seq<char>) -> bool {
    !data_exists || match installed {
        Some(v) => v@ != latest,
        None => true,
    }
}

/// Check if a download is due: the dictionary is missing or outdated, or its version is
/// not known.
pub fn should_download(data_exists: bool, installed_version: &Option<String>, latest_tag: &str) -> (r: bool)
    ensures
        r == download_due(data_exists, *installed_version, latest_tag@),
{
    if !data_exists {
        return true;
    }
    match installed_version {
        Some(v) => !same(v.as_str(), latest_tag),
        None => true,
    }
}

/// Whether the latest release is to be asked for at all: a dictionary that is there is
/// used as it is, unless the check is forced.
pub fn ensure_hashes_available(data_exists: bool, force_check: bool) -> (r: bool)
    ensures
        r == (!data_exists || force_check),
{
    !(data_exists && !force_check)
}

/// Whether the latest release is to be asked for in a forced update: always.
pub fn update_hashes(data_exists: bool) -> (r: bool)
    ensures
        r,
{
    ensure_hashes_available(data_exists, true)
}

/// `i` is the first asset that holds the dictionary.
pub open spec fn asset_at(names: Seq<String>, i: int) -> bool {
    0 <= i < names.len() && names[i]@ == asset_name() && forall|j: int|
        0 <= j < i ==> (#[trigger] names[j])@ != asset_name()
}

/// The asset of a release that holds the dictionary, by its place in the list.
pub fn find_asset(names: &Vec<String>) -> (r: Option<usize>)
    ensures
        r matches Some(i) ==> asset_at(names@, i as int),
        r is None <==> forall|i: int| 0 <= i < names@.len() ==> (#[trigger] names@[i])@ != asset_name(),
{
    let mut i: usize = 0;
    while i < names.len()
        invariant
            i <= names@.len(),
            forall|j: int| 0 <= j < i ==> (#[trigger] names@[j])@ != asset_name(),
        decreases names@.len() - i,
    {
        if same(names[i].as_str(), "lol-hashes-combined.zst") {
            return Some(i);
        }
        i = i + 1;
    }
    None
}

/// What `zstd` unpacks from some bytes; nothing, where they are no whole `zstd` data.
pub uninterp spec fn zstd_decoded(bytes: Seq<u8>) -> Option<Seq<u8>>;

/// `zstd::decode_all`: the unpacked bytes of all frames, or an error where the data is
/// not valid. Which of the two, and the bytes, depend on the input alone.
#[verifier::external_body]
fn decode_all(bytes: &[u8]) -> (r: Option<Vec<u8>>)
    ensures
        r is Some <==> zstd_decoded(bytes@) is Some,
        r matches Some(v) ==> zstd_decoded(bytes@) == Some(v@),
{
    zstd::decode_all(bytes).ok()
}

/// Why a dictionary could not be installed.
#[derive(Clone, Copy, Debug, PartialEq, Eq, Structural)]
pub enum DictionaryError {
    /// The release has no asset that holds the dictionary.
    NoAsset,
    /// What was downloaded cannot be unpacked.
    Corrupt,
}

/// The dictionary in a release: which asset is to be downloaded.
pub fn choose_asset(names: &Vec<String>) -> (r: Result<usize, DictionaryError>)
    ensures
        r matches Ok(i) ==> asset_at(names@, i as int),
        r == Err::<usize, DictionaryError>(DictionaryError::NoAsset) <==> forall|i: int|
            0 <= i < names@.len() ==> (#[trigger] names@[i])@ != asset_name(),
        r != Err::<usize, DictionaryError>(DictionaryError::Corrupt),
{
    match find_asset(names) {
        Some(i) => Ok(i),
        None => Err(DictionaryError::NoAsset),
    }
}

/// Unpack a downloaded dictionary.
pub fn unpack_dictionary(compressed: &[u8]) -> (r: Result<Vec<u8>, DictionaryError>)
    ensures
        r is Ok <==> zstd_decoded(compressed@) is Some,
        r matches Ok(v) ==> zstd_decoded(compressed@) == Some(v@),
        r matches Err(e) ==> e == DictionaryError::Corrupt,
{
    match decode_all(compressed) {
        Some(v) => Ok(v),
        None => Err(DictionaryError::Corrupt),
    }
}

/// Which form of the dictionary a run uses.
#[derive(Clone, Copy, Debug, PartialEq, Eq, Structural)]
pub enum DictionarySource {
    /// The packed dictionary that was there.
    Packed,
    /// The packed dictionary, downloaded anew.
    Refreshed,
    /// The text lists, which are slow.
    Text,
}

/// What is to be tried next for a dictionary.
#[derive(Clone, Copy, Debug, PartialEq, Eq, Structural)]
pub enum DictionaryStep {
    LoadPacked,
    /// Remove the packed dictionary and its version, then download it anew.
    Replace,
    LoadRefreshed,
    LoadText,
    Use(DictionarySource),
    /// There is no dictionary in either form.
    Fail,
}

/// What is tried once a step has worked or not: a packed dictionary that cannot be loaded
/// is replaced once, and the text lists come last.
pub open spec fn dictionary_after(step: DictionaryStep, worked: bool) -> DictionaryStep {
    match step {
        DictionaryStep::LoadPacked => if worked {
            DictionaryStep::Use(DictionarySource::Packed)
        } else {
            DictionaryStep::Replace
        },
        DictionaryStep::Replace => if worked {
            DictionaryStep::LoadRefreshed
        } else {
            DictionaryStep::LoadText
        },
        DictionaryStep::LoadRefreshed => if worked {
            DictionaryStep::Use(DictionarySource::Refreshed)
        } else {
            DictionaryStep::LoadText
        },
        DictionaryStep::LoadText => if worked {
            DictionaryStep::Use(DictionarySource::Text)
        } else {
            DictionaryStep::Fail
        },
        DictionaryStep::Use(_) => step,
        DictionaryStep::Fail => step,
    }
}

/// What is tried next for a dictionary, once a step has worked or not.
pub fn next_dictionary_step(step: DictionaryStep, worked: bool) -> (r: DictionaryStep)
    ensures
        r == dictionary_after(step, worked),
{
    match (step, worked) {
        (DictionaryStep::LoadPacked, true) => DictionaryStep::Use(DictionarySource::Packed),
        (DictionaryStep::LoadPacked, false) => DictionaryStep::Replace,
        (DictionaryStep::Replace, true) => DictionaryStep::LoadRefreshed,
        (DictionaryStep::LoadRefreshed, true) => DictionaryStep::Use(DictionarySource::Refreshed),
        (DictionaryStep::Replace, false) => DictionaryStep::LoadText,
        (DictionaryStep::LoadRefreshed, false) => DictionaryStep::LoadText,
        (DictionaryStep::LoadText, true) => DictionaryStep::Use(DictionarySource::Text),
        (DictionaryStep::LoadText, false) => DictionaryStep::Fail,
        (_, _) => step,
    }
}

/// The step after some attempts, of each of which it is known whether it worked.
pub open spec fn dictionary_reached(attempts: Seq<bool>) -> DictionaryStep
    decreases attempts.len(),
{
    if attempts.len() == 0 {
        DictionaryStep::LoadPacked
    } else {
        dictionary_after(dictionary_reached(attempts.drop_last()), attempts.last())
    }
}

/// After four attempts it is settled which dictionary is used, or that there is none: that
/// is so exactly where the packed one could not be loaded, replacing it did not help, and
/// the text lists could not be loaded either.
pub proof fn law_four_attempts_are_enough(attempts: Seq<bool>)
    requires
        attempts.len() == 4,
    ensures
        dictionary_reached(attempts) is Use || dictionary_reached(attempts) is Fail,
        dictionary_reached(attempts) is Fail <==> !attempts[0] && !attempts[2] && (!attempts[1] || !attempts[3]),
{
    reveal_with_fuel(dictionary_reached, 5);
    assert(attempts.drop_last().drop_last().drop_last().drop_last() =~= Seq::empty());
}

/// A dictionary of the latest release is never downloaded again.
pub proof fn law_current_dictionary_stays(installed: String)
    ensures
        !download_due(true, Some(installed), installed@),
{
}

} // verus!
