//! Versions, caches and where a configuration is taken from.

use hematite::remote::{
    first_step, get_cache_status, is_cache_valid, next_step, prefers_embedded, version_newer, CachedFile, ConfigSource, ConfigStep,
    CACHE_TTL_NANOS, MANIFEST_TTL_NANOS,
};

#[test]
fn version_newer_basic_ordering() {
    assert!(version_newer("2.2.0", "2.1.0"));
    assert!(!version_newer("2.1.0", "2.2.0"));
    assert!(!version_newer("2.2.0", "2.2.0"));
    assert!(version_newer("10.0.0", "9.9.9"));
}

#[test]
fn version_newer_uneven_segments() {
    assert!(version_newer("2.2.0.1", "2.2.0"));
    assert!(!version_newer("2.2", "2.2.0"));
    assert!(version_newer("3", "2.9.9"));
}

#[test]
fn version_newer_garbage_segments_compare_as_zero() {
    assert!(version_newer("2.2.0", "2.x.9"));
    assert!(!version_newer("abc", "0.0.1"));
}

#[test]
fn segments_are_trimmed_and_bounded() {
    assert!(version_newer(" 2 . 3", "2.2"));
    assert!(!version_newer("99999999999999999999", "1"));
    assert!(version_newer("18446744073709551615", "1"));
}

#[test]
fn newer_is_strict_and_transitive() {
    let versions = ["0", "1", "1.0.1", "1.2", "2", "10"];
    for (i, a) in versions.iter().enumerate() {
        for (j, b) in versions.iter().enumerate() {
            assert_eq!(version_newer(a, b), i > j);
        }
    }
}

#[test]
fn a_cached_file_is_valid_while_it_is_young() {
    let young = CachedFile { exists: true, age_nanos: Some(CACHE_TTL_NANOS - 1) };
    let old = CachedFile { exists: true, age_nanos: Some(CACHE_TTL_NANOS) };
    let undated = CachedFile { exists: true, age_nanos: None };
    let gone = CachedFile { exists: false, age_nanos: Some(0) };
    assert!(is_cache_valid(&young, CACHE_TTL_NANOS));
    assert!(!is_cache_valid(&young, MANIFEST_TTL_NANOS));
    assert!(!is_cache_valid(&old, CACHE_TTL_NANOS));
    assert!(!is_cache_valid(&undated, CACHE_TTL_NANOS));
    assert!(!is_cache_valid(&gone, CACHE_TTL_NANOS));

    let status = get_cache_status(&young, &old);
    assert!(status.fix_config_cached && status.fix_config_valid);
    assert!(status.champion_list_cached && !status.champion_list_valid);
}

#[test]
fn a_configuration_is_looked_for_in_order() {
    assert_eq!(first_step(false, true), ConfigStep::Use(ConfigSource::Embedded));
    assert_eq!(first_step(true, true), ConfigStep::ReadFreshCache);
    assert_eq!(first_step(true, false), ConfigStep::Fetch);
    assert_eq!(next_step(ConfigStep::ReadFreshCache, true, true), ConfigStep::Use(ConfigSource::FreshCache));
    assert_eq!(next_step(ConfigStep::ReadFreshCache, false, true), ConfigStep::Fetch);
    assert_eq!(next_step(ConfigStep::Fetch, true, false), ConfigStep::Use(ConfigSource::Remote));
    assert_eq!(next_step(ConfigStep::Fetch, false, true), ConfigStep::ReadStaleCache);
    assert_eq!(next_step(ConfigStep::Fetch, false, false), ConfigStep::Use(ConfigSource::Embedded));
    assert_eq!(next_step(ConfigStep::ReadStaleCache, true, true), ConfigStep::Use(ConfigSource::StaleCache));
    assert_eq!(next_step(ConfigStep::ReadStaleCache, false, true), ConfigStep::Use(ConfigSource::Embedded));
}

#[test]
fn an_older_configuration_gives_way_to_the_embedded_one() {
    assert!(prefers_embedded("2.2.0", "2.1.9"));
    assert!(!prefers_embedded("2.2.0", "2.2.0"));
}
