use std::collections::HashSet;
use infino::superfile::format::vec::{OUTER_MAGIC, SUB_MAGIC};
use infino::superfile::format::{fts, kv, Version};
use infino::superfile::format::{FORMAT_VERSION, FST_SEPARATOR, PROJECT_MAGIC, RESERVED_PREFIX};
use infino::BUILDER_ID;

#[test]
fn builder_id_starts_with_crate_name_and_version() {
    assert!(BUILDER_ID.starts_with("infino/"));
    let crate_ver = "0.1.0";
    assert!(BUILDER_ID.starts_with(&format!("infino/{crate_ver}+")));
}

#[test]
fn builder_id_contains_git_hash_or_unknown() {
    let after_plus = BUILDER_ID.split('+').nth(1).expect("has +<hash>");
    assert!(!after_plus.is_empty());
}

#[test]
fn project_magic_is_three_bytes() {
    assert_eq!(&PROJECT_MAGIC, b"INF");
    assert_eq!(PROJECT_MAGIC.len(), 3);
}

#[test]
fn fts_magic_starts_with_project_magic() {
    assert_eq!(&fts::MAGIC[0..3], PROJECT_MAGIC);
    assert_eq!(&fts::MAGIC, b"INFFTS01");
    assert_eq!(fts::MAGIC.len(), 8);
}

#[test]
fn vec_outer_magic_starts_with_project_magic() {
    assert_eq!(&OUTER_MAGIC[0..3], PROJECT_MAGIC);
    assert_eq!(&OUTER_MAGIC, b"INFVEC01");
}

#[test]
fn vec_sub_magic_starts_with_project_magic() {
    assert_eq!(&SUB_MAGIC[0..3], PROJECT_MAGIC);
    assert_eq!(&SUB_MAGIC, b"INFVECC1");
}

#[test]
fn three_magics_are_distinct() {
    let magics = [fts::MAGIC, OUTER_MAGIC, SUB_MAGIC];
    let m: HashSet<&[u8]> = magics.iter().map(|m| m.as_slice()).collect();
    assert_eq!(m.len(), 3, "FTS / vec-outer / vec-sub magics must be distinct");
}

#[test]
fn all_kv_keys_have_inf_prefix() {
    for k in kv::ALL {
        assert!(
            k.starts_with(RESERVED_PREFIX),
            "KV key {k:?} should start with {RESERVED_PREFIX:?}"
        );
    }
}

#[test]
fn all_kv_keys_are_unique() {
    let set: HashSet<&str> = kv::ALL.into_iter().collect();
    assert_eq!(set.len(), kv::ALL.len(), "duplicate KV key in kv::ALL");
}

#[test]
fn required_kv_keys_present_in_all() {
    for k in kv::REQUIRED {
        assert!(kv::ALL.contains(&k), "required key {k:?} missing from kv::ALL");
    }
}

#[test]
fn fts_and_vec_key_groups_present_in_all() {
    for k in kv::FTS_KEYS {
        assert!(kv::ALL.contains(&k));
    }
    for k in kv::VEC_KEYS {
        assert!(kv::ALL.contains(&k));
    }
}

#[test]
fn version_parses_strict_semver() {
    assert_eq!(Version::parse("1.0.0"), Some(Version { major: 1, minor: 0, patch: 0 }));
    assert_eq!(Version::parse("12.34.567"), Some(Version { major: 12, minor: 34, patch: 567 }));
}

#[test]
fn version_rejects_malformed_strings() {
    // wrong number of parts
    assert_eq!(Version::parse(""), None);
    assert_eq!(Version::parse("1"), None);
    assert_eq!(Version::parse("1.0"), None);
    assert_eq!(Version::parse("1.0.0.0"), None);
    // non-numeric components
    assert_eq!(Version::parse("a.b.c"), None);
    assert_eq!(Version::parse("1.0.x"), None);
    // pre-release / build metadata not accepted
    assert_eq!(Version::parse("1.0.0-alpha"), None);
    assert_eq!(Version::parse("1.0.0+sha"), None);
    // negative numbers
    assert_eq!(Version::parse("-1.0.0"), None);
    // whitespace
    assert_eq!(Version::parse(" 1.0.0"), None);
    assert_eq!(Version::parse("1.0.0 "), None);
}

#[test]
fn version_rejects_signs_leading_zeros_and_overflow() {
    assert_eq!(Version::parse("+1.0.0"), None);
    assert_eq!(Version::parse("1.+0.0"), None);
    assert_eq!(Version::parse("01.0.0"), None);
    assert_eq!(Version::parse("1.00.0"), None);
    assert_eq!(Version::parse("4294967296.0.0"), None);
    assert_eq!(
        Version::parse("4294967295.0.0"),
        Some(Version { major: 4294967295, minor: 0, patch: 0 })
    );
}

#[test]
fn current_format_version_is_valid_semver() {
    assert!(Version::parse(FORMAT_VERSION).is_some());
}

#[test]
fn version_compat_matches_on_major() {
    let v = Version::parse(FORMAT_VERSION).expect("parse Version");
    assert!(v.is_compatible_with_current());

    let v2 = Version { major: v.major, minor: v.minor + 99, patch: v.patch + 99 };
    assert!(v2.is_compatible_with_current(), "minor/patch drift is compatible");

    let v3 = Version { major: v.major + 1, minor: 0, patch: 0 };
    assert!(!v3.is_compatible_with_current(), "major bump is incompatible");
}

#[test]
fn fst_separator_is_below_printable_ascii() {
    assert!(FST_SEPARATOR < b' ');
    assert_eq!(FST_SEPARATOR, 0x1F);
}

#[test]
fn format_value_sentinel_is_the_expected_string() {
    assert_eq!(kv::FORMAT_VALUE, "infino-superfile");
}
