use php_downloader::version::{Extension, Version, VersionModifier};
use php_downloader::Error;

#[test]
fn test_version_parsing() {
    let versions = &[
        ("7.4.0", Version::new(7, 4, Some(0), None)),
        ("7.4.1", Version::new(7, 4, Some(1), None)),
        (
            "8.0.0alpha",
            Version::new(8, 0, Some(0), Some(VersionModifier::Alpha(None))),
        ),
        (
            "8.0.0beta",
            Version::new(8, 0, Some(0), Some(VersionModifier::Beta(None))),
        ),
        (
            "8.0.0RC1",
            Version::new(8, 0, Some(0), Some(VersionModifier::RC(1))),
        ),
        (
            "8.0.0RC2",
            Version::new(8, 0, Some(0), Some(VersionModifier::RC(2))),
        ),
    ];

    for (s, expected) in versions {
        assert_eq!(
            Version::from_str(s).expect("Can't parse version"),
            *expected,
            "Failed to parse version {s:?}",
        );
    }
}

#[test]
fn test_version_sorting() {
    let versions = &[
        "7.4.1",
        "7.4.0",
        "8.3.0beta",
        "8.3.0",
        "8.3.0RC2",
        "8.3.0alpha",
        "8.3.0RC1",
    ];

    let sorted = &[
        "7.4.0",
        "7.4.1",
        "8.3.0alpha",
        "8.3.0beta",
        "8.3.0RC1",
        "8.3.0RC2",
        "8.3.0",
    ];

    let mut mapped: Vec<_> = versions
        .iter()
        .map(|s| (s, Version::from_str(s).expect("Can't parse")))
        .collect();

    mapped.sort_by(|a, b| a.1.rank().cmp(&b.1.rank()));

    let sorted_strings: Vec<&str> = mapped.iter().map(|(s, _)| **s).collect();

    assert_eq!(sorted_strings, sorted);
}

#[test]
fn parse_rc_version() {
    let version_str = "8.3.0RC5";
    let version = Version::from_str(version_str).expect("Can't parse version string");
    assert_eq!(
        version,
        Version::new(8, 3, Some(0), Some(VersionModifier::RC(5)))
    );

    assert_eq!("8.3.0RC5", version.to_string());
}

#[test]
fn parse_line_selector() {
    let v = Version::from_str("8.3").expect("selector must parse");
    assert_eq!(v, Version::from_major_minor(8, 3));
    assert_eq!(v.to_string(), "8.3");
}

#[test]
fn parse_rejects_malformed_versions() {
    for bad in [
        "", "8", "8.", "8.3.", "8.3.0.1", "x.3.0", "8.y.0", "8.3.z", "8.3.0rc",
        "8.3.0alphax", "8.3.0gamma", "256.0.0", "8.256.0", "8.3.256", "8.3.0RC256",
    ] {
        assert_eq!(
            Version::from_str(bad),
            Err(Error::InvalidVersion),
            "{bad:?} must be rejected",
        );
    }
}

#[test]
fn parse_is_case_insensitive() {
    assert_eq!(
        Version::from_str("8.3.0Beta2").expect("parses"),
        Version::new(8, 3, Some(0), Some(VersionModifier::Beta(Some(2)))),
    );
    assert_eq!(
        Version::from_str("8.3.0rc7").expect("parses"),
        Version::new(8, 3, Some(0), Some(VersionModifier::RC(7))),
    );
    assert_eq!(
        Version::from_str("8.3.0ALPHA").expect("parses"),
        Version::new(8, 3, Some(0), Some(VersionModifier::Alpha(None))),
    );
}

#[test]
fn render_parses_back() {
    for s in [
        "7.4.0", "8.3", "8.3.0alpha", "8.3.0alpha2", "8.3.0beta", "8.0.0beta3", "8.3.0RC9",
        "0.0.0",
    ] {
        let v = Version::from_str(s).expect("parses");
        assert_eq!(v.to_string(), s);
        assert_eq!(Version::from_str(&v.to_string()).expect("round trip"), v);
    }
}

#[test]
fn rank_orders_prereleases_below_release() {
    let order = ["8.3.0alpha", "8.3.0beta", "8.3.0RC1", "8.3.0RC2", "8.3.0RC9", "8.3.0", "8.3.1"];
    for pair in order.windows(2) {
        let a = Version::from_str(pair[0]).unwrap();
        let b = Version::from_str(pair[1]).unwrap();
        assert!(a.lt(&b), "{} must rank below {}", pair[0], pair[1]);
        assert!(!b.lt(&a));
    }
}

#[test]
fn to_u32_matches_ranking_key() {
    assert_eq!(Version::from_str("8.3.0").unwrap().to_u32(), 8_030_000);
    assert_eq!(Version::from_str("8.3.2").unwrap().to_u32(), 8_030_200);
    assert_eq!(Version::from_str("8.3.0alpha").unwrap().to_u32(), 8_029_989);
    assert_eq!(Version::from_str("8.3.0beta").unwrap().to_u32(), 8_029_990);
    assert_eq!(Version::from_str("8.3.0RC1").unwrap().to_u32(), 8_029_991);
    assert_eq!(Version::from_str("8.3.0RC9").unwrap().to_u32(), 8_029_999);
    assert_eq!(VersionModifier::Alpha(None).to_u32(), 11);
    assert_eq!(VersionModifier::Beta(None).to_u32(), 10);
    assert_eq!(VersionModifier::RC(2).to_u32(), 8);
}

#[test]
fn matches_honours_partial_selectors() {
    let v832 = Version::from_str("8.3.2").unwrap();
    assert!(v832.matches(Version::from_str("8.3").unwrap()));
    assert!(!v832.matches(Version::from_str("8.3.5").unwrap()));
    assert!(!v832.matches(Version::from_str("8.2").unwrap()));
    assert!(v832.optional_matches(None));
    assert!(v832.optional_matches(Some(Version::from_str("8.3").unwrap())));
    assert!(!v832.optional_matches(Some(Version::from_str("7.4").unwrap())));
}

#[test]
fn file_names_follow_the_archive_convention() {
    let v = Version::from_str("8.3.1").unwrap();
    assert_eq!(v.get_file_name(Extension::GZ), "php-8.3.1.tar.gz");
    assert_eq!(v.get_file_name(Extension::BZ), "php-8.3.1.tar.bz2");
    assert_eq!(v.get_file_name(Extension::XZ), "php-8.3.1.tar.xz");
}

#[test]
fn urls_split_between_museum_and_distributions() {
    let old = Version::from_str("7.3.1").unwrap();
    assert_eq!(
        old.get_url(Extension::BZ),
        "https://museum.php.net/php7/php-7.3.1.tar.bz2",
    );
    let boundary = Version::from_str("7.4.0").unwrap();
    assert_eq!(
        boundary.get_url(Extension::GZ),
        "https://php.net/distributions/php-7.4.0.tar.gz",
    );
    let new = Version::from_str("8.3.1").unwrap();
    assert_eq!(
        new.get_url(Extension::XZ),
        "https://php.net/distributions/php-8.3.1.tar.xz",
    );
}

#[test]
fn extension_text_parses_case_insensitively() {
    assert_eq!(Extension::from_str("gz").unwrap(), Extension::GZ);
    assert_eq!(Extension::from_str("GZ").unwrap(), Extension::GZ);
    assert_eq!(Extension::from_str("bz").unwrap(), Extension::BZ);
    assert_eq!(Extension::from_str("bz2").unwrap(), Extension::BZ);
    assert_eq!(Extension::from_str("Bz2").unwrap(), Extension::BZ);
    assert_eq!(Extension::from_str("xz").unwrap(), Extension::XZ);
    assert_eq!(Extension::from_str("zip"), Err(Error::InvalidExtension));
    assert_eq!(Extension::from_str(""), Err(Error::InvalidExtension));
    assert_eq!(
        Extension::variants(),
        vec![Extension::GZ, Extension::BZ, Extension::XZ],
    );
}

#[test]
fn sort_versions_orders_by_rank() {
    let input: Vec<Version> = ["8.3.0", "7.4.1", "8.3.0alpha", "7.4.0"]
        .iter()
        .map(|s| Version::from_str(s).unwrap())
        .collect();
    let sorted = php_downloader::version::sort_versions(input);
    let texts: Vec<String> = sorted.iter().map(|v| v.to_string()).collect();
    assert_eq!(texts, vec!["7.4.0", "7.4.1", "8.3.0alpha", "8.3.0"]);
}

#[test]
fn rank_is_collision_free_through_the_ninth_candidate() {
    // Every release candidate numbered up to 9 ranks strictly below the
    // final release of its patch.
    let rc9 = Version::from_str("8.3.0RC9").unwrap();
    let fin = Version::from_str("8.3.0").unwrap();
    assert!(rc9.rank() < fin.rank());
    // Pre-releases order by kind and candidate number alone: an alpha or
    // beta number does not move the key.
    let beta = Version::from_str("8.3.0beta").unwrap();
    let beta3 = Version::from_str("8.3.0beta3").unwrap();
    assert_eq!(beta.rank(), beta3.rank());
    // A line selector keys like patch 0 of its line; a selector is never a
    // concrete artifact identifier, so no two concrete releases collide.
    let line = Version::from_str("8.3").unwrap();
    assert_eq!(line.rank(), fin.rank());
}

#[test]
fn resolving_a_selector_takes_the_discovered_release() {
    let concrete = Version::from_str("8.3.2").unwrap();
    let selector = Version::from_str("8.3").unwrap();
    let latest = Version::from_str("8.3.4").unwrap();
    assert_eq!(concrete.resolve_latest(Some(latest)), Ok(concrete));
    assert_eq!(concrete.resolve_latest(None), Ok(concrete));
    assert_eq!(selector.resolve_latest(Some(latest)), Ok(latest));
    assert_eq!(selector.resolve_latest(None), Err(Error::NotFound));
}

#[test]
fn numbered_alpha_and_beta_round_trip() {
    let beta3 = Version::from_str("8.0.0beta3").expect("parses");
    assert_eq!(
        beta3,
        Version::new(8, 0, Some(0), Some(VersionModifier::Beta(Some(3)))),
    );
    assert_eq!(beta3.to_string(), "8.0.0beta3");

    let alpha2 = Version::from_str("8.0.0alpha2").expect("parses");
    assert_eq!(
        alpha2,
        Version::new(8, 0, Some(0), Some(VersionModifier::Alpha(Some(2)))),
    );
    assert_eq!(alpha2.to_string(), "8.0.0alpha2");

    assert_eq!(Version::from_str("8.0.0beta256"), Err(Error::InvalidVersion));
}
