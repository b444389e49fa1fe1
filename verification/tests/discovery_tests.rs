use php_downloader::downloads::{DownloadInfo, DownloadList};
use php_downloader::version::{Extension, Version, VersionModifier};
use php_downloader::Error;

#[test]
fn candidates_cover_the_probe_range() {
    let dl = DownloadList::new(8, 3, Extension::GZ);
    let candidates = dl.get_check_versions();
    assert_eq!(candidates.len(), 31);
    assert_eq!(candidates[0], Version::from_major_minor_patch(8, 3, 0));
    assert_eq!(candidates[30], Version::from_major_minor_patch(8, 3, 30));
}

#[test]
fn discovery_collects_exactly_the_successful_probes() {
    let dl = DownloadList::new(8, 3, Extension::GZ);
    let candidates = dl.get_check_versions();
    // Patches 0..=2 exist upstream; the rest of the sweep misses.
    let probes: Vec<Option<DownloadInfo>> = candidates
        .iter()
        .map(|v| {
            let patch = v.patch.unwrap();
            if patch <= 2 {
                Some(dl.artifact_from_probe(*v, Some(1000 + patch as u64), Some(1_700_000_000)))
            } else {
                None
            }
        })
        .collect();

    let list = dl.list_from_probes(probes);
    assert_eq!(list.len(), 3);
    // Descending: the newest release stands first.
    let patches: Vec<u8> = list.iter().map(|d| d.version.patch.unwrap()).collect();
    assert_eq!(patches, vec![2, 1, 0]);
    assert_eq!(list[0].size, 1002);
    assert_eq!(list[2].size, 1000);
}

#[test]
fn latest_returns_the_highest_discovered_patch() {
    let dl = DownloadList::new(8, 3, Extension::GZ);
    let candidates = dl.get_check_versions();
    let probes: Vec<Option<DownloadInfo>> = candidates
        .iter()
        .map(|v| {
            if v.patch.unwrap() <= 2 {
                Some(dl.artifact_from_probe(*v, None, None))
            } else {
                None
            }
        })
        .collect();

    let latest = dl.latest_from_probes(probes).expect("three probes succeeded");
    assert_eq!(latest.version, Version::from_major_minor_patch(8, 3, 2));
    assert_eq!(latest.size, 0);
}

#[test]
fn latest_of_an_empty_sweep_is_none() {
    let dl = DownloadList::new(9, 9, Extension::GZ);
    let probes: Vec<Option<DownloadInfo>> = (0..31).map(|_| None).collect();
    assert!(dl.latest_from_probes(probes).is_none());
}

#[test]
fn probe_artifacts_carry_the_canonical_url() {
    let dl = DownloadList::new(8, 3, Extension::BZ);
    let v = Version::from_major_minor_patch(8, 3, 1);
    let info = dl.artifact_from_probe(v, Some(42), Some(7));
    assert_eq!(info.location, "https://php.net/distributions/php-8.3.1.tar.bz2");
    assert_eq!(info.size, 42);
    assert_eq!(info.date, Some(7));
    let old = DownloadList::new(7, 2, Extension::BZ);
    let ov = Version::from_major_minor_patch(7, 2, 9);
    let oinfo = old.artifact_from_probe(ov, None, None);
    assert_eq!(oinfo.location, "https://museum.php.net/php7/php-7.2.9.tar.bz2");
}

#[test]
fn cached_files_parse_back_to_artifacts() {
    let d = DownloadInfo::from_file("/cache/php-8.3.1.tar.gz", 777).expect("parses");
    assert_eq!(d.version, Version::from_major_minor_patch(8, 3, 1));
    assert_eq!(d.extension, Extension::GZ);
    assert_eq!(d.size, 777);
    assert_eq!(d.location, "/cache/php-8.3.1.tar.gz");
    assert_eq!(d.date, None);

    let rc = DownloadInfo::from_file("php-8.0.0RC1.tar.bz2", 0).expect("parses");
    assert_eq!(rc.version.to_string(), "8.0.0RC1");
    assert_eq!(rc.extension, Extension::BZ);

    let xz = DownloadInfo::from_file("php-8.3.1.tar.xz", 1).expect("parses");
    assert_eq!(xz.extension, Extension::XZ);
}

#[test]
fn non_artifact_files_are_rejected() {
    for bad in [
        "notes.txt",
        "php-8.3.1.gz",
        "php-8.3.1.tar",
        "php-8.3..tar.gz",
        "zzz-8.3.1.tar.gz",
        "php-8.3.1.tar.zip",
        "/cache/php-8.3.1",
    ] {
        assert_eq!(
            DownloadInfo::from_file(bad, 0).unwrap_err(),
            Error::InvalidName,
            "{bad:?} must be rejected",
        );
    }
}

#[test]
fn sort_infos_puts_the_newest_first() {
    let dl = DownloadList::new(8, 3, Extension::GZ);
    let mk = |s: &str| {
        dl.artifact_from_probe(Version::from_str(s).unwrap(), Some(1), None)
    };
    let input = vec![mk("8.3.2"), mk("8.3.0"), mk("8.3.0RC1"), mk("8.3.1")];
    let sorted = php_downloader::downloads::sort_infos(input);
    let texts: Vec<String> = sorted.iter().map(|d| d.version.to_string()).collect();
    assert_eq!(texts, vec!["8.3.2", "8.3.1", "8.3.0", "8.3.0RC1"]);
}

#[test]
fn prerelease_candidates_cover_the_tag_space() {
    let dl = DownloadList::new(8, 4, Extension::GZ);
    let candidates = dl.get_check_prerelease_versions();
    assert_eq!(candidates.len(), 9);
    assert_eq!(candidates[0], Version::new(8, 4, Some(0), Some(VersionModifier::Alpha(None))));
    assert_eq!(candidates[1], Version::new(8, 4, Some(0), Some(VersionModifier::Beta(None))));
    assert_eq!(candidates[2], Version::new(8, 4, Some(0), Some(VersionModifier::RC(1))));
    assert_eq!(candidates[8], Version::new(8, 4, Some(0), Some(VersionModifier::RC(7))));
}
