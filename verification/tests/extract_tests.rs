use std::io::Write;

use php_downloader::config::Config;
use php_downloader::extract::Tarball;
use php_downloader::version::{Extension, Version};
use php_downloader::Error;

#[test]
fn config_paths_live_under_the_application_directory() {
    let config = Config::new("/home/someone");
    assert_eq!(config.registry_path(), "/home/someone/.phpdownloader/tarballs");
    assert_eq!(config.hooks_path(), "/home/someone/.phpdownloader/hooks");
    assert_eq!(
        config.active_version_file(),
        "/home/someone/.phpdownloader/active.json",
    );
    assert_eq!(Config::manifest_file_name(), ".phpdownloader-manifest");
    assert_eq!(Config::active_version_lifespan(), 604_800);
    assert!(Config::have_versions(100, 50, 149));
    assert!(!Config::have_versions(100, 50, 150));
}

#[test]
fn a_missing_tarball_is_reported_as_not_found() {
    let config = Config::new("/nonexistent-base-for-sure");
    let err = Tarball::new(&config, Version::from_major_minor_patch(8, 3, 1), Extension::GZ)
        .unwrap_err();
    assert_eq!(err, Error::NotFound);
}

#[test]
fn clean_file_name_strips_tar_and_extension() {
    let t = Tarball { src: String::from("/cache/php-8.3.1.tar.gz"), ext: Extension::GZ };
    assert_eq!(t.clean_file_name().expect("has a stem"), "php-8.3.1");

    let odd = Tarball { src: String::from("archive.tar.tar.gz"), ext: Extension::GZ };
    assert_eq!(odd.clean_file_name().expect("has a stem"), "archive");

    let bad = Tarball { src: String::from("/cache/archive.zip"), ext: Extension::GZ };
    assert_eq!(bad.clean_file_name().unwrap_err(), Error::InvalidName);
}

#[test]
fn destination_paths_default_to_the_archive_stem() {
    let t = Tarball { src: String::from("/cache/php-8.3.1.tar.gz"), ext: Extension::GZ };
    assert_eq!(
        t.build_dst_path("/srv", None).expect("builds"),
        "/srv/php-8.3.1",
    );
    assert_eq!(
        t.build_dst_path("/srv", Some("custom-name")).expect("builds"),
        "/srv/custom-name",
    );
    assert_eq!(Tarball::full_path("/srv", "leaf"), "/srv/leaf");
}

#[test]
fn gzip_archives_decompress_back_to_their_bytes() {
    let payload = b"configure\nMakefile\nsome source text".to_vec();
    let mut enc = flate2::write::GzEncoder::new(Vec::new(), flate2::Compression::default());
    enc.write_all(&payload).unwrap();
    let compressed = enc.finish().unwrap();

    let t = Tarball { src: String::from("x.tar.gz"), ext: Extension::GZ };
    assert_eq!(t.decompress(&compressed).expect("valid stream"), payload);
}

#[test]
fn bzip2_archives_decompress_back_to_their_bytes() {
    let payload = b"a different stream of bytes".to_vec();
    let mut enc = bzip2::write::BzEncoder::new(Vec::new(), bzip2::Compression::default());
    enc.write_all(&payload).unwrap();
    let compressed = enc.finish().unwrap();

    let t = Tarball { src: String::from("x.tar.bz2"), ext: Extension::BZ };
    assert_eq!(t.decompress(&compressed).expect("valid stream"), payload);
}

#[test]
fn xz_archives_decompress_back_to_their_bytes() {
    let payload = b"yet another stream of bytes".to_vec();
    let mut enc = xz::write::XzEncoder::new(Vec::new(), 6);
    enc.write_all(&payload).unwrap();
    let compressed = enc.finish().unwrap();

    let t = Tarball { src: String::from("x.tar.xz"), ext: Extension::XZ };
    assert_eq!(t.decompress(&compressed).expect("valid stream"), payload);
}

#[test]
fn a_corrupt_stream_is_an_archive_error() {
    let garbage = b"this is not a compressed stream".to_vec();
    for ext in [Extension::GZ, Extension::BZ, Extension::XZ] {
        let t = Tarball { src: String::from("x"), ext };
        assert_eq!(t.decompress(&garbage).unwrap_err(), Error::Archive);
    }
}

#[test]
fn format_dispatch_follows_the_recorded_extension() {
    // A valid gzip stream handed to the bzip2 decoder must fail: the format
    // is taken from the record, never sniffed.
    let mut enc = flate2::write::GzEncoder::new(Vec::new(), flate2::Compression::default());
    enc.write_all(b"data").unwrap();
    let gz_bytes = enc.finish().unwrap();

    let t = Tarball { src: String::from("x.tar.bz2"), ext: Extension::BZ };
    assert_eq!(t.decompress(&gz_bytes).unwrap_err(), Error::Archive);
}

#[test]
fn the_newest_active_release_wins() {
    let versions: Vec<Version> = ["8.2.15", "8.3.2", "8.1.27", "8.3.0RC6"]
        .iter()
        .map(|s| Version::from_str(s).unwrap())
        .collect();
    let newest = Config::active_version(&versions).expect("the list is not empty");
    assert_eq!(newest, Version::from_major_minor_patch(8, 3, 2));
    assert_eq!(Config::active_version(&vec![]), Err(Error::NotFound));
}
