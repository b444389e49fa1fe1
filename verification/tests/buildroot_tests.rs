use php_downloader::buildroot::BuildRoot;
use php_downloader::version::{Version, VersionModifier};
use php_downloader::Error;

#[test]
fn path_info_reads_version_and_modifiers() {
    let (v, mods) = BuildRoot::parse_path_info("php-8.2.0").expect("parses");
    assert_eq!(v, Version::from_major_minor_patch(8, 2, 0));
    assert_eq!(mods, "");

    let (v, mods) = BuildRoot::parse_path_info("php-8.3.0RC5-custom").expect("parses");
    assert_eq!(v, Version::new(8, 3, Some(0), Some(VersionModifier::RC(5))));
    assert_eq!(mods, "custom");

    let (v, mods) = BuildRoot::parse_path_info("/srv/builds/php-8.2.4-dev").expect("parses");
    assert_eq!(v, Version::from_major_minor_patch(8, 2, 4));
    assert_eq!(mods, "dev");
}

#[test]
fn path_info_rejects_foreign_names() {
    for bad in ["", "php-", "php-8", "php-8.2", "ruby-3.2.0", "php-a.b.c"] {
        assert_eq!(
            BuildRoot::parse_path_info(bad).unwrap_err(),
            Error::InvalidName,
            "{bad:?} must be rejected",
        );
    }
}

#[test]
fn from_path_keeps_the_full_path() {
    let root = BuildRoot::from_path("/srv/builds/php-8.2.0-dev").expect("parses");
    assert_eq!(root.src, "/srv/builds/php-8.2.0-dev");
    assert_eq!(root.version, Version::from_major_minor_patch(8, 2, 0));
    assert_eq!(root.modifiers, "dev");
    assert_eq!(root.parent(), "/srv/builds");
}

#[test]
fn parent_handles_short_paths() {
    let mk = |p: &str| BuildRoot::new(p, Version::from_major_minor_patch(8, 2, 0), "");
    assert_eq!(mk("/php-8.2.0").parent(), "/");
    assert_eq!(mk("php-8.2.0").parent(), "");
    assert_eq!(mk("a/php-8.2.0").parent(), "a");
}

#[test]
fn version_path_name_preserves_the_modifier() {
    let plain = BuildRoot::new("/x/php-8.2.0", Version::from_major_minor_patch(8, 2, 0), "");
    assert_eq!(
        plain.version_path_name(Version::from_major_minor_patch(8, 2, 5)),
        "php-8.2.5",
    );
    let tagged = BuildRoot::new("/x/php-8.2.0-dev", Version::from_major_minor_patch(8, 2, 0), "dev");
    assert_eq!(
        tagged.version_path_name(Version::from_major_minor_patch(8, 2, 5)),
        "php-8.2.5-dev",
    );
}

#[test]
fn manifest_text_and_lines_round_trip() {
    let files = vec![String::from("a.txt"), String::from("b/c.txt")];
    let text = BuildRoot::manifest_text(&files);
    assert_eq!(text, "a.txt\nb/c.txt\n");
    assert_eq!(BuildRoot::manifest_lines(&text), files);
    assert_eq!(BuildRoot::manifest_lines(""), Vec::<String>::new());
    assert_eq!(BuildRoot::manifest_lines("a\nb"), vec!["a", "b"]);
}

#[test]
fn manifest_diff_flags_only_user_files() {
    let manifest = vec![String::from("a.txt"), String::from("b/c.txt")];
    assert!(!BuildRoot::is_user_file(&manifest, &String::from("a.txt")));
    assert!(!BuildRoot::is_user_file(&manifest, &String::from("b/c.txt")));
    assert!(BuildRoot::is_user_file(&manifest, &String::from("b/d.txt")));

    let tree = vec![
        String::from("a.txt"),
        String::from("b/c.txt"),
        String::from("b/d.txt"),
    ];
    assert_eq!(BuildRoot::user_files(&manifest, &tree), vec!["b/d.txt"]);
}

#[test]
fn unique_path_never_clobbers_a_prior_backup() {
    let dst = String::from("/backup/my-patch.sh");
    assert_eq!(BuildRoot::unique_path(&dst, &vec![]), "/backup/my-patch.sh");
    let taken1 = vec![String::from("/backup/my-patch.sh")];
    assert_eq!(BuildRoot::unique_path(&dst, &taken1), "/backup/my-patch.1.sh");
    let taken2 = vec![
        String::from("/backup/my-patch.sh"),
        String::from("/backup/my-patch.1.sh"),
    ];
    assert_eq!(BuildRoot::unique_path(&dst, &taken2), "/backup/my-patch.2.sh");

    let plain = String::from("Makefile");
    let taken3 = vec![String::from("Makefile"), String::from("Makefile.1")];
    assert_eq!(BuildRoot::unique_path(&plain, &taken3), "Makefile.2");
}

#[test]
fn upgrade_skips_when_nothing_newer_exists() {
    let root = BuildRoot::from_path("/srv/php-8.2.0").expect("parses");
    assert!(root.plan_upgrade(Version::from_major_minor_patch(8, 2, 0)).is_none());
    assert!(root.plan_upgrade(Version::from_major_minor_patch(8, 1, 9)).is_none());
    assert!(root.plan_upgrade(Version::from_major_minor_patch(8, 2, 5)).is_some());
}

#[test]
fn upgrade_scenario_plans_extraction_and_backup() {
    // A root php-8.2.0 whose manifest shipped {configure, Makefile}, with a
    // user-added my-patch.sh; discovery reports 8.2.5 as the latest.
    let root = BuildRoot::from_path("/srv/php-8.2.0").expect("parses");
    let latest = Version::from_major_minor_patch(8, 2, 5);
    let plan = root.plan_upgrade(latest).expect("8.2.5 is newer than 8.2.0");
    assert_eq!(plan.dst_leaf, "php-8.2.5");
    assert_eq!(plan.backup_dir, "/srv/php-8.2.5-backup-scripts");

    let manifest = vec![String::from("configure"), String::from("Makefile")];
    let tree = vec![
        String::from("configure"),
        String::from("Makefile"),
        String::from("my-patch.sh"),
    ];
    assert_eq!(BuildRoot::user_files(&manifest, &tree), vec!["my-patch.sh"]);
}

#[test]
fn path_info_takes_the_leftmost_version_shaped_name() {
    let (v, mods) = BuildRoot::parse_path_info("/home/php-things/php-8.2.0").expect("parses");
    assert_eq!(v, Version::from_major_minor_patch(8, 2, 0));
    assert_eq!(mods, "");

    let (v, mods) = BuildRoot::parse_path_info("php-8.2.0-dev-build").expect("parses");
    assert_eq!(v, Version::from_major_minor_patch(8, 2, 0));
    assert_eq!(mods, "dev-build");
}

#[test]
fn unique_path_appends_to_names_without_extensions() {
    let hidden = String::from("/b/.gitignore");
    let taken = vec![String::from("/b/.gitignore")];
    assert_eq!(BuildRoot::unique_path(&hidden, &taken), "/b/.gitignore.1");
}

#[test]
fn manifest_lines_keep_interior_empty_lines() {
    assert_eq!(BuildRoot::manifest_lines("a\n\nb\n"), vec!["a", "", "b"]);
    assert_eq!(BuildRoot::manifest_lines("\n"), vec![""]);
}
