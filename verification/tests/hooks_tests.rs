use php_downloader::hooks::{Hook, ScriptResult};

#[test]
fn hook_names_follow_the_convention() {
    assert_eq!(Hook::PostExtract.name(), "post-extract");
    assert_eq!(Hook::Configure.name(), "configure");
    assert_eq!(Hook::Make.name(), "make");
}

#[test]
fn hook_scripts_live_in_the_hooks_directory() {
    assert_eq!(
        Hook::get(Hook::PostExtract, "/home/u/.phpdownloader/hooks"),
        "/home/u/.phpdownloader/hooks/post-extract",
    );
    assert_eq!(Hook::get(Hook::Make, "hooks"), "hooks/make");
}

#[test]
fn hook_command_lines_join_arguments_and_streams() {
    let args = vec![String::from("/srv/php-8.3.1"), String::from("--fast")];
    assert_eq!(
        Hook::get_cmd("/hooks/configure", &args),
        "/hooks/configure /srv/php-8.3.1 --fast 2>&1",
    );
    assert_eq!(Hook::get_cmd("/hooks/make", &vec![]), "/hooks/make  2>&1");
}

#[test]
fn script_results_capture_status_and_output() {
    let mut res = ScriptResult::new();
    assert_eq!(res.status, 0);
    assert!(!res.is_failure());

    res.push("checking for cc...");
    res.push("creating Makefile");
    assert_eq!(res.output, vec!["checking for cc...", "creating Makefile"]);

    res.set_status(0);
    assert!(!res.is_failure());
    res.set_status(2);
    assert!(res.is_failure());
    assert_eq!(res.output.len(), 2);
}
