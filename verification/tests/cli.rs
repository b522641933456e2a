use cargo_wiiu::cli::{check_extension, extension, profile};

#[test]
fn listed_extension_is_accepted() {
    assert_eq!(extension(&["png", "tga"], "icon.png"), Ok(String::from("icon.png")));
    assert_eq!(extension(&["png", "tga"], "dir/splash.tga"), Ok(String::from("dir/splash.tga")));
}

#[test]
fn other_extension_is_refused() {
    assert_eq!(
        extension(&["png", "tga"], "icon.jpg"),
        Err(String::from("'icon.jpg' does not have a valid extension (expected: png, tga)"))
    );
}

#[test]
fn missing_extension_is_refused() {
    assert_eq!(
        extension(&["elf"], "program"),
        Err(String::from("'program' does not have a valid extension (expected: elf)"))
    );
    assert!(extension(&["rpx"], ".rpx").is_err());
}

#[test]
fn extension_is_case_sensitive() {
    assert!(extension(&["rpx"], "game.RPX").is_err());
}

#[test]
fn check_with_given_extension() {
    assert_eq!(check_extension(&["rpx", "wuhb"], "a.wuhb", Some("wuhb")), Ok(String::from("a.wuhb")));
    assert_eq!(
        check_extension(&["rpx", "wuhb"], "a", None),
        Err(String::from("'a' does not have a valid extension (expected: rpx, wuhb)"))
    );
    assert_eq!(
        check_extension(&[], "a.b", Some("b")),
        Err(String::from("'a.b' does not have a valid extension (expected: )"))
    );
}

fn args(a: &[&str]) -> Vec<String> {
    a.iter().map(|s| String::from(*s)).collect()
}

#[test]
fn build_profile_selection() {
    assert_eq!(profile(&args(&[])), "debug");
    assert_eq!(profile(&args(&["--release"])), "release");
    assert_eq!(profile(&args(&["--profile", "dist"])), "dist");
    assert_eq!(profile(&args(&["--release", "--profile", "dist"])), "dist");
    assert_eq!(profile(&args(&["--profile"])), "debug");
    assert_eq!(profile(&args(&["-v", "--profile", "a", "--profile", "b"])), "a");
}

#[test]
fn bare_names_follow_their_last_dot() {
    assert_eq!(extension(&["gz"], "a.tar.gz"), Ok(String::from("a.tar.gz")));
    assert!(extension(&["tar"], "a.tar.gz").is_err());
    assert_eq!(extension(&[""], "name."), Ok(String::from("name.")));
    assert!(extension(&["png"], ".png").is_err());
    assert!(extension(&[""], "..").is_err());
}

#[test]
fn paths_use_the_extension_of_their_file_name() {
    assert_eq!(extension(&["png"], "/home/u/icon.png"), Ok(String::from("/home/u/icon.png")));
    assert_eq!(extension(&["png"], "./x.png"), Ok(String::from("./x.png")));
    assert_eq!(extension(&["png"], "dir/a.png/"), Ok(String::from("dir/a.png/")));
    assert_eq!(extension(&["png"], "dir/a.png/."), Ok(String::from("dir/a.png/.")));
    assert_eq!(extension(&["elf"], "out//game.elf"), Ok(String::from("out//game.elf")));
    assert!(extension(&["png"], "a.png/b").is_err());
    assert!(extension(&["png"], "icons.png/..").is_err());
    assert!(extension(&[""], "dir/..").is_err());
    assert!(extension(&["png"], "/").is_err());
    assert!(extension(&["png"], "dir/.png").is_err());
}
