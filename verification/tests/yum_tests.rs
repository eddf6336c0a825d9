use rust_solv::yum::{with_trailing_slash, YumVariables};

#[test]
fn trailing_slash_is_added_once() {
    assert_eq!(with_trailing_slash("https://a.example/os"), "https://a.example/os/");
    assert_eq!(with_trailing_slash("https://a.example/os/"), "https://a.example/os/");
    assert_eq!(with_trailing_slash(""), "/");
}

#[test]
fn replace_yum_variables_substitutes_all_three() {
    let y = YumVariables::new(
        "x86_64".to_string(),
        "x86_64".to_string(),
        "22.03".to_string(),
    );
    let url = "https://repo.example.org/$releasever/OS/$basearch/".to_string();
    assert_eq!(
        y.replace_yum_variables(url),
        "https://repo.example.org/22.03/OS/x86_64/".to_string()
    );
}

#[test]
fn replace_yum_variables_handles_arch_and_repeats() {
    let y = YumVariables::new(
        "i686".to_string(),
        "i386".to_string(),
        "9".to_string(),
    );
    let url = "$arch/$arch/$basearch".to_string();
    assert_eq!(y.replace_yum_variables(url), "i686/i686/i386".to_string());
}

#[test]
fn replace_yum_variables_leaves_plain_strings_alone() {
    let y = YumVariables::new("a".to_string(), "b".to_string(), "c".to_string());
    let url = "https://repo.example.org/fixed/".to_string();
    assert_eq!(
        y.replace_yum_variables(url),
        "https://repo.example.org/fixed/".to_string()
    );
}

#[test]
fn basearch_folds_the_i386_line() {
    assert_eq!(YumVariables::get_basearch("i386"), Some("i386".to_string()));
    assert_eq!(YumVariables::get_basearch("i586"), Some("i386".to_string()));
    assert_eq!(YumVariables::get_basearch("i686"), Some("i386".to_string()));
    assert_eq!(
        YumVariables::get_basearch("x86_64"),
        Some("x86_64".to_string())
    );
    assert_eq!(YumVariables::get_basearch("riscv64"), None);
}

#[test]
fn releasever_is_the_third_dash_field() {
    assert_eq!(
        YumVariables::releasever_from_release("openEuler-release-22.03LTS-58.oe2203.x86_64"),
        Some("22.03LTS".to_string())
    );
    assert_eq!(
        YumVariables::releasever_from_release("system-release-9"),
        Some("9".to_string())
    );
    assert_eq!(YumVariables::releasever_from_release("no-dashes"), None);
    assert_eq!(YumVariables::releasever_from_release("plain"), None);
}
