use repatch::menu::MenuOption;

#[test]
fn test_parse_patch_options() {
    for (option, as_str) in MenuOption::list().iter().map(|x| (*x, x.as_char())) {
        // test round-trip
        assert_eq!(as_str.parse(), Ok(option));
    }
}

#[test]
fn test_menu_keys_and_help() {
    assert_eq!(MenuOption::Yes.as_char(), "y");
    assert_eq!(MenuOption::No.as_char(), "n");
    assert_eq!(MenuOption::Quit.as_char(), "q");
    assert_eq!(MenuOption::Edit.as_char(), "e");
    assert_eq!(MenuOption::Yes.help(), "replace this hunk");
    assert!("x".parse::<MenuOption>().is_err());
    assert!("yy".parse::<MenuOption>().is_err());
    assert!("".parse::<MenuOption>().is_err());
}

#[test]
fn test_parse_key_bytes() {
    assert_eq!(MenuOption::parse_key(b"y"), Some(MenuOption::Yes));
    assert_eq!(MenuOption::parse_key(b"n"), Some(MenuOption::No));
    assert_eq!(MenuOption::parse_key(b"q"), Some(MenuOption::Quit));
    assert_eq!(MenuOption::parse_key(b"e"), Some(MenuOption::Edit));
    assert_eq!(MenuOption::parse_key(b"?"), None);
}
