use image_manipulation::program_menu::{main_menu_reply, MainMenuReply};
use image_manipulation::text_input::{collect_chars, contains};

#[test]
fn start_menu_replies() {
    assert_eq!(main_menu_reply("1\n"), MainMenuReply::CircleImage);
    assert_eq!(main_menu_reply(" 2\n"), MainMenuReply::StringArt);
    assert_eq!(main_menu_reply("3\n"), MainMenuReply::OnlyOneOrTwo);
    assert_eq!(main_menu_reply("12\n"), MainMenuReply::OnlyOneNumber);
    assert_eq!(main_menu_reply("\n"), MainMenuReply::OnlyOneNumber);
    // a line read after a refused one keeps the refused text before it
    assert_eq!(main_menu_reply("x\n1\n"), MainMenuReply::OnlyOneNumber);
}

#[test]
fn substring_search() {
    assert!(contains("hello", "ell"));
    assert!(contains("hello", ""));
    assert!(contains("hello", "hello"));
    assert!(!contains("he", "hello"));
    assert!(!contains("hello", "lo!"));
    assert!(contains("äöü", "öü"));
}

#[test]
fn characters_of_a_string() {
    assert_eq!(collect_chars("aä b"), vec!['a', 'ä', ' ', 'b']);
    assert!(collect_chars("").is_empty());
}

#[test]
fn unicode_white_space_is_trimmed() {
    assert_eq!(main_menu_reply("\u{a0}1\u{3000}"), MainMenuReply::CircleImage);
    assert_eq!(main_menu_reply("\u{2009}2\u{85}"), MainMenuReply::StringArt);
    // a zero-width space has no White_Space property and stays
    assert_eq!(main_menu_reply("\u{200b}1"), MainMenuReply::OnlyOneNumber);
}
