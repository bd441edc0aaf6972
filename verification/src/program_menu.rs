//! The program's start menu: one character picks the circle image or the
//! string art.

use vstd::prelude::*;
use crate::text_input::{collect_chars, trim_str, trimmed};

verus! {

/// The start menu's answer to a typed line.
#[derive(Clone, Copy, Debug, PartialEq, Eq, Structural)]
pub enum MainMenuReply {
    /// Not exactly one character: "Only one Number... Try Again!".
    OnlyOneNumber,
    /// `1`: the circle image.
    CircleImage,
    /// `2`: the string art.
    StringArt,
    /// Any other single character: "Only 1 or 2".
    OnlyOneOrTwo,
}

/// The start menu's answer to `input`, after trimming: `1` and `2` choose,
/// any other single character is refused, and so is every other length.
pub fn main_menu_reply(input: &str) -> (reply: MainMenuReply)
    ensures
        trimmed(input@).len() != 1 ==> reply == MainMenuReply::OnlyOneNumber,
        trimmed(input@).len() == 1 ==> reply == (
            if trimmed(input@)[0] == '1' {
                MainMenuReply::CircleImage
            } else if trimmed(input@)[0] == '2' {
                MainMenuReply::StringArt
            } else {
                MainMenuReply::OnlyOneOrTwo
            }
        ),
{
    let test = collect_chars(trim_str(input));
    if test.len() != 1 {
        MainMenuReply::OnlyOneNumber
    } else if test[0] == '1' {
        MainMenuReply::CircleImage
    } else if test[0] == '2' {
        MainMenuReply::StringArt
    } else {
        MainMenuReply::OnlyOneOrTwo
    }
}

} // verus!
