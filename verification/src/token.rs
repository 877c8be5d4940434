//! Token bytes and the string dictionaries of the binary codec.
//!
//! Bytes 236..=239 select a double-byte dictionary row and 245..=255 are
//! structural tokens; other bytes index the single-byte dictionary of
//! common protocol strings.

use vstd::prelude::*;

verus! {

pub const LIST_EMPTY: u8 = 0;
pub const DICTIONARY_0: u8 = 236;
pub const DICTIONARY_1: u8 = 237;
pub const DICTIONARY_2: u8 = 238;
pub const DICTIONARY_3: u8 = 239;
pub const INTEROP_JID: u8 = 245;
pub const FB_JID: u8 = 246;
pub const AD_JID: u8 = 247;
pub const LIST_8: u8 = 248;
pub const LIST_16: u8 = 249;
pub const JID_PAIR: u8 = 250;
pub const HEX_8: u8 = 251;
pub const BINARY_8: u8 = 252;
pub const BINARY_20: u8 = 253;
pub const BINARY_32: u8 = 254;
pub const NIBBLE_8: u8 = 255;

/// Single-byte dictionary index of a string, if it has one.
pub open spec fn spec_single_token_index(s: Seq<char>) -> Option<u8> {
    if s == "s.whatsapp.net"@ {
        Some(1u8)
    } else if s == "type"@ {
        Some(2u8)
    } else if s == "from"@ {
        Some(3u8)
    } else if s == "to"@ {
        Some(4u8)
    } else if s == "id"@ {
        Some(5u8)
    } else if s == "xmlns"@ {
        Some(6u8)
    } else if s == "result"@ {
        Some(7u8)
    } else if s == "iq"@ {
        Some(8u8)
    } else if s == "get"@ {
        Some(9u8)
    } else if s == "set"@ {
        Some(10u8)
    } else if s == "error"@ {
        Some(11u8)
    } else if s == "class"@ {
        Some(12u8)
    } else if s == "user"@ {
        Some(13u8)
    } else if s == "notify"@ {
        Some(14u8)
    } else if s == "notification"@ {
        Some(15u8)
    } else if s == "ref"@ {
        Some(16u8)
    } else if s == "pair-device"@ {
        Some(17u8)
    } else if s == "pair-success"@ {
        Some(18u8)
    } else if s == "companion"@ {
        Some(19u8)
    } else if s == "lid"@ {
        Some(20u8)
    } else {
        None
    }
}

/// The string at a single-byte dictionary index, if the index is taken.
pub open spec fn spec_single_token_at(token: u8) -> Option<Seq<char>> {
    if token == 1 {
        Some("s.whatsapp.net"@)
    } else if token == 2 {
        Some("type"@)
    } else if token == 3 {
        Some("from"@)
    } else if token == 4 {
        Some("to"@)
    } else if token == 5 {
        Some("id"@)
    } else if token == 6 {
        Some("xmlns"@)
    } else if token == 7 {
        Some("result"@)
    } else if token == 8 {
        Some("iq"@)
    } else if token == 9 {
        Some("get"@)
    } else if token == 10 {
        Some("set"@)
    } else if token == 11 {
        Some("error"@)
    } else if token == 12 {
        Some("class"@)
    } else if token == 13 {
        Some("user"@)
    } else if token == 14 {
        Some("notify"@)
    } else if token == 15 {
        Some("notification"@)
    } else if token == 16 {
        Some("ref"@)
    } else if token == 17 {
        Some("pair-device"@)
    } else if token == 18 {
        Some("pair-success"@)
    } else if token == 19 {
        Some("companion"@)
    } else if token == 20 {
        Some("lid"@)
    } else {
        None
    }
}

/// Double-byte dictionary position of a string, if it has one: a row
/// selector in `0..4` and an index within the row.
pub open spec fn spec_double_token_index(s: Seq<char>) -> Option<(u8, u8)> {
    if s == "media"@ {
        Some((0u8, 0u8))
    } else if s == "image"@ {
        Some((0u8, 1u8))
    } else if s == "video"@ {
        Some((0u8, 2u8))
    } else if s == "document"@ {
        Some((1u8, 0u8))
    } else if s == "sticker"@ {
        Some((1u8, 1u8))
    } else if s == "audio"@ {
        Some((1u8, 2u8))
    } else if s == "location"@ {
        Some((2u8, 0u8))
    } else if s == "contact"@ {
        Some((2u8, 1u8))
    } else if s == "vcard"@ {
        Some((2u8, 2u8))
    } else if s == "message"@ {
        Some((3u8, 0u8))
    } else if s == "receipt"@ {
        Some((3u8, 1u8))
    } else if s == "presence"@ {
        Some((3u8, 2u8))
    } else {
        None
    }
}

/// The string at a double-byte dictionary position, if it is taken.
pub open spec fn spec_double_token_at(row: u8, index: u8) -> Option<Seq<char>> {
    if row == 0 && index == 0 {
        Some("media"@)
    } else if row == 0 && index == 1 {
        Some("image"@)
    } else if row == 0 && index == 2 {
        Some("video"@)
    } else if row == 1 && index == 0 {
        Some("document"@)
    } else if row == 1 && index == 1 {
        Some("sticker"@)
    } else if row == 1 && index == 2 {
        Some("audio"@)
    } else if row == 2 && index == 0 {
        Some("location"@)
    } else if row == 2 && index == 1 {
        Some("contact"@)
    } else if row == 2 && index == 2 {
        Some("vcard"@)
    } else if row == 3 && index == 0 {
        Some("message"@)
    } else if row == 3 && index == 1 {
        Some("receipt"@)
    } else if row == 3 && index == 2 {
        Some("presence"@)
    } else {
        None
    }
}

/// An assigned single-byte index names the string it was assigned for,
/// and never collides with a structural token byte.
pub proof fn lemma_single_token_inverse(s: Seq<char>)
    ensures
        spec_single_token_index(s) matches Some(i) ==> {
            &&& spec_single_token_at(i) == Some(s)
            &&& 1 <= i <= 20
        },
{
}

/// An assigned double-byte position names the string it was assigned for.
pub proof fn lemma_double_token_inverse(s: Seq<char>)
    ensures
        spec_double_token_index(s) matches Some(p) ==> {
            &&& spec_double_token_at(p.0, p.1) == Some(s)
            &&& p.0 < 4
        },
{
}

/// Looks a string up in the single-byte dictionary.
pub fn single_token_index(s: &String) -> (r: Option<u8>)
    ensures
        r == spec_single_token_index(s@),
{
    if *s == String::from_str("s.whatsapp.net") {
        Some(1)
    } else if *s == String::from_str("type") {
        Some(2)
    } else if *s == String::from_str("from") {
        Some(3)
    } else if *s == String::from_str("to") {
        Some(4)
    } else if *s == String::from_str("id") {
        Some(5)
    } else if *s == String::from_str("xmlns") {
        Some(6)
    } else if *s == String::from_str("result") {
        Some(7)
    } else if *s == String::from_str("iq") {
        Some(8)
    } else if *s == String::from_str("get") {
        Some(9)
    } else if *s == String::from_str("set") {
        Some(10)
    } else if *s == String::from_str("error") {
        Some(11)
    } else if *s == String::from_str("class") {
        Some(12)
    } else if *s == String::from_str("user") {
        Some(13)
    } else if *s == String::from_str("notify") {
        Some(14)
    } else if *s == String::from_str("notification") {
        Some(15)
    } else if *s == String::from_str("ref") {
        Some(16)
    } else if *s == String::from_str("pair-device") {
        Some(17)
    } else if *s == String::from_str("pair-success") {
        Some(18)
    } else if *s == String::from_str("companion") {
        Some(19)
    } else if *s == String::from_str("lid") {
        Some(20)
    } else {
        None
    }
}

/// Fetches the string at a single-byte dictionary index.
pub fn single_token_at(token: u8) -> (r: Option<String>)
    ensures
        (r is Some) == (spec_single_token_at(token) is Some),
        r matches Some(s) ==> spec_single_token_at(token) == Some(s@),
{
    if token == 1 {
        Some(String::from_str("s.whatsapp.net"))
    } else if token == 2 {
        Some(String::from_str("type"))
    } else if token == 3 {
        Some(String::from_str("from"))
    } else if token == 4 {
        Some(String::from_str("to"))
    } else if token == 5 {
        Some(String::from_str("id"))
    } else if token == 6 {
        Some(String::from_str("xmlns"))
    } else if token == 7 {
        Some(String::from_str("result"))
    } else if token == 8 {
        Some(String::from_str("iq"))
    } else if token == 9 {
        Some(String::from_str("get"))
    } else if token == 10 {
        Some(String::from_str("set"))
    } else if token == 11 {
        Some(String::from_str("error"))
    } else if token == 12 {
        Some(String::from_str("class"))
    } else if token == 13 {
        Some(String::from_str("user"))
    } else if token == 14 {
        Some(String::from_str("notify"))
    } else if token == 15 {
        Some(String::from_str("notification"))
    } else if token == 16 {
        Some(String::from_str("ref"))
    } else if token == 17 {
        Some(String::from_str("pair-device"))
    } else if token == 18 {
        Some(String::from_str("pair-success"))
    } else if token == 19 {
        Some(String::from_str("companion"))
    } else if token == 20 {
        Some(String::from_str("lid"))
    } else {
        None
    }
}

/// Looks a string up in the double-byte dictionary.
pub fn double_token_index(s: &String) -> (r: Option<(u8, u8)>)
    ensures
        r == spec_double_token_index(s@),
{
    if *s == String::from_str("media") {
        Some((0, 0))
    } else if *s == String::from_str("image") {
        Some((0, 1))
    } else if *s == String::from_str("video") {
        Some((0, 2))
    } else if *s == String::from_str("document") {
        Some((1, 0))
    } else if *s == String::from_str("sticker") {
        Some((1, 1))
    } else if *s == String::from_str("audio") {
        Some((1, 2))
    } else if *s == String::from_str("location") {
        Some((2, 0))
    } else if *s == String::from_str("contact") {
        Some((2, 1))
    } else if *s == String::from_str("vcard") {
        Some((2, 2))
    } else if *s == String::from_str("message") {
        Some((3, 0))
    } else if *s == String::from_str("receipt") {
        Some((3, 1))
    } else if *s == String::from_str("presence") {
        Some((3, 2))
    } else {
        None
    }
}

/// Fetches the string at a double-byte dictionary position.
pub fn double_token_at(row: u8, index: u8) -> (r: Option<String>)
    ensures
        (r is Some) == (spec_double_token_at(row, index) is Some),
        r matches Some(s) ==> spec_double_token_at(row, index) == Some(s@),
{
    if row == 0 && index == 0 {
        Some(String::from_str("media"))
    } else if row == 0 && index == 1 {
        Some(String::from_str("image"))
    } else if row == 0 && index == 2 {
        Some(String::from_str("video"))
    } else if row == 1 && index == 0 {
        Some(String::from_str("document"))
    } else if row == 1 && index == 1 {
        Some(String::from_str("sticker"))
    } else if row == 1 && index == 2 {
        Some(String::from_str("audio"))
    } else if row == 2 && index == 0 {
        Some(String::from_str("location"))
    } else if row == 2 && index == 1 {
        Some(String::from_str("contact"))
    } else if row == 2 && index == 2 {
        Some(String::from_str("vcard"))
    } else if row == 3 && index == 0 {
        Some(String::from_str("message"))
    } else if row == 3 && index == 1 {
        Some(String::from_str("receipt"))
    } else if row == 3 && index == 2 {
        Some(String::from_str("presence"))
    } else {
        None
    }
}

} // verus!
