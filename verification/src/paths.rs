//! The names of the files of an archive.
//!
//! An archive named `<base>dir.vpk` keeps its index in that file and its
//! data in `<base>000.vpk`, `<base>001.vpk` and so on, numbered without a
//! gap.

use vstd::prelude::*;
use vstd::string::*;
use vstd::utf8::{decode_utf8, encode_utf8, encode_utf8_decode_utf8, is_char_boundary};

verus! {

/// The character of the decimal digit `d`.
pub open spec fn digit(d: int) -> char {
    (48 + d) as char
}

/// The number of an archive file as its name holds it: in decimal, with
/// zeros in front where it has fewer than three digits.
pub open spec fn index_digits(index: int) -> Seq<char> {
    if index < 1000 {
        seq![digit(index / 100), digit(index / 10 % 10), digit(index % 10)]
    } else if index < 10000 {
        seq![
            digit(index / 1000),
            digit(index / 100 % 10),
            digit(index / 10 % 10),
            digit(index % 10),
        ]
    } else {
        seq![
            digit(index / 10000),
            digit(index / 1000 % 10),
            digit(index / 100 % 10),
            digit(index / 10 % 10),
            digit(index % 10),
        ]
    }
}

/// The text of one decimal digit.
fn digit_text(d: u16) -> (text: &'static str)
    requires
        d < 10,
    ensures
        text@ == seq![digit(d as int)],
{
    proof {
        reveal_strlit("0");
        reveal_strlit("1");
        reveal_strlit("2");
        reveal_strlit("3");
        reveal_strlit("4");
        reveal_strlit("5");
        reveal_strlit("6");
        reveal_strlit("7");
        reveal_strlit("8");
        reveal_strlit("9");
    }
    let text = if d == 0 {
        "0"
    } else if d == 1 {
        "1"
    } else if d == 2 {
        "2"
    } else if d == 3 {
        "3"
    } else if d == 4 {
        "4"
    } else if d == 5 {
        "5"
    } else if d == 6 {
        "6"
    } else if d == 7 {
        "7"
    } else if d == 8 {
        "8"
    } else {
        "9"
    };
    assert(text@ =~= seq![digit(d as int)]);
    text
}

/// What stands before `dir.vpk` in the name of an index file: the path
/// without its last seven bytes. The same is obtained from the name of one
/// of the archive's numbered files.
///
/// The path must hold seven bytes or more, and the cut must not fall into
/// the middle of a character.
pub fn get_base_path(path: &str) -> (base: String)
    requires
        path.spec_bytes().len() >= 7,
        is_char_boundary(path.spec_bytes(), path.spec_bytes().len() - 7),
    ensures
        base@ == decode_utf8(path.spec_bytes().subrange(0, path.spec_bytes().len() - 7)),
        encode_utf8(base@) == path.spec_bytes().subrange(0, path.spec_bytes().len() - 7),
{
    let cut: usize = path.as_bytes().len() - 7;
    let (front, _back) = path.split_at(cut);
    proof {
        encode_utf8_decode_utf8(front@);
    }
    front.to_owned()
}

/// The name of the index file of the archive with base path `base`.
pub fn index_file_name(base: &str) -> (name: String)
    ensures
        name@ == base@ + "dir.vpk"@,
{
    String::from_str(base).concat("dir.vpk")
}

/// The name of the numbered file `index` of the archive with base path
/// `base`.
pub fn archive_file_name(base: &str, index: u16) -> (name: String)
    ensures
        name@ == base@ + index_digits(index as int) + ".vpk"@,
{
    let mut name = String::from_str(base);
    if index >= 10000 {
        name.append(digit_text(index / 10000));
    }
    if index >= 1000 {
        name.append(digit_text(index / 1000 % 10));
    }
    name.append(digit_text(index / 100 % 10));
    name.append(digit_text(index / 10 % 10));
    name.append(digit_text(index % 10));
    assert(name@ =~= base@ + index_digits(index as int));
    name.append(".vpk");
    name
}

} // verus!
