//! Fixed-width integers on the wire and the bit cursor.

use vstd::prelude::*;
use vstd::string::StringExecFns;
use std::path::{Path, PathBuf};
use vstd::pervasive::VecAdditionalExecFns;
use crate::error::Error;

verus! {

/// The value of four bytes read as a big-endian 32-bit integer.
pub open spec fn be32(b: Seq<u8>) -> int
    recommends
        b.len() == 4,
{
    b[0] * 0x100_0000 + b[1] * 0x1_0000 + b[2] * 0x100 + b[3]
}

/// The four bytes of a 32-bit integer, most significant first.
pub open spec fn be32_bytes(v: u32) -> Seq<u8> {
    seq![
        (v / 0x100_0000) as u8,
        ((v / 0x1_0000) % 0x100) as u8,
        ((v / 0x100) % 0x100) as u8,
        (v % 0x100) as u8,
    ]
}

/// Reading back the bytes of a value gives the value.
pub proof fn lemma_be32_of_bytes(v: u32)
    ensures
        be32_bytes(v).len() == 4,
        be32(be32_bytes(v)) == v,
{
    let x = v as int;
    let a = x / 0x100_0000;
    let b = (x / 0x1_0000) % 0x100;
    let c = (x / 0x100) % 0x100;
    let d = x % 0x100;
    assert(x == a * 0x100_0000 + b * 0x1_0000 + c * 0x100 + d && 0 <= a < 0x100) by (nonlinear_arith)
        requires
            0 <= x < 0x1_0000_0000,
            a == x / 0x100_0000,
            b == (x / 0x1_0000) % 0x100,
            c == (x / 0x100) % 0x100,
            d == x % 0x100,
    ;
}

/// Reads a big-endian 32-bit integer from exactly four bytes.
pub fn read_u32(input: &[u8]) -> (r: Result<u32, Error>)
    ensures
        input@.len() == 4 ==> r is Ok && r->Ok_0 == be32(input@),
        input@.len() != 4 ==> r is Err && r->Err_0 is Conversion,
{
    if input.len() != 4 {
        return Err(
            Error::Conversion(
                "expected exactly 4 bytes".to_owned(),
                "could not convert slice to array".to_owned(),
            ),
        );
    }
    let b0: u32 = input[0] as u32;
    let b1: u32 = input[1] as u32;
    let b2: u32 = input[2] as u32;
    let b3: u32 = input[3] as u32;
    Ok(b0 * 0x100_0000 + b1 * 0x1_0000 + b2 * 0x100 + b3)
}

/// Appends the four big-endian bytes of `v` to `out`.
pub fn write_u32(out: &mut Vec<u8>, v: u32)
    ensures
        final(out)@ == old(out)@ + be32_bytes(v),
{
    out.push((v / 0x100_0000) as u8);
    out.push(((v / 0x1_0000) % 0x100) as u8);
    out.push(((v / 0x100) % 0x100) as u8);
    out.push((v % 0x100) as u8);
    assert(out@ =~= old(out)@ + be32_bytes(v));
}

/// Overwrites the four bytes from position `at` with the big-endian bytes
/// of `v`.
pub fn put_u32(out: &mut Vec<u8>, at: usize, v: u32)
    requires
        at + 4 <= old(out).len(),
    ensures
        final(out)@ == old(out)@.subrange(0, at as int) + be32_bytes(v) + old(out)@.skip(at + 4),
{
    out.set(at, (v / 0x100_0000) as u8);
    out.set(at + 1, ((v / 0x1_0000) % 0x100) as u8);
    out.set(at + 2, ((v / 0x100) % 0x100) as u8);
    out.set(at + 3, (v % 0x100) as u8);
    assert(out@ =~= old(out)@.subrange(0, at as int) + be32_bytes(v) + old(out)@.skip(at + 4));
}

/// Advances the bit cursor within a byte. A cursor at 7 wraps to 0 and
/// reports that a byte was completed.
pub fn inc_bit(bit: &mut u8) -> (wrapped: bool)
    requires
        *old(bit) < u8::MAX,
    ensures
        wrapped == (*old(bit) == 7),
        *final(bit) == if *old(bit) == 7 { 0 } else { *old(bit) + 1 },
{
    if *bit == 7 {
        *bit = 0;
        return true;
    }
    *bit += 1;
    false
}

/// `String::push` of the standard library: the string grows by the given
/// symbol at its end, and nothing else of it changes.
pub assume_specification[ String::push ](s: &mut String, ch: char)
    ensures
        final(s)@ == old(s)@.push(ch),
;

/// A symbol's code point is a number from 0 to 0x10FFFF.
pub proof fn lemma_char_range(c: char)
    ensures
        0 <= c as int <= 0x10FFFF,
{
}

/// The code point of a symbol.
pub fn code_point(c: char) -> (code: u32)
    ensures
        code == c as int,
{
    c as u32
}

/// What `PathBuf::set_extension` makes of a path and an extension, by the
/// path rules of the platform; nothing where the result is no text.
pub uninterp spec fn path_with_extension(path: Seq<char>, extension: Seq<char>) -> Option<Seq<char>>;

/// What `Path::file_stem` finds in a path, by the path rules of the
/// platform; nothing where the path has no file name or the stem is no text.
pub uninterp spec fn path_file_stem(path: Seq<char>) -> Option<Seq<char>>;

/// What `PathBuf::set_file_name` makes of a path and a file name, by the
/// path rules of the platform; nothing where the result is no text.
pub uninterp spec fn path_with_file_name(path: Seq<char>, name: Seq<char>) -> Option<Seq<char>>;

/// The text of an optional string.
pub open spec fn text_of(s: Option<String>) -> Option<Seq<char>> {
    match s {
        Some(s) => Some(s@),
        None => None,
    }
}

/// Whether the text holds no path separator, neither `/` nor `\`.
pub open spec fn no_separator(text: Seq<char>) -> bool {
    forall|i: int| 0 <= i < text.len() ==> #[trigger] text[i] != '/' && text[i] != '\\'
}

/// `PathBuf::set_extension` of the standard library, on a path made of
/// `path`: the path afterwards, as text. The standard library panics on an
/// extension that holds a path separator, so none is admitted. Nothing is
/// claimed of the result but that it is what the standard library makes of
/// the two texts.
#[verifier::external_body]
fn with_extension(path: &str, extension: &str) -> (out: Option<String>)
    requires
        no_separator(extension@),
    ensures
        text_of(out) == path_with_extension(path@, extension@),
{
    let mut buf = PathBuf::from(path);
    buf.set_extension(extension);
    match buf.to_str() {
        Some(text) => Some(text.to_owned()),
        None => None,
    }
}

/// `Path::file_stem` of the standard library, on a path made of `path`:
/// the stem, as text. Nothing is claimed of the result but that it is what
/// the standard library finds in the text.
#[verifier::external_body]
fn file_stem(path: &str) -> (out: Option<String>)
    ensures
        text_of(out) == path_file_stem(path@),
{
    match Path::new(path).file_stem() {
        Some(stem) => match stem.to_str() {
            Some(text) => Some(text.to_owned()),
            None => None,
        },
        None => None,
    }
}

/// `PathBuf::set_file_name` of the standard library, on a path made of
/// `path`: the path afterwards, as text. Nothing is claimed of the result
/// but that it is what the standard library makes of the two texts.
#[verifier::external_body]
fn with_file_name(path: &str, name: &str) -> (out: Option<String>)
    ensures
        text_of(out) == path_with_file_name(path@, name@),
{
    let mut buf = PathBuf::from(path);
    buf.set_file_name(name);
    match buf.to_str() {
        Some(text) => Some(text.to_owned()),
        None => None,
    }
}

/// The file name that stands for a copy: the stem, `_copy.` and the
/// extension.
pub open spec fn copy_name_of(stem: Seq<char>, extension: Seq<char>) -> Seq<char> {
    stem + "_copy."@ + extension
}

/// The name of the file that goes with `name` under another extension: the
/// path with that extension, or, where that file is taken, the same path
/// with `_copy` added to the stem of its file name.
pub open spec fn renamed(name: Seq<char>, extension: Seq<char>, taken: bool) -> Option<Seq<char>> {
    match path_with_extension(name, extension) {
        None => None,
        Some(out) => if !taken {
            Some(out)
        } else {
            match path_file_stem(out) {
                None => None,
                Some(stem) => path_with_file_name(out, copy_name_of(stem, extension)),
            }
        },
    }
}

/// The file name of a copy: the stem, `_copy.` and the extension.
pub fn copy_name(stem: &str, extension: &str) -> (name: String)
    ensures
        name@ == copy_name_of(stem@, extension@),
{
    let mut name = String::from_str(stem);
    name.append("_copy.");
    name.append(extension);
    name
}

/// The name under which `name` is written with the given extension, which
/// holds no path separator.
fn rename(name: &str, extension: &str, taken: bool) -> (out: Option<String>)
    requires
        no_separator(extension@),
    ensures
        text_of(out) == renamed(name@, extension@, taken),
{
    match with_extension(name, extension) {
        None => None,
        Some(out) => {
            if !taken {
                Some(out)
            } else {
                match file_stem(out.as_str()) {
                    None => None,
                    Some(stem) => {
                        let copy = copy_name(stem.as_str(), extension);
                        with_file_name(out.as_str(), copy.as_str())
                    },
                }
            }
        },
    }
}

/// The name of the compressed file for a source file: the extension becomes
/// `huf`; where `taken` says that such a file exists already, `_copy` is
/// added to the stem.
pub fn in_file_to_out_file(in_file: &str, taken: bool) -> (out: Option<String>)
    ensures
        text_of(out) == renamed(in_file@, "huf"@, taken),
{
    proof {
        reveal_strlit("huf");
    }
    rename(in_file, "huf", taken)
}

/// The name of the text file for a compressed file: the extension becomes
/// `txt`; where `taken` says that such a file exists already, `_copy` is
/// added to the stem.
pub fn out_file_to_in_file(out_file: &str, taken: bool) -> (out: Option<String>)
    ensures
        text_of(out) == renamed(out_file@, "txt"@, taken),
{
    proof {
        reveal_strlit("txt");
    }
    rename(out_file, "txt", taken)
}

} // verus!
