//! The two operations on whole inputs: from a text to its buffer, and from
//! a buffer to its text.

use vstd::prelude::*;
use crate::error::Error;
use crate::format::parse;
use crate::huffman::{Huffman, HuffmanView};
use crate::laws::lemma_text_codes;
use crate::leaves::is_byte_text;

verus! {

/// The buffer of a text: what encoding leaves after the tree is constructed
/// and the codes are generated.
pub open spec fn compressed(text: Seq<char>) -> Seq<u8> {
    HuffmanView::of_text(text).with_tree().with_codes().after_encode().bytes
}

/// The text of a buffer: what decoding yields, if the buffer can be taken
/// apart.
pub open spec fn decompressed(bytes: Seq<u8>) -> Option<Seq<char>> {
    if parse(bytes) is None {
        None
    } else {
        Some(HuffmanView::of_bytes(bytes).after_decode().text)
    }
}

/// Compresses a text of byte symbols into its buffer. A symbol beyond one
/// byte is an encoding error.
pub fn compress(text: &str) -> (r: Result<Vec<u8>, Error>)
    requires
        text@.len() <= u32::MAX,
    ensures
        is_byte_text(text@) ==> r is Ok && r->Ok_0@ == compressed(text@),
        !is_byte_text(text@) ==> r is Err && r->Err_0 is Encoding,
{
    let mut huffman = Huffman::from_str(text);
    huffman.create_tree();
    huffman.codes();
    proof {
        lemma_text_codes(text@);
    }
    match huffman.encode() {
        Ok(()) => {
            let mut out: Vec<u8> = Vec::new();
            huffman.read_bytes_into(&mut out);
            assert(out@ =~= compressed(text@));
            Ok(out)
        },
        Err(e) => Err(e),
    }
}

/// Decompresses a buffer into its text, in UTF-8. A buffer that cannot be
/// taken apart is a conversion error.
pub fn decompress(bytes: &[u8]) -> (r: Result<Vec<u8>, Error>)
    ensures
        match decompressed(bytes@) {
            Some(text) => r is Ok && r->Ok_0@ == vstd::utf8::encode_utf8(text),
            None => r is Err && r->Err_0 is Conversion,
        },
{
    let mut huffman = Huffman::from_bytes(bytes);
    match huffman.decode() {
        Ok(()) => {
            let mut out: Vec<u8> = Vec::new();
            huffman.data_to_bytes(&mut out);
            assert(out@ =~= vstd::utf8::encode_utf8(huffman@.text));
            Ok(out)
        },
        Err(e) => Err(e),
    }
}

} // verus!
