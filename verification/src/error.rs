//! The error kinds of the codec and of the layers around it.

use vstd::prelude::*;
use vstd::string::StringExecFns;

verus! {

/// What can go wrong. Each variant carries a message and the text of the
/// underlying cause (empty where there is none).
#[derive(Debug)]
pub enum Error {
    /// The command line could not be understood.
    Args(String, String),
    /// A fixed-width field could not be read: the buffer is truncated or malformed.
    Conversion(String, String),
    /// A traversal step asked for a direction other than 0 or 1, or for a missing child.
    Heapify(String, String),
    /// A symbol of the source text has no entry in the code table.
    Encoding(String, String),
    /// The source could not be read for compression.
    Compress(String, String),
    /// The source could not be read for decompression.
    DeCompress(String, String),
    /// The output could not be written.
    Finalizing(String, String),
}

impl Error {
    /// The label that introduces a rendered error of this kind.
    pub open spec fn label(&self) -> Seq<char> {
        match self {
            Error::Args(..) => "[ERROR] - input args: "@,
            Error::Conversion(..) => "[ERROR] - conversion: "@,
            Error::Heapify(..) => "[ERROR] - heapify: "@,
            Error::Encoding(..) => "[ERROR] - encoding: "@,
            Error::Compress(..) => "[ERROR] - compress: "@,
            Error::DeCompress(..) => "[ERROR] - decompress: "@,
            Error::Finalizing(..) => "[ERROR] - finalizing: "@,
        }
    }

    /// The message part of the error.
    pub open spec fn msg(&self) -> Seq<char> {
        match self {
            Error::Args(m, _) => m@,
            Error::Conversion(m, _) => m@,
            Error::Heapify(m, _) => m@,
            Error::Encoding(m, _) => m@,
            Error::Compress(m, _) => m@,
            Error::DeCompress(m, _) => m@,
            Error::Finalizing(m, _) => m@,
        }
    }

    /// The text of the underlying cause.
    pub open spec fn cause(&self) -> Seq<char> {
        match self {
            Error::Args(_, e) => e@,
            Error::Conversion(_, e) => e@,
            Error::Heapify(_, e) => e@,
            Error::Encoding(_, e) => e@,
            Error::Compress(_, e) => e@,
            Error::DeCompress(_, e) => e@,
            Error::Finalizing(_, e) => e@,
        }
    }

    /// The rendered form: label, message, `; mapped: `, cause, `;`.
    pub open spec fn rendered(&self) -> Seq<char> {
        self.label() + self.msg() + "; mapped: "@ + self.cause() + ";"@
    }

    /// Renders the error as one line of text.
    pub fn message(&self) -> (out: String)
        ensures
            out@ == self.rendered(),
    {
        let (label, msg, cause) = match self {
            Error::Args(m, e) => ("[ERROR] - input args: ", m, e),
            Error::Conversion(m, e) => ("[ERROR] - conversion: ", m, e),
            Error::Heapify(m, e) => ("[ERROR] - heapify: ", m, e),
            Error::Encoding(m, e) => ("[ERROR] - encoding: ", m, e),
            Error::Compress(m, e) => ("[ERROR] - compress: ", m, e),
            Error::DeCompress(m, e) => ("[ERROR] - decompress: ", m, e),
            Error::Finalizing(m, e) => ("[ERROR] - finalizing: ", m, e),
        };
        let mut out = String::from_str(label);
        out.append(msg.as_str());
        out.append("; mapped: ");
        out.append(cause.as_str());
        out.append(";");
        out
    }
}

} // verus!
