use vstd::prelude::*;
use crate::archive::decimal;
use crate::text::{hex_digits, push_decimal, push_hex, push_str, string_from_chars};

verus! {

/// Failure of a low-level header parser: the bytes are truncated or do not
/// follow the 7z header grammar at that point.
#[derive(Debug, Clone, Copy, PartialEq, Eq)]
pub struct ParseError;

/// Errors returned by r7z operations.
#[derive(Debug, Clone, PartialEq, Eq)]
pub enum R7zError {
    /// Binary structure could not be parsed (malformed archive).
    Parse,
    /// A property tag byte was not recognised.
    InvalidProperty(u8),
    /// The codec identified by the given bytes is not supported.
    UnsupportedCodec(Vec<u8>),
    /// A CRC32 check failed (data is corrupted).
    Crc,
    /// An underlying I/O error occurred (its description).
    Io(String),
    /// Decompression failed (corrupt or truncated stream).
    Decompression,
    /// The archive is encrypted and a password is required.
    PasswordRequired,
    /// The supplied password was incorrect (decryption produced garbage).
    WrongPassword,
    /// The archive entry name cannot be extracted safely under the destination directory.
    UnsafePath(String),
    /// The requested entry is a directory or anti-item, not a regular file.
    Directory,
    /// A configured metadata or safety limit was exceeded.
    LimitExceeded(&'static str),
    /// Writer options are inconsistent or out of range.
    InvalidOptions(&'static str),
}

/// The decimal forms of `b`, separated by `, `.
pub open spec fn joined_decimals(b: Seq<u8>) -> Seq<char>
    decreases b.len(),
{
    if b.len() == 0 {
        Seq::empty()
    } else if b.len() == 1 {
        decimal(b[0] as nat)
    } else {
        joined_decimals(b.drop_last()) + seq![',', ' '] + decimal(b.last() as nat)
    }
}

/// A byte list as `{:?}` shows it: `[1, 2, 3]`.
pub open spec fn debug_bytes(b: Seq<u8>) -> Seq<char> {
    seq!['['] + joined_decimals(b) + seq![']']
}

impl R7zError {
    /// The text that describes the error.
    pub open spec fn spec_message(&self) -> Seq<char> {
        match self {
            R7zError::Parse => "parse error"@,
            R7zError::InvalidProperty(b) => "invalid property: 0x"@ + hex_digits(*b as nat, 2, true),
            R7zError::UnsupportedCodec(v) => "unsupported codec: "@ + debug_bytes(v@),
            R7zError::Crc => "CRC mismatch"@,
            R7zError::Io(s) => "I/O error: "@ + s@,
            R7zError::Decompression => "decompression error"@,
            R7zError::PasswordRequired => "password required"@,
            R7zError::WrongPassword => "wrong password"@,
            R7zError::UnsafePath(s) => "unsafe archive path: "@ + s@,
            R7zError::Directory => "entry is a directory"@,
            R7zError::LimitExceeded(s) => "limit exceeded: "@ + s@,
            R7zError::InvalidOptions(s) => "invalid options: "@ + s@,
        }
    }

    /// The text that describes the error.
    pub fn message(&self) -> (r: String)
        ensures
            r@ == self.spec_message(),
    {
        let mut out: Vec<char> = Vec::new();
        match self {
            R7zError::Parse => push_str(&mut out, "parse error"),
            R7zError::InvalidProperty(b) => {
                push_str(&mut out, "invalid property: 0x");
                push_hex(&mut out, *b as u32, 2, true);
            },
            R7zError::UnsupportedCodec(v) => {
                push_str(&mut out, "unsupported codec: ");
                let ghost start = out@;
                out.push('[');
                let mut i: usize = 0;
                while i < v.len()
                    invariant
                        i <= v@.len(),
                        out@ == start + seq!['['] + joined_decimals(v@.take(i as int)),
                    decreases v.len() - i,
                {
                    let ghost before = out@;
                    if i > 0 {
                        out.push(',');
                        out.push(' ');
                    }
                    push_decimal(&mut out, v[i] as u64);
                    proof {
                        let t = v@.take(i + 1);
                        assert(t.drop_last() =~= v@.take(i as int));
                        assert(t.last() == v@[i as int]);
                        if i == 0 {
                            assert(joined_decimals(v@.take(0)) =~= Seq::<char>::empty());
                            assert(out@ =~= start + seq!['['] + joined_decimals(t));
                        } else {
                            assert(out@ =~= start + seq!['['] + joined_decimals(t));
                        }
                    }
                    i = i + 1;
                }
                out.push(']');
                proof {
                    assert(v@.take(v@.len() as int) =~= v@);
                    assert(out@ =~= start + debug_bytes(v@));
                }
            },
            R7zError::Crc => push_str(&mut out, "CRC mismatch"),
            R7zError::Io(s) => {
                push_str(&mut out, "I/O error: ");
                push_str(&mut out, s.as_str());
            },
            R7zError::Decompression => push_str(&mut out, "decompression error"),
            R7zError::PasswordRequired => push_str(&mut out, "password required"),
            R7zError::WrongPassword => push_str(&mut out, "wrong password"),
            R7zError::UnsafePath(s) => {
                push_str(&mut out, "unsafe archive path: ");
                push_str(&mut out, s.as_str());
            },
            R7zError::Directory => push_str(&mut out, "entry is a directory"),
            R7zError::LimitExceeded(s) => {
                push_str(&mut out, "limit exceeded: ");
                push_str(&mut out, s);
            },
            R7zError::InvalidOptions(s) => {
                push_str(&mut out, "invalid options: ");
                push_str(&mut out, s);
            },
        }
        proof {
            assert(out@ =~= self.spec_message());
        }
        string_from_chars(&out)
    }
}

} // verus!
