use vstd::prelude::*;

verus! {

/// Failure modes of layout parsing and environment-block decoding.
///
/// I/O failures (open, seek, short read) are raised by the caller that owns
/// the device handle, not by this crate.
#[derive(Debug)]
pub enum FwError {
    /// A descriptor line holds no device token; carries the line.
    ParseDevname(String),
    /// The offset token is missing (carries the line) or is not of the form
    /// `0x<hex>` (carries the token).
    ParseStart(String),
    /// The size token is missing (carries the line) or is not of the form
    /// `0x<hex>` (carries the token).
    ParseSize(String),
    /// A hex value does not fit in `usize`; carries the token.
    ParseInt(String),
    /// The layout source yields neither one nor two descriptor lines;
    /// carries the observed count.
    WrongDevNum(usize),
    /// The stored checksum disagrees with the CRC-32 of the payload.
    BadCrc,
    /// A record lacks the `=` separator or has an empty key; carries the
    /// raw record bytes.
    EnvVarSyntax(Vec<u8>),
}

} // verus!
