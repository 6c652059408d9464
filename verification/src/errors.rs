use vstd::prelude::*;

verus! {

/// The section of a message in which a decode failure occurred.
#[derive(Debug, Clone, Copy, PartialEq, Eq, Structural)]
pub enum Section {
    Question,
    Answer,
    Authority,
    Additional,
}

/// Every failure the codec can report.
///
/// - `BufferBounds`: a read or write would touch an offset at or past the
///   512-byte capacity.
/// - `NameDecodeLoop`: a compressed name needed more pointer jumps than the
///   caller's bound allows, so the chain is treated as cyclic or malicious.
/// - `LabelTooLong`: a name was to be written with a label of more than 63
///   bytes, which the wire format cannot carry.
/// - `TruncatedMessage`: a section count declared by the header exceeds the
///   bytes the message has left; the failing section and entry index are
///   recorded.
/// - `EntryDecodeLoop`: a name inside a counted section entry needed more
///   pointer jumps than allowed; the failing section and entry index are
///   recorded.
#[derive(Debug, Clone, Copy, PartialEq, Eq, Structural)]
pub enum DnsError {
    BufferBounds,
    NameDecodeLoop,
    LabelTooLong,
    TruncatedMessage { section: Section, index: u16 },
    EntryDecodeLoop { section: Section, index: u16 },
}

} // verus!
