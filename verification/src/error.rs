//! The failure values of the three pipelines.
//!
//! Each pipeline has its own closed set of failure variants, one per step
//! that can fail, so a caller can branch on the exact cause.  `E` is the
//! stream implementation's own error value, forwarded untouched.

use crate::codec::DecodeError;
use crate::stream::ReadExactError;
use vstd::prelude::*;

verus! {

/// A failure of the read pipeline.
#[derive(Debug)]
pub enum ReadError<E> {
    /// The signature could not be read.
    NoSignature(ReadExactError<E>),
    /// The first 20 bytes are not the signature; they are carried here.
    InvalidSignature(Vec<u8>),
    /// The index address could not be read.
    ReadFileTableAddress(ReadExactError<E>),
    /// The stream would not seek: to the start, or to the index address.
    SeekToFileTable(E),
    /// The serialized index is unreadable.
    DeserializeFileTable(DecodeError<E>),
}

/// A failure of the create pipeline.
#[derive(Debug)]
pub enum CreateError<E> {
    /// The signature could not be written.
    SignatureWrite(E),
    /// The stream would not reserve space for the index address.
    SkipAddress(E),
    /// A producer failed to report its name.
    InvalidFilename(E),
    /// Two producers share this name.
    DuplicateFilename(String),
    /// The stream would not report a payload's start position.
    GetOffset(E),
    /// The named producer failed while writing its payload.
    AddFile(String, E),
    /// The stream would not report the index's start position.
    GetFileTableAddress(E),
    /// The serialized index could not be written.
    SerializeFileTable(E),
    /// The stream would not seek back to the index address field.
    SeekToFileTableAddress(E),
    /// The index address could not be patched in.
    WriteFileTableAddress(E),
}

/// A failure of the lookup/extract operation.
#[derive(Debug)]
pub enum OpenError<E> {
    /// The requested name, which the index does not hold.
    NoSuchFile(String),
    /// The stream would not seek to the payload.
    SeekToStart(E),
    /// The payload could not be read in full.
    ReadFile(ReadExactError<E>),
}

} // verus!
