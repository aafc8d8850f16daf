//! The vocabulary of the log-structured merge engine: its handle kinds, its
//! result codes and the names of its settings.
//!
//! The handle kinds cannot be built outside this module; they only name what
//! a handle points at.

#![allow(non_camel_case_types)]

use vstd::prelude::*;

verus! {

/// Handle kind of a compression method.
pub struct lsm_compress {
    opaque: (),
}

/// Handle kind of a compression factory.
pub struct lsm_compress_factory {
    opaque: (),
}

/// Handle kind of a cursor.
pub struct lsm_cursor {
    opaque: (),
}

/// Handle kind of a database connection.
pub struct lsm_db {
    opaque: (),
}

/// Handle kind of an environment.
pub struct lsm_env {
    opaque: (),
}

/// Handle kind of an open file.
pub struct lsm_file {
    opaque: (),
}

/// Handle kind of a mutex.
pub struct lsm_mutex {
    opaque: (),
}

/// Lock modes.
#[derive(Copy, Clone, PartialEq, Eq, Structural)]
pub enum Lock {
    Unlock,
    Shared,
    Excl,
}

/// Open modes.
#[derive(Copy, Clone, PartialEq, Eq, Structural)]
pub enum Open {
    ReadWrite,
    ReadOnly,
}

/// Mutex kinds.
#[derive(Copy, Clone, PartialEq, Eq, Structural)]
pub enum Mutex {
    Global,
    Heap,
}

/// Result codes of the engine.
#[derive(Copy, Clone, Debug, PartialEq, Eq, Structural)]
pub enum Error {
    /// Success (the engine's zero code).
    Success,
    Error,
    Busy,
    Nomem,
    IoErr,
    Corrupt,
    Full,
    CantOpen,
    Protocol,
    Misuse,
    NoEnt,
}

impl Error {
    /// `Ok(())` for the success code, the code itself as the error otherwise.
    pub fn ok(self) -> (r: Result<(), Self>)
        ensures
            self == Error::Success ==> r == Ok::<(), Error>(()),
            self != Error::Success ==> r == Err::<(), Error>(self),
    {
        match self {
            Error::Success => Ok(()),
            _ => Err(self),
        }
    }
}

/// Names of the engine's settings.
#[derive(Copy, Clone, PartialEq, Eq, Structural)]
pub enum Config {
    AutoFlush,
    PageSize,
    Safety,
    BlockSize,
    AutoWork,
    Mmap,
    UseLog,
    AutoMerge,
    MaxFreelist,
    MultipleProcesses,
    AutoCheckpoint,
    SetCompression,
    GetCompression,
    SetCompressionFactory,
    Readonly,
}

/// Durability levels.
#[derive(Copy, Clone, PartialEq, Eq, Structural)]
pub enum Safety {
    Off,
    Normal,
    Full,
}

/// Compression methods of the engine.
#[derive(Copy, Clone, PartialEq, Eq, Structural)]
pub enum Compression {
    Empty,
    /// No compression.
    Uncompressed,
    LZ4,
    Zstd,
}

/// Kinds of information the engine reports.
#[derive(Copy, Clone, PartialEq, Eq, Structural)]
pub enum Info {
    NumWrite,
    NumRead,
    DbStructure,
    LogStructure,
    ArrayStructure,
    PageAsciiDump,
    PageHexDump,
    Freelist,
    ArrayPages,
    CheckpointSize,
    TreeSize,
    FreelistSize,
    CompressionId,
}

/// Seek modes of a cursor.
#[derive(Copy, Clone, PartialEq, Eq, Structural)]
pub enum Seek {
    LEFast,
    LE,
    EQ,
    GE,
}

} // verus!
