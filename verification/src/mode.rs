//! Capability typing: zero-size type tags that select, at compile time,
//! which operations exist on a handle. There is no runtime check — an
//! operation a tag does not support simply does not compile.

use vstd::prelude::*;

verus! {

/// A marker implemented by every access-mode tag.
pub trait AccessMode {}

/// Tag for handles that may only read the stream.
pub struct ReadOnly;

/// Tag for handles that may both read and write the stream.
pub struct ReadWrite;

impl AccessMode for ReadOnly {}

impl AccessMode for ReadWrite {}

/// Capability predicate: tags whose handles may call the read-side
/// operations (`size`, `read_block`).
pub trait CanRead: AccessMode {}

/// Capability predicate: tags whose handles may call the write-side
/// operations (`append_block`, `update_block`, `reserve_block`).
pub trait CanWrite: AccessMode {}

impl CanRead for ReadOnly {}

impl CanRead for ReadWrite {}

impl CanWrite for ReadWrite {}

} // verus!
