use vstd::prelude::*;

verus! {

/// Size of one page and one physical frame, in bytes.
pub const PAGE_SIZE: usize = 4096;

/// Number of address bits inside a page.
pub const PAGE_SIZE_BITS: usize = 12;

/// Number of messages one mailbox holds.
pub const MAIL_BUFFER_SIZE: usize = 16;

/// Largest payload of one message, in bytes.
pub const MAIL_MAXLEN: usize = 256;

} // verus!
