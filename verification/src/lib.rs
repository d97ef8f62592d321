//! Verified logic of a small set of Unix command-line tools (cat, wc, head,
//! tail, grep, ls, mkdir) and of a minimal HTTP/1.x request parser and
//! response writer.
pub mod files;
pub mod grep;
pub mod headers;
pub mod http;
pub mod tail;
pub mod text;
