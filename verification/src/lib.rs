//! Developer utilities, verified: a string case converter (`scc`), a code
//! converter that recognises and decodes common encodings (`ucc`), and a
//! timestamp tool (`ts`), each of which can answer with Alfred Workflow
//! items (`alfred`).
//!
//! `strings` and `numbers` hold the character and number handling that the
//! tools share; `codecs` holds the encodings and the calls into the crates
//! that implement them.

pub mod strings;
pub mod numbers;
pub mod codecs;
pub mod alfred;
pub mod scc;
pub mod ucc;
pub mod ts;
