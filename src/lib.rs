//! A threshold envelope around an age file key: a `threshold` stanza, one
//! wrapped-share stanza per recipient, and a `---` terminator; the checks made
//! before any share is wrapped; and the scan that decides which identity to try
//! on which stanza until enough shares are gathered.
use vstd::prelude::*;

pub mod decimal;
pub mod distribute;
pub mod envelope;
pub mod scan;
pub mod stanza;

verus! {

} // verus!
