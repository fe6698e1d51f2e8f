//! `NONE` codec: payload bytes are returned verbatim.

use crate::error::{Error, ErrorView, viewed};
use crate::text::{Text, dec};
use vstd::prelude::*;

verus! {

/// What decoding a stored payload answers.
pub open spec fn stored(src: Seq<u8>, cap: nat) -> Result<Seq<u8>, ErrorView> {
    if src.len() > cap {
        Err(
            ErrorView::Decode {
                codec: "none"@,
                message: "payload size "@ + dec(src.len()) + " exceeds cap "@ + dec(cap),
            },
        )
    } else {
        Ok(src)
    }
}

/// Return the payload, unless it is larger than `cap`.
pub fn decompress(src: &[u8], cap: usize) -> (r: Result<Vec<u8>, Error>)
    ensures
        viewed(r) == stored(src@, cap as nat),
{
    if src.len() > cap {
        return Err(
            Error::Decode {
                codec: "none",
                message: Text::of("payload size ").num(src.len() as u64).str(" exceeds cap ").num(
                    cap as u64,
                ).done(),
            },
        );
    }
    Ok(vstd::slice::slice_to_vec(src))
}

} // verus!
