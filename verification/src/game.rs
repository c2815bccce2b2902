//! What the bridge knows of the console process itself: the exact lines of
//! its dialect that the frame decoder must recognize — the startup banner
//! to discard and the error line its prompt echoes for each injected
//! sentinel — and the command that asks it for its help listing.

use crate::decoder::Decoder;
use vstd::prelude::*;
use vstd::string::*;

verus! {

/// The console process, as the bridge sees it from the outside.
pub struct Game;

impl Game {
    /// The startup banner line the console prints once it is ready.
    pub open spec fn banner_bytes() -> Seq<u8> {
        "[I] Server loaded. Type 'help' for help.".spec_bytes()
    }

    /// The error line the console echoes for every sentinel marker it does
    /// not understand: the line the decoder watches for, twice in direct
    /// succession, as the frame boundary.
    pub open spec fn boundary_bytes() -> Seq<u8> {
        "[E] Invalid command. Type 'help' for help.".spec_bytes()
    }

    /// The command whose output frame carries the console's help listing.
    pub open spec fn bootstrap_bytes() -> Seq<u8> {
        "help".spec_bytes()
    }

    pub fn startup_banner() -> (v: Vec<u8>)
        ensures
            v@ == Self::banner_bytes(),
    {
        ("[I] Server loaded. Type 'help' for help.").as_bytes_vec()
    }

    pub fn boundary_line() -> (v: Vec<u8>)
        ensures
            v@ == Self::boundary_bytes(),
    {
        ("[E] Invalid command. Type 'help' for help.").as_bytes_vec()
    }

    /// The command the writer loop issues unprompted on startup, so that
    /// the first compiled table exists before any command is routed.
    pub fn bootstrap_command() -> (v: Vec<u8>)
        ensures
            v@ == Self::bootstrap_bytes(),
    {
        ("help").as_bytes_vec()
    }

    /// A decoder tuned to this console's dialect: its boundary line as the
    /// end marker, and — unless the filter is disabled — its startup banner
    /// discarded.
    pub fn decoder(filter_banner: bool) -> (d: Decoder)
        ensures
            d.well_formed(),
            d@.marker == Self::boundary_bytes(),
            d@.banner == if filter_banner {
                Some(Self::banner_bytes())
            } else {
                None::<Seq<u8>>
            },
            d@.accumulated == Seq::<Seq<u8>>::empty(),
            d@.previous is None,
    {
        let banner = if filter_banner {
            Some(Self::startup_banner())
        } else {
            None
        };
        Decoder::new(Self::boundary_line(), banner)
    }
}

} // verus!
