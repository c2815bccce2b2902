//! The sentinel injector: every command handed to the console is followed by
//! the fixed marker line, written twice in direct succession, so that the end
//! of the command's output can be detected even when the command produces no
//! output at all.

use crate::frame::NEWLINE;
use vstd::prelude::*;
use vstd::string::*;

verus! {

/// The marker line written after every command: the bytes of `END_CMD`.
pub open spec fn sentinel_bytes() -> Seq<u8> {
    seq![69u8, 78u8, 68u8, 95u8, 67u8, 77u8, 68u8]
}

/// The process-wide sentinel marker, as a fresh buffer.
pub fn sentinel_marker() -> (m: Vec<u8>)
    ensures
        m@ == sentinel_bytes(),
{
    let m = ("END_CMD").as_bytes_vec();
    proof {
        reveal_strlit("END_CMD");
        assert(is_ascii("END_CMD"));
        is_ascii_spec_bytes("END_CMD");
        assert(m@ =~= sentinel_bytes());
    }
    m
}

/// The exact bytes the injector hands to the console for `command`: the
/// command line, then the marker line twice, each newline-terminated.
pub open spec fn injected_bytes(command: Seq<u8>, marker: Seq<u8>) -> Seq<u8> {
    command + seq![NEWLINE] + marker + seq![NEWLINE] + marker + seq![NEWLINE]
}

/// Frames one command for the console's input stream.
pub fn inject_sentinels(command: &[u8], marker: &[u8]) -> (out: Vec<u8>)
    ensures
        out@ == injected_bytes(command@, marker@),
{
    let mut out: Vec<u8> = Vec::new();
    out.extend_from_slice(command);
    out.push(NEWLINE);
    out.extend_from_slice(marker);
    out.push(NEWLINE);
    out.extend_from_slice(marker);
    out.push(NEWLINE);
    proof {
        assert(out@ =~= injected_bytes(command@, marker@));
    }
    out
}

} // verus!
