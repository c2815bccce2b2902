//! The bridge coordinator's decisions: which completed frames carry a help
//! listing and go to the table compiler instead of the chunker, which
//! incoming messages may drive the bridge at all, and the correlation
//! discipline — strictly alternating command issuance and frame consumption
//! — made an explicit state machine instead of caller etiquette.

use crate::command::{entries_view, remove_name, sort_by_name, start_name, CommandTable, EntryModel};
use crate::frame::{joined_bytes, terminated, OutputFrame};
use crate::sentinel::injected_bytes;
use vstd::prelude::*;
use vstd::string::*;

verus! {

/// The bytes of `Commands:` followed by a newline: the prefix the console's
/// help listing starts with.
pub open spec fn help_prefix() -> Seq<u8> {
    seq![67u8, 111u8, 109u8, 109u8, 97u8, 110u8, 100u8, 115u8, 58u8, 10u8]
}

/// The bytes of `Commands:`, as a fresh buffer.
pub fn help_prefix_line_vec() -> (v: Vec<u8>)
    ensures
        v@ == help_prefix().drop_last(),
{
    let v = ("Commands:").as_bytes_vec();
    proof {
        reveal_strlit("Commands:");
        assert(is_ascii("Commands:"));
        is_ascii_spec_bytes("Commands:");
        assert(v@ =~= help_prefix().drop_last());
    }
    v
}

/// Whether a byte slice starts with `p`.
pub fn starts_with(s: &[u8], p: &[u8]) -> (r: bool)
    ensures
        r == p@.is_prefix_of(s@),
{
    if s.len() < p.len() {
        assert(!p@.is_prefix_of(s@));
        return false;
    }
    let mut i: usize = 0;
    while i < p.len()
        invariant
            i <= p.len() <= s.len(),
            forall|k: int| 0 <= k < i ==> s@[k] == p@[k],
        decreases p.len() - i,
    {
        if s[i] != p[i] {
            proof {
                assert(s@.subrange(0, p@.len() as int)[i as int] != p@[i as int]);
            }
            return false;
        }
        i += 1;
    }
    proof {
        assert(s@.subrange(0, p@.len() as int) =~= p@);
    }
    true
}

/// Whether a completed frame is the console's help listing: its delivered
/// text starts with the `Commands:` line. Such a frame is routed to the
/// table compiler and never forwarded as chunks.
pub fn is_help_listing(frame: &OutputFrame) -> (r: bool)
    ensures
        r == help_prefix().is_prefix_of(frame.joined()),
{
    if frame.lines.len() == 0 {
        proof {
            assert(frame.joined().len() == 0);
        }
        return false;
    }
    let l0 = &frame.lines[0];
    proof {
        assert(frame@[0] == l0@);
        assert(frame.joined() == terminated(frame@[0]) + joined_bytes(frame@.drop_first()));
        assert(forall|j: int|
            0 <= j < l0@.len() ==> #[trigger] frame.joined()[j] == l0@[j]);
        assert(frame.joined()[l0@.len() as int] == 10u8);
        assert(frame.joined().len() > l0@.len());
    }
    let prefix_line = help_prefix_line_vec();
    if l0.len() >= 10 {
        let mut p = prefix_line;
        p.push(10);
        proof {
            assert(p@ =~= help_prefix());
        }
        let r = starts_with(l0.as_slice(), p.as_slice());
        proof {
            if r {
                assert(help_prefix().is_prefix_of(frame.joined())) by {
                    assert(frame.joined().subrange(0, 10) =~= help_prefix());
                }
            } else {
                if help_prefix().is_prefix_of(frame.joined()) {
                    assert(l0@.subrange(0, 10) =~= help_prefix());
                }
            }
        }
        r
    } else if l0.len() == 9 {
        let r = crate::decoder::bytes_eq(l0.as_slice(), prefix_line.as_slice());
        proof {
            if r {
                assert(help_prefix().is_prefix_of(frame.joined())) by {
                    assert(frame.joined().subrange(0, 10) =~= help_prefix());
                }
            } else {
                if help_prefix().is_prefix_of(frame.joined()) {
                    assert(l0@ =~= help_prefix().drop_last());
                }
            }
        }
        r
    } else {
        proof {
            if help_prefix().is_prefix_of(frame.joined()) {
                assert(frame.joined()[l0@.len() as int] == help_prefix()[l0@.len() as int]);
            }
        }
        false
    }
}

/// One listed entry after another: a newline, the name, a space, the
/// description.
pub open spec fn render_listing(entries: Seq<EntryModel>) -> Seq<u8>
    decreases entries.len(),
{
    if entries.len() == 0 {
        Seq::<u8>::empty()
    } else {
        seq![10u8] + entries[0].name + seq![32u8] + entries[0].description + render_listing(
            entries.drop_first(),
        )
    }
}

pub proof fn lemma_render_push(entries: Seq<EntryModel>, e: EntryModel)
    ensures
        render_listing(entries.push(e)) == render_listing(entries) + seq![10u8] + e.name
            + seq![32u8] + e.description,
    decreases entries.len(),
{
    if entries.len() == 0 {
        assert(entries.push(e).drop_first() =~= Seq::<EntryModel>::empty());
        assert(entries.push(e)[0] == e);
        assert(render_listing(entries.push(e)) == seq![10u8] + e.name + seq![32u8] + e.description
            + render_listing(entries.push(e).drop_first()));
        assert(render_listing(entries.push(e)) =~= render_listing(entries) + seq![10u8] + e.name
            + seq![32u8] + e.description);
    } else {
        assert(entries.push(e).drop_first() =~= entries.drop_first().push(e));
        lemma_render_push(entries.drop_first(), e);
        assert(render_listing(entries.push(e)) =~= render_listing(entries) + seq![10u8] + e.name
            + seq![32u8] + e.description);
    }
}

/// The text the bridge's own help command answers with: the `Commands:`
/// line, then one line per table entry in ascending name order, the bare
/// start alias left out.
pub fn help_text(table: &CommandTable) -> (out: Vec<u8>)
    ensures
        out@ == help_prefix().drop_last() + render_listing(
            sort_by_name(remove_name(table@, start_name())),
        ),
{
    let sorted = table.sorted_for_listing();
    let ghost sv = entries_view(sorted@);
    let mut out = help_prefix_line_vec();
    proof {
        assert(sv.take(0) =~= Seq::<EntryModel>::empty());
        assert(out@ =~= help_prefix().drop_last() + render_listing(sv.take(0)));
    }
    let mut i: usize = 0;
    while i < sorted.len()
        invariant
            i <= sorted@.len(),
            sv == entries_view(sorted@),
            sv == sort_by_name(remove_name(table@, start_name())),
            out@ == help_prefix().drop_last() + render_listing(sv.take(i as int)),
        decreases sorted@.len() - i,
    {
        proof {
            assert(sv.take(i + 1) =~= sv.take(i as int).push(sv[i as int]));
            lemma_render_push(sv.take(i as int), sv[i as int]);
        }
        let e = &sorted[i];
        out.push(10);
        out.extend_from_slice(e.name.as_slice());
        out.push(32);
        out.extend_from_slice(e.description.as_slice());
        proof {
            assert(e@ == sv[i as int]);
            assert(out@ =~= help_prefix().drop_last() + render_listing(sv.take(i + 1)));
        }
        i += 1;
    }
    proof {
        assert(sv.take(sv.len() as int) =~= sv);
    }
    out
}

/// Whether an incoming message may drive the bridge: only the configured
/// operator is obeyed, and in a group chat only when the message mentions
/// the bridge by name.
pub fn should_process_message(from_operator: bool, in_group: bool, mentions_bridge: bool) -> (r:
    bool)
    ensures
        r == (from_operator && (!in_group || mentions_bridge)),
{
    from_operator && (!in_group || mentions_bridge)
}

/// The at sign that introduces a mention.
pub const AT: u8 = 64;

/// Whether `text` mentions `name` starting at position `i`: an at sign
/// there, directly followed by the name.
pub open spec fn mention_at(text: Seq<u8>, name: Seq<u8>, i: int) -> bool {
    &&& 0 <= i
    &&& i + 1 + name.len() <= text.len()
    &&& text.subrange(i, i + 1 + name.len()) == seq![AT] + name
}

/// Whether the message text mentions the bridge by name anywhere.
pub fn mentions_name(text: &[u8], name: &[u8]) -> (r: bool)
    ensures
        r == exists|i: int| mention_at(text@, name@, i),
{
    if text.len() == 0 || name.len() > text.len() - 1 {
        proof {
            assert(forall|i: int| !mention_at(text@, name@, i));
        }
        return false;
    }
    let limit = text.len() - name.len() - 1;
    let mut i: usize = 0;
    loop
        invariant
            i <= limit + 1,
            limit == text@.len() - name@.len() - 1,
            name@.len() + 1 <= text@.len(),
            forall|j: int| 0 <= j < i ==> !mention_at(text@, name@, j),
        decreases limit + 1 - i,
    {
        if i > limit {
            proof {
                assert(forall|j: int| j > limit ==> !mention_at(text@, name@, j));
            }
            return false;
        }
        let hit = if text[i] == AT {
            let segment = vstd::slice::slice_subrange(text, i + 1, i + 1 + name.len());
            crate::decoder::bytes_eq(segment, name)
        } else {
            false
        };
        if hit {
            proof {
                assert(text@.subrange(i as int, i + 1 + name@.len()) =~= seq![AT] + name@);
                assert(mention_at(text@, name@, i as int));
            }
            return true;
        }
        proof {
            assert(!mention_at(text@, name@, i as int)) by {
                if mention_at(text@, name@, i as int) {
                    let whole = text@.subrange(i as int, i + 1 + name@.len());
                    assert(whole[0] == text@[i as int]);
                    assert((seq![AT] + name@)[0] == AT);
                    assert(text@.subrange(i + 1, i + 1 + name@.len()) =~= whole.drop_first());
                    assert(whole.drop_first() =~= name@);
                }
            }
        }
        i += 1;
    }
}

/// Whether a command is in flight: between issuing a command and consuming
/// its completed frame, no further command may reach the console.
#[derive(Clone, Copy, PartialEq, Eq, Structural)]
pub enum BridgePhase {
    Idle,
    AwaitingFrame,
}

/// The coordinator's correlation discipline as an explicit state machine:
/// commands are accepted only while idle, so command issuance and frame
/// consumption strictly alternate and every frame belongs to exactly one
/// command.
pub struct BridgeState {
    phase: BridgePhase,
}

impl BridgeState {
    pub closed spec fn phase(&self) -> BridgePhase {
        self.phase
    }

    pub fn new() -> (s: BridgeState)
        ensures
            s.phase() == BridgePhase::Idle,
    {
        BridgeState { phase: BridgePhase::Idle }
    }

    /// Accepts a command only while idle, handing back the exact bytes to
    /// write to the console — the command line followed by the marker line
    /// twice; a command submitted while a frame is in flight is refused.
    pub fn submit_command(&mut self, command: &[u8], marker: &[u8]) -> (r: Option<Vec<u8>>)
        ensures
            old(self).phase() == BridgePhase::Idle ==> final(self).phase()
                == BridgePhase::AwaitingFrame && (r matches Some(v) && v@ == injected_bytes(
                command@,
                marker@,
            )),
            old(self).phase() == BridgePhase::AwaitingFrame ==> final(self).phase()
                == BridgePhase::AwaitingFrame && r is None,
    {
        match self.phase {
            BridgePhase::Idle => {
                self.phase = BridgePhase::AwaitingFrame;
                Some(crate::sentinel::inject_sentinels(command, marker))
            },
            BridgePhase::AwaitingFrame => None,
        }
    }

    /// Marks the in-flight frame consumed; reports whether one was awaited
    /// at all.
    pub fn complete_frame(&mut self) -> (was_awaiting: bool)
        ensures
            final(self).phase() == BridgePhase::Idle,
            was_awaiting == (old(self).phase() == BridgePhase::AwaitingFrame),
    {
        let was_awaiting = match self.phase {
            BridgePhase::AwaitingFrame => true,
            BridgePhase::Idle => false,
        };
        self.phase = BridgePhase::Idle;
        was_awaiting
    }
}

} // verus!
