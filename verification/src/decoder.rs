//! The frame decoder: a state machine that turns the console's undelimited
//! line stream into discrete output frames. A frame ends when the designated
//! end-marker line arrives twice in direct succession; a configured startup
//! banner line is discarded; every other line is accumulated, one behind, so
//! that the two closing marker lines never enter the frame.

use crate::frame::{joined_bytes, lines_view, sat_add_usize, sat_at_usize, OutputFrame, NEWLINE};
use vstd::prelude::*;

verus! {

/// The mathematical state of the decoder.
#[verifier::ext_equal]
pub struct DecoderModel {
    pub marker: Seq<u8>,
    pub banner: Option<Seq<u8>>,
    pub accumulated: Seq<Seq<u8>>,
    pub previous: Option<Seq<u8>>,
}

/// One transition of the decoder: the new state and the frame it emits, if
/// the line closes one.
pub open spec fn step(s: DecoderModel, line: Seq<u8>) -> (DecoderModel, Option<Seq<Seq<u8>>>) {
    if s.banner == Some(line) {
        (s, None)
    } else if line == s.marker && s.previous == Some(s.marker) {
        (DecoderModel { accumulated: Seq::empty(), previous: None, ..s }, Some(s.accumulated))
    } else {
        (
            DecoderModel {
                accumulated: match s.previous {
                    Some(p) => s.accumulated.push(p),
                    None => s.accumulated,
                },
                previous: Some(line),
                ..s
            },
            None,
        )
    }
}

/// What one call of the decoder on `line` must do: move from `pre` to
/// `post` as `step` says, and emit exactly the frame `step` emits.
pub open spec fn decodes_to(
    pre: DecoderModel,
    line: Seq<u8>,
    post: DecoderModel,
    frame: Option<OutputFrame>,
) -> bool {
    &&& post == step(pre, line).0
    &&& match frame {
        Some(f) => step(pre, line).1 == Some(f@) && f.well_formed(),
        None => step(pre, line).1 is None,
    }
}

/// The decoder over raw console output lines.
pub struct Decoder {
    marker: Vec<u8>,
    banner: Option<Vec<u8>>,
    accumulated: Vec<Vec<u8>>,
    accumulated_length: usize,
    previous: Option<Vec<u8>>,
}

impl View for Decoder {
    type V = DecoderModel;

    closed spec fn view(&self) -> DecoderModel {
        DecoderModel {
            marker: self.marker@,
            banner: match self.banner {
                Some(b) => Some(b@),
                None => None,
            },
            accumulated: lines_view(self.accumulated@),
            previous: match self.previous {
                Some(p) => Some(p@),
                None => None,
            },
        }
    }
}

/// Byte-for-byte equality of two byte slices.
pub fn bytes_eq(a: &[u8], b: &[u8]) -> (r: bool)
    ensures
        r == (a@ == b@),
{
    if a.len() != b.len() {
        assert(a@ != b@);
        return false;
    }
    let mut i: usize = 0;
    while i < a.len()
        invariant
            i <= a.len(),
            a@.len() == b@.len(),
            forall|k: int| 0 <= k < i ==> a@[k] == b@[k],
        decreases a.len() - i,
    {
        if a[i] != b[i] {
            return false;
        }
        i += 1;
    }
    proof {
        assert(a@ =~= b@);
    }
    true
}

impl Decoder {
    /// A fresh decoder for the given end-marker line; `banner` is the one
    /// startup line to discard, or `None` to disable the banner filter.
    pub fn new(marker: Vec<u8>, banner: Option<Vec<u8>>) -> (d: Decoder)
        ensures
            d.well_formed(),
            d@.marker == marker@,
            d@.banner == match banner {
                Some(b) => Some(b@),
                None => None::<Seq<u8>>,
            },
            d@.accumulated == Seq::<Seq<u8>>::empty(),
            d@.previous is None,
    {
        let d = Decoder {
            marker,
            banner,
            accumulated: Vec::new(),
            accumulated_length: 0,
            previous: None,
        };
        proof {
            assert(lines_view(d.accumulated@) =~= Seq::<Seq<u8>>::empty());
        }
        d
    }

    /// The cached length never drifts from the accumulated lines.
    pub closed spec fn well_formed(&self) -> bool {
        self.accumulated_length as nat == sat_at_usize(
            joined_bytes(lines_view(self.accumulated@)).len(),
        )
    }

    /// Feeds one line, already free of terminal escape codes and of its
    /// trailing newline, to the decoder.
    pub fn advance(&mut self, line: Vec<u8>) -> (frame: Option<OutputFrame>)
        requires
            old(self).well_formed(),
        ensures
            final(self).well_formed(),
            decodes_to(old(self)@, line@, final(self)@, frame),
    {
        let is_banner = match &self.banner {
            Some(b) => bytes_eq(b.as_slice(), line.as_slice()),
            None => false,
        };
        if is_banner {
            return None;
        }
        let line_is_marker = bytes_eq(self.marker.as_slice(), line.as_slice());
        let previous_is_marker = match &self.previous {
            Some(p) => bytes_eq(self.marker.as_slice(), p.as_slice()),
            None => false,
        };
        if line_is_marker && previous_is_marker {
            let mut lines: Vec<Vec<u8>> = Vec::new();
            core::mem::swap(&mut lines, &mut self.accumulated);
            let byte_length = self.accumulated_length;
            self.accumulated_length = 0;
            self.previous = None;
            proof {
                assert(lines_view(self.accumulated@) =~= Seq::<Seq<u8>>::empty());
            }
            let frame = OutputFrame { lines, byte_length };
            return Some(frame);
        }
        let displaced = self.previous.take();
        match displaced {
            Some(p) => {
                let ghost before = self.accumulated@;
                proof {
                    crate::frame::lemma_joined_push(lines_view(before), p@);
                }
                self.accumulated_length = sat_add_usize(self.accumulated_length, p.len());
                self.accumulated_length = sat_add_usize(self.accumulated_length, 1);
                self.accumulated.push(p);
                proof {
                    assert(lines_view(self.accumulated@) =~= lines_view(before).push(
                        self.accumulated@[before.len() as int]@,
                    ));
                }
            },
            None => (),
        }
        self.previous = Some(line);
        None
    }

    /// Strips terminal escape codes and the trailing newline from one raw
    /// output line and feeds the cleaned line to the decoder. When stripping
    /// fails, an empty placeholder line is fed instead, so that one garbled
    /// line never aborts the stream.
    pub fn advance_raw(&mut self, raw: &[u8]) -> (frame: Option<OutputFrame>)
        requires
            old(self).well_formed(),
        ensures
            final(self).well_formed(),
            decodes_to(old(self)@, chopped(stripped_of(raw@)), final(self)@, frame) || decodes_to(
                old(self)@,
                Seq::<u8>::empty(),
                final(self)@,
                frame,
            ),
    {
        match strip_codes(raw) {
            Some(mut line) => {
                if line.len() > 0 && line[line.len() - 1] == NEWLINE {
                    line.pop();
                    proof {
                        assert(line@ =~= chopped(stripped_of(raw@)));
                    }
                }
                self.advance(line)
            },
            None => self.advance(Vec::new()),
        }
    }
}

/// A line without its trailing newline, if it carries one.
pub open spec fn chopped(line: Seq<u8>) -> Seq<u8> {
    if line.len() > 0 && line.last() == NEWLINE {
        line.drop_last()
    } else {
        line
    }
}

/// The bytes that escape-stripping leaves of `raw`: a pure function of the
/// input bytes, named here rather than written out.
pub uninterp spec fn stripped_of(raw: Seq<u8>) -> Seq<u8>;

/// Relies on strip_ansi_escapes::strip: it removes ANSI escape sequences and
/// returns the remaining bytes, a result that depends on the input bytes
/// alone; `None` stands for its error case.
#[verifier::external_body]
fn strip_codes(raw: &[u8]) -> (r: Option<Vec<u8>>)
    ensures
        r matches Some(v) ==> v@ == stripped_of(raw@),
{
    match strip_ansi_escapes::strip(raw) {
        Ok(v) => Some(v),
        Err(_) => None,
    }
}

/// The decoder run over a whole sequence of lines: the final state, and
/// every frame emitted on the way, in order.
pub open spec fn run(s: DecoderModel, lines: Seq<Seq<u8>>) -> (DecoderModel, Seq<Seq<Seq<u8>>>)
    decreases lines.len(),
{
    if lines.len() == 0 {
        (s, Seq::empty())
    } else {
        let first = step(s, lines[0]);
        let rest = run(first.0, lines.drop_first());
        (
            rest.0,
            match first.1 {
                Some(f) => seq![f] + rest.1,
                None => rest.1,
            },
        )
    }
}

/// The line the decoder still holds back, as a sequence of zero or one lines.
pub open spec fn pending_lines(previous: Option<Seq<u8>>) -> Seq<Seq<u8>> {
    match previous {
        Some(p) => seq![p],
        None => Seq::empty(),
    }
}

/// Running the decoder distributes over concatenation of the input.
pub proof fn lemma_run_append(s: DecoderModel, a: Seq<Seq<u8>>, b: Seq<Seq<u8>>)
    ensures
        run(s, a + b).0 == run(run(s, a).0, b).0,
        run(s, a + b).1 == run(s, a).1 + run(run(s, a).0, b).1,
    decreases a.len(),
{
    if a.len() == 0 {
        assert(a + b =~= b);
        assert(run(s, a).1 + run(run(s, a).0, b).1 =~= run(s, b).1);
    } else {
        assert((a + b).drop_first() =~= a.drop_first() + b);
        assert((a + b)[0] == a[0]);
        lemma_run_append(step(s, a[0]).0, a.drop_first(), b);
        assert(run(s, a + b).1 =~= run(s, a).1 + run(run(s, a).0, b).1);
    }
}

/// Lines that never equal the marker and never match the banner emit no
/// frame: they pile up in order, the newest one held back.
pub proof fn lemma_run_plain(s: DecoderModel, lines: Seq<Seq<u8>>)
    requires
        lines.len() > 0,
        forall|i: int| 0 <= i < lines.len() ==> lines[i] != s.marker,
        forall|i: int| 0 <= i < lines.len() ==> s.banner != Some(lines[i]),
    ensures
        run(s, lines).1 == Seq::<Seq<Seq<u8>>>::empty(),
        run(s, lines).0 == (DecoderModel {
            accumulated: s.accumulated + pending_lines(s.previous) + lines.drop_last(),
            previous: Some(lines.last()),
            ..s
        }),
    decreases lines.len(),
{
    let s1 = step(s, lines[0]).0;
    assert(s1.accumulated =~= s.accumulated + pending_lines(s.previous));
    if lines.len() == 1 {
        assert(lines.drop_first() =~= Seq::<Seq<u8>>::empty());
        assert(run(s1, lines.drop_first()) == (s1, Seq::<Seq<Seq<u8>>>::empty()));
        assert(lines.drop_last() =~= Seq::<Seq<u8>>::empty());
        assert(run(s, lines).0 =~= DecoderModel {
            accumulated: s.accumulated + pending_lines(s.previous) + lines.drop_last(),
            previous: Some(lines.last()),
            ..s
        });
    } else {
        assert(forall|i: int|
            0 <= i < lines.drop_first().len() ==> lines.drop_first()[i] == lines[i + 1]);
        lemma_run_plain(s1, lines.drop_first());
        assert(lines.drop_first().last() == lines.last());
        assert(s1.accumulated + pending_lines(s1.previous) + lines.drop_first().drop_last()
            =~= s.accumulated + pending_lines(s.previous) + lines.drop_last());
        assert(run(s, lines).0 =~= DecoderModel {
            accumulated: s.accumulated + pending_lines(s.previous) + lines.drop_last(),
            previous: Some(lines.last()),
            ..s
        });
        assert(run(s, lines).1 =~= Seq::<Seq<Seq<u8>>>::empty());
    }
}

/// Two marker lines in direct succession close the frame: everything the
/// decoder holds, the held-back line included, is emitted, and the state is
/// reset.
pub proof fn lemma_run_close(s: DecoderModel)
    requires
        s.banner != Some(s.marker),
        s.previous != Some(s.marker),
    ensures
        run(s, seq![s.marker, s.marker]).1 == seq![s.accumulated + pending_lines(s.previous)],
        run(s, seq![s.marker, s.marker]).0 == (DecoderModel {
            accumulated: Seq::empty(),
            previous: None,
            ..s
        }),
{
    let t = seq![s.marker, s.marker];
    assert(t[0] == s.marker);
    assert(t.drop_first() =~= seq![s.marker]);
    let s1 = step(s, s.marker).0;
    assert(s1.accumulated =~= s.accumulated + pending_lines(s.previous));
    assert(s1.previous == Some(s.marker));
    let s2 = step(s1, s.marker).0;
    assert(step(s1, s.marker).1 == Some(s1.accumulated));
    assert(seq![s.marker].drop_first() =~= Seq::<Seq<u8>>::empty());
    assert(run(s2, seq![s.marker].drop_first()) == (s2, Seq::<Seq<Seq<u8>>>::empty()));
    assert(run(s1, t.drop_first()).1 =~= seq![s1.accumulated]);
    assert(run(s1, t.drop_first()).0 == s2);
    assert(run(s, t).1 =~= seq![s.accumulated + pending_lines(s.previous)]);
    assert(run(s, t).0 =~= DecoderModel { accumulated: Seq::empty(), previous: None, ..s });
}

/// Frame round-trip: from a fresh state, any run of lines that never equals
/// the marker line (and never matches the banner), closed by the marker line
/// twice in direct succession, decodes to exactly one frame that holds
/// exactly those lines, in order, and leaves the decoder fresh again.
pub proof fn lemma_frame_round_trip(s: DecoderModel, lines: Seq<Seq<u8>>)
    requires
        s.accumulated == Seq::<Seq<u8>>::empty(),
        s.previous is None,
        forall|i: int| 0 <= i < lines.len() ==> lines[i] != s.marker,
        forall|i: int| 0 <= i < lines.len() ==> s.banner != Some(lines[i]),
        s.banner != Some(s.marker),
    ensures
        run(s, lines + seq![s.marker, s.marker]).1 == seq![lines],
        run(s, lines + seq![s.marker, s.marker]).0 == (DecoderModel {
            accumulated: Seq::empty(),
            previous: None,
            ..s
        }),
{
    let tail = seq![s.marker, s.marker];
    lemma_run_append(s, lines, tail);
    if lines.len() == 0 {
        lemma_run_close(s);
        assert(s.accumulated + pending_lines(s.previous) =~= lines);
        assert(run(s, lines + tail).1 =~= seq![lines]);
    } else {
        lemma_run_plain(s, lines);
        let sa = run(s, lines).0;
        lemma_run_close(sa);
        assert(sa.accumulated + pending_lines(sa.previous) =~= lines);
        assert(run(s, lines + tail).1 =~= seq![lines]);
    }
}

} // verus!
