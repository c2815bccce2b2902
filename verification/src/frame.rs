//! The shape of a completed output frame: the lines a console command
//! produced, and the byte text they stand for once delivered.

use vstd::prelude::*;

verus! {

/// Byte value of the line terminator.
pub const NEWLINE: u8 = 10;

/// The mathematical view of a list of lines: each buffer seen as its byte sequence.
pub open spec fn lines_view(lines: Seq<Vec<u8>>) -> Seq<Seq<u8>> {
    lines.map_values(|l: Vec<u8>| l@)
}

/// A line together with its terminating newline.
pub open spec fn terminated(line: Seq<u8>) -> Seq<u8> {
    line + seq![NEWLINE]
}

/// The text a frame stands for: every line followed by one newline byte.
pub open spec fn joined_bytes(lines: Seq<Seq<u8>>) -> Seq<u8>
    decreases lines.len(),
{
    if lines.len() == 0 {
        Seq::<u8>::empty()
    } else {
        terminated(lines[0]) + joined_bytes(lines.drop_first())
    }
}

pub proof fn lemma_joined_push(lines: Seq<Seq<u8>>, l: Seq<u8>)
    ensures
        joined_bytes(lines.push(l)) == joined_bytes(lines) + terminated(l),
    decreases lines.len(),
{
    if lines.len() == 0 {
        assert(lines.push(l).drop_first() =~= Seq::<Seq<u8>>::empty());
        assert(lines.push(l)[0] == l);
        assert(joined_bytes(lines.push(l)) == terminated(l) + joined_bytes(
            lines.push(l).drop_first(),
        ));
        assert(joined_bytes(lines.push(l)) =~= joined_bytes(lines) + terminated(l));
    } else {
        assert(lines.push(l).drop_first() =~= lines.drop_first().push(l));
        lemma_joined_push(lines.drop_first(), l);
        assert(joined_bytes(lines.push(l)) =~= joined_bytes(lines) + terminated(l));
    }
}

/// A natural number clipped to what a `usize` can hold.
pub open spec fn sat_at_usize(n: nat) -> nat {
    if n > usize::MAX as nat {
        usize::MAX as nat
    } else {
        n
    }
}

/// Addition that sticks at `usize::MAX` instead of overflowing.
pub fn sat_add_usize(a: usize, b: usize) -> (r: usize)
    ensures
        r as nat == sat_at_usize(a as nat + b as nat),
{
    if a > usize::MAX - b {
        usize::MAX
    } else {
        a + b
    }
}

/// The output a single console command produced, completed and immutable.
///
/// `byte_length` caches the size of the delivered text (`joined_bytes` of the
/// lines), clipped to `usize::MAX` so that accumulation can never overflow.
pub struct OutputFrame {
    pub lines: Vec<Vec<u8>>,
    pub byte_length: usize,
}

impl View for OutputFrame {
    type V = Seq<Seq<u8>>;

    open spec fn view(&self) -> Seq<Seq<u8>> {
        lines_view(self.lines@)
    }
}

impl OutputFrame {
    /// The text this frame stands for.
    pub open spec fn joined(&self) -> Seq<u8> {
        joined_bytes(self@)
    }

    pub open spec fn well_formed(&self) -> bool {
        self.byte_length as nat == sat_at_usize(self.joined().len())
    }

    /// The delivered text itself, materialized: every line followed by one
    /// newline byte.
    pub fn joined_text(&self) -> (text: Vec<u8>)
        ensures
            text@ == self.joined(),
    {
        let mut text: Vec<u8> = Vec::new();
        proof {
            assert(self@.take(0) =~= Seq::<Seq<u8>>::empty());
        }
        let mut i: usize = 0;
        while i < self.lines.len()
            invariant
                i <= self.lines.len(),
                text@ == joined_bytes(self@.take(i as int)),
            decreases self.lines.len() - i,
        {
            proof {
                assert(self@.take(i + 1) =~= self@.take(i as int).push(self@[i as int]));
                lemma_joined_push(self@.take(i as int), self@[i as int]);
            }
            text.extend_from_slice(self.lines[i].as_slice());
            text.push(NEWLINE);
            proof {
                assert(text@ =~= joined_bytes(self@.take(i + 1)));
            }
            i += 1;
        }
        proof {
            assert(self@.take(self@.len() as int) =~= self@);
        }
        text
    }

    /// Builds a frame from its lines, computing the cached byte length.
    pub fn from_lines(lines: Vec<Vec<u8>>) -> (frame: OutputFrame)
        ensures
            frame@ == lines_view(lines@),
            frame.well_formed(),
    {
        let byte_length = joined_length(&lines);
        OutputFrame { lines, byte_length }
    }

}

/// The length of the delivered text of `lines`, clipped to `usize::MAX`.
pub fn joined_length(lines: &Vec<Vec<u8>>) -> (total: usize)
    ensures
        total as nat == sat_at_usize(joined_bytes(lines_view(lines@)).len()),
{
    let mut total: usize = 0;
    let mut i: usize = 0;
    while i < lines.len()
        invariant
            i <= lines.len(),
            total as nat == sat_at_usize(joined_bytes(lines_view(lines@).take(i as int)).len()),
        decreases lines.len() - i,
    {
        proof {
            assert(lines_view(lines@).take(i + 1) =~= lines_view(lines@).take(i as int).push(
                lines@[i as int]@,
            ));
            lemma_joined_push(lines_view(lines@).take(i as int), lines@[i as int]@);
        }
        total = sat_add_usize(total, lines[i].len());
        total = sat_add_usize(total, 1);
        i += 1;
    }
    proof {
        assert(lines_view(lines@).take(lines@.len() as int) =~= lines_view(lines@));
    }
    total
}

} // verus!
