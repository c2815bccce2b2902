//! Splitting a completed output frame into ordered, size-bounded delivery
//! chunks: a greedy first-fit packer over whole lines, which never reorders
//! text and flushes the pending buffer before a line that would not fit.

use crate::frame::{joined_bytes, terminated, OutputFrame, NEWLINE};
use vstd::prelude::*;

verus! {

/// The delivery size limit, mirroring the remote transport's maximum
/// message size.
pub const MAX_CHUNK_SIZE: usize = 4096;

/// One delivery unit cut out of a frame.
pub struct Chunk {
    pub text: Vec<u8>,
    pub sequence_index: usize,
}

/// The texts of a row of chunks, in emission order.
pub open spec fn chunk_texts(chunks: Seq<Chunk>) -> Seq<Seq<u8>> {
    chunks.map_values(|c: Chunk| c.text@)
}

/// Concatenation of byte sequences, in order, with nothing inserted.
pub open spec fn concat_bytes(parts: Seq<Seq<u8>>) -> Seq<u8>
    decreases parts.len(),
{
    if parts.len() == 0 {
        Seq::<u8>::empty()
    } else {
        parts[0] + concat_bytes(parts.drop_first())
    }
}

pub proof fn lemma_concat_push(parts: Seq<Seq<u8>>, p: Seq<u8>)
    ensures
        concat_bytes(parts.push(p)) == concat_bytes(parts) + p,
    decreases parts.len(),
{
    if parts.len() == 0 {
        assert(parts.push(p).drop_first() =~= Seq::<Seq<u8>>::empty());
        assert(parts.push(p)[0] == p);
        assert(concat_bytes(parts.push(p)) == p + concat_bytes(parts.push(p).drop_first()));
        assert(concat_bytes(parts.push(p)) =~= concat_bytes(parts) + p);
    } else {
        assert(parts.push(p).drop_first() =~= parts.drop_first().push(p));
        lemma_concat_push(parts.drop_first(), p);
        assert(concat_bytes(parts.push(p)) =~= concat_bytes(parts) + p);
    }
}

/// Whether `text` is exactly one terminated line of the frame: the only way a
/// chunk is allowed to exceed the size limit.
pub open spec fn is_single_line_chunk(lines: Seq<Seq<u8>>, text: Seq<u8>) -> bool {
    exists|j: int| 0 <= j < lines.len() && text == terminated(lines[j])
}

/// Splits `frame` into delivery chunks of at most `max` bytes each.
///
/// Concatenating the chunk texts in `sequence_index` order reproduces the
/// frame's delivered text exactly; only a line that alone exceeds `max` is
/// emitted above the limit, and then as a chunk of its own. A frame with no
/// lines yields no chunks at all, never an empty chunk.
pub fn chunk_frame(frame: &OutputFrame, max: usize) -> (chunks: Vec<Chunk>)
    ensures
        concat_bytes(chunk_texts(chunks@)) == frame.joined(),
        forall|k: int| 0 <= k < chunks@.len() ==> #[trigger] chunks@[k].sequence_index == k,
        forall|k: int| 0 <= k < chunks@.len() ==> #[trigger] chunks@[k].text@.len() > 0,
        forall|k: int|
            0 <= k < chunks@.len() ==> #[trigger] chunks@[k].text@.len() <= max
                || is_single_line_chunk(frame@, chunks@[k].text@),
        chunks@.len() == 0 <==> frame@.len() == 0,
{
    let mut chunks: Vec<Chunk> = Vec::new();
    let mut pending: Vec<u8> = Vec::new();
    let mut i: usize = 0;
    while i < frame.lines.len()
        invariant
            i <= frame.lines.len(),
            concat_bytes(chunk_texts(chunks@)) + pending@ == joined_bytes(frame@.take(i as int)),
            forall|k: int| 0 <= k < chunks@.len() ==> #[trigger] chunks@[k].sequence_index == k,
            forall|k: int| 0 <= k < chunks@.len() ==> #[trigger] chunks@[k].text@.len() > 0,
            forall|k: int|
                0 <= k < chunks@.len() ==> #[trigger] chunks@[k].text@.len() <= max
                    || is_single_line_chunk(frame@, chunks@[k].text@),
            pending@.len() <= max || is_single_line_chunk(frame@, pending@),
            i > 0 ==> pending@.len() > 0,
            i == 0 ==> pending@.len() == 0 && chunks@.len() == 0,
        decreases frame.lines.len() - i,
    {
        let line_len = frame.lines[i].len();
        if pending.len() > 0 && (pending.len() >= max || line_len >= max - pending.len()) {
            let done = pending;
            pending = Vec::new();
            let idx = chunks.len();
            let ghost emitted = chunks@;
            proof {
                lemma_concat_push(chunk_texts(emitted), done@);
            }
            chunks.push(Chunk { text: done, sequence_index: idx });
            proof {
                assert(chunk_texts(chunks@) =~= chunk_texts(emitted).push(chunks@[idx as int].text@));
            }
        }
        let ghost before = pending@;
        proof {
            assert(frame@.take(i + 1) =~= frame@.take(i as int).push(frame@[i as int]));
            crate::frame::lemma_joined_push(frame@.take(i as int), frame@[i as int]);
        }
        pending.extend_from_slice(frame.lines[i].as_slice());
        pending.push(NEWLINE);
        proof {
            assert(pending@ =~= before + terminated(frame@[i as int]));
            assert(concat_bytes(chunk_texts(chunks@)) + pending@ =~= joined_bytes(
                frame@.take(i + 1),
            ));
            if before.len() == 0 {
                assert(pending@ =~= terminated(frame@[i as int]));
            }
        }
        i += 1;
    }
    proof {
        assert(frame@.take(frame@.len() as int) =~= frame@);
    }
    if pending.len() > 0 {
        let idx = chunks.len();
        let ghost emitted = chunks@;
        proof {
            lemma_concat_push(chunk_texts(emitted), pending@);
        }
        chunks.push(Chunk { text: pending, sequence_index: idx });
        proof {
            assert(chunk_texts(chunks@) =~= chunk_texts(emitted).push(chunks@[idx as int].text@));
        }
        return chunks;
    }
    chunks
}

} // verus!
