use vstd::prelude::*;

use crate::audio::{buffers, concat_all, concat_chunks, total_len};

verus! {

/// Why synthesizing a text failed.
#[derive(Debug)]
pub enum SpeechError {
    /// The phonemizer rejected a chunk.
    PhonemizeFailed { chunk_text: String, cause: String },
    /// The engine failed on a chunk.
    ChunkInferenceFailed { chunk_text: String, cause: String },
}

/// Synthesis of one text, chunk by chunk: the audio of each chunk is collected in chunk
/// order, and the first failure ends the run and drops what was collected.
pub struct SpeechRun<T> {
    chunks: Vec<String>,
    pieces: Vec<Vec<T>>,
}

impl<T: Copy> SpeechRun<T> {
    /// The chunk texts.
    pub closed spec fn chunk_texts(&self) -> Seq<Seq<char>> {
        self.chunks@.map_values(|c: String| c@)
    }

    /// The audio collected so far, one buffer per chunk done.
    pub closed spec fn pieces(&self) -> Seq<Seq<T>> {
        buffers(self.pieces@)
    }

    /// No chunk has more than one piece of audio.
    pub closed spec fn wf(&self) -> bool {
        self.pieces@.len() <= self.chunks@.len()
    }

    /// Index of the next chunk to synthesize.
    pub open spec fn next_index(&self) -> int {
        self.pieces().len() as int
    }

    /// Whether every chunk has its audio.
    pub open spec fn is_done(&self) -> bool {
        self.next_index() >= self.chunk_texts().len()
    }

    /// A run over `chunks`, with no audio yet.
    pub fn new(chunks: Vec<String>) -> (r: Self)
        ensures
            r.wf(),
            r.chunk_texts() == chunks@.map_values(|c: String| c@),
            r.pieces() == Seq::<Seq<T>>::empty(),
    {
        let r = SpeechRun { chunks, pieces: Vec::new() };
        assert(r.pieces() =~= Seq::<Seq<T>>::empty());
        r
    }

    /// The text of the next chunk, or `None` once every chunk has its audio.
    pub fn pending(&self) -> (r: Option<String>)
        requires
            self.wf(),
        ensures
            r is None <==> self.is_done(),
            r matches Some(t) ==> t@ == self.chunk_texts()[self.next_index()],
    {
        let k = self.pieces.len();
        if k < self.chunks.len() {
            Some(self.chunks[k].clone())
        } else {
            None
        }
    }

    /// Takes in the audio of the next chunk.
    pub fn deliver(&mut self, audio: Vec<T>)
        requires
            old(self).wf(),
            !old(self).is_done(),
        ensures
            final(self).wf(),
            final(self).chunk_texts() == old(self).chunk_texts(),
            final(self).pieces() == old(self).pieces().push(audio@),
    {
        let ghost before = self.pieces@;
        self.pieces.push(audio);
        assert(buffers(self.pieces@) =~= buffers(before).push(audio@));
    }

    /// Ends the run on a failure of the next chunk, dropping the audio collected so far.
    pub fn fail(self, inference: bool, cause: String) -> (r: SpeechError)
        requires
            !self.is_done(),
        ensures
            inference ==> (r matches SpeechError::ChunkInferenceFailed { chunk_text, cause: c }
                && chunk_text@ == self.chunk_texts()[self.next_index()] && c@ == cause@),
            !inference ==> (r matches SpeechError::PhonemizeFailed { chunk_text, cause: c }
                && chunk_text@ == self.chunk_texts()[self.next_index()] && c@ == cause@),
    {
        let k = self.pieces.len();
        let chunk_text = self.chunks[k].clone();
        if inference {
            SpeechError::ChunkInferenceFailed { chunk_text, cause }
        } else {
            SpeechError::PhonemizeFailed { chunk_text, cause }
        }
    }

    /// The audio of the whole text: every chunk's audio, in chunk order, with nothing between.
    pub fn finish(self) -> (r: Vec<T>)
        requires
            self.is_done(),
        ensures
            r@ == concat_all(self.pieces()),
            r@.len() == total_len(self.pieces()),
    {
        concat_chunks(&self.pieces)
    }
}

} // verus!
