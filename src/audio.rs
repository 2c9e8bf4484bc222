use vstd::prelude::*;

verus! {

/// The samples of all buffers, one buffer after another.
pub open spec fn concat_all<T>(bufs: Seq<Seq<T>>) -> Seq<T>
    decreases bufs.len(),
{
    if bufs.len() == 0 {
        Seq::empty()
    } else {
        concat_all(bufs.drop_last()) + bufs.last()
    }
}

/// Total number of samples in all buffers.
pub open spec fn total_len<T>(bufs: Seq<Seq<T>>) -> nat
    decreases bufs.len(),
{
    if bufs.len() == 0 {
        0
    } else {
        total_len(bufs.drop_last()) + bufs.last().len()
    }
}

/// Two channels, frame by frame: `left[i]` then `right[i]`.
pub open spec fn interleaved<T>(left: Seq<T>, right: Seq<T>) -> Seq<T> {
    Seq::new(2 * left.len(), |k: int| if k % 2 == 0 { left[k / 2] } else { right[k / 2] })
}

/// Every sample written to both channels.
pub open spec fn duplicated<T>(audio: Seq<T>) -> Seq<T> {
    Seq::new(2 * audio.len(), |k: int| audio[k / 2])
}

/// The views of a sequence of sample buffers.
pub open spec fn buffers<T>(v: Seq<Vec<T>>) -> Seq<Seq<T>> {
    v.map_values(|x: Vec<T>| x@)
}

/// The concatenation has as many samples as the buffers together.
pub proof fn lemma_concat_len<T>(bufs: Seq<Seq<T>>)
    ensures
        concat_all(bufs).len() == total_len(bufs),
    decreases bufs.len(),
{
    if bufs.len() > 0 {
        lemma_concat_len(bufs.drop_last());
    }
}

/// Filtering a channel into itself is duplication: a right channel equal to the left one
/// gives the same frames as writing each sample twice.
pub proof fn lemma_same_channels_duplicate<T>(audio: Seq<T>)
    ensures
        interleaved(audio, audio) == duplicated(audio),
{
    assert(interleaved(audio, audio) =~= duplicated(audio));
}

/// Joins per-chunk sample buffers, in order, with nothing between them.
pub fn concat_chunks<T: Copy>(chunks: &Vec<Vec<T>>) -> (r: Vec<T>)
    ensures
        r@ == concat_all(buffers(chunks@)),
        r@.len() == total_len(buffers(chunks@)),
{
    let mut out: Vec<T> = Vec::new();
    let mut k: usize = 0;
    while k < chunks.len()
        invariant
            k <= chunks@.len(),
            out@ == concat_all(buffers(chunks@).subrange(0, k as int)),
        decreases chunks@.len() - k,
    {
        let chunk = &chunks[k];
        let ghost before = out@;
        let mut i: usize = 0;
        while i < chunk.len()
            invariant
                i <= chunk@.len(),
                chunk == &chunks@[k as int],
                out@ == before + chunk@.subrange(0, i as int),
            decreases chunk@.len() - i,
        {
            out.push(chunk[i]);
            i = i + 1;
            assert(out@ =~= before + chunk@.subrange(0, i as int));
        }
        assert(chunk@.subrange(0, i as int) =~= chunk@);
        assert(buffers(chunks@).subrange(0, k + 1).drop_last() =~= buffers(chunks@).subrange(
            0,
            k as int,
        ));
        k = k + 1;
    }
    assert(buffers(chunks@).subrange(0, k as int) =~= buffers(chunks@));
    proof {
        lemma_concat_len(buffers(chunks@));
    }
    out
}

/// Writes every sample to both channels.
pub fn duplicate_channels<T: Copy>(audio: &Vec<T>) -> (r: Vec<T>)
    requires
        2 * audio@.len() <= usize::MAX,
    ensures
        r@ == duplicated(audio@),
{
    let mut out: Vec<T> = Vec::new();
    let mut i: usize = 0;
    while i < audio.len()
        invariant
            i <= audio@.len(),
            2 * audio@.len() <= usize::MAX,
            out@ == duplicated(audio@.subrange(0, i as int)),
        decreases audio@.len() - i,
    {
        let x = audio[i];
        out.push(x);
        out.push(x);
        i = i + 1;
        assert(out@ =~= duplicated(audio@.subrange(0, i as int)));
    }
    assert(audio@.subrange(0, i as int) =~= audio@);
    out
}

/// Writes `left` and `right` as the two channels, frame by frame.
pub fn interleave_channels<T: Copy>(left: &Vec<T>, right: &Vec<T>) -> (r: Vec<T>)
    requires
        left@.len() == right@.len(),
        2 * left@.len() <= usize::MAX,
    ensures
        r@ == interleaved(left@, right@),
{
    let mut out: Vec<T> = Vec::new();
    let mut i: usize = 0;
    while i < left.len()
        invariant
            i <= left@.len(),
            left@.len() == right@.len(),
            2 * left@.len() <= usize::MAX,
            out@ == interleaved(left@.subrange(0, i as int), right@.subrange(0, i as int)),
        decreases left@.len() - i,
    {
        out.push(left[i]);
        out.push(right[i]);
        i = i + 1;
        assert(out@ =~= interleaved(left@.subrange(0, i as int), right@.subrange(0, i as int)));
    }
    assert(left@.subrange(0, i as int) =~= left@);
    assert(right@.subrange(0, i as int) =~= right@);
    out
}

/// The samples to write for `audio`: as they are for mono output; for stereo, with
/// `shifted` as the right channel when one is given, else duplicated.
pub fn output_samples<T: Copy>(audio: &Vec<T>, mono: bool, shifted: Option<&Vec<T>>) -> (r: Vec<T>)
    requires
        2 * audio@.len() <= usize::MAX,
        shifted matches Some(s) ==> s@.len() == audio@.len(),
    ensures
        r@ == if mono {
            audio@
        } else {
            match shifted {
                Some(s) => interleaved(audio@, s@),
                None => duplicated(audio@),
            }
        },
{
    if mono {
        let mut out: Vec<T> = Vec::new();
        let mut i: usize = 0;
        while i < audio.len()
            invariant
                i <= audio@.len(),
                out@ == audio@.subrange(0, i as int),
            decreases audio@.len() - i,
        {
            out.push(audio[i]);
            i = i + 1;
            assert(out@ =~= audio@.subrange(0, i as int));
        }
        assert(audio@.subrange(0, i as int) =~= audio@);
        out
    } else {
        match shifted {
            Some(s) => interleave_channels(audio, s),
            None => duplicate_channels(audio),
        }
    }
}

} // verus!
