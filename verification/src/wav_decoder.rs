//! The rules of the WAV decoder: which sample formats it takes, and how the
//! samples are cut into chunks.

use vstd::prelude::*;

verus! {

/// How the samples of a WAV file are stored.
#[derive(Clone, Copy, Debug, PartialEq, Eq, Structural)]
pub enum SampleFormat {
    Int,
    Real,
}

/// The format of a WAV file.
#[derive(Clone, Copy, Debug, PartialEq, Eq, Structural)]
pub struct WavFormat {
    pub channels: u16,
    pub sample_rate: u32,
    pub bits_per_sample: u16,
    pub sample_format: SampleFormat,
}

/// Why a WAV file is not decoded.
#[derive(Clone, Copy, Debug, PartialEq, Eq, Structural)]
pub enum WavError {
    NotInteger,
    NotSixteenBit,
    NotMono,
}

impl WavError {
    /// The text of the error.
    pub open spec fn text(&self) -> Seq<char> {
        match self {
            WavError::NotInteger => "Only integer PCM supported"@,
            WavError::NotSixteenBit => "Only 16-bit samples supported"@,
            WavError::NotMono => "Only mono audio supported"@,
        }
    }

    /// The text of the error as a string.
    pub fn message(&self) -> (s: String)
        ensures
            s@ == self.text(),
    {
        match self {
            WavError::NotInteger => "Only integer PCM supported".to_owned(),
            WavError::NotSixteenBit => "Only 16-bit samples supported".to_owned(),
            WavError::NotMono => "Only mono audio supported".to_owned(),
        }
    }
}

/// The verdict on a format: integer samples of 16 bits on one channel are
/// taken; the first of these that fails names the error.
pub open spec fn format_verdict(f: WavFormat) -> Result<(), WavError> {
    if f.sample_format != SampleFormat::Int {
        Err(WavError::NotInteger)
    } else if f.bits_per_sample != 16 {
        Err(WavError::NotSixteenBit)
    } else if f.channels != 1 {
        Err(WavError::NotMono)
    } else {
        Ok(())
    }
}

/// The chunks of `samples`: runs of `size` samples in order, the last one
/// shorter where the samples do not fill it.
pub open spec fn chunks_of(samples: Seq<i16>, size: int) -> Seq<Seq<i16>>
    decreases samples.len(),
{
    if samples.len() == 0 || size <= 0 {
        Seq::empty()
    } else if samples.len() <= size {
        seq![samples]
    } else {
        seq![samples.take(size)] + chunks_of(samples.skip(size), size)
    }
}

/// The chunks of a vector as values.
pub open spec fn chunk_views(v: Seq<Vec<i16>>) -> Seq<Seq<i16>> {
    Seq::new(v.len(), |i: int| v[i]@)
}

/// The decoder of WAV files.
pub struct WavDecoder;

impl WavDecoder {
    /// Checks that a format is one that the decoder takes.
    pub fn validate_wav_format(spec: &WavFormat) -> (r: Result<(), WavError>)
        ensures
            r == format_verdict(*spec),
    {
        if spec.sample_format != SampleFormat::Int {
            return Err(WavError::NotInteger);
        }
        if spec.bits_per_sample != 16 {
            return Err(WavError::NotSixteenBit);
        }
        if spec.channels != 1 {
            return Err(WavError::NotMono);
        }
        Ok(())
    }

    /// Cuts samples into chunks of `chunk_size` samples.
    pub fn split_chunks(samples: &Vec<i16>, chunk_size: usize) -> (r: Vec<Vec<i16>>)
        requires
            chunk_size > 0,
        ensures
            chunk_views(r@) == chunks_of(samples@, chunk_size as int),
    {
        let mut out: Vec<Vec<i16>> = Vec::new();
        let mut start: usize = 0;
        let n = samples.len();
        assert(samples@.skip(0) == samples@);
        assert(chunk_views(out@) =~= Seq::<Seq<i16>>::empty());
        while start < n
            invariant
                n == samples.len(),
                start <= n,
                chunk_size > 0,
                chunks_of(samples@, chunk_size as int) == chunk_views(out@) + chunks_of(
                    samples@.skip(start as int),
                    chunk_size as int,
                ),
            decreases n - start,
        {
            let end: usize = if n - start <= chunk_size {
                n
            } else {
                start + chunk_size
            };
            let mut chunk: Vec<i16> = Vec::new();
            let mut i: usize = start;
            while i < end
                invariant
                    start <= i <= end <= n,
                    n == samples.len(),
                    chunk@ == samples@.subrange(start as int, i as int),
                decreases end - i,
            {
                chunk.push(samples[i]);
                i += 1;
                assert(chunk@ == samples@.subrange(start as int, i as int));
            }
            let ghost rest = samples@.skip(start as int);
            let ghost before = chunk_views(out@);
            assert(chunk@ =~= rest.take(end - start));
            assert(rest.skip(end - start) =~= samples@.skip(end as int));
            if end == n {
                assert(rest.take(end - start) =~= rest);
                assert(chunks_of(samples@.skip(n as int), chunk_size as int) =~= Seq::<
                    Seq<i16>,
                >::empty());
            }
            out.push(chunk);
            assert(chunk_views(out@) =~= before.push(rest.take(end - start)));
            assert(chunks_of(samples@, chunk_size as int) =~= chunk_views(out@) + chunks_of(
                samples@.skip(end as int),
                chunk_size as int,
            ));
            start = end;
        }
        assert(chunks_of(samples@.skip(n as int), chunk_size as int) =~= Seq::<Seq<i16>>::empty());
        assert(chunk_views(out@) + Seq::<Seq<i16>>::empty() =~= chunk_views(out@));
        out
    }
}

} // verus!
