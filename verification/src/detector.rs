//! The estimator: its working buffer, and the two steps that it takes on either
//! side of the host's transforms.

use vstd::prelude::*;
use crate::binary32::{greater, scaled, ZERO};
use crate::band::{band_of, search_band};
use crate::peak::{
    find_peak, has_candidate, is_peak, lemma_candidate_has_peak, lemma_no_rise_no_peak, peak_lag,
    qualifies,
};

verus! {

/// One slot of the working buffer: a complex number as two patterns.
#[derive(Clone, Copy, Debug, PartialEq, Eq, Structural)]
pub struct Complex {
    pub re: u32,
    pub im: u32,
}

/// What `load` did with the working buffer.
#[derive(Clone, Copy, Debug, PartialEq, Eq, Structural)]
pub enum Staging {
    /// The frame was empty: nothing was touched, and there is no pitch.
    Empty,
    /// The frame was written into the buffer as it stood.
    Reused,
    /// The buffer had another length and was replaced before the frame was written.
    Reallocated,
}

/// The winning lag with the autocorrelation at the lag before it, at it and after
/// it: what the refinement of the lag is computed from.
#[derive(Clone, Copy, Debug, PartialEq, Eq, Structural)]
pub struct Peak {
    pub lag: usize,
    pub before: u32,
    pub at: u32,
    pub after: u32,
}

impl Peak {
    /// Twice the value at the peak less the two values beside it, in units of
    /// `2^-149`: the denominator of the refinement, before it is doubled.
    pub open spec fn curvature(self) -> int {
        2 * scaled(self.at) - scaled(self.before) - scaled(self.after)
    }

    /// The value after the peak less the value before it, in units of `2^-149`:
    /// the numerator of the refinement.
    pub open spec fn slope(self) -> int {
        scaled(self.after) - scaled(self.before)
    }
}

/// What an estimator is made of.
pub ghost struct State {
    pub sample_rate: u32,
    pub buffer: Seq<Complex>,
}

pub struct PitchDetector {
    sample_rate: u32,
    buffer: Vec<Complex>,
}

/// Complex zero.
pub open spec fn zero() -> Complex {
    Complex { re: ZERO, im: ZERO }
}

/// A buffer of `len` complex zeros.
pub open spec fn zeros(len: nat) -> Seq<Complex> {
    Seq::new(len, |i: int| zero())
}

/// The frame as the forward transform takes it: its `n` samples as real numbers,
/// then `n` zeros.
pub open spec fn padded(frame: Seq<u32>) -> Seq<Complex> {
    Seq::new(
        2 * frame.len(),
        |i: int|
            if i < frame.len() {
                Complex { re: frame[i], im: ZERO }
            } else {
                zero()
            },
    )
}

/// A new estimator.
pub open spec fn fresh(sample_rate: u32, buffer_size: nat) -> State {
    State { sample_rate, buffer: zeros(2 * buffer_size) }
}

/// The estimator after `frame` was loaded into `state`.
pub open spec fn loaded(state: State, frame: Seq<u32>) -> State {
    if frame.len() == 0 {
        state
    } else {
        State { sample_rate: state.sample_rate, buffer: padded(frame) }
    }
}

/// What loading `frame` into `state` does with the buffer.
pub open spec fn staging(state: State, frame: Seq<u32>) -> Staging {
    if frame.len() == 0 {
        Staging::Empty
    } else if state.buffer.len() == 2 * frame.len() {
        Staging::Reused
    } else {
        Staging::Reallocated
    }
}

/// The peak of the autocorrelation `ac`, whose entry `i` belongs to lag `i`, at the
/// given sample rate. `None` stands for "no pitch": the frame is empty, the band
/// holds no lag, or no lag in the band is a candidate.
pub open spec fn detection(sample_rate: u32, ac: Seq<u32>) -> Option<Peak> {
    match band_of(sample_rate, ac.len()) {
        None => None,
        Some(band) => match peak_lag(ac, band.start as int, band.end as int) {
            None => None,
            Some(lag) => Some(
                Peak { lag: lag as usize, before: ac[lag - 1], at: ac[lag], after: ac[lag + 1] },
            ),
        },
    }
}

/// Loading the same frame twice is loading it once, and the second time the buffer
/// is reused.
pub proof fn lemma_load_idempotent(state: State, frame: Seq<u32>)
    ensures
        loaded(loaded(state, frame), frame) == loaded(state, frame),
        frame.len() > 0 ==> staging(loaded(state, frame), frame) == Staging::Reused,
{
}

/// A frame of another length than the one before has the buffer replaced, and
/// leaves the estimator as it leaves a new one of any initial size: nothing of the
/// earlier frame is carried over.
pub proof fn lemma_resize_matches_fresh(
    state: State,
    first: Seq<u32>,
    second: Seq<u32>,
    buffer_size: nat,
)
    requires
        first.len() > 0,
        second.len() > 0,
        first.len() != second.len(),
    ensures
        staging(loaded(state, first), second) == Staging::Reallocated,
        loaded(loaded(state, first), second) == loaded(
            fresh(state.sample_rate, buffer_size),
            second,
        ),
{
}

/// Loading a frame does not change what is detected: an estimator that has seen
/// frames finds in an autocorrelation what a new one finds.
pub proof fn lemma_load_keeps_detection(state: State, frame: Seq<u32>, ac: Seq<u32>)
    ensures
        detection(loaded(state, frame).sample_rate, ac) == detection(state.sample_rate, ac),
{
}

/// An empty frame has no pitch, whatever the sample rate.
pub proof fn lemma_empty_frame_no_pitch(state: State, sample_rate: u32)
    ensures
        staging(state, Seq::<u32>::empty()) == Staging::Empty,
        detection(sample_rate, Seq::<u32>::empty()) is None,
{
}

/// A frame whose band holds no lag has no pitch, whatever it contains.
pub proof fn lemma_collapsed_band_no_pitch(sample_rate: u32, ac: Seq<u32>)
    requires
        band_of(sample_rate, ac.len()) is None,
    ensures
        detection(sample_rate, ac) is None,
{
}

/// An autocorrelation that is the same at every lag has no pitch.
pub proof fn lemma_flat_no_pitch(sample_rate: u32, ac: Seq<u32>)
    requires
        forall|i: int, j: int| 0 <= i < ac.len() && 0 <= j < ac.len() ==> ac[i] == ac[j],
    ensures
        detection(sample_rate, ac) is None,
{
    match band_of(sample_rate, ac.len()) {
        None => {},
        Some(band) => {
            assert forall|i: int| 1 <= i < ac.len() implies !greater(#[trigger] ac[i], ac[i - 1]) by {
                assert(ac[i] == ac[i - 1]);
            }
            lemma_no_rise_no_peak(ac, band.start as int, band.end as int);
        },
    }
}

/// At a peak the refinement is well defined in exact arithmetic: the lag is at
/// least 1 and has both neighbours in the frame, the denominator `curvature` is
/// positive, and the offset `slope / (2 * curvature)` lies strictly between -1/2
/// and 1/2. Where the three samples are finite these are statements about the
/// numbers themselves, so that only rounding can make a computed denominator vanish
/// or overflow.
pub proof fn lemma_peak_refines(sample_rate: u32, ac: Seq<u32>)
    requires
        detection(sample_rate, ac) is Some,
    ensures
        ({
            let peak = detection(sample_rate, ac)->Some_0;
            &&& 1 <= peak.lag
            &&& peak.lag + 1 < ac.len()
            &&& peak.before == ac[peak.lag - 1]
            &&& peak.at == ac[peak.lag as int]
            &&& peak.after == ac[peak.lag + 1]
            &&& 0 < peak.curvature()
            &&& -peak.curvature() < peak.slope() < peak.curvature()
        }),
{
    let band = band_of(sample_rate, ac.len())->Some_0;
    let lag = peak_lag(ac, band.start as int, band.end as int)->Some_0;
    assert(has_candidate(ac, band.start as int, band.end as int));
    let j = choose|j: int| band.start <= j < band.end && #[trigger] qualifies(ac, j);
    lemma_candidate_has_peak(ac, band.start as int, band.end as int, j);
    assert(is_peak(ac, band.start as int, band.end as int, lag));
}

fn zeroed(len: usize) -> (buffer: Vec<Complex>)
    ensures
        buffer@ == zeros(len as nat),
{
    let mut buffer: Vec<Complex> = Vec::with_capacity(len);
    let mut i: usize = 0;
    while i < len
        invariant
            i <= len,
            buffer@ == zeros(i as nat),
        decreases len - i,
    {
        buffer.push(Complex { re: ZERO, im: ZERO });
        i = i + 1;
        assert(buffer@ =~= zeros(i as nat));
    }
    buffer
}

impl View for PitchDetector {
    type V = State;

    closed spec fn view(&self) -> State {
        State { sample_rate: self.sample_rate, buffer: self.buffer@ }
    }
}

impl PitchDetector {
    /// An estimator for the given sample rate (a pattern, in Hz), with a zeroed
    /// working buffer for frames of `buffer_size` samples.
    pub fn new(sample_rate: u32, buffer_size: usize) -> (detector: PitchDetector)
        requires
            2 * buffer_size <= usize::MAX,
        ensures
            detector@ == fresh(sample_rate, buffer_size as nat),
    {
        let padded_len: usize = buffer_size * 2;
        PitchDetector { sample_rate, buffer: zeroed(padded_len) }
    }

    /// The sample rate that the estimator was made with.
    pub fn sample_rate(&self) -> (rate: u32)
        ensures
            rate == self@.sample_rate,
    {
        self.sample_rate
    }

    /// The working buffer.
    pub fn buffer(&self) -> (buffer: &Vec<Complex>)
        ensures
            buffer@ == self@.buffer,
    {
        &self.buffer
    }

    /// Takes a frame of `n` samples. An empty frame changes nothing. Any other is
    /// written into the first `n` slots of the working buffer as real numbers and
    /// followed by `n` zeros, after the buffer was replaced by one of `2n` slots
    /// if it had any other length.
    pub fn load(&mut self, audio_data: &[u32]) -> (done: Staging)
        requires
            2 * audio_data@.len() <= usize::MAX,
        ensures
            final(self)@ == loaded(old(self)@, audio_data@),
            done == staging(old(self)@, audio_data@),
            audio_data@.len() == 0 ==> done == Staging::Empty && final(self)@ == old(self)@,
            audio_data@.len() > 0 ==> final(self)@.buffer == padded(audio_data@),
            final(self)@.sample_rate == old(self)@.sample_rate,
    {
        let n: usize = audio_data.len();
        if n == 0 {
            return Staging::Empty;
        }
        let padded_len: usize = n * 2;
        let done = if self.buffer.len() != padded_len {
            self.buffer = zeroed(padded_len);
            Staging::Reallocated
        } else {
            Staging::Reused
        };
        let mut i: usize = 0;
        while i < n
            invariant
                i <= n,
                n == audio_data@.len(),
                padded_len == 2 * n,
                self.buffer@.len() == padded_len,
                self.sample_rate == old(self).sample_rate,
                forall|j: int| 0 <= j < i ==> self.buffer@[j] == padded(audio_data@)[j],
            decreases n - i,
        {
            self.buffer.set(i, Complex { re: audio_data[i], im: ZERO });
            i = i + 1;
        }
        while i < padded_len
            invariant
                n <= i <= padded_len,
                n == audio_data@.len(),
                padded_len == 2 * n,
                self.buffer@.len() == padded_len,
                self.sample_rate == old(self).sample_rate,
                forall|j: int| 0 <= j < i ==> self.buffer@[j] == padded(audio_data@)[j],
            decreases padded_len - i,
        {
            self.buffer.set(i, Complex { re: ZERO, im: ZERO });
            i = i + 1;
        }
        assert(self.buffer@ =~= padded(audio_data@));
        done
    }

    /// Finds the pitch period in an autocorrelation, whose entry `i` is the value at
    /// lag `i` for each of the frame's `n` lags: derives the band from the sample
    /// rate and `n`, and searches it for the peak. The estimator is not changed, and
    /// the result depends on nothing but the sample rate and the autocorrelation.
    pub fn detect(&self, autocorrelation: &[u32]) -> (found: Option<Peak>)
        ensures
            found == detection(self@.sample_rate, autocorrelation@),
            autocorrelation@.len() == 0 ==> found is None,
            band_of(self@.sample_rate, autocorrelation@.len()) is None ==> found is None,
            found matches Some(peak) ==> {
                &&& band_of(self@.sample_rate, autocorrelation@.len()) matches Some(band)
                &&& is_peak(autocorrelation@, band.start as int, band.end as int, peak.lag as int)
                &&& peak.before == autocorrelation@[peak.lag - 1]
                &&& peak.at == autocorrelation@[peak.lag as int]
                &&& peak.after == autocorrelation@[peak.lag + 1]
            },
    {
        match search_band(self.sample_rate, autocorrelation.len()) {
            None => None,
            Some(band) => match find_peak(autocorrelation, band.start, band.end) {
                None => None,
                Some(lag) => Some(
                    Peak {
                        lag,
                        before: autocorrelation[lag - 1],
                        at: autocorrelation[lag],
                        after: autocorrelation[lag + 1],
                    },
                ),
            },
        }
    }
}

} // verus!
