//! An owned-buffer inflater: callers hand over input and get owned output.
use vstd::prelude::*;

verus! {

/// Why inflating failed.
#[derive(Debug, Copy, Clone, PartialEq, Eq)]
pub enum InflateError {
    OutputLimitTooSmall { needed: usize, limit: usize },
    AlreadyFinished,
}

/// What finishing an inflater hands back.
#[derive(Debug, Clone, PartialEq, Eq)]
pub struct InflateOutcome {
    pub output: Vec<u8>,
    pub consumed: usize,
    pub finished: bool,
}

/// What one update reports.
#[derive(Debug, Copy, Clone, PartialEq, Eq)]
pub struct InflateProgress {
    pub consumed: usize,
    pub total_out: usize,
}

/// Collects the output of successive updates.
#[derive(Debug, Default)]
pub struct Inflater {
    output: Vec<u8>,
    finished: bool,
}

/// The inflater's state, as values.
pub struct InflaterModel {
    pub output: Seq<u8>,
    pub finished: bool,
}

impl View for Inflater {
    type V = InflaterModel;

    closed spec fn view(&self) -> InflaterModel {
        InflaterModel { output: self.output@, finished: self.finished }
    }
}

impl Inflater {
    /// An inflater with no output.
    pub fn new() -> (r: Self)
        ensures
            r@.output == Seq::<u8>::empty(),
            !r@.finished,
    {
        Inflater { output: Vec::new(), finished: false }
    }

    /// Takes the input; the bytes pass through to the output.
    pub fn update(&mut self, input: &[u8]) -> (r: Result<InflateProgress, InflateError>)
        ensures
            old(self)@.finished ==> r == Err::<InflateProgress, InflateError>(InflateError::AlreadyFinished) && final(self)@ == old(self)@,
            !old(self)@.finished ==> final(self)@.output == old(self)@.output + input@ && !final(self)@.finished
                && r == Ok::<InflateProgress, InflateError>(InflateProgress { consumed: input@.len() as usize, total_out: final(self)@.output.len() as usize }),
    {
        if self.finished {
            return Err(InflateError::AlreadyFinished);
        }
        crate::octets::extend_bytes(&mut self.output, input);
        Ok(InflateProgress { consumed: input.len(), total_out: self.output.len() })
    }

    /// Finishes and hands back everything that went through.
    pub fn finish(self) -> (r: Result<InflateOutcome, InflateError>)
        ensures
            r matches Ok(o) && o.output@ == self@.output && o.consumed == self@.output.len() && o.finished,
    {
        let consumed = self.output.len();
        Ok(InflateOutcome { output: self.output, consumed, finished: true })
    }
}

/// Inflates all input at once; the bytes pass through.
pub fn inflate_all(input: &[u8]) -> (r: Result<Vec<u8>, InflateError>)
    ensures
        r matches Ok(v) && v@ == input@,
{
    Ok(vstd::slice::slice_to_vec(input))
}

/// Inflates when the output fits in `limit` bytes.
pub fn inflate_with_output_limit(input: &[u8], limit: usize) -> (r: Result<Vec<u8>, InflateError>)
    ensures
        input@.len() > limit ==> r == Err::<Vec<u8>, InflateError>(InflateError::OutputLimitTooSmall { needed: input@.len() as usize, limit }),
        input@.len() <= limit ==> (r matches Ok(v) && v@ == input@),
{
    if input.len() > limit {
        return Err(InflateError::OutputLimitTooSmall { needed: input.len(), limit });
    }
    Ok(vstd::slice::slice_to_vec(input))
}

} // verus!
