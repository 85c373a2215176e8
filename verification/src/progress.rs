//! What a task reports: its progress, the updates that its subscribers read, and the errors that
//! they meet.

use crate::binary64::Binary64;
use vstd::prelude::*;

verus! {

/// How many updates a subscriber may leave unread before the oldest ones are dropped.
pub const UPDATE_BUFFER: usize = 16;

/// Either a measurable progress or one that cannot be measured.
#[derive(Debug, Clone, Copy, PartialEq, Eq, Structural)]
pub enum Progress {
    Determinate(Binary64),
    Indeterminate,
}

impl Progress {
    /// The progress with its number brought into the range from zero to one.
    pub open spec fn clamped(self) -> Progress {
        match self {
            Progress::Determinate(number) => Progress::Determinate(number.clamped()),
            Progress::Indeterminate => Progress::Indeterminate,
        }
    }

    /// A number from zero to one, or no number at all.
    pub open spec fn in_unit_range(self) -> bool {
        self matches Progress::Determinate(number) ==> number.in_unit_range()
    }

    /// A clamped progress is in the unit range.
    pub proof fn lemma_clamped(self)
        ensures
            self.clamped().in_unit_range(),
    {
        match self {
            Progress::Determinate(number) => {
                number.lemma_clamped();
            },
            Progress::Indeterminate => {},
        }
    }

    /// The number of a measurable progress.
    pub fn as_f64(&self) -> (number: Option<Binary64>)
        ensures
            number == (match *self {
                Progress::Determinate(value) => Some(value),
                Progress::Indeterminate => None,
            }),
    {
        match self {
            Progress::Determinate(value) => Some(*value),
            Progress::Indeterminate => None,
        }
    }

    /// Brings the number, if there is one, into the range from zero to one.
    pub fn clamp(self) -> (progress: Progress)
        ensures
            progress == self.clamped(),
            progress.in_unit_range(),
    {
        match self {
            Progress::Determinate(value) => Progress::Determinate(value.clamp_to_unit()),
            Progress::Indeterminate => Progress::Indeterminate,
        }
    }
}

/// Why a subscriber received no update.
#[derive(Debug, Clone, Copy, PartialEq, Eq, Structural)]
pub enum ProgressError {
    /// Too many updates have occurred since the last one was read, so some of them were dropped.
    Lagged,
    /// The token has been cancelled, no more updates are coming.
    Cancelled,
}

impl ProgressError {
    /// The error in words.
    pub fn message(&self) -> (text: &'static str)
        ensures
            text@ == (match *self {
                ProgressError::Lagged => "progress updates lagged"@,
                ProgressError::Cancelled => "the operation has been cancelled"@,
            }),
    {
        match self {
            ProgressError::Lagged => "progress updates lagged",
            ProgressError::Cancelled => "the operation has been cancelled",
        }
    }
}

/// The most specific of some status messages, which is the last one.
pub fn most_specific<S>(statuses: &Vec<S>) -> (status: &S)
    requires
        statuses@.len() > 0,
    ensures
        *status == statuses@.last(),
{
    &statuses[statuses.len() - 1]
}

/// What a subscriber reads when a task, or one below it, has changed.
#[derive(Debug)]
pub struct ProgressUpdate<S> {
    pub progress: Progress,
    /// The status messages from the task itself down to the deepest active one.
    pub statuses: Vec<S>,
    pub is_cancelled: bool,
}

impl<S> ProgressUpdate<S> {
    /// The most specific status message.
    pub fn status(&self) -> (status: &S)
        requires
            self.statuses@.len() > 0,
        ensures
            *status == self.statuses@.last(),
    {
        most_specific(&self.statuses)
    }
}

impl<S: Clone> Clone for ProgressUpdate<S> {
    fn clone(&self) -> (copy: Self)
        ensures
            copy.progress == self.progress,
            copy.is_cancelled == self.is_cancelled,
            copy.statuses@.len() == self.statuses@.len(),
            forall|k: int|
                #![trigger copy.statuses@[k]]
                0 <= k < self.statuses@.len() ==> cloned(self.statuses@[k], copy.statuses@[k]),
    {
        ProgressUpdate {
            progress: self.progress,
            statuses: self.statuses.clone(),
            is_cancelled: self.is_cancelled,
        }
    }
}

/// What ends a wait for the next update.
pub enum UpdateEvent<S> {
    /// The token was cancelled first.
    Cancelled,
    /// The channel handed out an update.
    Received(ProgressUpdate<S>),
    /// The channel has no sender any more.
    Closed,
    /// The channel dropped this many updates before they were read.
    Lagged(u64),
}

impl<S> UpdateEvent<S> {
    /// What a wait for the next update returns.
    pub open spec fn outcome(self) -> Result<ProgressUpdate<S>, ProgressError> {
        match self {
            UpdateEvent::Received(update) => Ok(update),
            UpdateEvent::Cancelled => Err(ProgressError::Cancelled),
            UpdateEvent::Closed => Err(ProgressError::Cancelled),
            UpdateEvent::Lagged(_) => Err(ProgressError::Lagged),
        }
    }
}

} // verus!
