//! Reading the answer of the story API to one creation request.

use vstd::prelude::*;

verus! {

/// The one status code by which the story API confirms that a story was created.
pub const STATUS_CREATED: u16 = 201;

/// What came of one attempt to post a story.
#[derive(Clone, Copy, Debug, PartialEq, Eq, Structural)]
pub enum SubmissionResult {
    /// The story API answered with [`STATUS_CREATED`].
    Created,
    /// The story API answered with any other status, redirects included.
    Rejected(u16),
    /// No answer was obtained at all.
    TransportFailure,
}

impl SubmissionResult {
    /// The reading of an answer: `Some(status)` where the story API answered,
    /// `None` where the request brought no answer.
    pub open spec fn of(response: Option<u16>) -> SubmissionResult {
        match response {
            Some(status) => if status == STATUS_CREATED {
                SubmissionResult::Created
            } else {
                SubmissionResult::Rejected(status)
            },
            None => SubmissionResult::TransportFailure,
        }
    }

    /// Whether the attempt created a story, the only outcome after which the
    /// item's identifier is recorded.
    pub open spec fn spec_is_created(self) -> bool {
        self == SubmissionResult::Created
    }

    /// Reads the answer to a creation request.
    pub fn classify(response: Option<u16>) -> (result: SubmissionResult)
        ensures
            result == SubmissionResult::of(response),
    {
        match response {
            Some(status) => {
                if status == STATUS_CREATED {
                    SubmissionResult::Created
                } else {
                    SubmissionResult::Rejected(status)
                }
            },
            None => SubmissionResult::TransportFailure,
        }
    }

    #[verifier::when_used_as_spec(spec_is_created)]
    pub fn is_created(self) -> (created: bool)
        ensures
            created == self.spec_is_created(),
    {
        match self {
            SubmissionResult::Created => true,
            _ => false,
        }
    }
}

/// A redirect is no creation: the story API that answers with any status from
/// 300 to 399 has rejected the story.
pub proof fn lemma_redirect_is_rejected(status: u16)
    requires
        300 <= status <= 399,
    ensures
        SubmissionResult::of(Some(status)) == SubmissionResult::Rejected(status),
        !SubmissionResult::of(Some(status)).spec_is_created(),
{
}

/// Exactly one answer is a creation.
pub proof fn lemma_created_only_by_its_status(response: Option<u16>)
    ensures
        SubmissionResult::of(response).spec_is_created() <==> response == Some(STATUS_CREATED),
{
}

} // verus!
