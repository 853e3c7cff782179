use vstd::prelude::*;

use crate::util::text::push_str;

verus! {

/// What a payload said about a point.
#[derive(PartialEq, Eq, Hash, Copy, Clone, Debug, Structural)]
pub enum ParasectPayloadAnswer {
    Good,
    Bad,
}

/// The result of running a payload on a point: an answer, or a reason to stop the search.
#[derive(PartialEq, Eq, Hash, Clone, Debug)]
pub enum ParasectPayloadResult {
    Continue(ParasectPayloadAnswer),
    Stop(String),
}

/// Why a search failed.
#[derive(PartialEq, Eq, Hash, Clone, Debug)]
pub enum ParasectError {
    /// A payload asked to stop, with its reason.
    PayloadError(String),
    /// The payload's answers do not describe good points followed by bad points.
    InconsistencyError(String),
}

impl ParasectPayloadAnswer {
    /// The text of the answer.
    pub open spec fn text_spec(&self) -> Seq<char> {
        match self {
            ParasectPayloadAnswer::Good => "Good"@,
            ParasectPayloadAnswer::Bad => "Bad"@,
        }
    }

    /// The text of the answer: `Good` or `Bad`.
    pub fn to_text(&self) -> (s: String)
        ensures
            s@ == self.text_spec(),
    {
        match self {
            ParasectPayloadAnswer::Good => String::from_str("Good"),
            ParasectPayloadAnswer::Bad => String::from_str("Bad"),
        }
    }
}

impl ParasectPayloadResult {
    /// The text of the result.
    pub open spec fn text_spec(&self) -> Seq<char> {
        match self {
            ParasectPayloadResult::Continue(a) => a.text_spec(),
            ParasectPayloadResult::Stop(s) => "Aborting ("@ + s@ + ")"@,
        }
    }

    /// The text of the result: the answer, or `Aborting (reason)`.
    pub fn to_text(&self) -> (s: String)
        ensures
            s@ == self.text_spec(),
    {
        match self {
            ParasectPayloadResult::Continue(a) => a.to_text(),
            ParasectPayloadResult::Stop(reason) => {
                let mut s = String::from_str("Aborting (");
                push_str(&mut s, reason.as_str());
                push_str(&mut s, ")");
                s
            },
        }
    }

    /// A copy of the result.
    pub fn duplicate(&self) -> (r: Self)
        ensures
            r == *self,
    {
        match self {
            ParasectPayloadResult::Continue(a) => ParasectPayloadResult::Continue(*a),
            ParasectPayloadResult::Stop(s) => ParasectPayloadResult::Stop(s.clone()),
        }
    }
}

/// The answer for a command that ran to its end: success is good, any other exit is bad.
pub fn answer_for_exit(success: bool) -> (r: ParasectPayloadResult)
    ensures
        r == ParasectPayloadResult::Continue(
            if success {
                ParasectPayloadAnswer::Good
            } else {
                ParasectPayloadAnswer::Bad
            },
        ),
{
    if success {
        ParasectPayloadResult::Continue(ParasectPayloadAnswer::Good)
    } else {
        ParasectPayloadResult::Continue(ParasectPayloadAnswer::Bad)
    }
}

} // verus!
