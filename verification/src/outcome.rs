//! What a completion says of its operation.
//!
//! The kernel reports each finished operation as one signed number: a byte
//! count, or an error code with its sign turned.

use crate::ring::CompletionEvent;
use vstd::prelude::*;

verus! {

/// The result of one operation, told apart.
#[derive(Clone, Copy, Debug, PartialEq, Eq, Structural)]
pub enum Outcome {
    /// The operation moved this many bytes.
    Transferred { tag: usize, bytes: usize },
    /// The operation failed with this error code.
    Failed { tag: usize, code: u32 },
}

/// A negative result is a failure with the code of its magnitude; any other
/// result is a byte count.
pub open spec fn outcome_of(event: CompletionEvent) -> Outcome {
    if event.result < 0 {
        Outcome::Failed { tag: event.tag, code: (-event.result) as u32 }
    } else {
        Outcome::Transferred { tag: event.tag, bytes: event.result as usize }
    }
}

impl Outcome {
    /// The tag of the operation.
    pub open spec fn spec_tag(self) -> usize {
        match self {
            Outcome::Transferred { tag, .. } => tag,
            Outcome::Failed { tag, .. } => tag,
        }
    }

    /// The tag of the operation.
    #[verifier::when_used_as_spec(spec_tag)]
    pub fn tag(self) -> (tag: usize)
        ensures
            tag == self.spec_tag(),
    {
        match self {
            Outcome::Transferred { tag, .. } => tag,
            Outcome::Failed { tag, .. } => tag,
        }
    }
}

/// Tells a completion's result apart.
pub fn classify(event: CompletionEvent) -> (outcome: Outcome)
    ensures
        outcome == outcome_of(event),
{
    if event.result < 0 {
        let magnitude: i64 = -(event.result as i64);
        Outcome::Failed { tag: event.tag, code: magnitude as u32 }
    } else {
        Outcome::Transferred { tag: event.tag, bytes: event.result as usize }
    }
}

/// Tells each completion's result apart, in order.
pub fn classify_all(events: &Vec<CompletionEvent>) -> (outcomes: Vec<Outcome>)
    ensures
        outcomes@ == events@.map_values(|event: CompletionEvent| outcome_of(event)),
{
    let mut outcomes: Vec<Outcome> = Vec::new();
    let mut i: usize = 0;
    while i < events.len()
        invariant
            i <= events@.len(),
            outcomes@ == events@.take(i as int).map_values(
                |event: CompletionEvent| outcome_of(event),
            ),
        decreases events@.len() - i,
    {
        outcomes.push(classify(events[i]));
        i += 1;
        assert(events@.take(i as int) =~= events@.take(i - 1).push(events@[i - 1]));
        assert(outcomes@ =~= events@.take(i as int).map_values(
            |event: CompletionEvent| outcome_of(event),
        ));
    }
    assert(events@.take(i as int) =~= events@);
    outcomes
}

/// The text that `nix::errno::Errno` displays for the error number `code`,
/// on the target the crate is built for: the name of the error, a colon and
/// a space, and its description. The number picks the error through a fixed
/// table, and a number that the table lacks picks the unknown error.
pub uninterp spec fn errno_display(code: i32) -> Seq<char>;

/// The number whose text describes the error code `code`: the code itself
/// where it is an error number, and zero, which the table lacks, beyond.
pub open spec fn described_number(code: u32) -> i32 {
    if code <= 0x7fff_ffff {
        code as i32
    } else {
        0
    }
}

/// Formats what `nix::errno::from_i32` makes of `code`. Believed of it: the
/// text is the one that `Display` for `nix::errno::Errno` writes for that
/// number, the same whenever the number is the same; and it is never empty,
/// since the colon and the space are always written.
#[verifier::external_body]
fn errno_text(code: i32) -> (text: String)
    ensures
        text@ == errno_display(code),
        text@.len() > 0,
{
    format!("{}", nix::errno::from_i32(code))
}

/// The error text of a failed operation; none for one that moved bytes. A
/// code beyond the error numbers is described as error number zero is.
pub fn describe(outcome: Outcome) -> (text: Option<String>)
    ensures
        text is Some <==> outcome is Failed,
        outcome matches Outcome::Failed { code, .. } ==> text matches Some(told) && told@
            == errno_display(described_number(code)) && told@.len() > 0,
{
    match outcome {
        Outcome::Transferred { .. } => None,
        Outcome::Failed { code, .. } => {
            let number: i32 = if code <= 0x7fff_ffff {
                code as i32
            } else {
                0
            };
            Some(errno_text(number))
        },
    }
}

} // verus!
