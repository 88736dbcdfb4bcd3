//! Failures: what is reported when an operation cannot go on.

use crate::text;
use vstd::prelude::*;
use vstd::utf8::*;

verus! {

/// A failure: what is said of it, and what is said of its cause if that is
/// reported too.
#[derive(Debug)]
pub struct Failure {
    pub message: String,
    pub cause: Option<String>,
}

/// A failure's texts.
#[verifier::ext_equal]
pub struct FailureView {
    pub message: Seq<char>,
    pub cause: Option<Seq<char>>,
}

impl View for Failure {
    type V = FailureView;

    open spec fn view(&self) -> FailureView {
        FailureView {
            message: self.message@,
            cause: match self.cause {
                Some(cause) => Some(cause@),
                None => None,
            },
        }
    }
}

/// A failure without a reported cause.
pub open spec fn failed(message: Seq<char>) -> FailureView {
    FailureView { message, cause: None }
}

/// The first of two faults.
pub open spec fn first<T>(fault: Option<T>, next: Option<T>) -> Option<T> {
    match fault {
        Some(fault) => Some(fault),
        None => next,
    }
}

/// A result tells of a fault: it is a success where there is none, and the
/// fault's failure where there is one.
pub open spec fn tells<T>(result: Result<T, Failure>, fault: Option<FailureView>) -> bool {
    match result {
        Ok(_) => fault is None,
        Err(failure) => fault == Some(failure@),
    }
}

/// A failure without a reported cause.
pub fn fail(message: String) -> (r: Failure)
    ensures
        r@ == failed(message@),
{
    Failure { message, cause: None }
}

/// A text must not hold a zero byte: the client library's texts end at the
/// first one.
pub open spec fn zero_fault(value: Seq<char>, message: Seq<char>) -> Option<FailureView> {
    let at = text::first_zero(encode_utf8(value));
    if at < encode_utf8(value).len() {
        Some(
            FailureView {
                message,
                cause: Some(
                    "nul byte found in provided data at position: "@ + text::decimal(at),
                ),
            },
        )
    } else {
        None
    }
}

/// Checks that a text holds no zero byte.
pub fn require_no_zero(value: &str, message: &str) -> (r: Result<(), Failure>)
    ensures
        tells(r, zero_fault(value@, message@)),
{
    match text::find_zero(value) {
        Some(at) => Err(
            Failure {
                message: message.to_owned(),
                cause: Some(
                    text::join2(
                        "nul byte found in provided data at position: ",
                        text::decimal_u64(at as u64).as_str(),
                    ),
                ),
            },
        ),
        None => Ok(()),
    }
}

/// A text is refused exactly where its UTF-8 form holds a zero byte, and the
/// report names the place of the first one.
pub proof fn law_zero_bytes_are_refused(value: Seq<char>, message: Seq<char>)
    ensures
        zero_fault(value, message) is None <==> !encode_utf8(value).contains(0),
        zero_fault(value, message) matches Some(fault) ==> fault.message == message && exists|
            at: int,
        |
            0 <= at < encode_utf8(value).len() && #[trigger] encode_utf8(value)[at] == 0 && (forall|
                i: int,
            |
                0 <= i < at ==> #[trigger] encode_utf8(value)[i] != 0) && fault.cause == Some(
                "nul byte found in provided data at position: "@ + text::decimal(at),
            ),
{
    let bytes = encode_utf8(value);
    text::law_first_zero_byte(bytes);
    if bytes.contains(0) {
        assert(bytes[text::first_zero(bytes)] == 0);
    }
}

/// Of two faults the first is told; there is none exactly where there is neither.
pub proof fn law_first_faults_are_told<T>(fault: Option<T>, next: Option<T>)
    ensures
        first(fault, next) is None <==> fault is None && next is None,
        fault is Some ==> first(fault, next) == fault,
        fault is None ==> first(fault, next) == next,
{
}

/// A result succeeds exactly where there is no fault, and otherwise fails with
/// the fault's texts.
pub proof fn law_results_tell_of_faults<T>(result: Result<T, Failure>, fault: Option<FailureView>)
    requires
        tells(result, fault),
    ensures
        result is Ok <==> fault is None,
        result matches Err(failure) ==> failure.message@ == fault->0.message && (match failure.cause {
            Some(cause) => fault->0.cause == Some(cause@),
            None => fault->0.cause is None,
        }),
{
}

} // verus!
