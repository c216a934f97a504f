//! Replies that the daemon sends to clients.

use crate::error_code::{ErrorCode, code_name_of};
use crate::nag::{Nag, NagV, all_nags_valid, clone_nags, nags_equal};
use crate::text::{chars_to_string, push_str_chars};
use vstd::prelude::*;

verus! {

/// A reply from the daemon: success without payload, a failure descriptor,
/// or the current reminder list.
#[derive(Debug)]
pub enum Response {
    Okay,
    Error { code: ErrorCode, msg: Option<String> },
    NagList { nags: Vec<Nag> },
}

/// The mathematical value of a [`Response`].
pub enum ResponseV {
    Okay,
    Error { code: ErrorCode, msg: Option<Seq<char>> },
    NagList { nags: Seq<NagV> },
}

impl ResponseV {
    /// Every reminder carried by the reply expires before year 10000.
    pub open spec fn is_valid(self) -> bool {
        match self {
            ResponseV::Okay => true,
            ResponseV::Error { .. } => true,
            ResponseV::NagList { nags } => all_nags_valid(nags),
        }
    }
}

impl View for Response {
    type V = ResponseV;

    open spec fn view(&self) -> ResponseV {
        match self {
            Response::Okay => ResponseV::Okay,
            Response::Error { code, msg } => ResponseV::Error {
                code: *code,
                msg: match msg {
                    Some(m) => Some(m@),
                    None => None,
                },
            },
            Response::NagList { nags } => ResponseV::NagList { nags: nags.deep_view() },
        }
    }
}

impl DeepView for Response {
    type V = ResponseV;

    open spec fn deep_view(&self) -> ResponseV {
        self@
    }
}

impl Clone for Response {
    /// An equal reply.
    fn clone(&self) -> (r: Self)
        ensures
            r@ == self@,
    {
        match self {
            Response::Okay => Response::Okay,
            Response::Error { code, msg } => Response::Error {
                code: *code,
                msg: match msg {
                    Some(m) => Some(m.clone()),
                    None => None,
                },
            },
            Response::NagList { nags } => Response::NagList { nags: clone_nags(nags) },
        }
    }
}

impl PartialEq for Response {
    /// Structural equality.
    fn eq(&self, other: &Self) -> (r: bool) {
        match (self, other) {
            (Response::Okay, Response::Okay) => true,
            (
                Response::Error { code: c1, msg: m1 },
                Response::Error { code: c2, msg: m2 },
            ) => *c1 == *c2 && match (m1, m2) {
                (Some(a), Some(b)) => a.eq(b),
                (None, None) => true,
                _ => false,
            },
            (Response::NagList { nags: a }, Response::NagList { nags: b }) => nags_equal(a, b),
            _ => false,
        }
    }
}

impl vstd::std_specs::cmp::PartialEqSpecImpl for Response {
    open spec fn obeys_eq_spec() -> bool {
        true
    }

    open spec fn eq_spec(&self, other: &Self) -> bool {
        self@ == other@
    }
}

// ---------------------------------------------------------------------------
// Reading a reply on the client's side
// ---------------------------------------------------------------------------

/// The message shown for an `Error` reply:
/// `Error! <msg or "No Message"> (<code name>)`.
pub open spec fn error_message_of(code: ErrorCode, msg: Option<Seq<char>>) -> Seq<char> {
    "Error! "@ + (match msg {
        Some(m) => m,
        None => "No Message"@,
    }) + " ("@ + code_name_of(code) + ")"@
}

/// The reminder list a reply carries: an empty list for plain success, the
/// carried list for `NagList`, and the error message for `Error`.
pub fn nags_of_response(response: Response) -> (r: Result<Vec<Nag>, String>)
    ensures
        match r {
            Result::Ok(nags) => match response@ {
                ResponseV::Okay => nags.deep_view().len() == 0,
                ResponseV::NagList { nags: ns } => nags.deep_view() == ns,
                ResponseV::Error { .. } => false,
            },
            Result::Err(m) => match response@ {
                ResponseV::Error { code, msg } => m@ == error_message_of(code, msg),
                _ => false,
            },
        },
{
    match response {
        Response::Okay => Result::Ok(Vec::new()),
        Response::NagList { nags } => Result::Ok(nags),
        Response::Error { code, msg } => {
            let mut out: Vec<char> = Vec::new();
            push_str_chars(&mut out, "Error! ");
            match &msg {
                Some(m) => push_str_chars(&mut out, m.as_str()),
                None => push_str_chars(&mut out, "No Message"),
            }
            push_str_chars(&mut out, " (");
            push_str_chars(&mut out, code.name());
            push_str_chars(&mut out, ")");
            proof {
                assert(out@ =~= error_message_of(
                    code,
                    match msg {
                        Some(m) => Some(m@),
                        None => None,
                    },
                ));
            }
            Result::Err(chars_to_string(&out))
        },
    }
}

} // verus!
