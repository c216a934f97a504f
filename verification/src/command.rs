//! Requests that clients send to the daemon.

use crate::nag::{Nag, NagV, all_nags_valid, clone_nags, nags_equal};
use vstd::prelude::*;

verus! {

/// A request to the daemon: exactly one variant per connection.
#[derive(Debug)]
pub enum Command {
    AddNag { nag: Nag },
    ListNags,
    SetNags { nags: Vec<Nag> },
}

/// The mathematical value of a [`Command`].
pub enum CommandV {
    AddNag { nag: NagV },
    ListNags,
    SetNags { nags: Seq<NagV> },
}

impl CommandV {
    /// Every reminder named by the request expires before year 10000.
    pub open spec fn is_valid(self) -> bool {
        match self {
            CommandV::AddNag { nag } => nag.is_valid(),
            CommandV::ListNags => true,
            CommandV::SetNags { nags } => all_nags_valid(nags),
        }
    }
}

impl View for Command {
    type V = CommandV;

    open spec fn view(&self) -> CommandV {
        match self {
            Command::AddNag { nag } => CommandV::AddNag { nag: nag@ },
            Command::ListNags => CommandV::ListNags,
            Command::SetNags { nags } => CommandV::SetNags { nags: nags.deep_view() },
        }
    }
}

impl DeepView for Command {
    type V = CommandV;

    open spec fn deep_view(&self) -> CommandV {
        self@
    }
}

impl Clone for Command {
    /// An equal request.
    fn clone(&self) -> (r: Self)
        ensures
            r@ == self@,
    {
        match self {
            Command::AddNag { nag } => Command::AddNag { nag: nag.clone() },
            Command::ListNags => Command::ListNags,
            Command::SetNags { nags } => Command::SetNags { nags: clone_nags(nags) },
        }
    }
}

impl PartialEq for Command {
    /// Structural equality.
    fn eq(&self, other: &Self) -> (r: bool) {
        match (self, other) {
            (Command::AddNag { nag: a }, Command::AddNag { nag: b }) => a.eq(b),
            (Command::ListNags, Command::ListNags) => true,
            (Command::SetNags { nags: a }, Command::SetNags { nags: b }) => nags_equal(a, b),
            _ => false,
        }
    }
}

impl vstd::std_specs::cmp::PartialEqSpecImpl for Command {
    open spec fn obeys_eq_spec() -> bool {
        true
    }

    open spec fn eq_spec(&self, other: &Self) -> bool {
        self@ == other@
    }
}

} // verus!
