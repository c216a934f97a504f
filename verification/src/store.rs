//! The shared reminder store and the request dispatch.
//!
//! The daemon owns one [`NagStore`] behind one exclusive lock and shares it
//! between the connection handlers and the expiry scan. Each method here is
//! one whole-store critical section: the caller acquires the lock, calls the
//! method, and releases the lock without suspending in between; in
//! particular, notifications for what `remove_expired` returns are launched
//! only after release.

use crate::command::{Command, CommandV};
use crate::error_code::ErrorCode;
use crate::json::{decode_command, parse_command};
use crate::nag::{Nag, NagV, clone_nags};
use crate::response::{Response, ResponseV};
use crate::time::Timestamp;
use vstd::prelude::*;

verus! {

/// The single authoritative, ordered collection of active reminders.
pub struct NagStore {
    nags: Vec<Nag>,
}

impl View for NagStore {
    type V = Seq<NagV>;

    closed spec fn view(&self) -> Seq<NagV> {
        self.nags.deep_view()
    }
}

/// What `add` does to the store's contents.
pub open spec fn spec_add(s: Seq<NagV>, n: NagV) -> Seq<NagV> {
    s.push(n)
}

/// What `replace` leaves in the store.
pub open spec fn spec_replace(s: Seq<NagV>, ns: Seq<NagV>) -> Seq<NagV> {
    ns
}

/// What `list` returns: the contents in internal order.
pub open spec fn spec_list(s: Seq<NagV>) -> Seq<NagV> {
    s
}

/// The reminders of `s` whose end time is at or before `now`, in order.
pub open spec fn expired_of(s: Seq<NagV>, now: u64) -> Seq<NagV>
    decreases s.len(),
{
    if s.len() == 0 {
        seq![]
    } else {
        expired_of(s.drop_last(), now) + (if s.last().end_time <= now {
            seq![s.last()]
        } else {
            seq![]
        })
    }
}

/// The reminders of `s` still pending after `now`, in order.
pub open spec fn remaining_of(s: Seq<NagV>, now: u64) -> Seq<NagV>
    decreases s.len(),
{
    if s.len() == 0 {
        seq![]
    } else {
        remaining_of(s.drop_last(), now) + (if s.last().end_time > now {
            seq![s.last()]
        } else {
            seq![]
        })
    }
}

impl NagStore {
    /// An empty store.
    pub fn new() -> (r: Self)
        ensures
            r@ == Seq::<NagV>::empty(),
    {
        let r = NagStore { nags: Vec::new() };
        proof {
            assert(r@ =~~= Seq::<NagV>::empty());
        }
        r
    }

    /// Appends `nag` at the end: no deduplication and no validation of the
    /// end time; a past time is accepted and expires on the next scan.
    pub fn add(&mut self, nag: Nag)
        ensures
            final(self)@ == spec_add(old(self)@, nag@),
    {
        self.nags.push(nag);
        proof {
            assert(final(self)@ =~~= spec_add(old(self)@, nag@));
        }
    }

    /// A snapshot of the current reminders, in internal (insertion) order;
    /// the store is not changed.
    pub fn list(&self) -> (r: Vec<Nag>)
        ensures
            r.deep_view() == spec_list(self@),
    {
        clone_nags(&self.nags)
    }

    /// Atomically discards the whole collection and installs `nags`,
    /// keeping the caller's order.
    pub fn replace(&mut self, nags: Vec<Nag>)
        ensures
            final(self)@ == spec_replace(old(self)@, nags.deep_view()),
    {
        self.nags = nags;
    }

    /// Removes every reminder whose end time is at or before `now` and
    /// returns them; the rest stay, in their original relative order. Each
    /// removed reminder is handed back exactly once, for the caller to
    /// notify after releasing the store.
    pub fn remove_expired(&mut self, now: &Timestamp) -> (removed: Vec<Nag>)
        ensures
            final(self)@ == remaining_of(old(self)@, now.secs),
            removed.deep_view() == expired_of(old(self)@, now.secs),
    {
        let ghost orig = self@;
        let mut kept: Vec<Nag> = Vec::new();
        let mut removed: Vec<Nag> = Vec::new();
        let mut i: usize = 0;
        proof {
            assert(kept.deep_view() =~~= remaining_of(orig.take(0), now.secs));
            assert(removed.deep_view() =~~= expired_of(orig.take(0), now.secs));
        }
        while i < self.nags.len()
            invariant
                i <= self.nags@.len(),
                self@ == orig,
                orig.len() == self.nags@.len(),
                kept.deep_view() == remaining_of(orig.take(i as int), now.secs),
                removed.deep_view() == expired_of(orig.take(i as int), now.secs),
            decreases self.nags@.len() - i,
        {
            proof {
                assert(orig[i as int] == self.nags@[i as int]@);
                assert(orig.take(i as int + 1).drop_last() =~= orig.take(i as int));
                assert(orig.take(i as int + 1).last() == orig[i as int]);
            }
            if self.nags[i].end_time.secs <= now.secs {
                removed.push(self.nags[i].clone());
            } else {
                kept.push(self.nags[i].clone());
            }
            proof {
                assert(kept.deep_view() =~~= remaining_of(orig.take(i as int + 1), now.secs));
                assert(removed.deep_view() =~~= expired_of(orig.take(i as int + 1), now.secs));
            }
            i = i + 1;
        }
        proof {
            assert(orig.take(orig.len() as int) =~= orig);
        }
        self.nags = kept;
        removed
    }

    /// Serves one decoded request: appends for `AddNag`, snapshots for
    /// `ListNags`, installs the new collection for `SetNags`, and builds the
    /// reply each case owes.
    pub fn handle_command(&mut self, command: Command) -> (r: Response)
        ensures
            match command@ {
                CommandV::AddNag { nag } => final(self)@ == spec_add(old(self)@, nag) && r@
                    == ResponseV::Okay,
                CommandV::ListNags => final(self)@ == old(self)@ && r@ == (ResponseV::NagList {
                    nags: spec_list(old(self)@),
                }),
                CommandV::SetNags { nags } => final(self)@ == spec_replace(old(self)@, nags) && r@
                    == ResponseV::Okay,
            },
    {
        match command {
            Command::AddNag { nag } => {
                self.add(nag);
                Response::Okay
            },
            Command::ListNags => Response::NagList { nags: self.list() },
            Command::SetNags { nags } => {
                self.replace(nags);
                Response::Okay
            },
        }
    }

    /// Serves one raw request payload, as a connection handler does: a
    /// payload in canonical request form is dispatched; any other payload
    /// leaves the store unchanged and is answered with `UnknownCommand` and
    /// the decoder's message.
    pub fn handle_payload(&mut self, payload: &str) -> (r: Response)
        ensures
            match parse_command(payload@) {
                Some(c) => match c {
                    CommandV::AddNag { nag } => final(self)@ == spec_add(old(self)@, nag) && r@
                        == ResponseV::Okay,
                    CommandV::ListNags => final(self)@ == old(self)@ && r@ == (ResponseV::NagList {
                        nags: spec_list(old(self)@),
                    }),
                    CommandV::SetNags { nags } => final(self)@ == spec_replace(old(self)@, nags)
                        && r@ == ResponseV::Okay,
                },
                None => final(self)@ == old(self)@ && r@ == (ResponseV::Error {
                    code: ErrorCode::UnknownCommand,
                    msg: Some("unrecognized command payload"@),
                }),
            },
    {
        match decode_command(payload) {
            Result::Ok(c) => self.handle_command(c),
            Result::Err(m) => Response::Error { code: ErrorCode::UnknownCommand, msg: Some(m) },
        }
    }
}

// ---------------------------------------------------------------------------
// Laws of the store
// ---------------------------------------------------------------------------

/// After `add(n1)` and then `add(n2)`, a listing holds exactly the earlier
/// contents followed by `n1` then `n2`, in that order.
pub proof fn lemma_store_add_then_list(s: Seq<NagV>, n1: NagV, n2: NagV)
    ensures
        spec_list(spec_add(spec_add(s, n1), n2)) == s + seq![n1, n2],
{
    assert(spec_list(spec_add(spec_add(s, n1), n2)) =~= s + seq![n1, n2]);
}

/// Replacing the collection twice leaves exactly the second collection:
/// no residue of what stood before.
pub proof fn lemma_store_replace_exact(s: Seq<NagV>, a: Seq<NagV>, b: Seq<NagV>)
    ensures
        spec_list(spec_replace(spec_replace(s, a), b)) == b,
{
}

/// Listing is deterministic in the store's state and does not change it:
/// two listings with no mutation in between are identical.
pub proof fn lemma_list_idempotent(s: Seq<NagV>, r1: Seq<NagV>, r2: Seq<NagV>)
    requires
        r1 == spec_list(s),
        r2 == spec_list(s),
    ensures
        r1 == r2,
{
}

/// After a scan at `now`, no reminder whose end time has passed remains in
/// the store: whatever stays is still pending.
pub proof fn lemma_scan_clears_past(s: Seq<NagV>, now: u64)
    ensures
        forall|k: int|
            0 <= k < remaining_of(s, now).len() ==> (#[trigger] remaining_of(s, now)[k]).end_time
                > now,
    decreases s.len(),
{
    if s.len() > 0 {
        lemma_scan_clears_past(s.drop_last(), now);
        let prefix = remaining_of(s.drop_last(), now);
        assert forall|k: int|
            0 <= k < remaining_of(s, now).len() implies (#[trigger] remaining_of(s, now)[k]).end_time
            > now by {
            if k < prefix.len() {
                assert(remaining_of(s, now)[k] == prefix[k]);
            } else {
                assert(remaining_of(s, now)[k] == s.last());
            }
        }
    }
}

/// One scan accounts for every reminder exactly once: the removed and the
/// remaining together are as many as stood in the store.
pub proof fn lemma_scan_partitions(s: Seq<NagV>, now: u64)
    ensures
        expired_of(s, now).len() + remaining_of(s, now).len() == s.len(),
    decreases s.len(),
{
    if s.len() > 0 {
        lemma_scan_partitions(s.drop_last(), now);
    }
}

/// A store holding one expired and one pending reminder parts exactly: the
/// expired one is returned, the pending one alone stays.
pub proof fn lemma_expiry_partition(n1: NagV, n2: NagV, now: u64)
    requires
        n1.end_time <= now,
        n2.end_time > now,
    ensures
        expired_of(seq![n1, n2], now) == seq![n1],
        remaining_of(seq![n1, n2], now) == seq![n2],
{
    reveal_with_fuel(expired_of, 3);
    reveal_with_fuel(remaining_of, 3);
    assert(seq![n1, n2].drop_last() =~= seq![n1]);
    assert(seq![n1].drop_last() =~= Seq::<NagV>::empty());
    assert(seq![n1, n2].last() == n2);
    assert(seq![n1].last() == n1);
    assert(expired_of(seq![n1], now) =~= seq![n1]);
    assert(remaining_of(seq![n1], now) =~= Seq::<NagV>::empty());
    assert(expired_of(seq![n1, n2], now) =~= seq![n1]);
    assert(remaining_of(seq![n1, n2], now) =~= seq![n2]);
}

} // verus!
