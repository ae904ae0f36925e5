//! Preparing the vector of a query, before the sources are read. A process that serves a root
//! never owns a model.

use crate::semantic::embedding::Embedding;
use crate::text;
use crate::text::Failure;
use vstd::prelude::*;

verus! {

/// What is known of the memory that a model takes.
#[derive(Clone, Debug)]
pub struct ResidencySample {
    pub loaded: bool,
    pub idle_seconds: u64,
    pub process_resident_bytes: Option<u64>,
    pub unloaded: bool,
}

/// What an error of the database is about.
#[derive(Clone, Copy, Debug, PartialEq, Eq, Structural)]
pub enum DatabaseFault {
    Busy,
    Locked,
    Other,
}

/// Whether one of the causes of a failure is that the database is in use.
pub open spec fn in_use(causes: Seq<DatabaseFault>) -> bool {
    exists|i: int|
        0 <= i < causes.len() && (#[trigger] causes[i] == DatabaseFault::Busy || causes[i]
            == DatabaseFault::Locked)
}

/// Whether one of the causes of a failure is that the database is in use.
pub fn is_cache_lock(causes: &[DatabaseFault]) -> (locked: bool)
    ensures
        locked == in_use(causes@),
{
    let mut i: usize = 0;
    while i < causes.len()
        invariant
            i <= causes.len(),
            forall|k: int|
                0 <= k < i ==> #[trigger] causes@[k] != DatabaseFault::Busy && causes@[k]
                    != DatabaseFault::Locked,
        decreases causes.len() - i,
    {
        if causes[i] == DatabaseFault::Busy || causes[i] == DatabaseFault::Locked {
            return true;
        }
        i += 1;
    }
    false
}

/// What looking for a query's vector in the cache came to.
#[derive(Debug)]
pub enum Lookup {
    Found(Embedding),
    Missing,
    /// The cache could not be opened or read, on account of these errors of the database.
    Failed(Vec<DatabaseFault>),
}

/// Whether the cache was in use when it was looked at.
pub open spec fn locked_out(lookup: Lookup) -> bool {
    lookup matches Lookup::Failed(causes) && in_use(causes@)
}

#[derive(Debug, Default)]
pub struct SemanticSession {
    pub no_daemon: bool,
}

impl SemanticSession {
    pub fn new() -> (session: Self)
        ensures
            !session.no_daemon,
    {
        SemanticSession { no_daemon: false }
    }

    /// Whether to do without the shared worker.
    pub fn set_no_daemon(&mut self, no_daemon: bool)
        ensures
            final(self).no_daemon == no_daemon,
    {
        self.no_daemon = no_daemon;
    }

    /// Whether this process holds a model: it never does.
    pub fn is_loaded(&self) -> (loaded: bool)
        ensures
            !loaded,
    {
        false
    }

    /// How often this process loaded a model: it never does.
    pub fn initializations(&self) -> (count: u64)
        ensures
            count == 0,
    {
        0
    }

    /// Whether the worker may be asked where the cache does not have a query, and what it gives
    /// may be kept.
    pub open spec fn may_query<W: FnOnce() -> Result<Embedding, Failure>, S: FnOnce(&Embedding)>(
        self,
        lookup: Lookup,
        ask: W,
        keep: S,
    ) -> bool {
        !(lookup is Found) && !self.no_daemon ==> {
            &&& call_requires(ask, ())
            &&& forall|vector: Embedding| #[trigger]
                call_ensures(ask, (), Ok::<Embedding, Failure>(vector)) ==> call_requires(
                    keep,
                    (&vector,),
                )
        }
    }

    /// Whether `result` is the vector of a query, given what the cache has of it, and the
    /// worker that may be asked otherwise; what the worker gives is kept.
    pub open spec fn queried<W: FnOnce() -> Result<Embedding, Failure>, S: FnOnce(&Embedding)>(
        self,
        lookup: Lookup,
        ask: W,
        keep: S,
        result: Result<Embedding, Failure>,
    ) -> bool {
        match lookup {
            Lookup::Found(vector) => result == Ok::<Embedding, Failure>(vector),
            _ => if self.no_daemon {
                result is Err && text::plain(
                    result->Err_0,
                    if locked_out(lookup) {
                        "semantic_cache_locked: cached query is temporarily unavailable"@
                    } else {
                        "semantic_pending: query vector is not cached in --no-daemon mode"@
                    },
                )
            } else {
                &&& call_ensures(ask, (), result)
                &&& result matches Ok(vector) ==> call_ensures(keep, (&vector,), ())
            },
        }
    }

    fn query<W: FnOnce() -> Result<Embedding, Failure>, S: FnOnce(&Embedding)>(
        &self,
        lookup: Lookup,
        ask: W,
        keep: S,
    ) -> (result: Result<Embedding, Failure>)
        requires
            self.may_query(lookup, ask, keep),
        ensures
            self.queried(lookup, ask, keep, result),
    {
        let locked = match lookup {
            Lookup::Found(vector) => {
                return Ok(vector);
            },
            Lookup::Missing => false,
            Lookup::Failed(causes) => is_cache_lock(causes.as_slice()),
        };
        if self.no_daemon {
            if locked {
                return Err(
                    Failure::new("semantic_cache_locked: cached query is temporarily unavailable"),
                );
            }
            return Err(
                Failure::new("semantic_pending: query vector is not cached in --no-daemon mode"),
            );
        }
        match ask() {
            Err(failure) => Err(failure),
            Ok(vector) => {
                keep(&vector);
                Ok(vector)
            },
        }
    }

    /// The vector of a query, where searching by meaning is enabled: `look` asks the cache;
    /// `ask` asks the worker, and what it gives is handed to `keep`, which cannot make the
    /// query fail.
    pub fn prepare<
        L: FnOnce() -> Lookup,
        W: FnOnce() -> Result<Embedding, Failure>,
        S: FnOnce(&Embedding),
    >(&mut self, enabled: bool, look: L, ask: W, keep: S) -> (result: Result<
        Option<Embedding>,
        Failure,
    >)
        requires
            enabled ==> call_requires(look, ()),
            forall|lookup: Lookup|
                enabled && #[trigger] call_ensures(look, (), lookup) ==> old(self).may_query(
                    lookup,
                    ask,
                    keep,
                ),
        ensures
            *final(self) == *old(self),
            if !enabled {
                result == Ok::<Option<Embedding>, Failure>(None)
            } else {
                exists|lookup: Lookup, vector: Result<Embedding, Failure>|
                    {
                        &&& #[trigger] call_ensures(look, (), lookup)
                        &&& #[trigger] old(self).queried(lookup, ask, keep, vector)
                        &&& match vector {
                            Ok(vector) => result == Ok::<Option<Embedding>, Failure>(Some(vector)),
                            Err(failure) => result == Err::<Option<Embedding>, Failure>(failure),
                        }
                    }
            },
    {
        if !enabled {
            return Ok(None);
        }
        let lookup = look();
        let ghost looked = lookup;
        let vector = self.query(lookup, ask, keep);
        let ghost found = vector;
        assert(call_ensures(look, (), looked));
        assert(old(self).queried(looked, ask, keep, found));
        match vector {
            Ok(vector) => Ok(Some(vector)),
            Err(failure) => Err(failure),
        }
    }
}

} // verus!
