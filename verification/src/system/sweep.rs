//! Which caches are evicted: those whose root is gone.
//!
//! Times are nanoseconds since 1970.

use crate::store::paths as store_paths;
use crate::text;
use vstd::prelude::*;
use vstd::utf8;

verus! {

/// How long it takes until the next sweep; the first is at the start.
pub const SWEEP_INTERVAL: u64 = 600_000_000_000;

/// A cache that was changed so recently is never evicted.
pub const SWEEP_GRACE: u64 = 60_000_000_000;

/// How long to wait for a daemon that is stopping.
pub const LOCK_WAIT: u64 = 3_000_000_000;

/// A cache that was evicted, and the root it served.
#[derive(Clone, Debug)]
pub struct Evicted {
    pub cache: Vec<u8>,
    pub root: Vec<u8>,
    pub daemon_stopped: bool,
}

/// A directory or a file: when it was changed, where that is known.
#[derive(Clone, Copy, Debug)]
pub struct Changed {
    pub modified: Option<u64>,
}

/// Whether something was changed recently. A time that is unknown, or has not come yet, counts
/// as recent.
pub open spec fn recent(changed: Changed, now: u64, grace: u64) -> bool {
    match changed.modified {
        None => true,
        Some(modified) => now < modified || now - modified < grace,
    }
}

/// Whether something was changed recently.
pub fn modified_within(changed: Changed, now: u64, grace: u64) -> (yes: bool)
    ensures
        yes == recent(changed, now, grace),
{
    match changed.modified {
        None => true,
        Some(modified) => now < modified || now - modified < grace,
    }
}

/// What is known of an entry where caches are kept: the entry itself, if it is a directory; its
/// index, if it has one; the root that the index records; and whether the root and what it is
/// in are there.
#[derive(Debug)]
pub struct CacheSurvey {
    pub directory: Option<Changed>,
    pub index: Option<Changed>,
    pub recorded_root: Option<String>,
    pub root_is_directory: bool,
    pub parent_is_directory: bool,
}

/// The root of a cache that may be evicted: one with an index that nobody changed lately, and
/// whose root is gone while what it was in is there. Where that is gone too, a volume may only
/// be unmounted.
pub open spec fn vanished(survey: CacheSurvey, now: u64, grace: u64) -> Option<Seq<u8>> {
    if survey.directory is None || survey.index is None || survey.recorded_root is None {
        None
    } else if recent(survey.directory->0, now, grace) || recent(survey.index->0, now, grace) {
        None
    } else {
        match store_paths::path_of(utf8::encode_utf8(survey.recorded_root->0@)) {
            Err(_) => None,
            Ok(root) => if survey.root_is_directory || !survey.parent_is_directory {
                None
            } else {
                Some(root)
            },
        }
    }
}

/// The root of a cache that may be evicted.
pub fn sweep_entry(survey: &CacheSurvey, now: u64, grace: u64) -> (root: Option<Vec<u8>>)
    ensures
        match root {
            Some(root) => vanished(*survey, now, grace) == Some(root@),
            None => vanished(*survey, now, grace) is None,
        },
{
    let directory = match survey.directory {
        Some(directory) => directory,
        None => {
            return None;
        },
    };
    let index = match survey.index {
        Some(index) => index,
        None => {
            return None;
        },
    };
    if modified_within(directory, now, grace) || modified_within(index, now, grace) {
        return None;
    }
    let encoded = match &survey.recorded_root {
        Some(encoded) => encoded,
        None => {
            return None;
        },
    };
    match store_paths::decode_path(encoded.as_str()) {
        Err(_) => None,
        Ok(root) => {
            if survey.root_is_directory || !survey.parent_is_directory {
                None
            } else {
                Some(root)
            }
        },
    }
}

/// Whether a daemon was stopped before its cache is removed: it had a socket, and said so.
pub fn was_stopped(has_socket: bool, reply: Option<&str>) -> (stopped: bool)
    ensures
        stopped == (has_socket && reply is Some && text::contains(
            reply->0@,
            "\"stopped\""@,
        )),
{
    if !has_socket {
        return false;
    }
    match reply {
        Some(reply) => {
            let chars = text::chars_of(reply);
            text::has_text(chars.as_slice(), "\"stopped\"")
        },
        None => false,
    }
}

/// What to do while a daemon may still hold the lock of its cache.
#[derive(Clone, Copy, Debug, PartialEq, Eq, Structural)]
pub enum LockStep {
    Taken,
    Wait,
    /// Leave the cache for the next sweep.
    Defer,
}

/// What to do while a daemon may still hold the lock of its cache.
pub fn lock_step(locked: bool, now: u64, deadline: u64) -> (step: LockStep)
    ensures
        step == if locked {
            LockStep::Taken
        } else if now >= deadline {
            LockStep::Defer
        } else {
            LockStep::Wait
        },
{
    if locked {
        LockStep::Taken
    } else if now >= deadline {
        LockStep::Defer
    } else {
        LockStep::Wait
    }
}

/// A cache whose root is there, or whose volume may be unmounted, or that was changed lately, is
/// never evicted.
pub proof fn law_only_vanished_roots_are_swept(survey: CacheSurvey, now: u64, grace: u64)
    requires
        vanished(survey, now, grace) is Some,
    ensures
        !survey.root_is_directory,
        survey.parent_is_directory,
        survey.index matches Some(index) && index.modified matches Some(modified) && now
            - modified >= grace,
        survey.directory matches Some(directory) && directory.modified matches Some(modified)
            && now - modified >= grace,
{
}

} // verus!
