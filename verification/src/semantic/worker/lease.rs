//! Who may run the model: leases and the socket of the worker.

use crate::paths;
use crate::text;
use crate::text::Failure;
use vstd::prelude::*;
use vstd::string::StringExecFns;

verus! {

/// Where the worker of a user keeps its socket and its leases: below the cache directory, if
/// one is set, else below the home directory.
pub open spec fn cache_dir(
    cache_home: Option<Vec<u8>>,
    home: Option<Vec<u8>>,
    result: Result<Vec<u8>, Failure>,
) -> bool {
    let base = match cache_home {
        Some(path) => Some(path@),
        None => match home {
            Some(home) => Some(paths::joined(home@, vstd::utf8::encode_utf8(".cache"@))),
            None => None,
        },
    };
    match base {
        Some(base) => result is Ok && result->Ok_0@ == paths::joined(
            paths::joined(base, vstd::utf8::encode_utf8("trufflepig"@)),
            vstd::utf8::encode_utf8("inference-worker"@),
        ),
        None => result is Err && text::plain(
            result->Err_0,
            "semantic_worker_unavailable: set HOME or XDG_CACHE_HOME"@,
        ),
    }
}

/// Where the worker of a user keeps its socket and its leases.
pub fn worker_cache_dir(cache_home: Option<Vec<u8>>, home: Option<Vec<u8>>) -> (result: Result<
    Vec<u8>,
    Failure,
>)
    ensures
        cache_dir(cache_home, home, result),
{
    let base = match cache_home {
        Some(path) => path,
        None => match home {
            Some(home) => paths::join(home.as_slice(), ".cache".as_bytes()),
            None => {
                return Err(
                    Failure::new("semantic_worker_unavailable: set HOME or XDG_CACHE_HOME"),
                );
            },
        },
    };
    let directory = paths::join(base.as_slice(), "trufflepig".as_bytes());
    Ok(paths::join(directory.as_slice(), "inference-worker".as_bytes()))
}

/// What trying to lock a file came to.
#[derive(Debug)]
pub enum LockOutcome {
    Locked,
    Held,
    Failed(String),
}

/// Whether `result` is what trying to take a lease comes to.
pub open spec fn lease_taken(
    device: bool,
    outcome: LockOutcome,
    result: Result<(), Failure>,
) -> bool {
    match outcome {
        LockOutcome::Locked => result is Ok,
        LockOutcome::Held => result is Err && text::plain(
            result->Err_0,
            if device {
                "semantic_busy: another process owns the device/model lease"@
            } else {
                "semantic_busy: inference worker owns the device/model lease"@
            },
        ),
        LockOutcome::Failed(reason) => result is Err && text::under(
            result->Err_0,
            if device {
                "semantic_worker: acquire device/model lease"@
            } else {
                "semantic_worker: acquire worker lease"@
            },
            reason@,
            true,
        ),
    }
}

/// Whether a lease was taken; `device` tells the device lease from that of the worker. A lease
/// that another process holds is a failure, like one that cannot be taken.
pub fn acquire(device: bool, outcome: LockOutcome) -> (result: Result<(), Failure>)
    ensures
        lease_taken(device, outcome, result),
{
    match outcome {
        LockOutcome::Locked => Ok(()),
        LockOutcome::Held => {
            if device {
                Err(Failure::new("semantic_busy: another process owns the device/model lease"))
            } else {
                Err(Failure::new("semantic_busy: inference worker owns the device/model lease"))
            }
        },
        LockOutcome::Failed(reason) => {
            let headline = if device {
                "semantic_worker: acquire device/model lease".to_owned()
            } else {
                "semantic_worker: acquire worker lease".to_owned()
            };
            Err(Failure::caused(headline, reason.as_str(), true))
        },
    }
}

/// What stands where the worker wants its socket.
#[derive(Debug)]
pub enum SocketPlace {
    Nothing,
    /// A socket that someone answers on.
    Answered,
    /// A socket that nobody answers on.
    Stale,
    /// A socket that could not be asked.
    Unclear(String),
    /// Something that is no socket.
    Other,
    /// The place could not be looked at.
    Unknown(String),
}

/// Whether to remove what stands where the worker wants its socket: only a socket that
/// nobody answers on. Where it may be neither used nor removed, that is a failure.
pub fn clear_socket(place: SocketPlace, path: &str) -> (result: Result<bool, Failure>)
    ensures
        match place {
            SocketPlace::Nothing => result == Ok::<bool, Failure>(false),
            SocketPlace::Stale => result == Ok::<bool, Failure>(true),
            SocketPlace::Answered => result is Err && text::plain(
                result->Err_0,
                "semantic_worker_busy: worker socket already active"@,
            ),
            SocketPlace::Other => result is Err && text::plain(
                result->Err_0,
                "semantic_worker: refusing to remove non-socket at "@ + path@,
            ),
            SocketPlace::Unclear(reason) => result is Err && text::under(
                result->Err_0,
                "inspect semantic worker socket"@,
                reason@,
                true,
            ),
            SocketPlace::Unknown(reason) => result is Err && text::plain_io(
                result->Err_0,
                reason@,
            ),
        },
{
    match place {
        SocketPlace::Nothing => Ok(false),
        SocketPlace::Stale => Ok(true),
        SocketPlace::Answered => Err(
            Failure::new("semantic_worker_busy: worker socket already active"),
        ),
        SocketPlace::Other => {
            let mut message = "semantic_worker: refusing to remove non-socket at ".to_owned();
            message.append(path);
            Err(Failure::of(message))
        },
        SocketPlace::Unclear(reason) => Err(
            Failure::caused(
                "inspect semantic worker socket".to_owned(),
                reason.as_str(),
                true,
            ),
        ),
        SocketPlace::Unknown(reason) => Err(Failure::io(reason.as_str())),
    }
}

} // verus!
