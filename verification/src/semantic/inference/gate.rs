//! The checks that a model passes before it is used.

use crate::semantic::inference::{SemanticProvider, SemanticProviderConfig};
use crate::text;
use crate::text::Failure;
use vstd::prelude::*;

verus! {

/// A run over small inputs may not use more memory than this: four GiB, in KiB.
pub const MAX_GATE_RSS_KIB: u64 = 4_194_304;

/// The device of a comparison between the CPU and CUDA, which needs a CUDA provider.
pub fn comparison_device(provider: SemanticProviderConfig) -> (result: Result<i32, Failure>)
    ensures
        match provider.provider {
            SemanticProvider::Cuda { device_ordinal } => result == Ok::<i32, Failure>(
                device_ordinal,
            ),
            SemanticProvider::Cpu => result is Err && text::plain(
                result->Err_0,
                "semantic_unavailable: CPU/CUDA comparison requires a CUDA provider"@,
            ),
        },
{
    match provider.provider {
        SemanticProvider::Cuda { device_ordinal } => Ok(device_ordinal),
        SemanticProvider::Cpu => Err(
            Failure::new("semantic_unavailable: CPU/CUDA comparison requires a CUDA provider"),
        ),
    }
}

/// The peak memory in one line of a process status, where it is the line that tells.
pub open spec fn peak_in_line(line: Seq<char>) -> Option<nat> {
    let words = text::words(line);
    if words.len() > 1 {
        text::unsigned_value(words[1], u64::MAX as nat)
    } else {
        None
    }
}

/// Whether `peak` is the peak memory that a process status tells of: that of the first line
/// which begins with `VmHWM:`.
pub open spec fn peak_told(status: Seq<char>, peak: Option<u64>) -> bool {
    let lines = text::lines(status);
    ||| peak is None && forall|i: int|
        0 <= i < lines.len() ==> !text::begins_with(#[trigger] lines[i], "VmHWM:"@)
    ||| exists|i: int|
        {
            &&& 0 <= i < lines.len()
            &&& text::begins_with(#[trigger] lines[i], "VmHWM:"@)
            &&& forall|j: int|
                0 <= j < i ==> !text::begins_with(#[trigger] lines[j], "VmHWM:"@)
            &&& match peak {
                Some(peak) => peak_in_line(lines[i]) == Some(peak as nat),
                None => peak_in_line(lines[i]) is None,
            }
        }
}

/// The peak memory, in KiB, that a process status tells of.
pub fn peak_rss_kib(status: &str) -> (peak: Option<u64>)
    ensures
        peak_told(status@, peak),
{
    let chars = text::chars_of(status);
    let lines = text::lines_of(chars.as_slice());
    let ghost all = text::lines(status@);
    let prefix = text::chars_of("VmHWM:");
    let mut i: usize = 0;
    while i < lines.len()
        invariant
            i <= lines.len(),
            prefix@ == "VmHWM:"@,
            all == text::lines(status@),
            text::views(lines@) == all,
            forall|j: int| 0 <= j < i ==> !text::begins_with(#[trigger] all[j], "VmHWM:"@),
        decreases lines.len() - i,
    {
        assert(all[i as int] == lines@[i as int]@);
        if text::text_at(lines[i].as_slice(), prefix.as_slice(), 0) {
            let words = text::words_of(lines[i].as_slice());
            let ghost split = text::words(lines@[i as int]@);
            assert(split.len() == words.len());
            if words.len() > 1 {
                assert(split[1] == words@[1]@);
                return text::parse_unsigned(words[1].as_slice(), u64::MAX);
            }
            return None;
        }
        i += 1;
    }
    None
}

/// Refuses a gate run that used too much memory.
pub fn check_peak(peak: Option<u64>) -> (result: Result<(), Failure>)
    ensures
        match result {
            Ok(_) => peak matches Some(peak) ==> peak <= MAX_GATE_RSS_KIB,
            Err(failure) => {
                &&& peak is Some
                &&& peak->0 > MAX_GATE_RSS_KIB
                &&& text::plain(
                    failure,
                    "semantic_unavailable: small-input gate exceeded 4 GiB peak RSS"@,
                )
            },
        },
{
    match peak {
        Some(peak) => {
            if peak > MAX_GATE_RSS_KIB {
                return Err(
                    Failure::new("semantic_unavailable: small-input gate exceeded 4 GiB peak RSS"),
                );
            }
            Ok(())
        },
        None => Ok(()),
    }
}

} // verus!
