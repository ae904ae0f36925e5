//! How much work the worker takes on at once.
//!
//! A batch is queued when it is admitted, in flight once it has begun, and counts until
//! it is released.

use crate::semantic::worker::protocol::{MAX_INPUTS, MAX_RAW_INPUT_BYTES};
use crate::text;
use crate::text::Failure;
use vstd::prelude::*;
use vstd::string::StringExecFns;

verus! {

pub const MAX_ADMITTED: usize = 64;

#[derive(Clone, Copy, Debug, PartialEq, Eq, Structural)]
pub struct AdmissionLimits {
    pub max_admitted: usize,
    pub max_raw_input_bytes: usize,
    pub max_inputs: usize,
}

impl Default for AdmissionLimits {
    fn default() -> (limits: Self)
        ensures
            limits.max_admitted == MAX_ADMITTED,
            limits.max_raw_input_bytes == MAX_RAW_INPUT_BYTES,
            limits.max_inputs == MAX_INPUTS,
    {
        AdmissionLimits {
            max_admitted: MAX_ADMITTED,
            max_raw_input_bytes: MAX_RAW_INPUT_BYTES,
            max_inputs: MAX_INPUTS,
        }
    }
}

#[derive(Debug)]
pub struct AdmissionController {
    pub limits: AdmissionLimits,
    pub queued: usize,
    pub inflight: usize,
    pub raw_input_bytes: usize,
}

/// The right to a place in the queue, for a batch of so many bytes.
#[derive(Debug)]
pub struct AdmissionTicket {
    pub raw_input_bytes: usize,
}

/// The right to a place among the batches in flight.
#[derive(Debug)]
pub struct InflightTicket {
    pub raw_input_bytes: usize,
}

impl Default for AdmissionController {
    fn default() -> (controller: Self)
        ensures
            controller.well_formed(),
            controller.queued == 0,
            controller.inflight == 0,
            controller.raw_input_bytes == 0,
            controller.limits.max_admitted == MAX_ADMITTED,
            controller.limits.max_raw_input_bytes == MAX_RAW_INPUT_BYTES,
            controller.limits.max_inputs == MAX_INPUTS,
    {
        AdmissionController::new(AdmissionLimits::default())
    }
}

/// The refusal of a batch, if it is refused.
pub open spec fn refusal(
    controller: AdmissionController,
    inputs: usize,
    raw_input_bytes: usize,
) -> Option<Seq<char>> {
    let limits = controller.limits;
    if inputs > limits.max_inputs {
        Some(
            "semantic_admission: at most "@ + text::decimal(limits.max_inputs as nat)
                + " inputs per batch"@,
        )
    } else if raw_input_bytes > limits.max_raw_input_bytes {
        Some(
            "semantic_admission: raw inputs exceed "@ + text::decimal(
                limits.max_raw_input_bytes as nat,
            ) + " bytes"@,
        )
    } else if controller.queued + controller.inflight >= limits.max_admitted {
        Some("semantic_admission: 64 batches already queued or in flight"@)
    } else if controller.raw_input_bytes + raw_input_bytes > usize::MAX {
        Some("semantic_admission: raw input byte counter overflow"@)
    } else if controller.raw_input_bytes + raw_input_bytes > limits.max_raw_input_bytes {
        Some(
            "semantic_admission: raw inputs exceed "@ + text::decimal(
                limits.max_raw_input_bytes as nat,
            ) + " bytes including in-flight batches"@,
        )
    } else {
        None
    }
}

/// A count of bytes less some of them, never below zero.
pub open spec fn less(total: usize, part: int) -> usize {
    if total > part {
        (total - part) as usize
    } else {
        0
    }
}

impl AdmissionController {
    /// The limits hold of what is admitted.
    pub open spec fn well_formed(self) -> bool {
        &&& self.queued + self.inflight <= self.limits.max_admitted
        &&& self.raw_input_bytes <= self.limits.max_raw_input_bytes
    }

    /// The controller after a queued batch of so many bytes was admitted.
    pub open spec fn with_queued(self, raw_input_bytes: int) -> AdmissionController {
        AdmissionController {
            queued: (self.queued + 1) as usize,
            raw_input_bytes: (self.raw_input_bytes + raw_input_bytes) as usize,
            ..self
        }
    }

    /// The controller after the ticket of a queued batch was given back.
    pub open spec fn released(self, raw_input_bytes: int) -> AdmissionController {
        AdmissionController {
            queued: if self.queued > 0 {
                (self.queued - 1) as usize
            } else {
                0
            },
            raw_input_bytes: less(self.raw_input_bytes, raw_input_bytes),
            ..self
        }
    }

    /// The controller after a queued batch began.
    pub open spec fn begun(self) -> AdmissionController {
        AdmissionController {
            queued: (self.queued - 1) as usize,
            inflight: (self.inflight + 1) as usize,
            ..self
        }
    }

    /// The controller after the ticket of a batch in flight was given back.
    pub open spec fn ended(self, raw_input_bytes: int) -> AdmissionController {
        AdmissionController {
            inflight: if self.inflight > 0 {
                (self.inflight - 1) as usize
            } else {
                0
            },
            raw_input_bytes: less(self.raw_input_bytes, raw_input_bytes),
            ..self
        }
    }

    pub fn new(limits: AdmissionLimits) -> (controller: Self)
        ensures
            controller.limits == limits,
            controller.queued == 0,
            controller.inflight == 0,
            controller.raw_input_bytes == 0,
            controller.well_formed(),
    {
        AdmissionController { limits, queued: 0, inflight: 0, raw_input_bytes: 0 }
    }

    /// Admits a batch to the queue, or says which limit it would break.
    pub fn try_admit(&mut self, inputs: usize, raw_input_bytes: usize) -> (result: Result<
        AdmissionTicket,
        Failure,
    >)
        requires
            old(self).well_formed(),
        ensures
            final(self).well_formed(),
            match result {
                Ok(ticket) => {
                    &&& refusal(*old(self), inputs, raw_input_bytes) is None
                    &&& ticket.raw_input_bytes == raw_input_bytes
                    &&& *final(self) == old(self).with_queued(raw_input_bytes as int)
                },
                Err(failure) => {
                    &&& *final(self) == *old(self)
                    &&& refusal(*old(self), inputs, raw_input_bytes) is Some
                    &&& text::plain(failure, refusal(*old(self), inputs, raw_input_bytes)->0)
                },
            },
    {
        if inputs > self.limits.max_inputs {
            let mut message = "semantic_admission: at most ".to_owned();
            message.append(text::decimal_text(self.limits.max_inputs as u64).as_str());
            message.append(" inputs per batch");
            return Err(Failure::of(message));
        }
        if raw_input_bytes > self.limits.max_raw_input_bytes {
            let mut message = "semantic_admission: raw inputs exceed ".to_owned();
            message.append(text::decimal_text(self.limits.max_raw_input_bytes as u64).as_str());
            message.append(" bytes");
            return Err(Failure::of(message));
        }
        if self.queued + self.inflight >= self.limits.max_admitted {
            return Err(
                Failure::new("semantic_admission: 64 batches already queued or in flight"),
            );
        }
        let total: usize = match self.raw_input_bytes.checked_add(raw_input_bytes) {
            None => {
                return Err(Failure::new("semantic_admission: raw input byte counter overflow"));
            },
            Some(total) => total,
        };
        if total > self.limits.max_raw_input_bytes {
            let mut message = "semantic_admission: raw inputs exceed ".to_owned();
            message.append(text::decimal_text(self.limits.max_raw_input_bytes as u64).as_str());
            message.append(" bytes including in-flight batches");
            return Err(Failure::of(message));
        }
        self.queued = self.queued + 1;
        self.raw_input_bytes = total;
        Ok(AdmissionTicket { raw_input_bytes })
    }

    /// How many batches are queued and in flight, and how many bytes they hold.
    pub fn counts(&self) -> (counts: (usize, usize, usize))
        ensures
            counts == (self.queued, self.inflight, self.raw_input_bytes),
    {
        (self.queued, self.inflight, self.raw_input_bytes)
    }

    /// Gives back the place in the queue of a batch that did not begin.
    pub fn release(&mut self, ticket: AdmissionTicket)
        requires
            old(self).well_formed(),
        ensures
            final(self).well_formed(),
            *final(self) == old(self).released(ticket.raw_input_bytes as int),
    {
        self.queued = self.queued.saturating_sub(1);
        self.raw_input_bytes = self.raw_input_bytes.saturating_sub(ticket.raw_input_bytes);
    }

    /// Gives back the place in flight of a batch that ended.
    pub fn release_inflight(&mut self, ticket: InflightTicket)
        requires
            old(self).well_formed(),
        ensures
            final(self).well_formed(),
            *final(self) == old(self).ended(ticket.raw_input_bytes as int),
    {
        self.inflight = self.inflight.saturating_sub(1);
        self.raw_input_bytes = self.raw_input_bytes.saturating_sub(ticket.raw_input_bytes);
    }
}

impl AdmissionTicket {
    /// Turns the place in the queue into one in flight.
    pub fn begin(self, controller: &mut AdmissionController) -> (inflight: InflightTicket)
        requires
            old(controller).well_formed(),
            old(controller).queued > 0,
        ensures
            final(controller).well_formed(),
            inflight.raw_input_bytes == self.raw_input_bytes,
            *final(controller) == old(controller).begun(),
    {
        controller.queued = controller.queued - 1;
        controller.inflight = controller.inflight + 1;
        InflightTicket { raw_input_bytes: self.raw_input_bytes }
    }
}

/// The bytes that tickets hold together.
pub open spec fn held(bytes: Seq<usize>) -> int
    decreases bytes.len(),
{
    if bytes.len() == 0 {
        0
    } else {
        held(bytes.drop_last()) + bytes.last()
    }
}

/// Whether a controller counts exactly the tickets that are out: those of queued batches
/// and those of batches in flight, each with its bytes.
pub open spec fn accounts(
    controller: AdmissionController,
    queued: Seq<usize>,
    inflight: Seq<usize>,
) -> bool {
    &&& controller.queued == queued.len()
    &&& controller.inflight == inflight.len()
    &&& controller.raw_input_bytes == held(queued) + held(inflight)
}

/// Giving back the ticket of an admitted batch undoes its admission, whether it began or
/// not.
pub proof fn law_release_undoes_admission(before: AdmissionController, bytes: usize)
    requires
        before.well_formed(),
        before.queued < usize::MAX,
        before.inflight < usize::MAX,
        before.raw_input_bytes + bytes <= usize::MAX,
    ensures
        before.with_queued(bytes as int).released(bytes as int) == before,
        before.with_queued(bytes as int).begun().ended(bytes as int) == before,
{
}

/// The count of tickets stays exact: admitting a batch adds its ticket, a batch that begins
/// moves its ticket, and giving back a ticket takes away exactly it.
pub proof fn law_counts_follow_tickets(
    before: AdmissionController,
    queued: Seq<usize>,
    inflight: Seq<usize>,
    bytes: usize,
    i: int,
)
    requires
        before.well_formed(),
        accounts(before, queued, inflight),
        before.queued < usize::MAX,
        before.raw_input_bytes + bytes <= usize::MAX,
    ensures
        accounts(before.with_queued(bytes as int), queued.push(bytes), inflight),
        0 <= i < queued.len() ==> accounts(
            before.released(queued[i] as int),
            queued.remove(i),
            inflight,
        ),
        0 <= i < queued.len() && before.inflight < usize::MAX ==> accounts(
            before.begun(),
            queued.remove(i),
            inflight.push(queued[i]),
        ),
        0 <= i < inflight.len() ==> accounts(
            before.ended(inflight[i] as int),
            queued,
            inflight.remove(i),
        ),
{
    assert(queued.push(bytes).drop_last() =~= queued);
    lemma_held_nonnegative(queued);
    lemma_held_nonnegative(inflight);
    if 0 <= i < queued.len() {
        lemma_held_remove(queued, i);
        lemma_held_nonnegative(queued.remove(i));
        assert(inflight.push(queued[i]).drop_last() =~= inflight);
    }
    if 0 <= i < inflight.len() {
        lemma_held_remove(inflight, i);
        lemma_held_nonnegative(inflight.remove(i));
    }
}

proof fn lemma_held_nonnegative(bytes: Seq<usize>)
    ensures
        held(bytes) >= 0,
    decreases bytes.len(),
{
    if bytes.len() > 0 {
        lemma_held_nonnegative(bytes.drop_last());
    }
}

proof fn lemma_held_remove(bytes: Seq<usize>, i: int)
    requires
        0 <= i < bytes.len(),
    ensures
        held(bytes.remove(i)) == held(bytes) - bytes[i],
    decreases bytes.len(),
{
    if i == bytes.len() - 1 {
        assert(bytes.remove(i) =~= bytes.drop_last());
    } else {
        lemma_held_remove(bytes.drop_last(), i);
        assert(bytes.remove(i).drop_last() =~= bytes.drop_last().remove(i));
    }
}

} // verus!
