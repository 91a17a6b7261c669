//! The nonce search: many workers try nonces until one of them finds a
//! digest that meets the difficulty.

use rayon::iter::{ParallelBridge, ParallelIterator};
use vstd::prelude::*;
use crate::difficulty::{check_pow_difficulty, lemma_meets_zero, meets_difficulty};
use crate::digest::{sha256_digest, SHA256_INPUT_LIMIT};
use crate::encoding::encode_preimage;
use crate::error::PowError;
use crate::event::{tags_with_nonce, FinalizedEvent, UnsignedEventSkeleton, SCHEMA_VERSION};
use crate::template::{hashable, lemma_nonce_len, lemma_template_candidates, PreimageTemplate};

verus! {

/// The largest difficulty: one bit less than a digest has.
pub const MAX_DIFFICULTY: u32 = 255;

/// The first nonce that a search tries.
pub const FIRST_NONCE: u128 = 1;

impl UnsignedEventSkeleton {
    /// The event with the given nonce has an identifier that meets `difficulty`.
    pub open spec fn solves(&self, nonce: nat, difficulty: nat) -> bool {
        meets_difficulty(self.identifier_with(nonce, difficulty), difficulty)
    }

    /// Some nonce from `FIRST_NONCE` up to, not including, `end` solves.
    pub open spec fn solvable_below(&self, end: u128, difficulty: nat) -> bool {
        exists|n: u128| FIRST_NONCE <= n < end && #[trigger] self.solves(n as nat, difficulty)
    }

    /// The event with the nonce tag for `nonce` and `difficulty` and with its
    /// identifier, serialized anew from its fields; `None` when its
    /// canonical form is too long to be hashed.
    pub fn finalize(&self, nonce: u128, difficulty: u8) -> (made: Option<FinalizedEvent>)
        ensures
            made is Some <==> self.preimage_with(nonce as nat, difficulty as nat).len()
                < SHA256_INPUT_LIMIT,
            made matches Some(event) ==> {
                &&& event.wf()
                &&& event.extends(*self, nonce as nat, difficulty as nat)
                &&& event.identifier@ == self.identifier_with(nonce as nat, difficulty as nat)
            },
    {
        let tags = tags_with_nonce(&self.tags, nonce, difficulty);
        let bytes = encode_preimage(
            SCHEMA_VERSION,
            &self.author_public_key,
            self.created_at,
            self.kind,
            &tags,
            self.content.as_str(),
        );
        if bytes.len() as u64 >= SHA256_INPUT_LIMIT {
            return None;
        }
        let identifier = sha256_digest(bytes.as_slice());
        Some(
            FinalizedEvent {
                author_public_key: self.author_public_key,
                created_at: self.created_at,
                kind: self.kind,
                tags,
                content: self.content.clone(),
                identifier,
            },
        )
    }
}

/// At difficulty zero every nonce solves, so any range that holds a nonce
/// holds a solution.
pub proof fn lemma_zero_difficulty_solvable(skeleton: UnsignedEventSkeleton, end: u128)
    requires
        end > FIRST_NONCE,
    ensures
        skeleton.solvable_below(end, 0),
{
    lemma_meets_zero(skeleton.identifier_with(FIRST_NONCE as nat, 0));
    assert(skeleton.solves(FIRST_NONCE as nat, 0));
}

/// Hands the nonces from `first` up to, not including, `end` to rayon's
/// `par_bridge`, which gives each nonce to one worker of the current pool,
/// and asks its `find_map_any` for any nonce that `attempt` accepts.
///
/// Trusted: a nonce that comes back is one of the range and was accepted by
/// `attempt`; nothing comes back only when `attempt` refused every nonce of
/// the range. Which of several accepted nonces comes back is left open.
#[verifier::external_body]
fn search_any(template: &PreimageTemplate, first: u128, end: u128, difficulty: u8) -> (found:
    Option<u128>)
    requires
        template.wf(),
    ensures
        found matches Some(n) ==> first <= n < end && template.hit(n as nat, difficulty as nat),
        found is None ==> forall|n: u128|
            first <= n < end ==> !#[trigger] template.hit(n as nat, difficulty as nat),
{
    (first..end).par_bridge().find_map_any(|nonce| template.attempt(nonce, difficulty))
}

/// What a search returns for what its workers reported.
///
/// No report means that the range is exhausted. A reported nonce is checked
/// again on the event serialized anew: the event is returned only if its
/// identifier meets the difficulty.
pub fn conclude(skeleton: &UnsignedEventSkeleton, difficulty: u8, found: Option<u128>) -> (result:
    Result<FinalizedEvent, PowError>)
    ensures
        found is None ==> result == Err::<FinalizedEvent, PowError>(PowError::PowNotFound),
        found matches Some(n) ==> {
            if skeleton.preimage_with(n as nat, difficulty as nat).len() >= SHA256_INPUT_LIMIT {
                result == Err::<FinalizedEvent, PowError>(PowError::PreimageTooLong)
            } else if !skeleton.solves(n as nat, difficulty as nat) {
                result == Err::<FinalizedEvent, PowError>(PowError::WorkerFault)
            } else {
                &&& result matches Ok(event)
                &&& event.wf()
                &&& event.extends(*skeleton, n as nat, difficulty as nat)
                &&& meets_difficulty(event.identifier@, difficulty as nat)
            }
        },
{
    match found {
        None => Err(PowError::PowNotFound),
        Some(nonce) => match skeleton.finalize(nonce, difficulty) {
            None => Err(PowError::PreimageTooLong),
            Some(event) => {
                if check_pow_difficulty(&event.identifier, difficulty) {
                    Ok(event)
                } else {
                    Err(PowError::WorkerFault)
                }
            },
        },
    }
}

/// Searches the nonces from `FIRST_NONCE` up to, not including, `end` for one
/// whose event has an identifier with at least `difficulty` leading zero bits.
///
/// The workers of the current pool share the range. Which solving nonce is
/// returned when there are several is not determined.
pub fn find_nonce(skeleton: &UnsignedEventSkeleton, difficulty: u8, end: u128) -> (result: Result<
    FinalizedEvent,
    PowError,
>)
    ensures
        !hashable(*skeleton, difficulty as nat) ==> result == Err::<FinalizedEvent, PowError>(
            PowError::PreimageTooLong,
        ),
        hashable(*skeleton, difficulty as nat) && !skeleton.solvable_below(end, difficulty as nat)
            ==> result == Err::<FinalizedEvent, PowError>(PowError::PowNotFound),
        hashable(*skeleton, difficulty as nat) && skeleton.solvable_below(end, difficulty as nat)
            ==> result is Ok,
        result matches Ok(event) ==> {
            &&& event.wf()
            &&& meets_difficulty(event.identifier@, difficulty as nat)
            &&& exists|n: u128|
                FIRST_NONCE <= n < end && #[trigger] event.extends(
                    *skeleton,
                    n as nat,
                    difficulty as nat,
                )
        },
        difficulty == 0 && end > FIRST_NONCE && hashable(*skeleton, 0) ==> result is Ok,
{
    let template = match PreimageTemplate::new(skeleton, difficulty) {
        None => {
            return Err(PowError::PreimageTooLong);
        },
        Some(template) => template,
    };
    proof {
        lemma_template_candidates(template, *skeleton, difficulty as nat);
        if difficulty == 0 && end > FIRST_NONCE {
            lemma_zero_difficulty_solvable(*skeleton, end);
        }
    }
    let found = search_any(&template, FIRST_NONCE, end, difficulty);
    proof {
        match found {
            Some(n) => {
                lemma_nonce_len(n);
                assert(template.candidate(n as nat) == skeleton.preimage_with(
                    n as nat,
                    difficulty as nat,
                ));
                assert(skeleton.solves(n as nat, difficulty as nat));
            },
            None => {
                assert forall|n: u128| FIRST_NONCE <= n < end implies !#[trigger] skeleton.solves(
                    n as nat,
                    difficulty as nat,
                ) by {
                    assert(!template.hit(n as nat, difficulty as nat));
                    assert(template.candidate(n as nat) == skeleton.preimage_with(
                        n as nat,
                        difficulty as nat,
                    ));
                }
            },
        }
    }
    conclude(skeleton, difficulty, found)
}

/// Mines `skeleton`: searches all nonces for one whose event has an
/// identifier with at least `difficulty` leading zero bits, and returns that
/// event with its nonce tag and identifier.
pub fn mine(skeleton: &UnsignedEventSkeleton, difficulty: u32) -> (result: Result<
    FinalizedEvent,
    PowError,
>)
    ensures
        difficulty > MAX_DIFFICULTY <==> result == Err::<FinalizedEvent, PowError>(
            PowError::InvalidDifficulty,
        ),
        difficulty <= MAX_DIFFICULTY && !hashable(*skeleton, difficulty as nat) ==> result == Err::<
            FinalizedEvent,
            PowError,
        >(PowError::PreimageTooLong),
        difficulty <= MAX_DIFFICULTY && hashable(*skeleton, difficulty as nat) ==> (result is Ok
            <==> skeleton.solvable_below(u128::MAX, difficulty as nat)),
        difficulty <= MAX_DIFFICULTY && hashable(*skeleton, difficulty as nat) ==> (result == Err::<
            FinalizedEvent,
            PowError,
        >(PowError::PowNotFound) <==> !skeleton.solvable_below(u128::MAX, difficulty as nat)),
        result matches Ok(event) ==> {
            &&& event.wf()
            &&& meets_difficulty(event.identifier@, difficulty as nat)
            &&& exists|n: u128|
                FIRST_NONCE <= n < u128::MAX && #[trigger] event.extends(
                    *skeleton,
                    n as nat,
                    difficulty as nat,
                )
        },
        difficulty == 0 && hashable(*skeleton, 0) ==> result is Ok,
{
    if difficulty > MAX_DIFFICULTY {
        return Err(PowError::InvalidDifficulty);
    }
    find_nonce(skeleton, difficulty as u8, u128::MAX)
}

} // verus!
