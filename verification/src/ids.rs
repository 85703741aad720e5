//! Process and thread ids, and a pair of them held in one atomic word.

use core::sync::atomic::AtomicU64;
use core::sync::atomic::Ordering;

use vstd::prelude::*;

verus! {

pub type ProcessId = u32;

pub type ThreadId = u32;

/// The word that holds a process id in its high half and a thread id in its low half.
pub open spec fn encoded(process_id: ProcessId, thread_id: ThreadId) -> u64 {
    ((process_id as u64) << 32u64) | (thread_id as u64)
}

/// The process id and thread id held in a word.
pub open spec fn decoded(value: u64) -> (ProcessId, ThreadId) {
    ((value >> 32u64) as u32, value as u32)
}

/// Law: a pair of ids is read back as it was stored, and every word is the encoding of the
/// pair it holds.
pub proof fn lemma_encode_decode(process_id: ProcessId, thread_id: ThreadId, value: u64)
    ensures
        decoded(encoded(process_id, thread_id)) == (process_id, thread_id),
        encoded(decoded(value).0, decoded(value).1) == value,
{
    assert((((((process_id as u64) << 32u64) | (thread_id as u64)) >> 32u64) as u32) == process_id
        && ((((process_id as u64) << 32u64) | (thread_id as u64)) as u32) == thread_id
        && ((((value >> 32u64) as u32) as u64) << 32u64) | (((value as u32)) as u64) == value)
        by (bit_vector);
}

/// The word that holds the pair of ids.
fn encode(process_id: ProcessId, thread_id: ThreadId) -> (r: u64)
    ensures
        r == encoded(process_id, thread_id),
{
    ((process_id as u64) << 32u64) | (thread_id as u64)
}

/// The pair of ids a word holds.
fn decode(value: u64) -> (r: (ProcessId, ThreadId))
    ensures
        r == decoded(value),
{
    ((value >> 32u64) as u32, value as u32)
}

/// An ordering that an atomic read may use: std panics on a read, or on the fetch of an
/// update, with `Release` or `AcqRel`.
pub open spec fn read_ordering(order: Ordering) -> bool {
    order != Ordering::Release && order != Ordering::AcqRel
}

/// The word that replaces `word`: `new` when `word` is `current`, none otherwise.
fn exchange_if(word: u64, current: u64, new: u64) -> (r: Option<u64>)
    ensures
        r == (if word == current {
            Some(new)
        } else {
            None
        }),
{
    if word == current {
        Some(new)
    } else {
        None
    }
}

/// Calls `AtomicU64::fetch_update` with [`exchange_if`], which replaces the word by `new` when
/// it is `current`. Its documentation says that the result holds the previous value, the one
/// the function was last applied to: in `Ok` when the function gave a new value, so that value
/// was `current`, and in `Err` when it gave none, so it was not. It panics on a fetch ordering
/// of `Release` or `AcqRel`.
#[verifier::external_body]
fn exchange_word(word: &AtomicU64, current: u64, new: u64, success: Ordering, failure: Ordering) -> (r: Result<
    u64,
    u64,
>)
    requires
        read_ordering(failure),
    ensures
        r matches Ok(v) ==> v == current,
        r matches Err(v) ==> v != current,
{
    word.fetch_update(success, failure, |v| exchange_if(v, current, new))
}

/// A process id and a thread id that change together, atomically.
pub struct AtomicProcThreadId {
    value: AtomicU64,
}

impl AtomicProcThreadId {
    /// A pair that starts as `(process_id, thread_id)`.
    pub fn new(process_id: ProcessId, thread_id: ThreadId) -> (r: Self) {
        Self { value: AtomicU64::new(encode(process_id, thread_id)) }
    }

    /// Read the pair.
    ///
    /// The value of the atomic word is not modelled, so nothing is stated of the pair read.
    pub fn load(&self, order: Ordering) -> (r: (ProcessId, ThreadId))
        requires
            read_ordering(order),
    {
        decode(self.value.load(order))
    }

    /// Replace the pair by `new` if it is `current`; returns the pair found, in `Ok` when it
    /// was replaced, and then it is `current`, and in `Err` when it was not, and then it
    /// differs from `current`.
    ///
    /// The value of the atomic word is not modelled, so which of the two happens is not stated.
    pub fn compare_exchange(
        &self,
        current: (ProcessId, ThreadId),
        new: (ProcessId, ThreadId),
        success: Ordering,
        failure: Ordering,
    ) -> (r: Result<(ProcessId, ThreadId), (ProcessId, ThreadId)>)
        requires
            read_ordering(failure),
        ensures
            r matches Ok(p) ==> p == current,
            r matches Err(p) ==> p != current,
    {
        let expected: u64 = encode(current.0, current.1);
        let replacement: u64 = encode(new.0, new.1);
        match exchange_word(&self.value, expected, replacement, success, failure) {
            Ok(v) => {
                proof {
                    lemma_encode_decode(current.0, current.1, v);
                }
                Ok(decode(v))
            },
            Err(v) => {
                proof {
                    lemma_encode_decode(current.0, current.1, v);
                }
                Err(decode(v))
            },
        }
    }
}

} // verus!
