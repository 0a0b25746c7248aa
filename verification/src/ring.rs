//! The wait-free rings between a stream thread and its reader.
//!
//! Each end of a ring is known by what went through it: everything a producer
//! has committed, everything a consumer has taken; and by what it has last seen
//! of the other end. What the other end is doing at the moment is not known to
//! either.
use vstd::prelude::*;

verus! {

#[verifier::external_type_specification]
#[verifier::external_body]
#[verifier::reject_recursive_types(T)]
pub struct ExProducer<T>(rtrb::Producer<T>);

#[verifier::external_type_specification]
#[verifier::external_body]
#[verifier::reject_recursive_types(T)]
pub struct ExConsumer<T>(rtrb::Consumer<T>);

/// Every byte committed through a producer so far, in order.
pub uninterp spec fn byte_written(p: rtrb::Producer<u8>) -> Seq<u8>;

/// How many bytes fit in a producer's ring.
pub uninterp spec fn byte_room(p: rtrb::Producer<u8>) -> nat;

/// Every byte taken through a consumer so far, in order.
pub uninterp spec fn byte_taken(c: rtrb::Consumer<u8>) -> Seq<u8>;

/// How many bytes fit in a consumer's ring.
pub uninterp spec fn byte_depth(c: rtrb::Consumer<u8>) -> nat;

/// How many bytes a consumer knows to be there, as `rtrb::Consumer::cached_slots`
/// counts them: those it has been told of and has not taken. More may have come.
pub uninterp spec fn byte_seen(c: rtrb::Consumer<u8>) -> nat;

/// How much room a producer knows of, as `rtrb::Producer::cached_slots` counts
/// it. More may have been made.
pub uninterp spec fn byte_open(p: rtrb::Producer<u8>) -> nat;

/// Wraps `rtrb::RingBuffer::new`: an empty ring for `capacity` bytes, as its
/// two ends. What the two ends see of each other is not stated: they run on
/// different threads.
#[verifier::external_body]
pub(crate) fn byte_ring(capacity: usize) -> (r: (rtrb::Producer<u8>, rtrb::Consumer<u8>))
    requires
        capacity <= 0x1000_0000,
    ensures
        byte_written(r.0).len() == 0,
        byte_room(r.0) == capacity,
        byte_taken(r.1).len() == 0,
        byte_depth(r.1) == capacity,
        byte_open(r.0) == capacity,
        byte_seen(r.1) == 0,
{
    rtrb::RingBuffer::<u8>::new(capacity)
}

/// Wraps `rtrb::Producer::push_entire_slice`: the whole slice goes in, or
/// nothing does. It goes in where the producer knows of the room or where it
/// would fit beside everything that was ever written, and does not where it is
/// larger than the ring; in between, what the reader has taken decides. Where it
/// does not go in, the producer has just seen that there is too little room.
#[verifier::external_body]
pub(crate) fn byte_write(p: &mut rtrb::Producer<u8>, items: &[u8]) -> (r: bool)
    ensures
        byte_room(*final(p)) == byte_room(*old(p)),
        byte_written(*final(p)) == (if r {
            byte_written(*old(p)) + items@
        } else {
            byte_written(*old(p))
        }),
        byte_written(*old(p)).len() + items@.len() <= byte_room(*old(p)) ==> r,
        items@.len() > byte_room(*old(p)) ==> !r,
        items@.len() <= byte_open(*old(p)) ==> r && byte_open(*final(p)) == byte_open(*old(p))
            - items@.len(),
        !r ==> byte_open(*final(p)) < items@.len(),
{
    p.push_entire_slice(items).is_ok()
}

/// Wraps `rtrb::Consumer::slots`: how many bytes can be taken now, which the
/// consumer knows from then on. None is taken, and none that it knew of is gone.
#[verifier::external_body]
pub(crate) fn byte_ready(c: &mut rtrb::Consumer<u8>) -> (r: usize)
    ensures
        r == byte_seen(*final(c)),
        r >= byte_seen(*old(c)),
        r <= byte_depth(*old(c)),
        byte_depth(*final(c)) == byte_depth(*old(c)),
        byte_taken(*final(c)) == byte_taken(*old(c)),
{
    c.slots()
}

/// Wraps `rtrb::Consumer::pop_entire_slice`: the next `n` bytes, or nothing
/// where fewer are there. Those that the consumer knows of are always had. That
/// the bytes come out as they were written at the other end is not stated: the two
/// ends run on different threads.
#[verifier::external_body]
pub(crate) fn byte_read(c: &mut rtrb::Consumer<u8>, n: usize) -> (r: Option<Vec<u8>>)
    requires
        n <= byte_depth(*old(c)),
    ensures
        byte_depth(*final(c)) == byte_depth(*old(c)),
        n <= byte_seen(*old(c)) ==> r is Some && byte_seen(*final(c)) == byte_seen(*old(c)) - n,
        r is None ==> byte_taken(*final(c)) == byte_taken(*old(c)) && byte_seen(*final(c)) < n,
        r matches Some(v) ==> v@.len() == n && byte_taken(*final(c)) == byte_taken(*old(c)) + v@,
{
    let mut v = vec![0; n];
    match c.pop_entire_slice(&mut v) {
        Ok(()) => Some(v),
        Err(_) => None,
    }
}

/// Wraps `rtrb::Producer::slots`: how many bytes fit now, which the producer
/// knows from then on. Nothing is written, and no room that it knew of is gone.
/// Never less than the room that was never written to.
#[verifier::external_body]
pub(crate) fn byte_free(p: &mut rtrb::Producer<u8>) -> (r: usize)
    ensures
        r == byte_open(*final(p)),
        r >= byte_open(*old(p)),
        r <= byte_room(*old(p)),
        r + byte_written(*old(p)).len() >= byte_room(*old(p)),
        byte_room(*final(p)) == byte_room(*old(p)),
        byte_written(*final(p)) == byte_written(*old(p)),
{
    p.slots()
}

/// Wraps `rtrb::RingBuffer::capacity`, through `rtrb::Producer::buffer`: how
/// many bytes the ring holds.
#[verifier::external_body]
pub(crate) fn byte_capacity(p: &rtrb::Producer<u8>) -> (r: usize)
    ensures
        r == byte_room(*p),
{
    p.buffer().capacity()
}

/// Every word committed through a producer so far, in order.
pub uninterp spec fn word_written(p: rtrb::Producer<u32>) -> Seq<u32>;

/// How many words fit in a producer's ring.
pub uninterp spec fn word_room(p: rtrb::Producer<u32>) -> nat;

/// Every word taken through a consumer so far, in order.
pub uninterp spec fn word_taken(c: rtrb::Consumer<u32>) -> Seq<u32>;

/// How many words fit in a consumer's ring.
pub uninterp spec fn word_depth(c: rtrb::Consumer<u32>) -> nat;

/// How many words a consumer knows to be there, as `rtrb::Consumer::cached_slots`
/// counts them: those it has been told of and has not taken. More may have come.
pub uninterp spec fn word_seen(c: rtrb::Consumer<u32>) -> nat;

/// How much room a producer knows of, as `rtrb::Producer::cached_slots` counts
/// it. More may have been made.
pub uninterp spec fn word_open(p: rtrb::Producer<u32>) -> nat;

/// Wraps `rtrb::RingBuffer::new`: an empty ring for `capacity` words, as its
/// two ends. What the two ends see of each other is not stated: they run on
/// different threads.
#[verifier::external_body]
pub(crate) fn word_ring(capacity: usize) -> (r: (rtrb::Producer<u32>, rtrb::Consumer<u32>))
    requires
        capacity <= 0x1000_0000,
    ensures
        word_written(r.0).len() == 0,
        word_room(r.0) == capacity,
        word_taken(r.1).len() == 0,
        word_depth(r.1) == capacity,
        word_open(r.0) == capacity,
        word_seen(r.1) == 0,
{
    rtrb::RingBuffer::<u32>::new(capacity)
}

/// Wraps `rtrb::Producer::push_entire_slice`: the whole slice goes in, or
/// nothing does. It goes in where the producer knows of the room or where it
/// would fit beside everything that was ever written, and does not where it is
/// larger than the ring; in between, what the reader has taken decides. Where it
/// does not go in, the producer has just seen that there is too little room.
#[verifier::external_body]
pub(crate) fn word_write(p: &mut rtrb::Producer<u32>, items: &[u32]) -> (r: bool)
    ensures
        word_room(*final(p)) == word_room(*old(p)),
        word_written(*final(p)) == (if r {
            word_written(*old(p)) + items@
        } else {
            word_written(*old(p))
        }),
        word_written(*old(p)).len() + items@.len() <= word_room(*old(p)) ==> r,
        items@.len() > word_room(*old(p)) ==> !r,
        items@.len() <= word_open(*old(p)) ==> r && word_open(*final(p)) == word_open(*old(p))
            - items@.len(),
        !r ==> word_open(*final(p)) < items@.len(),
{
    p.push_entire_slice(items).is_ok()
}

/// Wraps `rtrb::Consumer::slots`: how many words can be taken now, which the
/// consumer knows from then on. None is taken, and none that it knew of is gone.
#[verifier::external_body]
pub(crate) fn word_ready(c: &mut rtrb::Consumer<u32>) -> (r: usize)
    ensures
        r == word_seen(*final(c)),
        r >= word_seen(*old(c)),
        r <= word_depth(*old(c)),
        word_depth(*final(c)) == word_depth(*old(c)),
        word_taken(*final(c)) == word_taken(*old(c)),
{
    c.slots()
}

/// Wraps `rtrb::Consumer::pop_entire_slice`: the next `n` words, or nothing
/// where fewer are there. Those that the consumer knows of are always had. That
/// the words come out as they were written at the other end is not stated: the two
/// ends run on different threads.
#[verifier::external_body]
pub(crate) fn word_read(c: &mut rtrb::Consumer<u32>, n: usize) -> (r: Option<Vec<u32>>)
    requires
        n <= word_depth(*old(c)),
    ensures
        word_depth(*final(c)) == word_depth(*old(c)),
        n <= word_seen(*old(c)) ==> r is Some && word_seen(*final(c)) == word_seen(*old(c)) - n,
        r is None ==> word_taken(*final(c)) == word_taken(*old(c)) && word_seen(*final(c)) < n,
        r matches Some(v) ==> v@.len() == n && word_taken(*final(c)) == word_taken(*old(c)) + v@,
{
    let mut v = vec![0; n];
    match c.pop_entire_slice(&mut v) {
        Ok(()) => Some(v),
        Err(_) => None,
    }
}

/// The powers of two.
pub open spec fn pow2(n: nat) -> nat
    decreases n,
{
    if n == 0 {
        1
    } else {
        2 * pow2((n - 1) as nat)
    }
}

/// Whether `p` is the least power of two that is not below `x`.
pub open spec fn is_next_pow2(x: int, p: int) -> bool {
    &&& exists|k: nat| p == #[trigger] pow2(k)
    &&& p >= x
    &&& p == 1 || p < 2 * x
}

/// The least power of two that is not below `x`.
pub fn next_power_of_two(x: u64) -> (r: u64)
    requires
        x <= 0x4000_0000_0000_0000,
    ensures
        is_next_pow2(x as int, r as int),
        r >= 1,
        x <= 1 ==> r == 1,
{
    let mut p: u64 = 1;
    let ghost mut k: nat = 0;
    while p < x
        invariant
            x <= 0x4000_0000_0000_0000,
            p == pow2(k),
            p >= 1,
            p == 1 || p < 2 * x,
            x <= 1 ==> p == 1,
        decreases 2 * x - p,
    {
        p = p * 2;
        proof {
            k = k + 1;
        }
    }
    p
}

/// A power of two above one is even.
pub proof fn lemma_pow2_even(k: nat)
    ensures
        pow2(k) >= 1,
        k > 0 ==> pow2(k) % 2 == 0,
        k > 1 ==> pow2(k) % 4 == 0,
    decreases k,
{
    if k > 0 {
        lemma_pow2_even((k - 1) as nat);
    }
}

} // verus!
