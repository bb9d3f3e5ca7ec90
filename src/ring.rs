use vstd::prelude::*;
use circle_buffer::CircleBuffer;

verus! {

#[verifier::external_type_specification]
#[verifier::external_body]
#[verifier::reject_recursive_types(T)]
pub struct ExCircleBuffer<T: Clone>(CircleBuffer<T>);

/// The bytes a buffer holds, oldest first.
pub uninterp spec fn ring_contents(b: CircleBuffer<u8>) -> Seq<u8>;

/// The number of bytes a buffer was made to hold.
pub uninterp spec fn ring_capacity(b: CircleBuffer<u8>) -> nat;

/// What one push does to the contents of a buffer of capacity `cap`: the byte joins at
/// the end, and the oldest byte leaves once the buffer is full.
pub open spec fn push_bounded(contents: Seq<u8>, cap: nat, v: u8) -> Seq<u8> {
    if contents.len() < cap {
        contents.push(v)
    } else {
        contents.drop_first().push(v)
    }
}

/// Relies on `CircleBuffer::with_capacity`: an empty buffer of the given capacity. It
/// reserves `2 * capacity - 1` slots, so the capacity is positive and that count fits.
#[verifier::external_body]
pub(crate) fn ring_new(capacity: usize) -> (r: CircleBuffer<u8>)
    requires
        0 < capacity,
        2 * capacity - 1 <= isize::MAX,
    ensures
        ring_contents(r) == Seq::<u8>::empty(),
        ring_capacity(r) == capacity,
{
    CircleBuffer::with_capacity(capacity)
}

/// Relies on `CircleBuffer::push`: the byte is appended and, once the buffer is full,
/// the oldest byte is dropped.
#[verifier::external_body]
pub(crate) fn ring_push(b: &mut CircleBuffer<u8>, v: u8)
    requires
        ring_contents(*old(b)).len() <= ring_capacity(*old(b)),
        0 < ring_capacity(*old(b)),
    ensures
        ring_capacity(*final(b)) == ring_capacity(*old(b)),
        ring_contents(*final(b)) == push_bounded(ring_contents(*old(b)), ring_capacity(*old(b)), v),
{
    b.push(v)
}

/// Relies on `CircleBuffer::len`: the number of bytes held.
#[verifier::external_body]
pub(crate) fn ring_len(b: &CircleBuffer<u8>) -> (r: usize)
    ensures
        r == ring_contents(*b).len(),
{
    b.len()
}

/// Relies on `CircleBuffer::as_slice`: the bytes held, oldest first.
#[verifier::external_body]
pub(crate) fn ring_slice(b: &CircleBuffer<u8>) -> (r: &[u8])
    ensures
        r@ == ring_contents(*b),
{
    b.as_slice()
}

} // verus!
