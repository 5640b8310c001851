//! The library's contracts for the outside code that it calls.  Nothing here
//! is proved: each item states what the called crate's source and
//! documentation show of the function it wraps or the type it declares.
use vstd::prelude::*;
use arraydeque::ArrayDeque;
use image::DynamicImage;
use itertools::Itertools;
use rand::distributions::{IndependentSample, Range};
use rand::StdRng;

verus! {

/// The piece of `items` that `Itertools::chunks(size)` yields at position `k`:
/// items `k * size` up to `(k + 1) * size`, cut short at the end of `items`.
pub open spec fn chunk_at(items: Seq<char>, size: nat, k: int) -> Seq<char> {
    let end = if (k + 1) * size <= items.len() {
        (k + 1) * size
    } else {
        items.len() as int
    };
    items.subrange(k * size, end)
}

/// Splits `items` with itertools' `Itertools::chunks` and collects each chunk.
/// The crate documents that the chunks each hold `size` consecutive items, in
/// order, except the last, which is shorter when too few items remain, and
/// that `chunks` panics when `size` is 0; its source counts items into
/// groups of `size` with a running index.  So the result has
/// `ceil(len / size)` chunks and chunk `k` is `chunk_at(items, size, k)`.
#[verifier::external_body]
pub(crate) fn chunks_of(items: Vec<char>, size: usize) -> (res: Vec<Vec<char>>)
    requires
        size > 0,
    ensures
        res.len() * size >= items.len(),
        res.len() * size < items.len() + size,
        forall|k: int| 0 <= k < res.len() ==> #[trigger] res[k]@ == chunk_at(items@, size as nat, k),
{
    let chunks = items.into_iter().chunks(size);
    let mut res: Vec<Vec<char>> = Vec::new();
    for chunk in &chunks {
        res.push(chunk.collect());
    }
    res
}

/// `image::DynamicImage`, held opaquely.
#[verifier::external_type_specification]
#[verifier::external_body]
pub struct ExDynamicImage(image::DynamicImage);

/// The image that `DynamicImage::new_rgb8(width, height)` makes: an RGB
/// image of 8 bits per channel with every pixel black.
pub uninterp spec fn blank_rgb8(width: u32, height: u32) -> DynamicImage;

/// image's `DynamicImage::new_rgb8`.  Its source builds
/// `ImageRgb8(ImageBuffer::new(width, height))`, a zero-filled buffer of
/// `3 * width * height` bytes, so the image is a function of the two
/// dimensions alone; `ImageBuffer::new` panics when that byte count
/// overflows `usize`, which `requires` rules out.
#[verifier::external_body]
pub(crate) fn new_rgb8(width: u32, height: u32) -> (res: DynamicImage)
    requires
        3 * width * height <= usize::MAX,
    ensures
        res == blank_rgb8(width, height),
{
    DynamicImage::new_rgb8(width, height)
}

/// `std::path::PathBuf`, held opaquely.
#[verifier::external_type_specification]
#[verifier::external_body]
pub struct ExPathBuf(std::path::PathBuf);

/// A ring buffer of canvas positions: arraydeque's `ArrayDeque` over a
/// six-slot array, held opaquely.  arraydeque keeps one slot free, so it
/// holds at most five positions.
#[verifier::external_body]
pub struct PositionRing {
    ring: ArrayDeque<[(usize, usize, usize); 6]>,
}

/// The positions that a `PositionRing` holds, front to back.
pub uninterp spec fn ring_items(ring: PositionRing) -> Seq<(usize, usize, usize)>;

/// arraydeque's `ArrayDeque::new`: an empty buffer.
#[verifier::external_body]
pub(crate) fn ring_new() -> (ring: PositionRing)
    ensures
        ring_items(ring) == Seq::<(usize, usize, usize)>::empty(),
{
    PositionRing { ring: ArrayDeque::new() }
}

/// arraydeque's `ArrayDeque::capacity`, which its source computes as the
/// array's length less one: 5 for six slots.
#[verifier::external_body]
pub(crate) fn ring_capacity(ring: &PositionRing) -> (cap: usize)
    ensures
        cap == 5,
{
    ring.ring.capacity()
}

/// arraydeque's `ArrayDeque::push_back`.  Its source appends `element` at
/// the back and returns `None` unless the buffer is full (five positions
/// here), in which case it leaves the buffer as it was and hands `element`
/// back.
#[verifier::external_body]
pub(crate) fn ring_push_back(ring: &mut PositionRing, element: (usize, usize, usize)) -> (rejected: Option<(usize, usize, usize)>)
    requires
        ring_items(*old(ring)).len() <= 5,
    ensures
        ring_items(*old(ring)).len() < 5 ==> rejected is None && ring_items(*final(ring)) == ring_items(*old(ring)).push(element),
        ring_items(*old(ring)).len() == 5 ==> rejected == Some(element) && ring_items(*final(ring)) == ring_items(*old(ring)),
{
    ring.ring.push_back(element)
}

/// arraydeque's `ArrayDeque::pop_front`: removes and returns the front
/// position, or returns `None` and leaves an empty buffer as it was.
#[verifier::external_body]
pub(crate) fn ring_pop_front(ring: &mut PositionRing) -> (front: Option<(usize, usize, usize)>)
    ensures
        ring_items(*old(ring)).len() == 0 ==> front is None && ring_items(*final(ring)) == ring_items(*old(ring)),
        ring_items(*old(ring)).len() > 0 ==> front == Some(ring_items(*old(ring))[0])
            && ring_items(*final(ring)) == ring_items(*old(ring)).drop_first(),
{
    ring.ring.pop_front()
}

/// arraydeque's `ArrayDeque::back`, copied out: the back position, or
/// `None` for an empty buffer.
#[verifier::external_body]
pub(crate) fn ring_back(ring: &PositionRing) -> (back: Option<(usize, usize, usize)>)
    ensures
        ring_items(*ring).len() == 0 ==> back is None,
        ring_items(*ring).len() > 0 ==> back == Some(ring_items(*ring).last()),
{
    ring.ring.back().copied()
}

/// arraydeque's indexing, `ring[index]`: the position `index` places from
/// the front.  It panics on an index past the end, which `requires` rules
/// out.
#[verifier::external_body]
pub(crate) fn ring_get(ring: &PositionRing, index: usize) -> (item: (usize, usize, usize))
    requires
        index < ring_items(*ring).len(),
    ensures
        item == ring_items(*ring)[index as int],
{
    ring.ring[index]
}

/// rand's `StdRng`, held opaquely.
#[verifier::external_type_specification]
#[verifier::external_body]
pub struct ExStdRng(StdRng);

/// A number drawn from `[0, bound)` with rand's `Range::new(0, bound)` and
/// `IndependentSample::ind_sample`.  `Range::new` panics unless `0 < bound`,
/// which `requires` rules out; for integers the crate's source returns
/// `0 + v % bound` for a word `v` of the generator, so the number is below
/// `bound`.  Which number comes depends on the generator's state, so nothing
/// more is stated of it; the range it was drawn from is handed back beside
/// it, as a ghost value, so that callers can state which range they drew
/// from.
#[verifier::external_body]
pub(crate) fn random_below(generator: &mut StdRng, bound: usize) -> (drawn: (usize, Ghost<usize>))
    requires
        bound > 0,
    ensures
        drawn.0 < bound,
        drawn.1@ == bound,
{
    (Range::new(0, bound).ind_sample(generator), Ghost(bound))
}

/// Appends one character to the end of a `String`: std's `String::push`,
/// which its documentation describes as appending the given `char` to the
/// end of the string.
#[verifier::external_body]
pub(crate) fn push_char(s: &mut String, c: char)
    ensures
        final(s)@ == old(s)@.push(c),
{
    s.push(c);
}

/// std's `PathBuf::clone`: its documentation promises a copy of the path,
/// which holds the same bytes; the copy is stated equal to `p`.
#[verifier::external_body]
pub(crate) fn clone_path(p: &std::path::PathBuf) -> (res: std::path::PathBuf)
    ensures
        res == *p,
{
    p.clone()
}

/// num_cpus' `get`: the number of logical CPUs this process may use.  The
/// crate documents that it always returns at least 1; what else it returns
/// depends on the machine, so nothing more is stated.
#[verifier::external_body]
pub(crate) fn cpu_count() -> (n: usize)
    ensures
        n >= 1,
{
    num_cpus::get()
}

} // verus!
