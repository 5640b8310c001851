//! The generator of mandala points: a chaos game that moves, at each step,
//! halfway from the last position towards a corner of the canvas picked at
//! random.
use vstd::prelude::*;
use rand::StdRng;
use crate::bindings::{
    random_below, ring_back, ring_capacity, ring_get, ring_items, ring_new, ring_pop_front,
    ring_push_back, PositionRing,
};

verus! {

/// The eight corners of a canvas of the given size, in the order the
/// generator numbers them.
pub open spec fn canvas_corners(size: (usize, usize, usize)) -> Seq<(usize, usize, usize)> {
    seq![
        (0, 0, 0),
        (size.0, 0, 0),
        (0, size.1, 0),
        (size.0, size.1, 0),
        (0, 0, size.2),
        (size.0, 0, size.2),
        (0, size.1, size.2),
        (size.0, size.1, size.2),
    ]
}

/// The canvas' centre, rounded down.
pub open spec fn centre(size: (usize, usize, usize)) -> (usize, usize, usize) {
    ((size.0 / 2) as usize, (size.1 / 2) as usize, (size.2 / 2) as usize)
}

/// The point halfway between `from` and `to`, rounded down.
pub open spec fn halfway(from: (usize, usize, usize), to: (usize, usize, usize)) -> (usize, usize, usize) {
    (((from.0 + to.0) / 2) as usize, ((from.1 + to.1) / 2) as usize, ((from.2 + to.2) / 2) as usize)
}

/// `x` is a valid coordinate along an axis of length `len`: below it, or 0
/// when the axis is empty.
pub open spec fn on_axis(x: usize, len: usize) -> bool {
    x < len || x == 0
}

/// `p` is a pixel of the canvas of the given size (or lies on an empty
/// axis at 0).
pub open spec fn inside(p: (usize, usize, usize), size: (usize, usize, usize)) -> bool {
    on_axis(p.0, size.0) && on_axis(p.1, size.1) && on_axis(p.2, size.2)
}

/// A generator for mandala points for a canvas of a given size.
pub struct GenerationContext {
    past_positions: PositionRing,
    generator: StdRng,
    corners: Vec<(usize, usize, usize)>,
    /// The last draw of a corner: the range `[0, bound)` it was drawn from
    /// and the index drawn.
    last_draw: Ghost<(usize, usize)>,
}

/// Moving halfway towards a corner never leaves the canvas.
pub proof fn halfway_stays_inside(p: (usize, usize, usize), size: (usize, usize, usize), corner: int)
    requires
        inside(p, size),
        0 <= corner < 8,
    ensures
        inside(halfway(p, canvas_corners(size)[corner]), size),
{
}

/// The generator's corners are the vertices of the canvas box: every
/// choice of `0` or the full length along each axis is one of them, and for
/// a canvas with no empty axis the eight are distinct.
pub proof fn corners_are_the_box_vertices(size: (usize, usize, usize), x: usize, y: usize, z: usize)
    requires
        x == 0 || x == size.0,
        y == 0 || y == size.1,
        z == 0 || z == size.2,
    ensures
        exists|i: int| 0 <= i < 8 && #[trigger] canvas_corners(size)[i] == (x, y, z),
        size.0 > 0 && size.1 > 0 && size.2 > 0 ==> forall|i: int, j: int|
            0 <= i < 8 && 0 <= j < 8 && i != j ==> #[trigger] canvas_corners(size)[i] != #[trigger] canvas_corners(size)[j],
{
    let i: int = (if x == 0 { 0int } else { 1int }) + (if y == 0 { 0int } else { 2int }) + (if z == 0 { 0int } else { 4int });
    assert(canvas_corners(size)[i] == (x, y, z));
}

/// Every one of the eight corners can be the one `advance` moves towards:
/// the corner is drawn from `[0, 8)`, and drawing `c` moves halfway towards
/// the vertex `c` of the canvas box.
pub proof fn every_corner_can_be_drawn(p: (usize, usize, usize), size: (usize, usize, usize), c: int)
    requires
        0 <= c < 8,
    ensures
        c < 8,
        halfway(p, canvas_corners(size)[c]).2 == ((p.2 + (if c >= 4 { size.2 as int } else { 0int })) / 2) as usize,
        halfway(p, canvas_corners(size)[c]).1 == ((p.1 + (if c % 4 >= 2 { size.1 as int } else { 0int })) / 2) as usize,
        halfway(p, canvas_corners(size)[c]).0 == ((p.0 + (if c % 2 == 1 { size.0 as int } else { 0int })) / 2) as usize,
{
}

/// The centre lies on the canvas.
pub proof fn centre_is_inside(size: (usize, usize, usize))
    ensures
        inside(centre(size), size),
{
}

fn halve_sum(a: usize, b: usize) -> (res: usize)
    ensures
        res == (a + b) / 2,
{
    a / 2 + b / 2 + (a % 2 + b % 2) / 2
}

impl GenerationContext {
    /// The last five positions, oldest first.
    pub closed spec fn history(&self) -> Seq<(usize, usize, usize)> {
        ring_items(self.past_positions)
    }

    /// The size of the canvas the points are generated for.
    pub closed spec fn size(&self) -> (usize, usize, usize) {
        self.corners@[7]
    }

    /// The last draw of a corner by `advance`: the bound of the range
    /// `[0, bound)` that the generator drew from, and the index it drew.
    pub closed spec fn last_draw(&self) -> (usize, usize) {
        self.last_draw@
    }

    /// The corners that the generator moves towards.
    pub closed spec fn corners(&self) -> Seq<(usize, usize, usize)> {
        self.corners@
    }

    /// The context's invariant: five remembered positions, all on the canvas,
    /// and the canvas' eight corners.
    pub open spec fn wf(&self) -> bool {
        &&& self.history().len() == 5
        &&& self.corners() == canvas_corners(self.size())
        &&& forall|i: int| 0 <= i < 5 ==> inside(#[trigger] self.history()[i], self.size())
    }

    /// Prepare a new, clean, generation context, drawing its randomness from
    /// `generator`.
    ///
    /// Whole history is initialised to the canvas' center.
    pub fn new(mandala_size: (usize, usize, usize), generator: StdRng) -> (res: GenerationContext)
        ensures
            res.wf(),
            res.size() == mandala_size,
            res.history() == Seq::new(5, |_i: int| centre(mandala_size)),
    {
        let mut past = ring_new();
        let capacity: usize = ring_capacity(&past);
        let start = (mandala_size.0 / 2, mandala_size.1 / 2, mandala_size.2 / 2);
        let mut i: usize = 0;
        while i < capacity
            invariant
                capacity == 5,
                i <= capacity,
                start == centre(mandala_size),
                ring_items(past) == Seq::new(i as nat, |_i: int| centre(mandala_size)),
            decreases capacity - i,
        {
            ring_push_back(&mut past, start);
            assert(ring_items(past) =~= Seq::new((i + 1) as nat, |_i: int| centre(mandala_size)));
            i += 1;
        }
        let corners = vec![
            (0, 0, 0),
            (mandala_size.0, 0, 0),
            (0, mandala_size.1, 0),
            (mandala_size.0, mandala_size.1, 0),
            (0, 0, mandala_size.2),
            (mandala_size.0, 0, mandala_size.2),
            (0, mandala_size.1, mandala_size.2),
            (mandala_size.0, mandala_size.1, mandala_size.2),
        ];
        let res = GenerationContext { past_positions: past, generator, corners, last_draw: Ghost((0, 0)) };
        assert(res.corners() =~= canvas_corners(res.size()));
        res
    }

    /// Advance the generator by one point towards corner `corner` (in the
    /// order of `canvas_corners`): move halfway towards it from the last
    /// position.
    ///
    /// Returns the five remembered positions followed by the new one; the
    /// new position replaces the oldest in the history.
    pub fn step_towards(&mut self, corner: usize) -> (window: [(usize, usize, usize); 6])
        requires
            old(self).wf(),
            corner < 8,
        ensures
            final(self).wf(),
            final(self).size() == old(self).size(),
            window@ == old(self).history().push(window[5]),
            final(self).history() == window@.drop_first(),
            window[5] == halfway(old(self).history().last(), canvas_corners(old(self).size())[corner as int]),
            inside(window[5], old(self).size()),
            final(self).last_draw() == old(self).last_draw(),
    {
        let ghost size = self.size();
        let ghost history = self.history();
        let prev = match ring_back(&self.past_positions) {
            Some(p) => p,
            None => (0, 0, 0),
        };
        let to = self.corners[corner];
        let next = (halve_sum(prev.0, to.0), halve_sum(prev.1, to.1), halve_sum(prev.2, to.2));
        proof {
            assert(prev == history[4]);
            halfway_stays_inside(prev, size, corner as int);
        }
        let window = [
            ring_get(&self.past_positions, 0),
            ring_get(&self.past_positions, 1),
            ring_get(&self.past_positions, 2),
            ring_get(&self.past_positions, 3),
            ring_get(&self.past_positions, 4),
            next,
        ];
        ring_pop_front(&mut self.past_positions);
        ring_push_back(&mut self.past_positions, next);
        assert(window@ =~= history.push(next));
        assert(self.history() =~= window@.drop_first());
        assert forall|i: int| 0 <= i < 5 implies inside(#[trigger] self.history()[i], self.size()) by {
            if i < 4 {
                assert(self.history()[i] == history[i + 1]);
            }
        }
        window
    }

    /// Advance the generator by one point: pick one of the eight corners at
    /// random and step halfway towards it.
    pub fn advance(&mut self) -> (window: [(usize, usize, usize); 6])
        requires
            old(self).wf(),
        ensures
            final(self).wf(),
            final(self).size() == old(self).size(),
            window@ == old(self).history().push(window[5]),
            final(self).history() == window@.drop_first(),
            final(self).last_draw().0 == 8,
            final(self).last_draw().1 < 8,
            window[5] == halfway(
                old(self).history().last(),
                canvas_corners(old(self).size())[final(self).last_draw().1 as int],
            ),
            inside(window[5], old(self).size()),
    {
        let (corner, range) = random_below(&mut self.generator, self.corners.len());
        self.last_draw = Ghost((range@, corner));
        self.step_towards(corner)
    }
}

} // verus!
