//! The rules of a rendering worker that is fed over a connection: in
//! which order requests may come, which pixels a tile stands for, and how
//! a colour is packed into one number.

use vstd::arithmetic::div_mod::lemma_fundamental_div_mod_converse;
use vstd::prelude::*;

verus! {

/// A square of pixels that a worker is asked to render.
#[derive(Copy, Clone, Debug, PartialEq, Eq, Structural)]
pub struct Tile {
    pub x: u32,
    pub y: u32,
    pub size: u32,
}

/// What a request to a worker asks for.
#[derive(Copy, Clone, Debug, PartialEq, Eq, Structural)]
pub enum Request {
    /// Take this scene; the scene itself travels beside the request.
    Scene,
    /// Render this tile of the scene taken before.
    Tile(Tile),
}

/// Where a conversation with a worker stands.
#[derive(Copy, Clone, Debug, PartialEq, Eq, Structural)]
pub enum Phase {
    /// Nothing was received yet.
    Start,
    /// A scene was taken; tiles are rendered.
    Rendering,
    /// A request was refused; the conversation is over.
    Closed,
}

/// What a worker does with a request.
#[derive(Copy, Clone, Debug, PartialEq, Eq, Structural)]
pub enum Step {
    /// Read the scene.
    Load,
    /// Render the pixels of the tile and send them back.
    Render(Tile),
    /// Refuse: the first request must be a scene.
    FirstMustBeScene,
    /// Refuse: after the scene every request must be a tile.
    MustBeTiles,
    /// The conversation is over; nothing is done.
    Ignore,
}

/// The worker itself has no state of its own: all of it is in the
/// [`Phase`] of each conversation.
#[derive(Copy, Clone, Debug)]
pub struct WorkerService {}

impl WorkerService {
    /// What follows on a request in a phase: the next phase and what the
    /// worker does. The conversation starts with one scene and goes on
    /// with tiles; any other order ends it.
    pub open spec fn spec_render(phase: Phase, request: Request) -> (Phase, Step) {
        match (phase, request) {
            (Phase::Start, Request::Scene) => (Phase::Rendering, Step::Load),
            (Phase::Start, Request::Tile(_)) => (Phase::Closed, Step::FirstMustBeScene),
            (Phase::Rendering, Request::Tile(tile)) => (Phase::Rendering, Step::Render(tile)),
            (Phase::Rendering, Request::Scene) => (Phase::Closed, Step::MustBeTiles),
            (Phase::Closed, _) => (Phase::Closed, Step::Ignore),
        }
    }

    /// What follows on a request in a phase: the next phase and what the
    /// worker does.
    pub fn render(phase: Phase, request: Request) -> (r: (Phase, Step))
        ensures
            r == WorkerService::spec_render(phase, request),
    {
        match phase {
            Phase::Start => match request {
                Request::Scene => (Phase::Rendering, Step::Load),
                Request::Tile(_) => (Phase::Closed, Step::FirstMustBeScene),
            },
            Phase::Rendering => match request {
                Request::Tile(tile) => (Phase::Rendering, Step::Render(tile)),
                Request::Scene => (Phase::Closed, Step::MustBeTiles),
            },
            Phase::Closed => (Phase::Closed, Step::Ignore),
        }
    }
}

impl Tile {
    /// The pixels of the tile in the order in which a worker renders
    /// them: column by column from the left, each column from the top.
    pub open spec fn spec_pixels(&self) -> Seq<(u32, u32)> {
        Seq::new(
            (self.size * self.size) as nat,
            |k: int| ((self.x + k / (self.size as int)) as u32, (self.y + k % (self.size as int)) as u32),
        )
    }

    /// The pixels of the tile in the order in which a worker renders
    /// them.
    pub fn pixels(&self) -> (pixels: Vec<(u32, u32)>)
        requires
            self.x + self.size <= u32::MAX,
            self.y + self.size <= u32::MAX,
        ensures
            pixels@ == self.spec_pixels(),
    {
        let mut pixels: Vec<(u32, u32)> = Vec::new();
        let size = self.size;
        let mut dx: u32 = 0;
        while dx < size
            invariant
                size == self.size,
                self.x + size <= u32::MAX,
                self.y + size <= u32::MAX,
                dx <= size,
                pixels.len() == dx * size,
                forall|k: int|
                    0 <= k < pixels.len() ==> pixels[k] == (
                        (self.x + k / (size as int)) as u32,
                        (self.y + k % (size as int)) as u32,
                    ),
            decreases size - dx,
        {
            let mut dy: u32 = 0;
            while dy < size
                invariant
                    size == self.size,
                    self.x + size <= u32::MAX,
                    self.y + size <= u32::MAX,
                    dx < size,
                    dy <= size,
                    pixels.len() == dx * size + dy,
                    forall|k: int|
                        0 <= k < pixels.len() ==> pixels[k] == (
                            (self.x + k / (size as int)) as u32,
                            (self.y + k % (size as int)) as u32,
                        ),
                decreases size - dy,
            {
                proof {
                    lemma_fundamental_div_mod_converse(
                        dx * size + dy,
                        size as int,
                        dx as int,
                        dy as int,
                    );
                }
                pixels.push((self.x + dx, self.y + dy));
                dy += 1;
            }
            assert((dx + 1) * size == dx * size + size) by (nonlinear_arith);
            dx += 1;
        }
        assert(pixels@ =~= self.spec_pixels());
        pixels
    }
}

/// The key of 255, the greatest value of a channel.
pub const FULL: i64 = 0x437f_0000;

/// The byte of one channel of a colour, from the key of 255 times the
/// channel and from the whole part of that number: 255 where the number
/// is above 255, zero where it is negative, and else its whole part.
pub fn clip_channel(unclipped: i64, whole: u8) -> (c: u8)
    ensures
        c == if unclipped > FULL {
            255u8
        } else if unclipped < 0 {
            0u8
        } else {
            whole
        },
{
    if unclipped > FULL {
        255
    } else if unclipped < 0 {
        0
    } else {
        whole
    }
}

/// A colour as one number: red in bits 16 to 23, green in bits 8 to 15,
/// blue in the lowest eight bits.
pub fn tup_to_u32_color(r: u8, g: u8, b: u8) -> (c: u32)
    ensures
        c == r * 0x1_0000 + g * 0x100 + b,
        (c / 0x1_0000) % 0x100 == r,
        (c / 0x100) % 0x100 == g,
        c % 0x100 == b,
{
    let red: u32 = r as u32;
    let green: u32 = g as u32;
    assert((red << 16) == red * 0x1_0000) by (bit_vector)
        requires
            red < 0x100,
    ;
    assert((green << 8) == green * 0x100) by (bit_vector)
        requires
            green < 0x100,
    ;
    (red << 16) + (green << 8) + (b as u32)
}

} // verus!
