//! A ball that bounces inside a frame of pixels, and its picture.

use vstd::prelude::*;

verus! {

/// The width of the frame, in pixels.
pub const WIDTH: u32 = 640;

/// The height of the frame, in pixels.
pub const HEIGHT: u32 = 480;

/// The radius of the ball, in pixels.
pub const RADIUS: i32 = 33;

/// The colour of a pixel of the ball, as red, green, blue and alpha.
pub const BALL_COLOUR: [u8; 4] = [0x03, 0x73, 0xa4, 0xff];

/// The colour of a pixel of the background, as red, green, blue and alpha.
pub const BACKGROUND_COLOUR: [u8; 4] = [0xe8, 0xd3, 0xb9, 0xff];

/// The state of the ball: where its centre is and how far it moves in one
/// step, on each axis.
pub struct Ball {
    /// The column of the centre.
    pub x: int,
    /// The row of the centre.
    pub y: int,
    /// The number of columns that the ball moves in one step.
    pub vx: int,
    /// The number of rows that the ball moves in one step.
    pub vy: int,
}

/// Whether a ball centred at `position` on an axis of length `limit` reaches
/// over an edge and turns round.
pub open spec fn turns(position: int, limit: int) -> bool {
    position - RADIUS < 0 || position + RADIUS > limit
}

/// Where the centre of a ball may be on an axis of length `limit`, and how it
/// may move there: the ball moves one pixel a step, and its centre comes one
/// pixel nearer to an edge than its radius only while it moves towards that
/// edge.
pub open spec fn on_axis(position: int, velocity: int, limit: int) -> bool {
    &&& velocity == 1 || velocity == -1
    &&& RADIUS - 1 <= position <= limit - RADIUS + 1
    &&& position == RADIUS - 1 ==> velocity == -1
    &&& position == limit - RADIUS + 1 ==> velocity == 1
}

/// Whether `ball` is a state that the world can be in.
pub open spec fn in_frame(ball: Ball) -> bool {
    on_axis(ball.x, ball.vx, WIDTH as int) && on_axis(ball.y, ball.vy, HEIGHT as int)
}

/// The ball one step later: on each axis it turns round if it reaches over
/// an edge, and then moves on by its velocity.
pub open spec fn stepped(ball: Ball) -> Ball {
    let vx = if turns(ball.x, WIDTH as int) {
        -ball.vx
    } else {
        ball.vx
    };
    let vy = if turns(ball.y, HEIGHT as int) {
        -ball.vy
    } else {
        ball.vy
    };
    Ball { x: ball.x + vx, y: ball.y + vy, vx, vy }
}

/// Whether pixel number `pixel` of the frame, counted row by row from the
/// top left, is covered by `ball`: its distance to the centre of the ball is
/// at most the radius.
pub open spec fn covers(ball: Ball, pixel: int) -> bool {
    let px = pixel % (WIDTH as int);
    let py = pixel / (WIDTH as int);
    (px - ball.x) * (px - ball.x) + (py - ball.y) * (py - ball.y) <= RADIUS * RADIUS
}

/// Byte `k` of the picture of `ball` painted over `frame`: each whole group
/// of four bytes is a pixel and gets the colour of the ball or of the
/// background; the bytes left over at the end stay as they are.
pub open spec fn painted_byte(ball: Ball, frame: Seq<u8>, k: int) -> u8 {
    if k < 4 * (frame.len() / 4) {
        if covers(ball, k / 4) {
            BALL_COLOUR[k % 4]
        } else {
            BACKGROUND_COLOUR[k % 4]
        }
    } else {
        frame[k]
    }
}

/// The picture of `ball` painted over `frame`.
pub open spec fn painted(ball: Ball, frame: Seq<u8>) -> Seq<u8> {
    Seq::new(frame.len(), |k: int| painted_byte(ball, frame, k))
}

/// A step keeps the ball in the frame.
pub proof fn lemma_step_stays_in_frame(ball: Ball)
    requires
        in_frame(ball),
    ensures
        in_frame(stepped(ball)),
{
}

/// The world: one ball in a frame of `WIDTH` by `HEIGHT` pixels.
pub struct World {
    x: i32,
    y: i32,
    vx: i32,
    vy: i32,
}

impl View for World {
    type V = Ball;

    closed spec fn view(&self) -> Ball {
        Ball { x: self.x as int, y: self.y as int, vx: self.vx as int, vy: self.vy as int }
    }
}

impl World {
    #[verifier::type_invariant]
    spec fn type_inv(&self) -> bool {
        in_frame(self@)
    }

    /// The world at the start: the ball at (70, 50), moving up and to the
    /// left.
    pub fn new() -> (world: World)
        ensures
            world@ == (Ball { x: 70, y: 50, vx: -1, vy: -1 }),
    {
        World { x: 70, y: 50, vx: -1, vy: -1 }
    }

    /// The column of the centre of the ball.
    pub fn x(&self) -> (x: i32)
        ensures
            x == self@.x,
            RADIUS - 1 <= x <= WIDTH - RADIUS + 1,
    {
        proof {
            use_type_invariant(self);
        }
        self.x
    }

    /// The row of the centre of the ball.
    pub fn y(&self) -> (y: i32)
        ensures
            y == self@.y,
            RADIUS - 1 <= y <= HEIGHT - RADIUS + 1,
    {
        proof {
            use_type_invariant(self);
        }
        self.y
    }

    /// The number of columns that the ball moves in one step: 1 or -1.
    pub fn vx(&self) -> (vx: i32)
        ensures
            vx == self@.vx,
            vx == 1 || vx == -1,
    {
        proof {
            use_type_invariant(self);
        }
        self.vx
    }

    /// The number of rows that the ball moves in one step: 1 or -1.
    pub fn vy(&self) -> (vy: i32)
        ensures
            vy == self@.vy,
            vy == 1 || vy == -1,
    {
        proof {
            use_type_invariant(self);
        }
        self.vy
    }

    /// Moves the ball by one step: on each axis it turns round if it reaches
    /// over an edge of the frame, and then moves on by its velocity.
    pub fn update(&mut self)
        ensures
            final(self)@ == stepped(old(self)@),
    {
        proof {
            use_type_invariant(&*self);
        }
        let mut vx = self.vx;
        let mut vy = self.vy;
        if self.x - RADIUS < 0 || self.x + RADIUS > WIDTH as i32 {
            vx = -vx;
        }
        if self.y - RADIUS < 0 || self.y + RADIUS > HEIGHT as i32 {
            vy = -vy;
        }
        let x = self.x + vx;
        let y = self.y + vy;
        *self = World { x, y, vx, vy };
    }

    /// Tells whether pixel number `pixel` of the frame is covered by the
    /// ball.
    fn covers_pixel(&self, pixel: usize) -> (inside: bool)
        ensures
            inside == covers(self@, pixel as int),
    {
        proof {
            use_type_invariant(self);
        }
        let px: i64 = (pixel % WIDTH as usize) as i64;
        let row: usize = pixel / WIDTH as usize;
        let dx: i64 = px - self.x as i64;
        let far: usize = (self.y + RADIUS) as usize;
        if row > far {
            proof {
                let dy = row as int - self.y as int;
                assert(dy * dy > RADIUS * RADIUS) by (nonlinear_arith)
                    requires
                        dy > RADIUS,
                        RADIUS == 33,
                ;
                assert(dx * dx >= 0) by (nonlinear_arith);
            }
            return false;
        }
        let dy: i64 = row as i64 - self.y as i64;
        assert(0 <= dx * dx <= 640 * 640) by (nonlinear_arith)
            requires
                -640 <= dx <= 640,
        ;
        assert(0 <= dy * dy <= 640 * 640) by (nonlinear_arith)
            requires
                -640 <= dy <= 640,
        ;
        dx * dx + dy * dy <= (RADIUS as i64) * (RADIUS as i64)
    }

    /// Paints the picture of the ball into `frame`, which holds the pixels
    /// row by row from the top left, four bytes a pixel: red, green, blue
    /// and alpha. A pixel whose distance to the centre of the ball is at
    /// most the radius gets the colour of the ball, every other pixel the
    /// colour of the background. Bytes at the end of `frame` that do not
    /// make up a pixel stay as they are.
    pub fn draw(&self, frame: &mut [u8])
        ensures
            final(frame)@ == painted(self@, old(frame)@),
    {
        let pixels: usize = frame.len() / 4;
        let mut i: usize = 0;
        while i < pixels
            invariant
                i <= pixels,
                pixels == old(frame)@.len() / 4,
                old(frame)@.len() <= usize::MAX,
                frame@.len() == old(frame)@.len(),
                forall|k: int| 0 <= k < 4 * i ==> frame@[k] == painted_byte(self@, old(frame)@, k),
                forall|k: int| 4 * i <= k < frame@.len() ==> frame@[k] == old(frame)@[k],
            decreases pixels - i,
        {
            let rgba = if self.covers_pixel(i) {
                BALL_COLOUR
            } else {
                BACKGROUND_COLOUR
            };
            let at: usize = 4 * i;
            frame[at] = rgba[0];
            frame[at + 1] = rgba[1];
            frame[at + 2] = rgba[2];
            frame[at + 3] = rgba[3];
            i += 1;
        }
    }
}

} // verus!
