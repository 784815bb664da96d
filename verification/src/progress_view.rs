//! The state of the progress view: the pieces downloaded and the position
//! of a light that sweeps to and fro, with a fading tail.

use vstd::prelude::*;

verus! {

/// Width of the sweep.
pub const PROGRESS_SIZE: usize = 10;

/// Length of the tail of the light.
pub const TAIL_SIZE: usize = 4;

/// The way the light moves.
#[derive(PartialEq, Eq, Structural, Clone, Copy, Debug)]
pub enum Direction {
    Left,
    Right,
}

/// What the view shows.
#[derive(Debug)]
pub struct Animation {
    pub pos: usize,
    pub pieces: Vec<bool>,
    pub direction: Direction,
}

/// The number of pieces downloaded.
pub open spec fn count_true(s: Seq<bool>) -> int
    decreases s.len(),
{
    if s.len() == 0 {
        0
    } else {
        count_true(s.drop_last()) + (if s.last() {
            1int
        } else {
            0int
        })
    }
}

/// The cell of the tail `p` steps behind the light at `pos`, reflected at
/// the ends of the sweep.
pub open spec fn tail_cell(pos: int, direction: Direction, p: int) -> int {
    let r = if direction == Direction::Left {
        pos + p
    } else {
        pos - p
    };
    let r2 = if r >= PROGRESS_SIZE {
        PROGRESS_SIZE - (r % (PROGRESS_SIZE - 1))
    } else {
        r
    };
    if r2 < 0 {
        -r2 - 1
    } else {
        r2
    }
}

/// The red level of a tail cell `p` steps behind the light.
pub open spec fn tail_level(p: int) -> int {
    255int / (p + 1)
}

/// The unlit cells with the tail from `p` steps behind the light on.
pub open spec fn tail_cells(pos: int, direction: Direction, p: int) -> Seq<u8>
    decreases TAIL_SIZE + 1 - p,
{
    if p > TAIL_SIZE || p < 1 {
        Seq::new(PROGRESS_SIZE as nat, |i: int| 0u8)
    } else {
        tail_cells(pos, direction, p + 1).update(tail_cell(pos, direction, p), tail_level(p) as u8)
    }
}

/// The cells of the sweep: a red level for each, 0 for an unlit cell.
pub open spec fn cells_of(pos: int, direction: Direction) -> Seq<u8> {
    tail_cells(pos, direction, 1).update(pos, 255u8)
}

impl Animation {
    /// Whether the light is inside the sweep.
    pub open spec fn wf(&self) -> bool {
        self.pos < PROGRESS_SIZE
    }

    /// The view of a torrent with `pieces_num` pieces, none downloaded.
    pub fn new(pieces_num: usize) -> (r: Animation)
        ensures
            r.wf(),
            r.pos == 0,
            r.direction == Direction::Right,
            r.pieces@ == crate::peer::no_pieces(pieces_num as nat),
    {
        let pieces = vec![false; pieces_num];
        assert(pieces@ =~= crate::peer::no_pieces(pieces_num as nat));
        Animation { pos: 0, pieces, direction: Direction::Right }
    }

    /// A piece was downloaded.
    pub fn handle_have(&mut self, index: usize)
        requires
            index < old(self).pieces@.len(),
        ensures
            final(self).pieces@ == old(self).pieces@.update(index as int, true),
            final(self).pos == old(self).pos,
            final(self).direction == old(self).direction,
    {
        self.pieces.set(index, true);
    }

    /// The number of pieces downloaded.
    pub fn downloaded(&self) -> (r: usize)
        ensures
            r == count_true(self.pieces@),
    {
        let mut n: usize = 0;
        let mut i: usize = 0;
        while i < self.pieces.len()
            invariant
                i <= self.pieces@.len(),
                n == count_true(self.pieces@.subrange(0, i as int)),
                n <= i,
            decreases self.pieces@.len() - i,
        {
            assert(self.pieces@.subrange(0, i + 1).drop_last() =~= self.pieces@.subrange(0, i as int));
            if self.pieces[i] {
                n = n + 1;
            }
            i = i + 1;
        }
        assert(self.pieces@.subrange(0, self.pieces@.len() as int) =~= self.pieces@);
        n
    }

    /// Moves the light one cell, turning at the ends of the sweep.
    pub fn step(&mut self)
        requires
            old(self).wf(),
        ensures
            final(self).wf(),
            final(self).pieces@ == old(self).pieces@,
            ({
                let d = if old(self).direction == Direction::Right && old(self).pos
                    >= PROGRESS_SIZE - 1 {
                    Direction::Left
                } else if old(self).direction == Direction::Left && old(self).pos == 0 {
                    Direction::Right
                } else {
                    old(self).direction
                };
                &&& final(self).direction == d
                &&& final(self).pos == if d == Direction::Right {
                    old(self).pos + 1
                } else {
                    old(self).pos - 1
                }
            }),
    {
        if self.direction == Direction::Right && self.pos >= PROGRESS_SIZE - 1 {
            self.direction = Direction::Left;
        } else if self.direction == Direction::Left && self.pos == 0 {
            self.direction = Direction::Right;
        }
        match self.direction {
            Direction::Right => self.pos = self.pos + 1,
            Direction::Left => self.pos = self.pos - 1,
        }
    }

    /// The cell of the tail `p` steps behind the light.
    pub fn tail(&self, p: usize) -> (r: usize)
        requires
            self.wf(),
            1 <= p <= TAIL_SIZE,
        ensures
            r == tail_cell(self.pos as int, self.direction, p as int),
            r < PROGRESS_SIZE,
    {
        let mut r: i64 = match self.direction {
            Direction::Left => self.pos as i64 + p as i64,
            Direction::Right => self.pos as i64 - p as i64,
        };
        if r >= PROGRESS_SIZE as i64 {
            r = PROGRESS_SIZE as i64 - (r % (PROGRESS_SIZE - 1) as i64);
        }
        if r < 0 {
            r = -r - 1;
        }
        r as usize
    }

    /// The red level of each cell: the light at full level, its tail
    /// fading behind it, the other cells unlit.
    pub fn cells(&self) -> (r: Vec<u8>)
        requires
            self.wf(),
        ensures
            r@ == cells_of(self.pos as int, self.direction),
    {
        let mut r: Vec<u8> = vec![0u8; PROGRESS_SIZE];
        assert(r@ =~= Seq::new(PROGRESS_SIZE as nat, |i: int| 0u8));
        let mut p: usize = TAIL_SIZE;
        while p >= 1
            invariant
                self.wf(),
                p <= TAIL_SIZE,
                r@ == tail_cells(self.pos as int, self.direction, p + 1),
                r@.len() == PROGRESS_SIZE,
            decreases p,
        {
            let i = self.tail(p);
            let level = (255 / (p + 1)) as u8;
            r.set(i, level);
            p = p - 1;
        }
        r.set(self.pos, 255);
        r
    }
}

} // verus!
