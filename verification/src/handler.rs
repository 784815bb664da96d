//! What the handler of one peer connection keeps: the piece being
//! downloaded with its blocks, the piece being served, and the transfer
//! statistics.

use std::collections::VecDeque;
use vstd::prelude::*;

use crate::constants::{HASH_SIZE, PIECE_BLOCK_SIZE};
use crate::digest::{sha1_digest, sha1_of};
use crate::error::Error;
use crate::messages::piece::Piece;

verus! {

/// Number of periods over which the rates are averaged.
pub const MAX_STATS_QUEUE_SIZE: usize = 2;

/// The piece being served to the peer.
#[derive(Debug)]
pub struct PieceTx {
    pub index: usize,
    pub buff: Vec<u8>,
}

/// The piece being downloaded from the peer: its data so far, the blocks
/// requested and not received, and the blocks not requested yet.
#[derive(Debug)]
pub struct PieceRx {
    pub index: usize,
    pub hash: [u8; HASH_SIZE],
    pub buff: Vec<u8>,
    pub requested: VecDeque<(usize, usize)>,
    pub left: VecDeque<(usize, usize)>,
}

/// Bytes downloaded and uploaded in the current period (first) and the
/// previous ones, and the pieces rejected in the current period.
#[derive(Debug)]
pub struct Stats {
    pub downloaded: VecDeque<usize>,
    pub uploaded: VecDeque<usize>,
    pub rejected_piece: u32,
}

/// The length of block `k` of a piece of `pl` bytes.
pub open spec fn block_len(pl: int, k: int) -> int {
    if k * PIECE_BLOCK_SIZE + PIECE_BLOCK_SIZE > pl {
        pl % (PIECE_BLOCK_SIZE as int)
    } else {
        PIECE_BLOCK_SIZE as int
    }
}

/// The number of blocks of a piece of `pl` bytes.
pub open spec fn blocks_num(pl: int) -> int {
    if pl % (PIECE_BLOCK_SIZE as int) == 0 {
        pl / (PIECE_BLOCK_SIZE as int)
    } else {
        pl / (PIECE_BLOCK_SIZE as int) + 1
    }
}

/// The blocks of a piece of `pl` bytes: (begin, length) of each, every
/// block of the standard size but the last.
pub open spec fn blocks(pl: int) -> Seq<(usize, usize)> {
    Seq::new(blocks_num(pl) as nat, |k: int| ((k * PIECE_BLOCK_SIZE) as usize, block_len(pl, k) as usize))
}

/// Whether every block lies in a buffer of `n` bytes.
pub open spec fn blocks_within(bs: Seq<(usize, usize)>, n: int) -> bool {
    forall|k: int| 0 <= k < bs.len() ==> #[trigger] bs[k].0 + bs[k].1 <= n
}

/// The bytes of `buff` with `block` written at `begin`.
pub open spec fn written(buff: Seq<u8>, begin: int, block: Seq<u8>) -> Seq<u8> {
    buff.subrange(0, begin) + block + buff.subrange(begin + block.len(), buff.len() as int)
}

/// The requested blocks without those equal to (begin, length).
pub open spec fn without(bs: Seq<(usize, usize)>, begin: int, length: int) -> Seq<(usize, usize)>
    decreases bs.len(),
{
    if bs.len() == 0 {
        Seq::empty()
    } else {
        let rest = without(bs.drop_last(), begin, length);
        if bs.last().0 == begin && bs.last().1 == length {
            rest
        } else {
            rest.push(bs.last())
        }
    }
}

/// What is left of the blocks was among them.
proof fn lemma_without_contains(bs: Seq<(usize, usize)>, begin: int, length: int, x: (usize, usize))
    requires
        without(bs, begin, length).contains(x),
    ensures
        bs.contains(x),
    decreases bs.len(),
{
    if bs.len() > 0 {
        let rest = without(bs.drop_last(), begin, length);
        if rest.contains(x) {
            lemma_without_contains(bs.drop_last(), begin, length, x);
            let t = choose|t: int| 0 <= t < bs.drop_last().len() && bs.drop_last()[t] == x;
            assert(bs[t] == x);
        } else {
            assert(x == bs.last());
            assert(bs[bs.len() - 1] == x);
        }
    }
}

impl PieceRx {
    /// Whether every block lies in the buffer.
    pub open spec fn wf(&self) -> bool {
        &&& blocks_within(self.requested@, self.buff@.len() as int)
        &&& blocks_within(self.left@, self.buff@.len() as int)
    }

    /// A piece to download: a buffer of its length, all blocks left.
    pub fn new(index: usize, piece_length: usize, piece_hash: &[u8; HASH_SIZE]) -> (r: PieceRx)
        ensures
            r.wf(),
            r.index == index,
            r.hash@ == piece_hash@,
            r.buff@ == Seq::new(piece_length as nat, |i: int| 0u8),
            r.requested@.len() == 0,
            r.left@ == blocks(piece_length as int),
    {
        let buff = vec![0u8; piece_length];
        assert(buff@ =~= Seq::new(piece_length as nat, |i: int| 0u8));
        let left = Self::left(piece_length);
        PieceRx { index, hash: *piece_hash, buff, requested: VecDeque::new(), left }
    }

    /// The blocks of a piece of `piece_length` bytes, in order.
    pub fn left(piece_length: usize) -> (r: VecDeque<(usize, usize)>)
        ensures
            r@ == blocks(piece_length as int),
            blocks_within(r@, piece_length as int),
    {
        let ghost pl = piece_length as int;
        let mut res: VecDeque<(usize, usize)> = VecDeque::new();
        let mut block_begin: usize = 0;
        let mut k: usize = 0;
        while block_begin < piece_length
            invariant
                pl == piece_length as int,
                block_begin <= piece_length,
                block_begin < piece_length ==> block_begin == k * PIECE_BLOCK_SIZE,
                block_begin == piece_length ==> k == blocks_num(pl),
                k <= blocks_num(pl),
                res@ == blocks(pl).subrange(0, k as int),
            decreases piece_length - block_begin,
        {
            let block_length = if piece_length - block_begin < PIECE_BLOCK_SIZE {
                piece_length % PIECE_BLOCK_SIZE
            } else {
                PIECE_BLOCK_SIZE
            };
            proof {
                assert(k < blocks_num(pl)) by (nonlinear_arith)
                    requires
                        block_begin == k * PIECE_BLOCK_SIZE,
                        block_begin < pl,
                        PIECE_BLOCK_SIZE == 16384,
                ;
                assert(block_length == block_len(pl, k as int));
            }
            res.push_back((block_begin, block_length));
            if piece_length - block_begin <= PIECE_BLOCK_SIZE {
                proof {
                    assert(k + 1 == blocks_num(pl)) by (nonlinear_arith)
                        requires
                            block_begin == k * PIECE_BLOCK_SIZE,
                            pl - block_begin <= PIECE_BLOCK_SIZE,
                            block_begin < pl,
                            PIECE_BLOCK_SIZE == 16384,
                    ;
                }
                block_begin = piece_length;
            } else {
                block_begin = block_begin + PIECE_BLOCK_SIZE;
            }
            k = k + 1;
            assert(res@ =~= blocks(pl).subrange(0, k as int));
        }
        assert(blocks(pl).subrange(0, k as int) =~= blocks(pl));
        proof {
            assert forall|j: int| 0 <= j < res@.len() implies #[trigger] res@[j].0 + res@[j].1 <= pl by {
                assert(res@[j] == blocks(pl)[j]);
                lemma_block_within(pl, j);
            }
        }
        res
    }

    /// Takes the next block to request: it moves from the blocks left to
    /// the blocks requested.
    pub fn next_request(&mut self) -> (r: Option<(usize, usize)>)
        requires
            old(self).wf(),
        ensures
            final(self).wf(),
            final(self).index == old(self).index,
            final(self).hash == old(self).hash,
            final(self).buff@ == old(self).buff@,
            old(self).left@.len() == 0 ==> r is None && final(self).left@ == old(self).left@
                && final(self).requested@ == old(self).requested@,
            old(self).left@.len() > 0 ==> {
                &&& r == Some(old(self).left@[0])
                &&& final(self).left@ == old(self).left@.drop_first()
                &&& final(self).requested@ == old(self).requested@.push(old(self).left@[0])
            },
    {
        match self.left.pop_front() {
            Some(block) => {
                self.requested.push_back(block);
                proof {
                    assert(old(self).left@.drop_first() =~= self.left@);
                    assert forall|k: int| 0 <= k < self.left@.len() implies #[trigger] self.left@[k].0
                        + self.left@[k].1 <= self.buff@.len() by {
                        assert(self.left@[k] == old(self).left@[k + 1]);
                    }
                    assert forall|k: int| 0 <= k < self.requested@.len() implies #[trigger] self.requested@[k].0
                        + self.requested@[k].1 <= self.buff@.len() by {
                        if k < old(self).requested@.len() {
                            assert(self.requested@[k] == old(self).requested@[k]);
                        } else {
                            assert(self.requested@[k] == old(self).left@[0]);
                        }
                    }
                }
                Some(block)
            },
            None => None,
        }
    }

    /// Whether every block was received.
    pub fn is_complete(&self) -> (r: bool)
        ensures
            r == (self.left@.len() == 0 && self.requested@.len() == 0),
    {
        self.left.len() == 0 && self.requested.len() == 0
    }

    /// Takes in a block of the piece: it must be one that was requested,
    /// and it is written into the buffer and leaves the requested blocks.
    pub fn receive(&mut self, piece: &Piece) -> (r: Result<(), Error>)
        requires
            old(self).wf(),
        ensures
            final(self).wf(),
            final(self).index == old(self).index,
            final(self).hash == old(self).hash,
            final(self).left@ == old(self).left@,
            ({
                let found = piece.piece_index == old(self).index && old(self).requested@.contains(
                    (piece.block_begin as usize, piece.block@.len() as usize),
                );
                if found {
                    &&& r is Ok
                    &&& final(self).requested@ == without(
                        old(self).requested@,
                        piece.block_begin as int,
                        piece.block@.len() as int,
                    )
                    &&& final(self).buff@ == written(
                        old(self).buff@,
                        piece.block_begin as int,
                        piece.block@,
                    )
                } else {
                    &&& r == Err::<(), Error>(Error::BlockNotRequested)
                    &&& final(self).requested@ == old(self).requested@
                    &&& final(self).buff@ == old(self).buff@
                }
            }),
    {
        let begin = piece.block_begin();
        let length = piece.block_length();
        let mut found = false;
        let mut q: usize = 0;
        while q < self.requested.len()
            invariant
                q <= self.requested@.len(),
                begin == piece.block_begin,
                length == piece.block@.len(),
                found == exists|t: int|
                    0 <= t < q && #[trigger] self.requested@[t] == (begin, length)
                        && piece.piece_index == self.index,
            decreases self.requested@.len() - q,
        {
            let b = self.requested[q];
            if piece.validate(self.index, b.0, b.1).is_ok() {
                assert(self.requested@[q as int] == (begin, length));
                found = true;
            } else {
                assert(!(self.requested@[q as int] == (begin, length) && piece.piece_index == self.index));
            }
            q = q + 1;
        }
        proof {
            if piece.piece_index == self.index && self.requested@.contains((begin, length)) {
                let t = choose|t: int| 0 <= t < self.requested@.len() && self.requested@[t] == (begin, length);
                assert(self.requested@[t] == (begin, length));
            }
        }
        if !found {
            return Err(Error::BlockNotRequested);
        }
        proof {
            let t = choose|t: int|
                0 <= t < q && #[trigger] self.requested@[t] == (begin, length)
                    && piece.piece_index == self.index;
            assert(self.requested@[t].0 + self.requested@[t].1 <= self.buff@.len());
        }
        let ghost old_requested = self.requested@;
        let mut kept: VecDeque<(usize, usize)> = VecDeque::new();
        let mut q: usize = 0;
        while q < self.requested.len()
            invariant
                q <= self.requested@.len(),
                self.requested@ == old_requested,
                kept@ == without(old_requested.subrange(0, q as int), begin as int, length as int),
            decreases self.requested@.len() - q,
        {
            let b = self.requested[q];
            proof {
                assert(old_requested.subrange(0, q + 1).drop_last() =~= old_requested.subrange(0, q as int));
                assert(old_requested.subrange(0, q + 1).last() == b);
            }
            if !(b.0 == begin && b.1 == length) {
                kept.push_back(b);
            }
            q = q + 1;
            assert(kept@ =~= without(old_requested.subrange(0, q as int), begin as int, length as int));
        }
        assert(old_requested.subrange(0, old_requested.len() as int) =~= old_requested);
        self.requested = kept;
        write_block(&mut self.buff, begin, piece.block());
        proof {
            assert forall|k: int| 0 <= k < self.requested@.len() implies #[trigger] self.requested@[k].0
                + self.requested@[k].1 <= self.buff@.len() by {
                let b = self.requested@[k];
                assert(without(old_requested, begin as int, length as int)[k] == b);
                assert(without(old_requested, begin as int, length as int).contains(b));
                lemma_without_contains(old_requested, begin as int, length as int, b);
                let t = choose|t: int| 0 <= t < old_requested.len() && old_requested[t] == b;
                assert(old_requested[t].0 + old_requested[t].1 <= old(self).buff@.len());
            }
        }
        Ok(())
    }

    /// Whether the data received has the digest of the piece.
    pub fn verify_hash(&self) -> (r: bool)
        ensures
            r == (sha1_of(self.buff@) == self.hash@),
    {
        let digest = sha1_digest(self.buff.as_slice());
        let mut i: usize = 0;
        while i < HASH_SIZE
            invariant
                digest@ == sha1_of(self.buff@),
                i <= HASH_SIZE,
                digest@.len() == HASH_SIZE,
                self.hash@.len() == HASH_SIZE,
                forall|j: int| 0 <= j < i ==> digest@[j] == self.hash@[j],
            decreases HASH_SIZE - i,
        {
            if digest[i] != self.hash[i] {
                assert(digest@[i as int] != self.hash@[i as int]);
                return false;
            }
            i = i + 1;
        }
        assert(digest@ =~= self.hash@);
        true
    }
}

/// The blocks of a piece tile it: the first starts at 0, each starts where
/// the one before ends, none is empty, and the last ends at the end of the
/// piece.
pub proof fn lemma_blocks_tile(pl: int)
    requires
        0 <= pl <= usize::MAX,
    ensures
        blocks(pl).len() > 0 ==> blocks(pl)[0].0 == 0,
        forall|k: int|
            0 <= k < blocks(pl).len() ==> (#[trigger] blocks(pl)[k]).1 > 0 && blocks(pl)[k].0
                + blocks(pl)[k].1 <= pl,
        forall|k: int|
            0 <= k < blocks(pl).len() - 1 ==> (#[trigger] blocks(pl)[k]).0 + blocks(pl)[k].1
                == blocks(pl)[k + 1].0,
        blocks(pl).len() > 0 ==> blocks(pl).last().0 + blocks(pl).last().1 == pl,
        blocks(pl).len() == 0 <==> pl == 0,
{
    let n = blocks_num(pl);
    assert(n >= 0 && (n == 0 <==> pl == 0) && (n - 1) * 16384 < pl <= n * 16384) by (nonlinear_arith)
        requires
            pl >= 0,
            n == (if pl % 16384 == 0 {
                pl / 16384
            } else {
                pl / 16384 + 1
            }),
    ;
    assert forall|k: int| 0 <= k < n implies {
        &&& k * PIECE_BLOCK_SIZE <= usize::MAX
        &&& #[trigger] block_len(pl, k) > 0
        &&& k * PIECE_BLOCK_SIZE + block_len(pl, k) <= pl
        &&& (k < n - 1 ==> k * PIECE_BLOCK_SIZE + block_len(pl, k) == (k + 1) * PIECE_BLOCK_SIZE)
        &&& (k == n - 1 ==> k * PIECE_BLOCK_SIZE + block_len(pl, k) == pl)
    } by {
        lemma_block_within(pl, k);
        assert(k * 16384 < pl && (k < n - 1 ==> (k + 1) * 16384 <= pl) && (k == n - 1 ==> (k
            * 16384 + 16384 > pl <==> pl % 16384 != 0) && (pl % 16384 != 0 ==> k * 16384 + pl
            % 16384 == pl) && (pl % 16384 == 0 ==> k * 16384 + 16384 == pl))) by (nonlinear_arith)
            requires
                0 <= k < n,
                pl >= 0,
                (n - 1) * 16384 < pl <= n * 16384,
                n == (if pl % 16384 == 0 {
                    pl / 16384
                } else {
                    pl / 16384 + 1
                }),
        ;
    }
    assert forall|k: int| 0 <= k < blocks(pl).len() implies (#[trigger] blocks(pl)[k]).1 > 0
        && blocks(pl)[k].0 + blocks(pl)[k].1 <= pl by {
        assert(k * PIECE_BLOCK_SIZE <= usize::MAX && block_len(pl, k) > 0);
    }
    assert forall|k: int| 0 <= k < blocks(pl).len() - 1 implies (#[trigger] blocks(pl)[k]).0
        + blocks(pl)[k].1 == blocks(pl)[k + 1].0 by {
        assert(block_len(pl, k) > 0);
        assert(block_len(pl, k + 1) > 0);
    }
    if n > 0 {
        assert(block_len(pl, n - 1) > 0);
    }
}

/// The block `k` of a piece lies inside the piece.
proof fn lemma_block_within(pl: int, k: int)
    requires
        pl >= 0,
        0 <= k < blocks_num(pl),
    ensures
        k * PIECE_BLOCK_SIZE + block_len(pl, k) <= pl,
{
    if k * PIECE_BLOCK_SIZE + PIECE_BLOCK_SIZE > pl {
        assert(k * PIECE_BLOCK_SIZE + pl % 16384 <= pl) by (nonlinear_arith)
            requires
                0 <= k < blocks_num(pl),
                pl >= 0,
                blocks_num(pl) == (if pl % 16384 == 0 {
                    pl / 16384
                } else {
                    pl / 16384 + 1
                }),
                k * 16384 + 16384 > pl,
        ;
    }
}

/// Writes a block into a buffer at `begin`.
fn write_block(buff: &mut Vec<u8>, begin: usize, block: &Vec<u8>)
    requires
        begin + block@.len() <= old(buff)@.len(),
    ensures
        final(buff)@ == written(old(buff)@, begin as int, block@),
{
    let n = buff.len();
    let mut i: usize = 0;
    while i < block.len()
        invariant
            n == old(buff)@.len(),
            begin + block@.len() <= old(buff)@.len(),
            i <= block@.len(),
            buff@.len() == old(buff)@.len(),
            forall|j: int| 0 <= j < begin ==> buff@[j] == old(buff)@[j],
            forall|j: int| begin <= j < begin + i ==> buff@[j] == block@[j - begin],
            forall|j: int| begin + i <= j < buff@.len() ==> buff@[j] == old(buff)@[j],
        decreases block@.len() - i,
    {
        buff.set(begin + i, block[i]);
        i = i + 1;
    }
    assert(buff@ =~= written(old(buff)@, begin as int, block@));
}

impl PieceTx {
    /// The message that carries the block at `block_begin` of the piece.
    pub fn piece_msg(&self, block_begin: usize, block_length: usize) -> (r: Piece)
        requires
            block_begin + block_length <= self.buff@.len(),
        ensures
            r.piece_index == self.index as u32,
            r.block_begin == block_begin as u32,
            r.block@ == self.buff@.subrange(block_begin as int, block_begin + block_length),
    {
        let n = self.buff.len();
        let block = crate::bcodec::bdecoder::sub_vec(
            self.buff.as_slice(),
            block_begin,
            block_begin + block_length,
        );
        Piece::new(self.index, block_begin, block)
    }
}

/// The sum of the amounts, each taken as a `u32`.
pub open spec fn sum_u32(s: Seq<usize>) -> int
    decreases s.len(),
{
    if s.len() == 0 {
        0
    } else {
        sum_u32(s.drop_last()) + (s.last() as u32)
    }
}

impl Stats {
    /// As many periods of downloads as of uploads, at least one and at most
    /// the number averaged.
    pub open spec fn wf(&self) -> bool {
        &&& self.downloaded@.len() == self.uploaded@.len()
        &&& 1 <= self.downloaded@.len() <= MAX_STATS_QUEUE_SIZE
    }

    /// Statistics of a new connection: one period, nothing transferred.
    pub fn new() -> (r: Stats)
        ensures
            r.wf(),
            r.downloaded@ == seq![0usize],
            r.uploaded@ == seq![0usize],
            r.rejected_piece == 0,
    {
        let mut downloaded: VecDeque<usize> = VecDeque::new();
        downloaded.push_back(0);
        let mut uploaded: VecDeque<usize> = VecDeque::new();
        uploaded.push_back(0);
        assert(downloaded@ =~= seq![0usize]);
        assert(uploaded@ =~= seq![0usize]);
        Stats { downloaded, uploaded, rejected_piece: 0 }
    }

    /// Counts downloaded bytes in the current period.
    pub fn update_downloaded(&mut self, amount: usize)
        requires
            old(self).downloaded@.len() > 0,
            old(self).downloaded@[0] + amount <= usize::MAX,
        ensures
            final(self).downloaded@ == old(self).downloaded@.update(0, (old(self).downloaded@[0]
                + amount) as usize),
            old(self).wf() ==> final(self).wf(),
            final(self).uploaded@ == old(self).uploaded@,
            final(self).rejected_piece == old(self).rejected_piece,
    {
        let d = match self.downloaded.pop_front() {
            Some(d) => d,
            None => 0,
        };
        self.downloaded.push_front(d + amount);
        assert(self.downloaded@ =~= old(self).downloaded@.update(0, (old(self).downloaded@[0]
            + amount) as usize));
    }

    /// Counts uploaded bytes in the current period.
    pub fn update_uploaded(&mut self, amount: usize)
        requires
            old(self).uploaded@.len() > 0,
            old(self).uploaded@[0] + amount <= usize::MAX,
        ensures
            final(self).uploaded@ == old(self).uploaded@.update(0, (old(self).uploaded@[0]
                + amount) as usize),
            old(self).wf() ==> final(self).wf(),
            final(self).downloaded@ == old(self).downloaded@,
            final(self).rejected_piece == old(self).rejected_piece,
    {
        let d = match self.uploaded.pop_front() {
            Some(d) => d,
            None => 0,
        };
        self.uploaded.push_front(d + amount);
        assert(self.uploaded@ =~= old(self).uploaded@.update(0, (old(self).uploaded@[0] + amount) as usize));
    }

    /// Counts a piece rejected in the current period.
    pub fn update_rejected_piece(&mut self)
        requires
            old(self).rejected_piece < u32::MAX,
        ensures
            final(self).rejected_piece == old(self).rejected_piece + 1,
            final(self).downloaded@ == old(self).downloaded@,
            final(self).uploaded@ == old(self).uploaded@,
    {
        self.rejected_piece = self.rejected_piece + 1;
    }

    /// Starts a new period: the oldest is dropped once there are enough.
    pub fn shift(&mut self)
        requires
            old(self).wf(),
        ensures
            final(self).wf(),
            final(self).downloaded@ == seq![0usize] + (if old(self).downloaded@.len()
                == MAX_STATS_QUEUE_SIZE {
                old(self).downloaded@.drop_last()
            } else {
                old(self).downloaded@
            }),
            final(self).uploaded@ == seq![0usize] + (if old(self).downloaded@.len()
                == MAX_STATS_QUEUE_SIZE {
                old(self).uploaded@.drop_last()
            } else {
                old(self).uploaded@
            }),
            final(self).rejected_piece == 0,
    {
        if self.downloaded.len() == MAX_STATS_QUEUE_SIZE {
            self.downloaded.pop_back();
            self.uploaded.pop_back();
        }
        self.downloaded.push_front(0);
        self.uploaded.push_front(0);
        self.rejected_piece = 0;
        assert(self.downloaded@ =~= seq![0usize] + (if old(self).downloaded@.len() == MAX_STATS_QUEUE_SIZE {
            old(self).downloaded@.drop_last()
        } else {
            old(self).downloaded@
        }));
        assert(self.uploaded@ =~= seq![0usize] + (if old(self).downloaded@.len() == MAX_STATS_QUEUE_SIZE {
            old(self).uploaded@.drop_last()
        } else {
            old(self).uploaded@
        }));
    }

    /// The mean download per period, once there are enough periods.
    pub fn downloaded_rate(&self) -> (r: Option<u32>)
        requires
            sum_u32(self.downloaded@) <= u32::MAX,
        ensures
            self.downloaded@.len() != MAX_STATS_QUEUE_SIZE ==> r is None,
            self.downloaded@.len() == MAX_STATS_QUEUE_SIZE ==> r == Some(
                (sum_u32(self.downloaded@) / (MAX_STATS_QUEUE_SIZE as int)) as u32,
            ),
    {
        mean_rate(&self.downloaded)
    }

    /// The mean upload per period, once there are enough periods.
    pub fn uploaded_rate(&self) -> (r: Option<u32>)
        requires
            sum_u32(self.uploaded@) <= u32::MAX,
        ensures
            self.uploaded@.len() != MAX_STATS_QUEUE_SIZE ==> r is None,
            self.uploaded@.len() == MAX_STATS_QUEUE_SIZE ==> r == Some(
                (sum_u32(self.uploaded@) / (MAX_STATS_QUEUE_SIZE as int)) as u32,
            ),
    {
        mean_rate(&self.uploaded)
    }
}

/// The mean of the amounts, once there are enough periods.
fn mean_rate(q: &VecDeque<usize>) -> (r: Option<u32>)
    requires
        sum_u32(q@) <= u32::MAX,
    ensures
        q@.len() != MAX_STATS_QUEUE_SIZE ==> r is None,
        q@.len() == MAX_STATS_QUEUE_SIZE ==> r == Some(
            (sum_u32(q@) / (MAX_STATS_QUEUE_SIZE as int)) as u32,
        ),
{
    if q.len() != MAX_STATS_QUEUE_SIZE {
        return None;
    }
    let mut sum: u32 = 0;
    let mut i: usize = 0;
    while i < q.len()
        invariant
            i <= q@.len(),
            sum_u32(q@) <= u32::MAX,
            sum == sum_u32(q@.subrange(0, i as int)),
        decreases q@.len() - i,
    {
        proof {
            assert(q@.subrange(0, i + 1).drop_last() =~= q@.subrange(0, i as int));
            lemma_sum_prefix(q@, i + 1);
        }
        sum = sum + q[i] as u32;
        i = i + 1;
    }
    assert(q@.subrange(0, q@.len() as int) =~= q@);
    Some(sum / (q.len() as u32))
}

/// The sums of prefixes grow.
proof fn lemma_sum_prefix(s: Seq<usize>, i: int)
    requires
        0 < i <= s.len(),
    ensures
        sum_u32(s.subrange(0, i)) == sum_u32(s.subrange(0, i - 1)) + (s[i - 1] as u32),
        sum_u32(s.subrange(0, i)) <= sum_u32(s),
    decreases s.len() - i,
{
    assert(s.subrange(0, i).drop_last() =~= s.subrange(0, i - 1));
    if i < s.len() {
        lemma_sum_prefix(s, i + 1);
    } else {
        assert(s.subrange(0, i) =~= s);
    }
}

/// What a received block leads to.
#[derive(PartialEq, Eq, Structural, Clone, Copy, Debug)]
pub enum BlockOutcome {
    /// Blocks are still missing: ask for the next one.
    More,
    /// The piece is complete and has its digest: store it.
    Complete,
    /// The piece is complete but its digest is wrong: it is rejected.
    Rejected,
}

/// Whether `piece` carries a block of `rx` that was requested.
pub open spec fn block_requested(rx: PieceRx, piece: Piece) -> bool {
    piece.piece_index == rx.index && rx.requested@.contains(
        (piece.block_begin as usize, piece.block@.len() as usize),
    )
}

/// Takes in a block from the peer: a requested block is written into the
/// piece and counted as downloaded; once every block is in, the piece is
/// complete when its digest is the expected one, and rejected (and counted
/// so) otherwise. A block that was not requested is an error, and then
/// nothing changes.
pub fn take_block(rx: &mut PieceRx, stats: &mut Stats, piece: &Piece) -> (r: Result<BlockOutcome, Error>)
    requires
        old(rx).wf(),
        old(stats).downloaded@.len() > 0,
        old(stats).downloaded@[0] + piece.block@.len() <= usize::MAX,
        old(stats).rejected_piece < u32::MAX,
    ensures
        final(rx).wf(),
        final(rx).index == old(rx).index,
        final(rx).hash == old(rx).hash,
        final(rx).left@ == old(rx).left@,
        final(stats).uploaded@ == old(stats).uploaded@,
        old(stats).wf() ==> final(stats).wf(),
        !block_requested(*old(rx), *piece) ==> {
            &&& r == Err::<BlockOutcome, Error>(Error::BlockNotRequested)
            &&& final(rx).requested@ == old(rx).requested@
            &&& final(rx).buff@ == old(rx).buff@
            &&& final(stats).downloaded@ == old(stats).downloaded@
            &&& final(stats).rejected_piece == old(stats).rejected_piece
        },
        block_requested(*old(rx), *piece) ==> {
            let complete = final(rx).left@.len() == 0 && final(rx).requested@.len() == 0;
            let verified = sha1_of(final(rx).buff@) == final(rx).hash@;
            &&& final(rx).requested@ == without(
                old(rx).requested@,
                piece.block_begin as int,
                piece.block@.len() as int,
            )
            &&& final(rx).buff@ == written(old(rx).buff@, piece.block_begin as int, piece.block@)
            &&& final(stats).downloaded@ == old(stats).downloaded@.update(
                0,
                (old(stats).downloaded@[0] + piece.block@.len()) as usize,
            )
            &&& r == Ok::<BlockOutcome, Error>(
                if !complete {
                    BlockOutcome::More
                } else if verified {
                    BlockOutcome::Complete
                } else {
                    BlockOutcome::Rejected
                },
            )
            &&& final(stats).rejected_piece == old(stats).rejected_piece + (if complete && !verified {
                1int
            } else {
                0int
            })
        },
{
    match rx.receive(piece) {
        Ok(()) => {},
        Err(e) => return Err(e),
    }
    stats.update_downloaded(piece.block_length());
    if !rx.is_complete() {
        return Ok(BlockOutcome::More);
    }
    if rx.verify_hash() {
        Ok(BlockOutcome::Complete)
    } else {
        stats.update_rejected_piece();
        Ok(BlockOutcome::Rejected)
    }
}

/// The pieces to announce to a peer: announced at once while the peer
/// does not choke us, kept until it unchokes us otherwise.
#[derive(Debug)]
pub struct Outbox {
    pub choked: bool,
    pub buffered: Vec<usize>,
}

impl Outbox {
    /// A peer that chokes us, with nothing kept.
    pub fn new() -> (r: Outbox)
        ensures
            r.choked,
            r.buffered@.len() == 0,
    {
        Outbox { choked: true, buffered: Vec::new() }
    }

    /// A piece to announce: returned to be sent now where the peer does not
    /// choke us; kept, in order, where it does.
    pub fn announce_have(&mut self, index: usize) -> (r: Option<usize>)
        ensures
            final(self).choked == old(self).choked,
            old(self).choked ==> r is None && final(self).buffered@ == old(self).buffered@.push(index),
            !old(self).choked ==> r == Some(index) && final(self).buffered@ == old(self).buffered@,
    {
        if self.choked {
            self.buffered.push(index);
            None
        } else {
            Some(index)
        }
    }

    /// The peer choked us.
    pub fn peer_choked(&mut self)
        ensures
            final(self).choked,
            final(self).buffered@ == old(self).buffered@,
    {
        self.choked = true;
    }

    /// The peer unchoked us: the pieces kept are handed out, in the order
    /// they came, and none is kept any more.
    pub fn peer_unchoked(&mut self) -> (r: Vec<usize>)
        ensures
            !final(self).choked,
            final(self).buffered@.len() == 0,
            r@ == old(self).buffered@,
    {
        self.choked = false;
        let mut out: Vec<usize> = Vec::new();
        std::mem::swap(&mut out, &mut self.buffered);
        out
    }
}

} // verus!
