use vstd::prelude::*;

use crate::hashing::check_piece;
use crate::hashing::sha1_of;
use crate::peer::piece_size;
use crate::peer::spec_piece_size;

verus! {

/// The shared state of a download: the output buffer filled in place,
/// a work queue of piece indices, and a record of which pieces have
/// been stored after their digest matched. Its invariant carries the
/// download's guarantee: every piece marked done hashes to its entry
/// in the metainfo's piece list.
pub struct DownloadState {
    buffer: Vec<u8>,
    done: Vec<bool>,
    remaining: Vec<u32>,
    piece_length: u64,
    total_length: u64,
    pieces: Vec<u8>,
}

impl DownloadState {
    /// The file size in bytes.
    pub closed spec fn spec_total(&self) -> int {
        self.total_length as int
    }

    /// The nominal piece size in bytes.
    pub closed spec fn spec_piece_len(&self) -> int {
        self.piece_length as int
    }

    /// The concatenated 20-byte piece digests from the metainfo.
    pub closed spec fn spec_pieces(&self) -> Seq<u8> {
        self.pieces@
    }

    /// The output buffer.
    pub closed spec fn spec_buffer(&self) -> Seq<u8> {
        self.buffer@
    }

    /// Which pieces have been stored and verified.
    pub closed spec fn spec_done(&self) -> Seq<bool> {
        self.done@
    }

    /// The work queue of piece indices, taken from the back.
    pub closed spec fn spec_remaining(&self) -> Seq<u32> {
        self.remaining@
    }

    /// How many pieces the file has.
    pub open spec fn n_pieces(&self) -> int {
        self.spec_pieces().len() as int / 20
    }

    /// The byte range of piece `i` in the buffer ends here.
    pub open spec fn chunk_end(&self, i: int) -> int {
        if (i + 1) * self.spec_piece_len() <= self.spec_total() {
            (i + 1) * self.spec_piece_len()
        } else {
            self.spec_total()
        }
    }

    /// The bytes of piece `i` in the buffer.
    pub open spec fn spec_chunk(&self, i: int) -> Seq<u8> {
        self.spec_buffer().subrange(i * self.spec_piece_len(), self.chunk_end(i))
    }

    /// The digest the metainfo expects for piece `i`.
    pub open spec fn expected_digest(&self, i: int) -> Seq<u8> {
        self.spec_pieces().subrange(20 * i, 20 * i + 20)
    }

    /// Piece `i` in the buffer hashes to its expected digest.
    pub open spec fn piece_verified(&self, i: int) -> bool {
        sha1_of(self.spec_chunk(i)) == self.expected_digest(i)
    }

    /// The state's invariant: sizes agree, the piece count covers the
    /// file exactly, every piece marked done is verified, and queued
    /// indices are in range.
    pub open spec fn wf(&self) -> bool {
        &&& self.spec_piece_len() >= 1
        &&& self.spec_pieces().len() % 20 == 0
        &&& self.spec_done().len() == self.n_pieces()
        &&& self.spec_buffer().len() == self.spec_total()
        &&& if self.spec_total() == 0 {
            self.n_pieces() == 0
        } else {
            (self.n_pieces() - 1) * self.spec_piece_len() < self.spec_total() <= self.n_pieces()
                * self.spec_piece_len()
        }
        &&& forall|i: int|
            0 <= i < self.n_pieces() && self.spec_done()[i] ==> self.piece_verified(i)
        &&& forall|j: int|
            0 <= j < self.spec_remaining().len() ==> (#[trigger] self.spec_remaining()[j] as int)
                < self.n_pieces()
    }

    /// Start a download: a zeroed buffer of the file size, no piece
    /// done, and every piece index queued once, in increasing order.
    /// Fails when the piece list does not cover the file size exactly.
    pub fn new(total_length: u64, piece_length: u64, pieces: Vec<u8>) -> (r: Option<DownloadState>)
        requires
            total_length <= usize::MAX,
        ensures
            match r {
                Some(s) => {
                    &&& s.wf()
                    &&& s.spec_total() == total_length
                    &&& s.spec_piece_len() == piece_length
                    &&& s.spec_pieces() == pieces@
                    &&& forall|i: int| 0 <= i < s.n_pieces() ==> !s.spec_done()[i]
                    &&& s.spec_remaining().len() == s.n_pieces()
                    &&& forall|j: int|
                        0 <= j < s.spec_remaining().len() ==> #[trigger] s.spec_remaining()[j] == j
                },
                None => {
                    ||| piece_length == 0
                    ||| pieces@.len() % 20 != 0
                    ||| pieces@.len() / 20 > 0xffff_ffff
                    ||| !(if total_length == 0 {
                        pieces@.len() as int / 20 == 0
                    } else {
                        (pieces@.len() as int / 20 - 1) * piece_length < total_length
                            <= (pieces@.len() as int / 20) * piece_length
                    })
                },
            },
    {
        if piece_length == 0 {
            return None;
        }
        if pieces.len() % 20 != 0 {
            return None;
        }
        let n = pieces.len() / 20;
        if n > 0xffff_ffff {
            return None;
        }
        let fits = if total_length == 0 {
            n == 0
        } else if n == 0 {
            false
        } else {
            proof {
                assert((n as int) * (piece_length as int) < 0x1_0000_0000_0000_0000_0000_0000)
                    by (nonlinear_arith)
                    requires
                        n <= 0xffff_ffffusize,
                        piece_length <= 0xffff_ffff_ffff_ffffu64,
                ;
                assert(((n as int) - 1) * (piece_length as int) <= (n as int) * (
                piece_length as int)) by (nonlinear_arith)
                    requires
                        n >= 1,
                        piece_length >= 0,
                ;
            }
            let upper = (n as u128) * (piece_length as u128);
            let lower = (n as u128 - 1) * (piece_length as u128);
            n >= 1 && (total_length as u128) <= upper && lower < (total_length as u128)
        };
        if !fits {
            return None;
        }
        let buffer = vec![0u8; total_length as usize];
        let done = vec![false; n];
        let mut remaining: Vec<u32> = Vec::new();
        let mut j: usize = 0;
        #[verifier::loop_isolation(false)]
        while j < n
            invariant
                j <= n,
                remaining@.len() == j,
                forall|k: int| 0 <= k < j ==> #[trigger] remaining@[k] == k,
            decreases n - j,
        {
            remaining.push(j as u32);
            j = j + 1;
        }
        Some(
            DownloadState {
                buffer,
                done,
                remaining,
                piece_length,
                total_length,
                pieces,
            },
        )
    }

    /// Take the next piece of work off the back of the queue.
    pub fn take_work(&mut self) -> (r: Option<u32>)
        requires
            old(self).wf(),
        ensures
            final(self).wf(),
            final(self).spec_buffer() == old(self).spec_buffer(),
            final(self).spec_done() == old(self).spec_done(),
            final(self).spec_pieces() == old(self).spec_pieces(),
            final(self).spec_total() == old(self).spec_total(),
            final(self).spec_piece_len() == old(self).spec_piece_len(),
            match r {
                Some(i) => {
                    &&& old(self).spec_remaining().len() > 0
                    &&& i == old(self).spec_remaining().last()
                    &&& (i as int) < old(self).n_pieces()
                    &&& final(self).spec_remaining() == old(self).spec_remaining().drop_last()
                },
                None => {
                    &&& old(self).spec_remaining().len() == 0
                    &&& final(self).spec_remaining() == old(self).spec_remaining()
                },
            },
    {
        let ghost n = self.n_pieces();
        let r = self.remaining.pop();
        proof {
            assert forall|j: int|
                0 <= j < self.spec_remaining().len() implies (#[trigger] self.spec_remaining()[j] as int)
                < n by {
                assert(self.spec_remaining()[j] == old(self).spec_remaining()[j]);
            }
            assert(self.spec_buffer() == old(self).spec_buffer());
            assert(self.spec_done() == old(self).spec_done());
            assert(self.spec_pieces() == old(self).spec_pieces());
            assert(self.spec_total() == old(self).spec_total());
            assert(self.spec_piece_len() == old(self).spec_piece_len());
            assert(self.n_pieces() == old(self).n_pieces());
            assert forall|i: int|
                0 <= i < self.n_pieces() && self.spec_done()[i] implies self.piece_verified(i) by {
                assert(old(self).piece_verified(i));
                assert(self.spec_chunk(i) == old(self).spec_chunk(i));
            }
            if old(self).spec_remaining().len() > 0 {
                assert(self.spec_remaining() =~= old(self).spec_remaining().drop_last());
            }
        }
        r
    }

    /// Put a failed piece back on the queue.
    pub fn requeue(&mut self, index: u32)
        requires
            old(self).wf(),
            (index as int) < old(self).n_pieces(),
        ensures
            final(self).wf(),
            final(self).spec_buffer() == old(self).spec_buffer(),
            final(self).spec_done() == old(self).spec_done(),
            final(self).spec_pieces() == old(self).spec_pieces(),
            final(self).spec_total() == old(self).spec_total(),
            final(self).spec_piece_len() == old(self).spec_piece_len(),
            final(self).spec_remaining() == old(self).spec_remaining().push(index),
    {
        let ghost n = self.n_pieces();
        self.remaining.push(index);
        proof {
            assert forall|j: int|
                0 <= j < self.spec_remaining().len() implies (#[trigger] self.spec_remaining()[j] as int)
                < n by {
                if j < self.spec_remaining().len() - 1 {
                    assert(self.spec_remaining()[j] == old(self).spec_remaining()[j]);
                }
            }
            assert(self.spec_buffer() == old(self).spec_buffer());
            assert(self.spec_done() == old(self).spec_done());
            assert(self.spec_pieces() == old(self).spec_pieces());
            assert(self.spec_total() == old(self).spec_total());
            assert(self.spec_piece_len() == old(self).spec_piece_len());
            assert(self.n_pieces() == old(self).n_pieces());
            assert forall|i: int|
                0 <= i < self.n_pieces() && self.spec_done()[i] implies self.piece_verified(i) by {
                assert(old(self).piece_verified(i));
                assert(self.spec_chunk(i) == old(self).spec_chunk(i));
            }
        }
    }

    /// Store a downloaded piece. The piece is accepted exactly when it
    /// has the piece's size and hashes to the expected digest; then it
    /// is spliced into the buffer at its offset and marked done, and
    /// no other piece's bytes change. A rejected piece changes
    /// nothing.
    #[verifier::loop_isolation(false)]
    pub fn complete_piece(&mut self, index: u32, data: &[u8]) -> (ok: bool)
        requires
            old(self).wf(),
            (index as int) < old(self).n_pieces(),
        ensures
            final(self).wf(),
            final(self).spec_pieces() == old(self).spec_pieces(),
            final(self).spec_total() == old(self).spec_total(),
            final(self).spec_piece_len() == old(self).spec_piece_len(),
            final(self).spec_remaining() == old(self).spec_remaining(),
            ok == (data@.len() == spec_piece_size(
                old(self).spec_total(),
                old(self).spec_piece_len(),
                index as int,
            ) && sha1_of(data@) == old(self).expected_digest(index as int)),
            ok ==> {
                &&& final(self).spec_done() == old(self).spec_done().update(index as int, true)
                &&& final(self).spec_chunk(index as int) == data@
                &&& forall|j: int|
                    0 <= j < old(self).n_pieces() && j != index ==> final(self).spec_chunk(j)
                        == old(self).spec_chunk(j)
            },
            !ok ==> final(self).spec_buffer() == old(self).spec_buffer() && final(self).spec_done()
                == old(self).spec_done(),
    {
        let ghost n = self.n_pieces();
        let ghost pl = self.spec_piece_len();
        let ghost total = self.spec_total();
        proof {
            assert((index as int) * pl <= (n - 1) * pl) by (nonlinear_arith)
                requires
                    (index as int) <= n - 1,
                    pl >= 0,
            ;
        }
        let psize = piece_size(self.total_length, self.piece_length, index);
        if (data.len() as u64) != psize {
            return false;
        }
        proof {
            assert(20 * (index as int) + 20 <= 20 * n) by (nonlinear_arith)
                requires
                    (index as int) < n,
            ;
            assert(20 * n <= self.spec_pieces().len()) by {
                vstd::arithmetic::div_mod::lemma_fundamental_div_mod(
                    self.spec_pieces().len() as int,
                    20,
                );
            }
        }
        let pieces_len = self.pieces.len();
        proof {
            assert(20 * (index as int) + 20 <= pieces_len);
        }
        let digest_start = 20 * (index as usize);
        let expected = vstd::slice::slice_subrange(
            self.pieces.as_slice(),
            digest_start,
            digest_start + 20,
        );
        if !check_piece(data, expected) {
            return false;
        }
        let start_wide = (index as u64) * self.piece_length;
        let buf_len = self.buffer.len();
        proof {
            assert((index as int) * pl + pl == ((index as int) + 1) * pl) by (nonlinear_arith);
            assert(start_wide + psize <= buf_len);
        }
        let start = start_wide as usize;
        let ghost before = self.buffer@;
        let mut t: usize = 0;
        while t < data.len()
            invariant
                t <= data@.len(),
                start + data@.len() <= self.buffer@.len(),
                self.buffer@.len() == before.len(),
                self.done@ == old(self).done@,
                self.pieces@ == old(self).pieces@,
                self.remaining@ == old(self).remaining@,
                self.piece_length == old(self).piece_length,
                self.total_length == old(self).total_length,
                forall|x: int| 0 <= x < start ==> #[trigger] self.buffer@[x] == before[x],
                forall|x: int|
                    start + data@.len() <= x < before.len() ==> #[trigger] self.buffer@[x]
                        == before[x],
                forall|x: int|
                    start <= x < start + t ==> #[trigger] self.buffer@[x] == data@[x - start],
            decreases data@.len() - t,
        {
            self.buffer[start + t] = data[t];
            t = t + 1;
        }
        self.done[index as usize] = true;
        proof {
            let fin = *self;
            let idx = index as int;
            assert(fin.spec_chunk(idx) =~= data@);
            assert forall|j: int| 0 <= j < n && j != idx implies fin.spec_chunk(j) == old(
                self,
            ).spec_chunk(j) by {
                assert(j * pl <= (n - 1) * pl) by (nonlinear_arith)
                    requires
                        j <= n - 1,
                        pl >= 0,
                ;
                assert(j * pl + pl == (j + 1) * pl) by (nonlinear_arith);
                if j < idx {
                    assert((j + 1) * pl <= idx * pl) by (nonlinear_arith)
                        requires
                            j + 1 <= idx,
                            pl >= 0,
                    ;
                } else {
                    assert((idx + 1) * pl <= j * pl) by (nonlinear_arith)
                        requires
                            idx + 1 <= j,
                            pl >= 0,
                    ;
                    assert(idx * pl + pl == (idx + 1) * pl) by (nonlinear_arith);
                }
                assert(fin.spec_chunk(j) =~= old(self).spec_chunk(j));
            }
            assert forall|i: int| 0 <= i < n && fin.spec_done()[i] implies fin.piece_verified(
                i,
            ) by {
                if i != idx {
                    assert(old(self).spec_done()[i]);
                    assert(old(self).piece_verified(i));
                    assert(fin.spec_chunk(i) == old(self).spec_chunk(i));
                }
            }
            assert forall|j: int|
                0 <= j < fin.spec_remaining().len() implies (
                #[trigger] fin.spec_remaining()[j] as int) < fin.n_pieces() by {
                assert(fin.spec_remaining()[j] == old(self).spec_remaining()[j]);
            }
            assert(fin.spec_done() =~= old(self).spec_done().update(idx, true));
        }
        true
    }

    /// Whether every piece has been stored and verified.
    pub fn is_complete(&self) -> (r: bool)
        requires
            self.wf(),
        ensures
            r == (forall|i: int| 0 <= i < self.n_pieces() ==> self.spec_done()[i]),
    {
        let mut i: usize = 0;
        let n = self.done.len();
        #[verifier::loop_isolation(false)]
        while i < n
            invariant
                i <= n,
                forall|k: int| 0 <= k < i ==> self.spec_done()[k],
            decreases n - i,
        {
            if !self.done[i] {
                return false;
            }
            i = i + 1;
        }
        true
    }

    /// Hand the assembled file out.
    pub fn into_buffer(self) -> (r: Vec<u8>)
        requires
            self.wf(),
        ensures
            r@ == self.spec_buffer(),
            r@.len() == self.spec_total(),
    {
        self.buffer
    }
}

/// Piece count law: when every piece is done, the buffer has exactly
/// the file's length and each of its piece-length chunks (the last
/// possibly short) hashes to its 20-byte entry in the metainfo's piece
/// list.
pub proof fn lemma_download_complete(s: DownloadState)
    requires
        s.wf(),
        forall|i: int| 0 <= i < s.n_pieces() ==> s.spec_done()[i],
    ensures
        s.spec_buffer().len() == s.spec_total(),
        forall|i: int|
            0 <= i < s.n_pieces() ==> sha1_of(#[trigger] s.spec_chunk(i)) == s.expected_digest(i),
{
    assert forall|i: int| 0 <= i < s.n_pieces() implies sha1_of(#[trigger] s.spec_chunk(i))
        == s.expected_digest(i) by {
        assert(s.spec_done()[i]);
        assert(s.piece_verified(i));
    }
}

} // verus!
