//! Decrypt-on-read: frames are opened one at a time and their plaintext is
//! handed out in pieces of whatever size the caller asks for.
//!
//! The caller owns the byte source: whenever `needs_frame` holds, it reads one
//! frame (`encrypted_chunk_size` bytes, or fewer where the source ends) and
//! hands it to `accept_frame`; `take` then serves the plaintext.
use crate::aead::{aad_view, open_chunk, opened, tag_len, tag_size, Algorithm, StreamKey};
use crate::error::StreamError;
use crate::frames::{frame_at, lemma_read_one, sealed_from, Sealing};
use vstd::slice::slice_subrange;
use crate::nonce::{derive_nonce, derived_nonce, lemma_stream_nonces_distinct};
use vstd::prelude::*;

verus! {

/// The configuration of a decrypting stream, before a key is supplied.
pub struct StreamingDecryptorSetup {
    pub algorithm: Algorithm,
    pub nonce: Vec<u8>,
    pub chunk_size: usize,
    pub aad: Option<Vec<u8>>,
}

impl StreamingDecryptorSetup {
    pub fn new(algorithm: Algorithm, nonce: Vec<u8>, chunk_size: usize, aad: Option<Vec<u8>>) -> (r:
        Self)
        ensures
            r.algorithm == algorithm,
            r.nonce == nonce,
            r.chunk_size == chunk_size,
            r.aad == aad,
    {
        StreamingDecryptorSetup { algorithm, nonce, chunk_size, aad }
    }

    /// Starts the stream with `key`, which must be a key of the configured cipher.
    pub fn start(self, key: StreamKey) -> (r: Result<StreamingDecryptor, StreamError>)
        requires
            self.chunk_size > 0,
            self.chunk_size + tag_len(self.algorithm) <= usize::MAX,
            self.nonce@.len() >= 8,
        ensures
            key.algorithm != self.algorithm <==> r == Err::<StreamingDecryptor, StreamError>(
                StreamError::InvalidKeyType,
            ),
            key.algorithm == self.algorithm ==> r is Ok,
            r is Ok ==> {
                let d = r->Ok_0;
                &&& d.wf()
                &&& d.sealing() == (Sealing {
                    alg: self.algorithm,
                    key: key.bytes@,
                    base_nonce: self.nonce@,
                    aad: aad_view(self.aad),
                })
                &&& d.frame_len() == self.chunk_size + tag_len(self.algorithm)
                &&& d.pending() == Seq::<u8>::empty()
                &&& d.next_index() == 0
                &&& !d.ended()
            },
    {
        if self.algorithm != key.algorithm {
            return Err(StreamError::InvalidKeyType);
        }
        let encrypted_chunk_size = self.chunk_size + tag_size(self.algorithm);
        Ok(StreamingDecryptor {
            algorithm: self.algorithm,
            key: key.bytes,
            base_nonce: self.nonce,
            encrypted_chunk_size,
            plain: Vec::new(),
            pos: 0,
            chunk_counter: 0,
            is_done: false,
            aad: self.aad,
        })
    }
}

/// A decrypting stream: a state machine over frames and their plaintext.
pub struct StreamingDecryptor {
    algorithm: Algorithm,
    key: Vec<u8>,
    base_nonce: Vec<u8>,
    encrypted_chunk_size: usize,
    plain: Vec<u8>,
    pos: usize,
    chunk_counter: u64,
    is_done: bool,
    aad: Option<Vec<u8>>,
}

impl StreamingDecryptor {
    pub closed spec fn sealing(&self) -> Sealing {
        Sealing {
            alg: self.algorithm,
            key: self.key@,
            base_nonce: self.base_nonce@,
            aad: aad_view(self.aad),
        }
    }

    /// Bytes in one full frame: a chunk and its tag.
    pub closed spec fn frame_len(&self) -> nat {
        self.encrypted_chunk_size as nat
    }

    /// Opened plaintext not yet handed out.
    pub closed spec fn pending(&self) -> Seq<u8> {
        self.plain@.skip(self.pos as int)
    }

    /// The index of the next frame to be opened.
    pub closed spec fn next_index(&self) -> nat {
        self.chunk_counter as nat
    }

    /// Whether the stream has ended, cleanly or on an error: no frame is taken any more.
    pub closed spec fn ended(&self) -> bool {
        self.is_done
    }

    /// The read cursor lies within the opened plaintext.
    pub closed spec fn cursor_ok(&self) -> bool {
        self.pos <= self.plain@.len()
    }

    /// A full frame holds at least one plaintext byte besides its tag, and the
    /// base nonce is long enough to take the whole chunk index.
    pub open spec fn wf(&self) -> bool {
        &&& self.cursor_ok()
        &&& self.frame_len() > tag_len(self.sealing().alg)
        &&& self.sealing().base_nonce.len() >= 8
    }

    /// The nonces of all frames opened so far are pairwise distinct.
    pub proof fn lemma_nonces_distinct(&self)
        requires
            self.wf(),
        ensures
            forall|i: int, j: int|
                0 <= i < self.next_index() && 0 <= j < self.next_index() && i != j
                    ==> #[trigger] derived_nonce(self.sealing().base_nonce, i as u64)
                    != #[trigger] derived_nonce(self.sealing().base_nonce, j as u64),
    {
        lemma_stream_nonces_distinct(self.sealing().base_nonce, self.next_index());
    }

    /// Bytes in one full frame.
    pub fn encrypted_chunk_size(&self) -> (r: usize)
        ensures
            r == self.frame_len(),
    {
        self.encrypted_chunk_size
    }

    /// Whether the stream has ended.
    pub fn is_done(&self) -> (r: bool)
        ensures
            r == self.ended(),
    {
        self.is_done
    }

    /// Number of opened bytes not yet handed out.
    pub fn pending_len(&self) -> (r: usize)
        requires
            self.wf(),
        ensures
            r == self.pending().len(),
    {
        self.plain.len() - self.pos
    }

    /// Whether the next `take` needs a frame first: no plaintext is pending
    /// and the stream has not ended.
    pub fn needs_frame(&self) -> (r: bool)
        requires
            self.wf(),
        ensures
            r == (self.pending().len() == 0 && !self.ended()),
    {
        self.pos == self.plain.len() && !self.is_done
    }

    /// Hands out up to `max` bytes of pending plaintext, in order.
    pub fn take(&mut self, max: usize) -> (r: Vec<u8>)
        requires
            old(self).wf(),
        ensures
            ({
                let p = old(self).pending();
                let n = if max < p.len() { max as int } else { p.len() as int };
                &&& r@ == p.take(n)
                &&& final(self).pending() == p.skip(n)
                &&& final(self).wf()
                &&& final(self).sealing() == old(self).sealing()
                &&& final(self).frame_len() == old(self).frame_len()
                &&& final(self).next_index() == old(self).next_index()
                &&& final(self).ended() == old(self).ended()
            }),
    {
        let ghost p = self.pending();
        let avail = self.plain.len() - self.pos;
        let n = if max < avail { max } else { avail };
        let mut out: Vec<u8> = Vec::new();
        let mut j: usize = 0;
        while j < n
            invariant
                n <= self.plain@.len() - self.pos,
                self.pos <= self.plain@.len(),
                self.plain@.len() <= usize::MAX,
                p == self.plain@.skip(self.pos as int),
                j <= n,
                out@ == p.take(j as int),
            decreases n - j,
        {
            out.push(self.plain[self.pos + j]);
            j = j + 1;
            assert(out@ =~= p.take(j as int));
        }
        self.pos = self.pos + n;
        assert(self.plain@.skip(self.pos as int) =~= p.skip(n as int));
        out
    }

    /// Ends the stream with nothing pending.
    fn close(&mut self)
        ensures
            final(self).ended(),
            final(self).pending() == Seq::<u8>::empty(),
            old(self).wf() ==> final(self).wf(),
            final(self).sealing() == old(self).sealing(),
            final(self).frame_len() == old(self).frame_len(),
            final(self).next_index() == old(self).next_index(),
    {
        self.is_done = true;
        self.plain = Vec::new();
        self.pos = 0;
        assert(self.plain@.skip(0) =~= Seq::<u8>::empty());
    }

    /// Takes the next frame as read from the source: `frame_len()` bytes, or
    /// fewer where the source ended inside it (none at all at a clean end).
    /// A frame shorter than a full one is the last: the stream ends after it.
    /// A frame that is too short to hold any data, or that fails
    /// authentication, ends the stream with an error and no plaintext.
    pub fn accept_frame(&mut self, frame: &[u8]) -> (r: Result<(), StreamError>)
        requires
            old(self).wf(),
            old(self).pending().len() == 0,
            !old(self).ended(),
            frame@.len() <= old(self).frame_len(),
        ensures
            final(self).wf(),
            final(self).sealing() == old(self).sealing(),
            final(self).frame_len() == old(self).frame_len(),
            ({
                let s = old(self).sealing();
                let i = old(self).next_index();
                let tag = tag_len(s.alg);
                if frame@.len() == 0 {
                    &&& r is Ok
                    &&& final(self).ended()
                    &&& final(self).pending() == Seq::<u8>::empty()
                    &&& final(self).next_index() == i
                } else if frame@.len() <= tag {
                    &&& r == Err::<(), StreamError>(StreamError::Truncated { index: i as u64 })
                    &&& final(self).next_index() == i
                    &&& final(self).ended()
                    &&& final(self).pending() == Seq::<u8>::empty()
                } else if i == u64::MAX {
                    &&& r == Err::<(), StreamError>(StreamError::ChunkLimit)
                    &&& final(self).next_index() == i
                    &&& final(self).ended()
                    &&& final(self).pending() == Seq::<u8>::empty()
                } else {
                    let o = opened(s.alg, s.key, derived_nonce(s.base_nonce, i as u64), s.aad, frame@);
                    &&& r is Ok <==> o is Some
                    &&& r is Ok ==> final(self).pending() == o->Some_0
                    &&& (forall|p: Seq<u8>|
                        #[trigger] frame_at(s, i as int, p) == Ok::<Seq<u8>, StreamError>(frame@)
                            ==> r is Ok && final(self).pending() == p)
                    &&& r is Ok ==> {
                        &&& final(self).pending().len() + tag == frame@.len()
                        &&& final(self).next_index() == i + 1
                        &&& final(self).ended() == (frame@.len() < old(self).frame_len())
                    }
                    &&& r is Err ==> {
                        &&& r == Err::<(), StreamError>(StreamError::Authentication { index: i as u64 })
                        &&& final(self).next_index() == i
                        &&& final(self).ended()
                        &&& final(self).pending() == Seq::<u8>::empty()
                    }
                }
            }),
    {
        let index = self.chunk_counter;
        if frame.len() == 0 {
            self.close();
            return Ok(());
        }
        if frame.len() <= tag_size(self.algorithm) {
            self.close();
            return Err(StreamError::Truncated { index });
        }
        if index == u64::MAX {
            self.close();
            return Err(StreamError::ChunkLimit);
        }
        let nonce = derive_nonce(self.base_nonce.as_slice(), index);
        match open_chunk(self.algorithm, &self.key, &nonce, &self.aad, frame) {
            Ok(p) => {
                self.plain = p;
                self.pos = 0;
                self.chunk_counter = index + 1;
                if frame.len() < self.encrypted_chunk_size {
                    self.is_done = true;
                }
                assert(self.plain@.skip(0) =~= self.plain@);
                Ok(())
            },
            Err(_) => {
                self.close();
                Err(StreamError::Authentication { index })
            },
        }
    }
}

impl StreamingDecryptor {
    /// Plaintext bytes per chunk.
    pub open spec fn chunk_len(&self) -> nat {
        (self.frame_len() - tag_len(self.sealing().alg)) as nat
    }

    /// Opens a whole sealed stream held in memory: frames are cut from
    /// `source` in order and their plaintext is returned, up to a clean end or
    /// to the first error. A stream sealed from `p` with this stream's
    /// parameters gives back `p`.
    pub fn read_to_end(&mut self, source: &[u8]) -> (r: Result<Vec<u8>, StreamError>)
        requires
            old(self).wf(),
            old(self).pending().len() == 0,
            !old(self).ended(),
        ensures
            final(self).wf(),
            final(self).ended(),
            r is Err ==> ({
                let e = r->Err_0;
                let i = final(self).next_index() as u64;
                &&& final(self).pending() == Seq::<u8>::empty()
                &&& e == StreamError::Authentication { index: i } || e == StreamError::Truncated {
                    index: i,
                } || e == StreamError::ChunkLimit
            }),
            forall|p: Seq<u8>|
                #[trigger] sealed_from(
                    old(self).sealing(),
                    old(self).next_index() as int,
                    p,
                    old(self).chunk_len(),
                ) == Ok::<Seq<u8>, StreamError>(source@) ==> r is Ok && r->Ok_0@ == p,
    {
        let ghost s = self.sealing();
        let ghost c = self.chunk_len();
        let ghost i0 = self.next_index() as int;
        let mut out: Vec<u8> = Vec::new();
        let mut off: usize = 0;
        assert(source@.skip(0) =~= source@);
        assert forall|p: Seq<u8>| #[trigger] sealed_from(s, i0, p, c) == Ok::<Seq<u8>, StreamError>(
            source@,
        ) implies p.take(0) == out@ && p.skip(0) == p by {
            assert(p.take(0) =~= out@);
            assert(p.skip(0) =~= p);
        }
        while !self.is_done
            invariant
                self.wf(),
                self.sealing() == s,
                self.chunk_len() == c,
                s == old(self).sealing(),
                i0 == old(self).next_index() as int,
                c == old(self).chunk_len(),
                c > 0,
                off <= source@.len(),
                !self.ended() ==> self.pending().len() == 0,
                forall|p: Seq<u8>|
                    #[trigger] sealed_from(s, i0, p, c) == Ok::<Seq<u8>, StreamError>(source@) ==> {
                        &&& out@.len() <= p.len()
                        &&& p.take(out@.len() as int) == out@
                        &&& self.ended() ==> out@ == p
                        &&& !self.ended() ==> sealed_from(
                            s,
                            self.next_index() as int,
                            p.skip(out@.len() as int),
                            c,
                        ) == Ok::<Seq<u8>, StreamError>(source@.skip(off as int))
                    },
            decreases source@.len() - off + (if self.ended() { 0int } else { 1int }),
        {
            let ghost i = self.next_index() as int;
            let ghost before = out@;
            let ghost off0 = off as int;
            let fl = self.encrypted_chunk_size;
            let n = if fl < source.len() - off { fl } else { source.len() - off };
            let frame = slice_subrange(source, off, off + n);
            if let Err(e) = self.accept_frame(frame) {
                proof {
                    assert forall|p: Seq<u8>| !(#[trigger] sealed_from(s, i0, p, c) == Ok::<
                        Seq<u8>,
                        StreamError,
                    >(source@)) by {
                        if sealed_from(s, i0, p, c) == Ok::<Seq<u8>, StreamError>(source@) {
                            let rest = p.skip(before.len() as int);
                            lemma_read_one(s, i, c, p, before, source@.skip(off0), n as int);
                            assert(source@.skip(off0).take(n as int) =~= frame@);
                        }
                    }
                }
                return Err(e);
            }
            let all = self.pending_len();
            let got = self.take(all);
            let mut j: usize = 0;
            while j < got.len()
                invariant
                    j <= got@.len(),
                    out@ == before + got@.take(j as int),
                decreases got@.len() - j,
            {
                out.push(got[j]);
                j = j + 1;
                assert(out@ =~= before + got@.take(j as int));
            }
            assert(got@.take(got@.len() as int) =~= got@);
            off = off + n;
            proof {
                assert forall|p: Seq<u8>| #[trigger]
                    sealed_from(s, i0, p, c) == Ok::<Seq<u8>, StreamError>(source@) implies {
                    &&& out@.len() <= p.len()
                    &&& p.take(out@.len() as int) == out@
                    &&& self.ended() ==> out@ == p
                    &&& !self.ended() ==> sealed_from(
                        s,
                        self.next_index() as int,
                        p.skip(out@.len() as int),
                        c,
                    ) == Ok::<Seq<u8>, StreamError>(source@.skip(off as int))
                } by {
                    let rest = p.skip(before.len() as int);
                    let remaining = source@.skip(off0);
                    lemma_read_one(s, i, c, p, before, remaining, n as int);
                    assert(remaining.take(n as int) =~= frame@);
                    assert(remaining.skip(n as int) =~= source@.skip(off as int));
                    if 0 < rest.len() < c {
                        assert(p.take(out@.len() as int) =~= out@);
                    } else if rest.len() == 0 {
                        assert(p.take(out@.len() as int) =~= out@);
                    }
                }
            }
        }
        Ok(out)
    }
}

} // verus!
