//! Encrypt-on-write: plaintext is buffered until a full chunk is available,
//! and every full chunk is sealed into one frame.
use crate::aead::{aad_view, seal_chunk, AeadParams, Algorithm, StreamKey};
use crate::error::{StreamError, WriteFailure};
use crate::frames::{sealed_prefix, sealed_prefix_chunks, final_frame, frame_at, full_chunk_frames, full_len, lemma_then_frames_assoc, lemma_then_frames_empty, then_frames, Sealing};
use crate::nonce::{derive_nonce, derived_nonce, lemma_stream_nonces_distinct};
use vstd::prelude::*;

verus! {

/// The configuration of an encrypting stream, before a key is supplied.
pub struct StreamingEncryptorSetup {
    pub aead_params: AeadParams,
    pub aad: Option<Vec<u8>>,
}

impl StreamingEncryptorSetup {
    pub fn new(aead_params: AeadParams, aad: Option<Vec<u8>>) -> (r: Self)
        ensures
            r.aead_params == aead_params,
            r.aad == aad,
    {
        StreamingEncryptorSetup { aead_params, aad }
    }

    /// Starts the stream with `key`, which must be a key of the configured cipher.
    pub fn start(self, key: StreamKey) -> (r: Result<StreamingEncryptor, StreamError>)
        requires
            self.aead_params.chunk_size > 0,
            self.aead_params.base_nonce@.len() >= 8,
        ensures
            key.algorithm != self.aead_params.algorithm <==> r == Err::<StreamingEncryptor, StreamError>(
                StreamError::InvalidKeyType,
            ),
            key.algorithm == self.aead_params.algorithm ==> r is Ok,
            r is Ok ==> {
                let e = r->Ok_0;
                &&& e.wf()
                &&& e.sealing() == (Sealing {
                    alg: self.aead_params.algorithm,
                    key: key.bytes@,
                    base_nonce: self.aead_params.base_nonce@,
                    aad: aad_view(self.aad),
                })
                &&& e.chunk_size() == self.aead_params.chunk_size as nat
                &&& e.buffered() == Seq::<u8>::empty()
                &&& e.next_index() == 0
            },
    {
        if self.aead_params.algorithm != key.algorithm {
            return Err(StreamError::InvalidKeyType);
        }
        let chunk_size = self.aead_params.chunk_size as usize;
        Ok(StreamingEncryptor {
            algorithm: self.aead_params.algorithm,
            key: key.bytes,
            base_nonce: self.aead_params.base_nonce,
            chunk_size,
            buffer: Vec::new(),
            chunk_counter: 0,
            aad: self.aad,
        })
    }
}

/// An encrypting stream. Bytes handed to `write` come back as the frames of
/// every chunk they complete; `finish` seals what is left. A stream dropped
/// without `finish` loses its buffered tail.
pub struct StreamingEncryptor {
    algorithm: Algorithm,
    key: Vec<u8>,
    base_nonce: Vec<u8>,
    chunk_size: usize,
    buffer: Vec<u8>,
    chunk_counter: u64,
    aad: Option<Vec<u8>>,
}

impl StreamingEncryptor {
    pub closed spec fn sealing(&self) -> Sealing {
        Sealing {
            alg: self.algorithm,
            key: self.key@,
            base_nonce: self.base_nonce@,
            aad: aad_view(self.aad),
        }
    }

    pub closed spec fn chunk_size(&self) -> nat {
        self.chunk_size as nat
    }

    /// Plaintext not yet sealed: always shorter than one chunk.
    pub closed spec fn buffered(&self) -> Seq<u8> {
        self.buffer@
    }

    /// The index of the next chunk to be sealed.
    pub closed spec fn next_index(&self) -> nat {
        self.chunk_counter as nat
    }

    /// Chunks are non-empty, the buffer always holds less than one chunk, and
    /// the base nonce is long enough to take the whole chunk index.
    pub open spec fn wf(&self) -> bool {
        &&& self.chunk_size() > 0
        &&& self.buffered().len() < self.chunk_size()
        &&& self.sealing().base_nonce.len() >= 8
    }

    /// The nonces of all chunks sealed so far are pairwise distinct.
    pub proof fn lemma_nonces_distinct(&self)
        requires
            self.wf(),
        ensures
            forall|i: int, j: int|
                0 <= i < self.next_index() && 0 <= j < self.next_index() && i != j
                    ==> #[trigger] derived_nonce(self.sealing().base_nonce, i as u64)
                    != #[trigger] derived_nonce(self.sealing().base_nonce, j as u64),
    {
        lemma_stream_nonces_distinct(self.sealing().base_nonce, self.next_index());
    }

    /// Number of buffered plaintext bytes.
    pub fn buffered_len(&self) -> (r: usize)
        ensures
            r == self.buffered().len(),
    {
        self.buffer.len()
    }

    /// Index of the next chunk to be sealed.
    pub fn chunk_index(&self) -> (r: u64)
        ensures
            r == self.next_index(),
    {
        self.chunk_counter
    }

    /// Seals one chunk at `index`.
    fn seal_at(&self, index: u64, chunk: &[u8]) -> (r: Result<Vec<u8>, StreamError>)
        ensures
            match r {
                Ok(f) => frame_at(self.sealing(), index as int, chunk@) == Ok::<Seq<u8>, StreamError>(f@),
                Err(e) => frame_at(self.sealing(), index as int, chunk@) == Err::<Seq<u8>, StreamError>(e),
            },
    {
        if index == u64::MAX {
            return Err(StreamError::ChunkLimit);
        }
        let nonce = derive_nonce(self.base_nonce.as_slice(), index);
        match seal_chunk(self.algorithm, &self.key, &nonce, &self.aad, chunk) {
            Ok(f) => Ok(f),
            Err(_) => Err(StreamError::Encryption),
        }
    }

    /// Appends `buf` to the stream and returns the frames of the chunks it
    /// completes, in order. Where the cipher refuses a chunk, the frames of the
    /// chunks before it are handed back with the error, the index has moved
    /// past them, and the input from the refused chunk on is not taken.
    pub fn write(&mut self, buf: &[u8]) -> (r: Result<Vec<u8>, WriteFailure>)
        requires
            old(self).wf(),
        ensures
            ({
                let data = old(self).buffered() + buf@;
                let c = old(self).chunk_size();
                let model = full_chunk_frames(old(self).sealing(), old(self).next_index() as int, data, c);
                match r {
                    Ok(out) => {
                        &&& model == Ok::<Seq<u8>, StreamError>(out@)
                        &&& final(self).wf()
                        &&& final(self).sealing() == old(self).sealing()
                        &&& final(self).chunk_size() == c
                        &&& final(self).buffered() == data.skip(full_len(data.len(), c) as int)
                        &&& final(self).next_index() == old(self).next_index() + data.len() / c
                    },
                    Err(fail) => {
                        let s = old(self).sealing();
                        let i = old(self).next_index() as int;
                        let j = sealed_prefix_chunks(s, i, data, c);
                        &&& model == Err::<Seq<u8>, StreamError>(fail.error)
                        &&& fail.sealed@ == sealed_prefix(s, i, data, c)
                        &&& j * c + c <= data.len()
                        &&& frame_at(s, i + j, data.subrange((j * c) as int, (j * c + c) as int)) == Err::<
                            Seq<u8>,
                            StreamError,
                        >(fail.error)
                        &&& final(self).wf()
                        &&& final(self).sealing() == s
                        &&& final(self).chunk_size() == c
                        &&& final(self).next_index() == old(self).next_index() + j
                        &&& j == 0 ==> *final(self) == *old(self) && fail.consumed == 0
                        &&& j > 0 ==> final(self).buffered() == Seq::<u8>::empty() && fail.consumed
                            == j * c - old(self).buffered().len()
                    },
                }
            }),
    {
        let c = self.chunk_size;
        let ghost s = self.sealing();
        let ghost start = self.chunk_counter as int;
        let mut data: Vec<u8> = Vec::new();
        let mut i: usize = 0;
        while i < self.buffer.len()
            invariant
                i <= self.buffer@.len(),
                data@ == self.buffer@.take(i as int),
            decreases self.buffer@.len() - i,
        {
            data.push(self.buffer[i]);
            i = i + 1;
            assert(data@ =~= self.buffer@.take(i as int));
        }
        let mut i: usize = 0;
        while i < buf.len()
            invariant
                i <= buf@.len(),
                data@ == self.buffer@ + buf@.take(i as int),
            decreases buf@.len() - i,
        {
            data.push(buf[i]);
            i = i + 1;
            assert(data@ =~= self.buffer@ + buf@.take(i as int));
        }
        assert(buf@.take(buf@.len() as int) =~= buf@);
        let ghost d = data@;
        assert(d.len() == data.len());
        let mut out: Vec<u8> = Vec::new();
        let mut pos: usize = 0;
        let mut index: u64 = self.chunk_counter;
        let ghost mut k: nat = 0;
        let b = self.buffer.len();
        proof {
            assert(d.skip(0) =~= d);
            assert(Seq::<u8>::empty() + sealed_prefix(s, start, d, c as nat) =~= sealed_prefix(
                s,
                start,
                d,
                c as nat,
            ));
            lemma_then_frames_empty(full_chunk_frames(s, start, d, c as nat));
        }
        while data.len() - pos >= c
            invariant
                c == self.chunk_size,
                c > 0,
                s == self.sealing(),
                start == self.chunk_counter,
                data@ == d,
                d == old(self).buffered() + buf@,
                *self == *old(self),
                d.len() <= usize::MAX,
                pos <= d.len(),
                pos == k * c,
                index == start + k,
                b == old(self).buffered().len(),
                b < c,
                s.base_nonce.len() >= 8,
                sealed_prefix(s, start, d, c as nat) == out@ + sealed_prefix(
                    s,
                    index as int,
                    d.skip(pos as int),
                    c as nat,
                ),
                sealed_prefix_chunks(s, start, d, c as nat) == k + sealed_prefix_chunks(
                    s,
                    index as int,
                    d.skip(pos as int),
                    c as nat,
                ),
                full_chunk_frames(s, start, d, c as nat) == then_frames(
                    out@,
                    full_chunk_frames(s, index as int, d.skip(pos as int), c as nat),
                ),
            decreases d.len() - pos,
        {
            let mut chunk: Vec<u8> = Vec::new();
            let mut j: usize = 0;
            while j < c
                invariant
                    c <= d.len() - pos,
                    pos <= d.len(),
                    d.len() <= usize::MAX,
                    data@ == d,
                    j <= c,
                    chunk@ == d.subrange(pos as int, pos + j),
                decreases c - j,
            {
                chunk.push(data[pos + j]);
                j = j + 1;
                assert(chunk@ =~= d.subrange(pos as int, pos + j));
            }
            let ghost rest = d.skip(pos as int);
            assert(rest.take(c as int) =~= chunk@);
            assert(rest.skip(c as int) =~= d.skip(pos + c));
            let sealed_chunk = self.seal_at(index, chunk.as_slice());
            match sealed_chunk {
                Err(e) => {
                    assert(full_chunk_frames(s, index as int, rest, c as nat) == Err::<Seq<u8>, StreamError>(e));
                    assert(out@ + Seq::<u8>::empty() =~= out@);
                    assert(rest.take(c as int) =~= d.subrange(pos as int, pos + c));
                    if pos == 0 {
                        proof {
                            assert(k == 0) by (nonlinear_arith)
                                requires pos == k * c, pos == 0, c > 0;
                        }
                        return Err(WriteFailure { sealed: out, consumed: 0, error: e });
                    }
                    proof {
                        assert(k > 0 && pos >= c) by (nonlinear_arith)
                            requires pos == k * c, pos != 0, c > 0;
                    }
                    self.buffer = Vec::new();
                    self.chunk_counter = index;
                    return Err(WriteFailure { sealed: out, consumed: pos - b, error: e });
                },
                Ok(f) => {
                    let ghost before = out@;
                    let mut j: usize = 0;
                    while j < f.len()
                        invariant
                            j <= f@.len(),
                            out@ == before + f@.take(j as int),
                        decreases f@.len() - j,
                    {
                        out.push(f[j]);
                        j = j + 1;
                        assert(out@ =~= before + f@.take(j as int));
                    }
                    assert(f@.take(f@.len() as int) =~= f@);
                    assert(before + (f@ + sealed_prefix(s, index + 1, d.skip(pos + c), c as nat)) =~= out@
                        + sealed_prefix(s, index + 1, d.skip(pos + c), c as nat));
                    proof {
                        lemma_then_frames_assoc(
                            before,
                            f@,
                            full_chunk_frames(s, index + 1, d.skip(pos + c), c as nat),
                        );
                    }
                },
            }
            pos = pos + c;
            index = index + 1;
            proof {
                k = k + 1;
                assert(pos == k * c) by (nonlinear_arith)
                    requires pos == (k - 1) * c + c;
            }
        }
        let mut rest: Vec<u8> = Vec::new();
        let mut j: usize = pos;
        while j < data.len()
            invariant
                pos <= j <= d.len(),
                data@ == d,
                rest@ == d.subrange(pos as int, j as int),
            decreases d.len() - j,
        {
            rest.push(data[j]);
            j = j + 1;
            assert(rest@ =~= d.subrange(pos as int, j as int));
        }
        proof {
            assert(d.len() / (c as nat) == k) by (nonlinear_arith)
                requires pos == k * c, d.len() - pos < c, pos <= d.len(), c > 0;
            assert(rest@ =~= d.skip(pos as int));
            assert(then_frames(out@, Ok(Seq::empty())) == Ok::<Seq<u8>, StreamError>(out@)) by {
                assert(out@ + Seq::<u8>::empty() =~= out@);
            }
        }
        self.buffer = rest;
        self.chunk_counter = index;
        Ok(out)
    }

    /// Ends the stream: seals the buffered tail, if any, as the last frame.
    pub fn finish(self) -> (r: Result<Vec<u8>, StreamError>)
        requires
            self.wf(),
        ensures
            match r {
                Ok(out) => final_frame(self.sealing(), self.next_index() as int, self.buffered())
                    == Ok::<Seq<u8>, StreamError>(out@),
                Err(e) => final_frame(self.sealing(), self.next_index() as int, self.buffered())
                    == Err::<Seq<u8>, StreamError>(e),
            },
    {
        if self.buffer.len() == 0 {
            return Ok(Vec::new());
        }
        self.seal_at(self.chunk_counter, self.buffer.as_slice())
    }
}

} // verus!
