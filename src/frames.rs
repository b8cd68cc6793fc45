//! The framing model: which frames a plaintext stream is sealed into.
use crate::aead::{sealed, tag_len, Algorithm};
use crate::error::StreamError;
use crate::nonce::derived_nonce;
use vstd::arithmetic::div_mod::{
    lemma_basic_div, lemma_div_plus_one, lemma_fundamental_div_mod, lemma_mod_pos_bound,
};
use vstd::prelude::*;

verus! {

/// Everything that chunk sealing depends on besides the chunk and its index.
pub struct Sealing {
    pub alg: Algorithm,
    pub key: Seq<u8>,
    pub base_nonce: Seq<u8>,
    pub aad: Option<Seq<u8>>,
}

/// The frame of chunk `index`: the chunk sealed under the nonce derived for
/// that index, which is the tag longer than the chunk (the cipher gives no
/// other length). The last index of the counter is never used, so that the
/// counter never wraps around to a nonce already spent.
pub open spec fn frame_at(s: Sealing, index: int, chunk: Seq<u8>) -> Result<Seq<u8>, StreamError> {
    if index < 0 || index >= u64::MAX {
        Err(StreamError::ChunkLimit)
    } else {
        match sealed(s.alg, s.key, derived_nonce(s.base_nonce, index as u64), s.aad, chunk) {
            Some(f) => if f.len() == chunk.len() + tag_len(s.alg) {
                Ok(f)
            } else {
                Err(StreamError::Encryption)
            },
            None => Err(StreamError::Encryption),
        }
    }
}

/// `head` followed by the frames of `rest`, or the error of `rest`.
pub open spec fn then_frames(head: Seq<u8>, rest: Result<Seq<u8>, StreamError>) -> Result<
    Seq<u8>,
    StreamError,
> {
    match rest {
        Ok(r) => Ok(head + r),
        Err(e) => Err(e),
    }
}

/// The frames of the full chunks of `data` (a trailing partial chunk is left
/// out), numbered from `index` on.
pub open spec fn full_chunk_frames(s: Sealing, index: int, data: Seq<u8>, c: nat) -> Result<
    Seq<u8>,
    StreamError,
>
    decreases data.len(),
{
    if c == 0 || data.len() < c {
        Ok(Seq::empty())
    } else {
        match frame_at(s, index, data.take(c as int)) {
            Ok(f) => then_frames(f, full_chunk_frames(s, index + 1, data.skip(c as int), c)),
            Err(e) => Err(e),
        }
    }
}

/// The frames of the leading full chunks of `data` that seal, numbered from
/// `index` on: everything before the first chunk the cipher refuses.
pub open spec fn sealed_prefix(s: Sealing, index: int, data: Seq<u8>, c: nat) -> Seq<u8>
    decreases data.len(),
{
    if c == 0 || data.len() < c {
        Seq::empty()
    } else {
        match frame_at(s, index, data.take(c as int)) {
            Ok(f) => f + sealed_prefix(s, index + 1, data.skip(c as int), c),
            Err(_) => Seq::empty(),
        }
    }
}

/// How many leading full chunks of `data` seal, from `index` on.
pub open spec fn sealed_prefix_chunks(s: Sealing, index: int, data: Seq<u8>, c: nat) -> nat
    decreases data.len(),
{
    if c == 0 || data.len() < c {
        0
    } else {
        match frame_at(s, index, data.take(c as int)) {
            Ok(_) => 1 + sealed_prefix_chunks(s, index + 1, data.skip(c as int), c),
            Err(_) => 0,
        }
    }
}

/// The number of bytes in the full chunks of `data`.
pub open spec fn full_len(len: nat, c: nat) -> nat {
    if c == 0 {
        0
    } else {
        (len / c) * c
    }
}

/// The frame of a final partial chunk: nothing when it is empty.
pub open spec fn final_frame(s: Sealing, index: int, rest: Seq<u8>) -> Result<Seq<u8>, StreamError> {
    if rest.len() == 0 {
        Ok(Seq::empty())
    } else {
        frame_at(s, index, rest)
    }
}

pub proof fn lemma_then_frames_empty(r: Result<Seq<u8>, StreamError>)
    ensures
        then_frames(Seq::empty(), r) == r,
{
    if let Ok(x) = r {
        assert(Seq::<u8>::empty() + x =~= x);
    }
}

pub proof fn lemma_then_frames_assoc(a: Seq<u8>, b: Seq<u8>, r: Result<Seq<u8>, StreamError>)
    ensures
        then_frames(a, then_frames(b, r)) == then_frames(a + b, r),
{
    if let Ok(x) = r {
        assert(a + (b + x) =~= (a + b) + x);
    }
}

/// The frames of `a`, then those of `b`; the first error where there is one.
pub open spec fn seq_frames(
    a: Result<Seq<u8>, StreamError>,
    b: Result<Seq<u8>, StreamError>,
) -> Result<Seq<u8>, StreamError> {
    match a {
        Ok(o) => then_frames(o, b),
        Err(e) => Err(e),
    }
}

/// The bytes of `data` past its last full chunk.
pub open spec fn tail_of(data: Seq<u8>, c: nat) -> Seq<u8> {
    data.skip(full_len(data.len(), c) as int)
}

/// The full chunks of `n` bytes leave fewer than `c` over.
pub proof fn lemma_full_len_bound(n: nat, c: nat)
    requires
        c > 0,
    ensures
        full_len(n, c) <= n,
        n - full_len(n, c) < c,
{
    lemma_fundamental_div_mod(n as int, c as int);
    lemma_mod_pos_bound(n as int, c as int);
    assert(c * (n / c) == (n / c) * c) by (nonlinear_arith);
}

proof fn lemma_one_chunk_less(n: nat, c: nat)
    requires
        c > 0,
        n >= c,
    ensures
        n / c == 1 + (n - c) as nat / c,
        full_len(n, c) == c + full_len((n - c) as nat, c),
{
    let m = (n - c) as nat;
    lemma_div_plus_one(m as int, c as int);
    assert(c + m == n);
    let q = m / c;
    assert((1 + q) * c == c + q * c) by (nonlinear_arith);
}

/// Sealing `a + y` from index `i` on is sealing the full chunks of `a`, then
/// the full chunks of what `a` leaves over followed by `y`; the tail and the
/// chunk count come out the same.
proof fn lemma_full_chunk_frames_append(s: Sealing, i: int, a: Seq<u8>, y: Seq<u8>, c: nat)
    requires
        c > 0,
    ensures
        full_chunk_frames(s, i, a + y, c) == seq_frames(
            full_chunk_frames(s, i, a, c),
            full_chunk_frames(s, i + a.len() / c, tail_of(a, c) + y, c),
        ),
        tail_of(tail_of(a, c) + y, c) == tail_of(a + y, c),
        a.len() / c + (tail_of(a, c) + y).len() / c == (a + y).len() / c,
    decreases a.len(),
{
    if a.len() < c {
        lemma_basic_div(a.len() as int, c as int);
        assert(a.len() / c == 0);
        assert(full_len(a.len(), c) == 0 * c);
        assert(tail_of(a, c) =~= a);
        lemma_then_frames_empty(full_chunk_frames(s, i, a + y, c));
    } else {
        let a2 = a.skip(c as int);
        lemma_full_chunk_frames_append(s, i + 1, a2, y, c);
        assert((a + y).take(c as int) =~= a.take(c as int));
        assert((a + y).skip(c as int) =~= a2 + y);
        lemma_one_chunk_less(a.len(), c);
        lemma_one_chunk_less((a + y).len(), c);
        assert(a2.len() == a.len() - c);
        assert((a2 + y).len() == (a + y).len() - c);
        lemma_full_len_bound(a2.len(), c);
        lemma_full_len_bound((a2 + y).len(), c);
        assert(tail_of(a, c) =~= tail_of(a2, c));
        assert(tail_of(a + y, c) =~= tail_of(a2 + y, c));
        let z = full_chunk_frames(s, i + a.len() / c, tail_of(a, c) + y, c);
        if let Ok(f) = frame_at(s, i, a.take(c as int)) {
            if let Ok(o) = full_chunk_frames(s, i + 1, a2, c) {
                lemma_then_frames_assoc(f, o, z);
            }
        }
    }
}

/// Writing `x` and then `y` to a stream that holds `b` emits the same frames,
/// and leaves the same tail and next chunk index, as writing `x + y` at once.
pub proof fn lemma_split_write(s: Sealing, i: int, b: Seq<u8>, x: Seq<u8>, y: Seq<u8>, c: nat)
    requires
        c > 0,
    ensures
        ({
            let first = b + x;
            let second = tail_of(first, c) + y;
            let whole = b + x + y;
            &&& full_chunk_frames(s, i, whole, c) == seq_frames(
                full_chunk_frames(s, i, first, c),
                full_chunk_frames(s, i + first.len() / c, second, c),
            )
            &&& tail_of(second, c) == tail_of(whole, c)
            &&& i + first.len() / c + second.len() / c == i + whole.len() / c
        }),
{
    lemma_full_chunk_frames_append(s, i, b + x, y, c);
    assert(b + x + y =~= (b + x) + y);
}

/// The sealed stream of `data` from chunk `index` on: the frames of its full
/// chunks, then the frame of the remainder, if any.
pub open spec fn sealed_from(s: Sealing, index: int, data: Seq<u8>, c: nat) -> Result<
    Seq<u8>,
    StreamError,
> {
    seq_frames(
        full_chunk_frames(s, index, data, c),
        final_frame(s, index + data.len() / c, tail_of(data, c)),
    )
}

/// The whole sealed stream of `data`, in chunks of `c` bytes.
pub open spec fn sealed_stream(s: Sealing, data: Seq<u8>, c: nat) -> Result<Seq<u8>, StreamError> {
    sealed_from(s, 0, data, c)
}

/// A sealed stream is the frame of its first chunk followed by the sealed
/// stream of the rest.
pub proof fn lemma_sealed_from_unfold(s: Sealing, index: int, data: Seq<u8>, c: nat)
    requires
        c > 0,
    ensures
        data.len() >= c ==> sealed_from(s, index, data, c) == seq_frames(
            frame_at(s, index, data.take(c as int)),
            sealed_from(s, index + 1, data.skip(c as int), c),
        ),
        data.len() < c ==> sealed_from(s, index, data, c) == final_frame(s, index, data),
{
    if data.len() >= c {
        let d2 = data.skip(c as int);
        lemma_one_chunk_less(data.len(), c);
        lemma_full_len_bound(d2.len(), c);
        assert(tail_of(data, c) =~= tail_of(d2, c));
        let z = final_frame(s, index + data.len() / c, tail_of(data, c));
        if let Ok(f) = frame_at(s, index, data.take(c as int)) {
            if let Ok(o) = full_chunk_frames(s, index + 1, d2, c) {
                lemma_then_frames_assoc(f, o, z);
            }
        }
    } else {
        lemma_basic_div(data.len() as int, c as int);
        assert(data.len() / c == 0);
        assert(full_len(data.len(), c) == 0 * c);
        assert(tail_of(data, c) =~= data);
        lemma_then_frames_empty(final_frame(s, index, data));
    }
}

/// What a reader of a sealed stream sees next: the frame of the first chunk
/// of the rest, cut at a full frame's length or at the end of the stream.
pub proof fn lemma_next_frame(s: Sealing, index: int, rest: Seq<u8>, stream: Seq<u8>, c: nat)
    requires
        c > 0,
        sealed_from(s, index, rest, c) == Ok::<Seq<u8>, StreamError>(stream),
    ensures
        ({
            let fl = c + tag_len(s.alg);
            let n: int = if fl < stream.len() { fl as int } else { stream.len() as int };
            let chunk = if rest.len() >= c { rest.take(c as int) } else { rest };
            &&& rest.len() == 0 ==> stream.len() == 0
            &&& rest.len() > 0 ==> {
                &&& frame_at(s, index, chunk) == Ok::<Seq<u8>, StreamError>(stream.take(n))
                &&& n == chunk.len() + tag_len(s.alg)
                &&& 0 <= index < u64::MAX
            }
            &&& rest.len() >= c ==> {
                &&& n == fl
                &&& sealed_from(s, index + 1, rest.skip(c as int), c) == Ok::<Seq<u8>, StreamError>(
                    stream.skip(n),
                )
            }
            &&& rest.len() < c ==> n == stream.len()
        }),
{
    lemma_sealed_from_unfold(s, index, rest, c);
    if rest.len() >= c {
        let f = frame_at(s, index, rest.take(c as int))->Ok_0;
        let r2 = sealed_from(s, index + 1, rest.skip(c as int), c)->Ok_0;
        assert(stream == f + r2);
        assert(stream.take(f.len() as int) =~= f);
        assert(stream.skip(f.len() as int) =~= r2);
    } else if rest.len() > 0 {
        assert(stream.take(stream.len() as int) =~= stream);
    }
}

/// Reading one frame of a stream sealed from `p`, of which `before` has
/// already been read back and `remaining` is what is left of the stream.
pub proof fn lemma_read_one(
    s: Sealing,
    i: int,
    c: nat,
    p: Seq<u8>,
    before: Seq<u8>,
    remaining: Seq<u8>,
    n: int,
)
    requires
        c > 0,
        before.len() <= p.len(),
        p.take(before.len() as int) == before,
        sealed_from(s, i, p.skip(before.len() as int), c) == Ok::<Seq<u8>, StreamError>(remaining),
        n == if c + tag_len(s.alg) < remaining.len() {
            (c + tag_len(s.alg)) as int
        } else {
            remaining.len() as int
        },
    ensures
        ({
            let rest = p.skip(before.len() as int);
            let frame = remaining.take(n);
            &&& rest.len() == 0 ==> n == 0 && p == before
            &&& rest.len() > 0 ==> {
                &&& 0 <= i < u64::MAX
                &&& n > tag_len(s.alg)
                &&& frame_at(s, i, if rest.len() >= c { rest.take(c as int) } else { rest }) == Ok::<
                    Seq<u8>,
                    StreamError,
                >(frame)
            }
            &&& rest.len() >= c ==> {
                let after = before + rest.take(c as int);
                &&& n == c + tag_len(s.alg)
                &&& after.len() <= p.len()
                &&& p.take(after.len() as int) == after
                &&& sealed_from(s, i + 1, p.skip(after.len() as int), c) == Ok::<Seq<u8>, StreamError>(
                    remaining.skip(n),
                )
            }
            &&& 0 < rest.len() < c ==> n == remaining.len() && n < c + tag_len(s.alg) && p == before
                + rest
        }),
{
    let rest = p.skip(before.len() as int);
    lemma_next_frame(s, i, rest, remaining, c);
    if rest.len() >= c {
        let after = before + rest.take(c as int);
        assert(p.take(after.len() as int) =~= after);
        assert(p.skip(after.len() as int) =~= rest.skip(c as int));
    } else {
        assert(p =~= before + rest);
    }
}

/// A fresh stream that is written `data` and then finished emits the sealed
/// stream of `data`: the frames `write` returns followed by those of `finish`.
pub proof fn lemma_write_then_finish(s: Sealing, data: Seq<u8>, c: nat)
    requires
        c > 0,
    ensures
        ({
            let d = Seq::<u8>::empty() + data;
            seq_frames(
                full_chunk_frames(s, 0, d, c),
                final_frame(s, (d.len() / c) as int, d.skip(full_len(d.len(), c) as int)),
            ) == sealed_stream(s, data, c)
        }),
{
    assert(Seq::<u8>::empty() + data =~= data);
}

/// Writing each of `pieces` in turn to a stream at chunk `index` that holds
/// `b`: the frames emitted over all the writes, or the first error; and the
/// tail left buffered and the next chunk index once every write succeeded.
pub open spec fn write_pieces(s: Sealing, index: int, b: Seq<u8>, pieces: Seq<Seq<u8>>, c: nat) -> (
    Result<Seq<u8>, StreamError>,
    Seq<u8>,
    int,
)
    decreases pieces.len(),
{
    if pieces.len() == 0 {
        (Ok(Seq::empty()), b, index)
    } else {
        let first = b + pieces[0];
        let rest = write_pieces(s, index + first.len() / c, tail_of(first, c), pieces.drop_first(), c);
        (seq_frames(full_chunk_frames(s, index, first, c), rest.0), rest.1, rest.2)
    }
}

/// However the input is cut into writes, the stream emits the same frames,
/// keeps the same tail and reaches the same chunk index as one write of the
/// whole input.
pub proof fn lemma_write_pieces(s: Sealing, index: int, b: Seq<u8>, pieces: Seq<Seq<u8>>, c: nat)
    requires
        c > 0,
        b.len() < c,
    ensures
        ({
            let whole = b + pieces.flatten();
            write_pieces(s, index, b, pieces, c) == (
                full_chunk_frames(s, index, whole, c),
                tail_of(whole, c),
                index + whole.len() / c,
            )
        }),
    decreases pieces.len(),
{
    if pieces.len() == 0 {
        assert(b + pieces.flatten() =~= b);
        lemma_basic_div(b.len() as int, c as int);
        assert(b.len() / c == 0);
        assert(full_len(b.len(), c) == 0 * c);
        assert(tail_of(b, c) =~= b);
    } else {
        let first = b + pieces[0];
        let tail1 = tail_of(first, c);
        let i1 = index + first.len() / c;
        let flat_rest = pieces.drop_first().flatten();
        lemma_full_len_bound(first.len(), c);
        lemma_write_pieces(s, i1, tail1, pieces.drop_first(), c);
        lemma_split_write(s, index, b, pieces[0], flat_rest, c);
        assert(b + pieces.flatten() =~= b + pieces[0] + flat_rest);
    }
}

/// A fresh stream written `pieces` one after another and then finished
/// emits the sealed stream of their concatenation.
pub proof fn lemma_pieces_then_finish(s: Sealing, pieces: Seq<Seq<u8>>, c: nat)
    requires
        c > 0,
    ensures
        ({
            let w = write_pieces(s, 0, Seq::empty(), pieces, c);
            seq_frames(w.0, final_frame(s, w.2, w.1)) == sealed_stream(s, pieces.flatten(), c)
        }),
{
    lemma_write_pieces(s, 0, Seq::empty(), pieces, c);
    assert(Seq::<u8>::empty() + pieces.flatten() =~= pieces.flatten());
}

} // verus!
