use vstd::prelude::*;
use vstd::slice::slice_subrange;

use flate2::write::GzDecoder;
use std::io::Write;

verus! {

/// What gzip decoding makes of `data`: the content of the first gzip member
/// that `data` begins with, or `None` when `data` begins with no complete,
/// valid member (bad magic, corrupt deflate data, truncation, a trailer whose
/// CRC-32 or length does not match).
pub uninterp spec fn gunzip_of(data: Seq<u8>) -> Option<Seq<u8>>;

/// A flate2 write-side gzip decoder whose decompressed bytes collect in a
/// vector. Held opaquely: Verus does not accept a declaration of
/// `GzDecoder<W>`, whose parameter is bounded by `std::io::Write`.
#[verifier::external_body]
pub struct GzStream {
    decoder: GzDecoder<Vec<u8>>,
}

/// The compressed bytes that the stream has taken as input, in order.
pub uninterp spec fn taken_by(s: GzStream) -> Seq<u8>;

/// The decompressed bytes that have been drained from the stream, in order.
pub uninterp spec fn drained_by(s: GzStream) -> Seq<u8>;

/// Relies on flate2::write::GzDecoder::new: a decoder at the start of a gzip
/// stream that has taken nothing and made nothing.
#[verifier::external_body]
fn gz_new() -> (s: GzStream)
    ensures
        taken_by(s) == Seq::<u8>::empty(),
        drained_by(s) == Seq::<u8>::empty(),
{
    GzStream { decoder: GzDecoder::new(Vec::new()) }
}

/// Relies on `Write::write` of flate2::write::GzDecoder: it takes a prefix of
/// `buf` as input and returns its length. It fails only on bytes that no valid
/// gzip stream begins with (a bad header, corrupt deflate data), and on a
/// non-empty `buf` it takes nothing only once the first member, trailer
/// included, has been taken whole.
#[verifier::external_body]
fn gz_write(s: &mut GzStream, buf: &[u8]) -> (r: Result<usize, String>)
    ensures
        drained_by(*final(s)) == drained_by(*old(s)),
        r matches Ok(n) ==> n <= buf@.len() && taken_by(*final(s)) == taken_by(*old(s))
            + buf@.subrange(0, n as int),
        r is Err ==> forall|extra: Seq<u8>|
            (#[trigger] gunzip_of(taken_by(*old(s)) + buf@ + extra)) is None,
        (r matches Ok(n) && n == 0 && buf@.len() > 0) ==> forall|extra: Seq<u8>|
            #[trigger] gunzip_of(taken_by(*final(s)) + extra) == gunzip_of(taken_by(*final(s))),
{
    s.decoder.write(buf).map_err(|e| e.to_string())
}

/// Relies on flate2::write::GzDecoder::get_mut: the output vector is taken out
/// and replaced by an empty one, which keeps the output stream whole.
#[verifier::external_body]
fn gz_drain(s: &mut GzStream) -> (out: Vec<u8>)
    ensures
        taken_by(*final(s)) == taken_by(*old(s)),
        drained_by(*final(s)) == drained_by(*old(s)) + out@,
{
    std::mem::take(s.decoder.get_mut())
}

/// Relies on flate2::write::GzDecoder::finish: it completes the stream, checks
/// its CRC-32 and length trailer, and hands back the output not yet drained.
#[verifier::external_body]
fn gz_finish(s: GzStream) -> (r: Result<Vec<u8>, String>)
    ensures
        r is Ok <==> gunzip_of(taken_by(s)) is Some,
        r matches Ok(rest) ==> drained_by(s) + rest@ == gunzip_of(taken_by(s))->0,
{
    s.decoder.finish().map_err(|e| e.to_string())
}

/// Streaming decompression of one gzip segment: compressed bytes go in chunk
/// by chunk, and each call hands back the decompressed bytes made so far, so
/// that no segment is ever held in memory whole.
pub struct SegmentDecoder {
    inner: GzStream,
    /// The gzip stream has reached its end; bytes after it are ignored.
    ended: bool,
    /// A chunk was refused; nothing more is handed to the stream.
    failed: bool,
    taken: Ghost<Seq<u8>>,
    emitted: Ghost<Seq<u8>>,
}

impl SegmentDecoder {
    /// The compressed bytes that the decoder has taken so far, in order; after
    /// a failure, up to the end of the refused chunk.
    pub closed spec fn taken(&self) -> Seq<u8> {
        self.taken@
    }

    /// The decompressed bytes handed out so far, in order.
    pub closed spec fn emitted(&self) -> Seq<u8> {
        self.emitted@
    }

    pub closed spec fn has_ended(&self) -> bool {
        self.ended
    }

    pub closed spec fn has_failed(&self) -> bool {
        self.failed
    }

    pub closed spec fn wf(&self) -> bool {
        &&& !self.failed ==> taken_by(self.inner) == self.taken@ && drained_by(self.inner)
            == self.emitted@
        &&& self.failed ==> forall|extra: Seq<u8>|
            (#[trigger] gunzip_of(self.taken@ + extra)) is None
        &&& self.ended ==> forall|extra: Seq<u8>|
            #[trigger] gunzip_of(self.taken@ + extra) == gunzip_of(self.taken@)
    }

    pub fn new() -> (d: SegmentDecoder)
        ensures
            d.wf(),
            d.taken() == Seq::<u8>::empty(),
            d.emitted() == Seq::<u8>::empty(),
            !d.has_ended(),
            !d.has_failed(),
    {
        SegmentDecoder {
            inner: gz_new(),
            ended: false,
            failed: false,
            taken: Ghost(Seq::empty()),
            emitted: Ghost(Seq::empty()),
        }
    }

    /// Hands `chunk` to the decoder and returns the decompressed bytes that are
    /// ready. Every byte of `chunk` is taken, up to the end of the gzip stream;
    /// what follows that end is ignored. Fails, for good, exactly when the bytes
    /// taken begin no valid gzip stream.
    pub fn feed(&mut self, chunk: &[u8]) -> (r: Result<Vec<u8>, String>)
        requires
            old(self).wf(),
        ensures
            final(self).wf(),
            r is Ok <==> !final(self).has_failed(),
            old(self).has_failed() ==> final(self).has_failed() && final(self).taken()
                == old(self).taken(),
            old(self).has_ended() ==> final(self).has_ended(),
            r matches Ok(out) ==> final(self).emitted() == old(self).emitted() + out@,
            r is Err ==> final(self).emitted() == old(self).emitted(),
            !final(self).has_ended() && !old(self).has_failed() ==> final(self).taken()
                == old(self).taken() + chunk@,
            exists|k: int|
                0 <= k <= chunk@.len() && final(self).taken() == old(self).taken() + chunk@.subrange(
                    0,
                    k,
                ),
            final(self).has_failed() ==> forall|extra: Seq<u8>|
                (#[trigger] gunzip_of(final(self).taken() + extra)) is None,
            final(self).has_ended() ==> forall|extra: Seq<u8>|
                #[trigger] gunzip_of(final(self).taken() + extra) == gunzip_of(final(self).taken()),
    {
        if self.failed {
            assert(self.taken@ == self.taken@ + chunk@.subrange(0, 0));
            return Err("the gzip stream was refused before".to_owned());
        }
        let n = chunk.len();
        let mut pos: usize = 0;
        while pos < n && !self.ended
            invariant
                n == chunk@.len(),
                pos <= n,
                !self.failed,
                !old(self).failed,
                self.wf(),
                old(self).ended ==> self.ended,
                self.taken@ == old(self).taken@ + chunk@.subrange(0, pos as int),
                self.emitted@ == old(self).emitted@,
            decreases n - pos, (if self.ended { 0int } else { 1int }),
        {
            let rest = slice_subrange(chunk, pos, n);
            match gz_write(&mut self.inner, rest) {
                Err(cause) => {
                    proof {
                        assert(self.taken@ + rest@ =~= old(self).taken@ + chunk@.subrange(
                            0,
                            n as int,
                        ));
                        self.taken@ = self.taken@ + rest@;
                    }
                    self.failed = true;
                    return Err(cause);
                },
                Ok(k) => {
                    if k == 0 {
                        self.ended = true;
                    } else {
                        proof {
                            self.taken@ = self.taken@ + rest@.subrange(0, k as int);
                            assert(self.taken@ =~= old(self).taken@ + chunk@.subrange(0, pos + k));
                        }
                        pos = pos + k;
                    }
                },
            }
        }
        assert(pos == n ==> chunk@.subrange(0, pos as int) =~= chunk@);
        let out = gz_drain(&mut self.inner);
        proof {
            self.emitted@ = self.emitted@ + out@;
        }
        Ok(out)
    }

    /// Completes the stream: checks the gzip trailer and returns the rest of the
    /// decompressed bytes. Succeeds exactly when the bytes taken begin with a
    /// complete, valid gzip member, and then everything handed out is that
    /// member's content.
    pub fn finish(self) -> (r: Result<Vec<u8>, String>)
        requires
            self.wf(),
        ensures
            r is Ok <==> gunzip_of(self.taken()) is Some,
            r matches Ok(out) ==> self.emitted() + out@ == gunzip_of(self.taken())->0,
    {
        if self.failed {
            assert(self.taken@ + Seq::<u8>::empty() =~= self.taken@);
            assert(gunzip_of(self.taken@ + Seq::<u8>::empty()) is None);
            return Err("the gzip stream was refused before".to_owned());
        }
        gz_finish(self.inner)
    }
}

/// Decompresses the gzip stream `data` to the end of `sink`. Succeeds exactly
/// when `data` begins with a complete, valid gzip member, whose content is then
/// what `sink` gains; on failure `sink` keeps what it held, and may have gained
/// part of the content.
pub fn decompress_into(data: &[u8], sink: &mut Vec<u8>) -> (r: Result<(), String>)
    ensures
        r is Ok <==> gunzip_of(data@) is Some,
        r is Ok ==> final(sink)@ == old(sink)@ + gunzip_of(data@)->0,
        old(sink)@.is_prefix_of(final(sink)@),
{
    let mut d = SegmentDecoder::new();
    let first = d.feed(data);
    let ghost k = choose|k: int|
        0 <= k <= data@.len() && d.taken() == Seq::<u8>::empty() + data@.subrange(0, k);
    proof {
        assert(d.taken() =~= data@.subrange(0, k));
        assert(data@ =~= d.taken() + data@.subrange(k, data@.len() as int));
        if !d.has_ended() && !d.has_failed() {
            assert(d.taken() =~= data@);
        }
    }
    match first {
        Err(cause) => {
            proof {
                assert(gunzip_of(d.taken() + data@.subrange(k, data@.len() as int)) is None);
            }
            return Err(cause);
        },
        Ok(mut out) => {
            let ghost before = sink@;
            sink.append(&mut out);
            let ghost emitted_first = sink@.subrange(before.len() as int, sink@.len() as int);
            proof {
                assert(sink@ =~= before + emitted_first);
                assert(d.emitted() =~= emitted_first);
                assert(before.is_prefix_of(sink@));
                if d.has_ended() {
                    assert(gunzip_of(d.taken() + data@.subrange(k, data@.len() as int))
                        == gunzip_of(d.taken()));
                }
                assert(gunzip_of(data@) == gunzip_of(d.taken()));
            }
            match d.finish() {
                Err(cause) => Err(cause),
                Ok(mut rest) => {
                    let ghost mid = sink@;
                    let ghost last = rest@;
                    sink.append(&mut rest);
                    proof {
                        assert(mid =~= before + emitted_first);
                        assert(sink@ =~= mid + last);
                        assert(sink@ =~= before + (emitted_first + last));
                    }
                    Ok(())
                },
            }
        },
    }
}

} // verus!
