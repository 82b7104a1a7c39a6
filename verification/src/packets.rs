//! The container's framing unit, and the trusted boundary to the `ogg`
//! crate, which does the page-level framing work: reading a byte buffer as
//! a sequence of packets and writing packets back out as pages.
//!
//! Framing facts read from the container (stream serial, granule position,
//! page and stream boundaries) are carried through unchanged; the library
//! never recomputes them.

use std::io::Cursor;
use vstd::prelude::*;

verus! {

/// One logical packet of the container: its payload and the framing facts
/// of the page it was read from. Fully owned; no aliasing across packets.
pub struct OggPacket {
    pub payload: Vec<u8>,
    pub serial: u32,
    pub last_in_page: bool,
    pub last_in_stream: bool,
    pub absgp: u64,
}

/// Ghost image of an `OggPacket`.
pub struct PacketView {
    pub payload: Seq<u8>,
    pub serial: u32,
    pub last_in_page: bool,
    pub last_in_stream: bool,
    pub absgp: u64,
}

impl View for OggPacket {
    type V = PacketView;

    open spec fn view(&self) -> PacketView {
        PacketView {
            payload: self.payload@,
            serial: self.serial,
            last_in_page: self.last_in_page,
            last_in_stream: self.last_in_stream,
            absgp: self.absgp,
        }
    }
}

/// The boundary marker a packet is re-emitted with: end of the logical
/// stream, end of a page, or none — in that precedence.
#[derive(Clone, Copy, PartialEq, Eq, Structural, Debug)]
pub enum PacketBoundary {
    EndOfStream,
    EndOfPage,
    NormalPacket,
}

/// The marker chosen from a packet's original flags.
pub open spec fn boundary_spec(p: PacketView) -> PacketBoundary {
    if p.last_in_stream {
        PacketBoundary::EndOfStream
    } else if p.last_in_page {
        PacketBoundary::EndOfPage
    } else {
        PacketBoundary::NormalPacket
    }
}

/// Chooses the write-boundary marker from the packet's original flags:
/// end-of-logical-stream wins over end-of-page, which wins over none.
pub fn boundary_of(p: &OggPacket) -> (b: PacketBoundary)
    ensures
        b == boundary_spec(p@),
{
    if p.last_in_stream {
        PacketBoundary::EndOfStream
    } else if p.last_in_page {
        PacketBoundary::EndOfPage
    } else {
        PacketBoundary::NormalPacket
    }
}

/// A packet as the writer sees it: the payload and the framing it is
/// written with.
pub struct WrittenView {
    pub payload: Seq<u8>,
    pub serial: u32,
    pub boundary: PacketBoundary,
    pub absgp: u64,
}

/// How a parsed packet is handed back to the writer.
pub open spec fn written_view(p: PacketView) -> WrittenView {
    WrittenView {
        payload: p.payload,
        serial: p.serial,
        boundary: boundary_spec(p),
        absgp: p.absgp,
    }
}

/// Why a container rewrite failed.
#[derive(Clone, Copy, PartialEq, Eq, Structural, Debug)]
pub enum RewriteError {
    /// The input's framing is malformed; the container cannot be read.
    PacketRead,
    /// The output stream could not be serialized. The failure mode is
    /// reserved for a failing output sink; the in-memory writer this
    /// library uses cannot fail, so the rewriter never returns it.
    PacketWrite,
    /// No packet of the container is recognizable as a comment header, so
    /// there is nothing to replace.
    InvalidCommentHeader,
    /// A length of the replacement comment block does not fit the layout's
    /// 32-bit fields.
    OversizedComment,
}

/// A packet reader over an in-memory container. The `ogg` crate's reader
/// is held behind an opaque field because its generic bounds (`io::Read`,
/// `io::Seek`) are traits Verus does not know.
#[verifier::external_body]
pub struct OggStreamReader {
    inner: ogg::PacketReader<Cursor<Vec<u8>>>,
}

/// A packet writer to an in-memory buffer, held the same way.
#[verifier::external_body]
pub struct OggStreamWriter {
    inner: ogg::PacketWriter<'static, Cursor<Vec<u8>>>,
}

/// The packets that a fresh reader over `bytes` will yield, in order.
pub uninterp spec fn packets_of(bytes: Seq<u8>) -> Seq<PacketView>;

/// Whether `bytes` is a well-formed container: a fresh reader over it
/// yields all of its packets and then a clean end of stream, never a read
/// error. Reading an in-memory buffer is deterministic, so this is a
/// function of the bytes alone.
pub uninterp spec fn container_wf(bytes: Seq<u8>) -> bool;

/// The packets that `r` will still yield, in order.
pub uninterp spec fn reader_rest(r: OggStreamReader) -> Seq<PacketView>;

/// Whether the rest of `r`'s run ends cleanly: every remaining packet is
/// yielded and then end of stream, never a read error.
pub uninterp spec fn reader_wf(r: OggStreamReader) -> bool;

/// The packets that have been handed to the writer `w`, in order.
pub uninterp spec fn writer_written(w: OggStreamWriter) -> Seq<WrittenView>;

/// The byte stream the writer emits for a sequence of packets.
pub uninterp spec fn bytes_of_packets(ps: Seq<WrittenView>) -> Seq<u8>;

impl OggStreamReader {
    /// Relies on ogg::PacketReader::new over an in-memory copy of the
    /// buffer: the fresh reader will yield exactly the buffer's packets,
    /// and its run ends cleanly exactly when the buffer is well-formed.
    #[verifier::external_body]
    pub fn new(bytes: &Vec<u8>) -> (r: OggStreamReader)
        ensures
            reader_rest(r) == packets_of(bytes@),
            reader_wf(r) == container_wf(bytes@),
    {
        OggStreamReader { inner: ogg::PacketReader::new(Cursor::new(bytes.clone())) }
    }

    /// Relies on ogg::PacketReader::read_packet: yields the next packet
    /// with the framing facts of its page, `None` once the stream is
    /// exhausted, and an error on malformed framing. The read is a
    /// deterministic function of the buffered bytes, so a successful step
    /// keeps the run's clean ending unchanged, a clean end of stream
    /// witnesses a clean run, and an error witnesses a failed one.
    #[verifier::external_body]
    pub fn next_packet(&mut self) -> (res: Result<Option<OggPacket>, RewriteError>)
        ensures
            match res {
                Ok(Some(p)) => reader_rest(*old(self)).len() > 0 && p@ == reader_rest(
                    *old(self),
                )[0] && reader_rest(*final(self)) == reader_rest(*old(self)).drop_first()
                    && reader_wf(*final(self)) == reader_wf(*old(self)),
                Ok(None) => reader_rest(*old(self)).len() == 0 && reader_rest(*final(self))
                    == reader_rest(*old(self)) && reader_wf(*old(self)),
                Err(e) => e == RewriteError::PacketRead && !reader_wf(*old(self)),
            },
    {
        match self.inner.read_packet() {
            Ok(Some(p)) => {
                let serial = p.stream_serial();
                let last_in_page = p.last_in_page();
                let last_in_stream = p.last_in_stream();
                let absgp = p.absgp_page();
                Ok(
                    Some(
                        OggPacket { payload: p.data, serial, last_in_page, last_in_stream, absgp },
                    ),
                )
            },
            Ok(None) => Ok(None),
            Err(_) => Err(RewriteError::PacketRead),
        }
    }
}

impl OggStreamWriter {
    /// Relies on ogg::PacketWriter::new over an in-memory buffer: a fresh
    /// writer has written nothing.
    #[verifier::external_body]
    pub fn new() -> (w: OggStreamWriter)
        ensures
            writer_written(w) == Seq::<WrittenView>::empty(),
    {
        OggStreamWriter { inner: ogg::PacketWriter::new(Cursor::new(Vec::new())) }
    }

    /// Relies on ogg::PacketWriter::write_packet: appends one packet with
    /// the given stream serial, boundary marker and granule position.
    /// Every write error it can report comes from the underlying sink,
    /// and writing to an in-memory buffer cannot fail, so none is
    /// surfaced.
    #[verifier::external_body]
    pub fn write_packet(
        &mut self,
        payload: Vec<u8>,
        serial: u32,
        boundary: PacketBoundary,
        absgp: u64,
    )
        ensures
            writer_written(*final(self)) == writer_written(*old(self)).push(
                WrittenView { payload: payload@, serial, boundary, absgp },
            ),
    {
        let inf = match boundary {
            PacketBoundary::EndOfStream => ogg::PacketWriteEndInfo::EndStream,
            PacketBoundary::EndOfPage => ogg::PacketWriteEndInfo::EndPage,
            PacketBoundary::NormalPacket => ogg::PacketWriteEndInfo::NormalPacket,
        };
        self.inner.write_packet(payload, serial, inf, absgp).unwrap();
    }

    /// Relies on ogg::PacketWriter::into_inner and Cursor::into_inner: the
    /// emitted byte stream, a function of the written packet sequence
    /// alone.
    #[verifier::external_body]
    pub fn into_bytes(self) -> (r: Vec<u8>)
        ensures
            r@ == bytes_of_packets(writer_written(self)),
    {
        self.inner.into_inner().into_inner()
    }
}

} // verus!
