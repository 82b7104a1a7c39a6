//! The container metadata rewriter: a state machine over the packet stream
//! that scans for the single comment-header packet, swaps its payload for a
//! freshly serialized comment block, and re-emits every packet in original
//! order with its original framing.

use vstd::prelude::*;

use crate::comment::{
    comment_bytes, comment_fits, comment_keys_wf, comment_parse, is_comment_header,
    lemma_comment_round_trip, make_comment_header, parse_comment_header, CommentBlock, CommentView,
};
use crate::ids::clone_bytes;
use crate::packets::{
    boundary_of, bytes_of_packets, container_wf, packets_of, reader_rest, reader_wf,
    written_view, writer_written, OggPacket, OggStreamReader, OggStreamWriter, PacketView,
    RewriteError, WrittenView,
};

verus! {

/// The ghost images of a vector of packets.
pub open spec fn packet_views(ps: Seq<OggPacket>) -> Seq<PacketView> {
    ps.map_values(|p: OggPacket| p@)
}

/// The writer-side images of a sequence of packets.
pub open spec fn written_views(ps: Seq<PacketView>) -> Seq<WrittenView> {
    ps.map_values(|p: PacketView| written_view(p))
}

/// Does some packet of the stream read as a comment header?
pub open spec fn has_comment_packet(ps: Seq<PacketView>) -> bool {
    exists|i: int| 0 <= i < ps.len() && is_comment_header(#[trigger] ps[i].payload)
}

/// Index of the first packet that reads as a comment header, or the length
/// of the stream if there is none.
pub open spec fn first_comment_idx(ps: Seq<PacketView>) -> int
    decreases ps.len(),
{
    if ps.len() == 0 {
        0
    } else if is_comment_header(ps[0].payload) {
        0
    } else {
        1 + first_comment_idx(ps.drop_first())
    }
}

/// `first_comment_idx` is in bounds, points at a comment header when one
/// exists, and no earlier packet is one.
pub proof fn lemma_first_comment_idx(ps: Seq<PacketView>)
    ensures
        0 <= first_comment_idx(ps) <= ps.len(),
        first_comment_idx(ps) < ps.len() ==> is_comment_header(ps[first_comment_idx(ps)].payload),
        forall|j: int| 0 <= j < first_comment_idx(ps) ==> !is_comment_header(
            #[trigger] ps[j].payload,
        ),
        has_comment_packet(ps) <==> first_comment_idx(ps) < ps.len(),
    decreases ps.len(),
{
    if ps.len() == 0 {
    } else if is_comment_header(ps[0].payload) {
    } else {
        lemma_first_comment_idx(ps.drop_first());
        assert forall|j: int| 0 <= j < first_comment_idx(ps) implies !is_comment_header(
            ps[j].payload,
        ) by {
            if j > 0 {
                assert(ps.drop_first()[j - 1] == ps[j]);
            }
        }
        if has_comment_packet(ps) {
            let i = choose|i: int|
                0 <= i < ps.len() && is_comment_header(#[trigger] ps[i].payload);
            assert(i > 0);
            assert(ps.drop_first()[i - 1] == ps[i]);
            assert(has_comment_packet(ps.drop_first()));
        }
        if has_comment_packet(ps.drop_first()) {
            let i = choose|i: int|
                0 <= i < ps.drop_first().len() && is_comment_header(
                    #[trigger] ps.drop_first()[i].payload,
                );
            assert(ps[i + 1] == ps.drop_first()[i]);
            assert(has_comment_packet(ps));
        }
    }
}

/// The rewritten stream: the first comment-header packet keeps its framing
/// but carries the serialized block `c`; every other packet is untouched.
pub open spec fn rewrite_spec(ps: Seq<PacketView>, c: CommentView) -> Seq<PacketView> {
    let i = first_comment_idx(ps);
    ps.update(i, PacketView { payload: comment_bytes(c), ..ps[i] })
}

/// Byte-for-byte copy of a packet.
fn clone_packet(p: &OggPacket) -> (r: OggPacket)
    ensures
        r@ == p@,
{
    OggPacket {
        payload: clone_bytes(&p.payload),
        serial: p.serial,
        last_in_page: p.last_in_page,
        last_in_stream: p.last_in_stream,
        absgp: p.absgp,
    }
}

/// Parses a container into its ordered packet sequence, framing facts
/// included. Succeeds exactly on well-formed containers and fails with
/// the read error exactly on malformed framing.
pub fn read_all_packets(bytes: &Vec<u8>) -> (r: Result<Vec<OggPacket>, RewriteError>)
    ensures
        match r {
            Ok(v) => container_wf(bytes@) && packet_views(v@) == packets_of(bytes@),
            Err(e) => e == RewriteError::PacketRead && !container_wf(bytes@),
        },
{
    let mut reader = OggStreamReader::new(bytes);
    let mut out: Vec<OggPacket> = Vec::new();
    proof {
        assert(packet_views(out@) + reader_rest(reader) =~= packets_of(bytes@));
    }
    loop
        invariant_except_break
            reader_wf(reader) == container_wf(bytes@),
        invariant
            packet_views(out@) + reader_rest(reader) == packets_of(bytes@),
        ensures
            container_wf(bytes@),
            packet_views(out@) == packets_of(bytes@),
        decreases reader_rest(reader).len(),
    {
        match reader.next_packet() {
            Err(e) => {
                return Err(e);
            },
            Ok(None) => {
                proof {
                    assert(packet_views(out@) =~= packet_views(out@) + reader_rest(reader));
                }
                break ;
            },
            Ok(Some(p)) => {
                let ghost prev = out@;
                let ghost rest = reader_rest(reader);
                out.push(p);
                proof {
                    assert(packet_views(out@) =~= packet_views(prev).push(p@));
                    assert(packet_views(prev).push(p@) + rest =~= packet_views(prev) + (seq![p@]
                        + rest));
                }
            },
        }
    }
    Ok(out)
}

/// The scanning pass: walks the packets in order, replaces the payload of
/// the first one that reads as a comment header with the serialized block,
/// and passes every other packet through untouched. Fails with
/// `InvalidCommentHeader` exactly when no packet qualifies, and with
/// `OversizedComment` exactly when one does but the block's lengths do not
/// fit the layout.
#[verifier::loop_isolation(false)]
pub fn rewrite_packets(packets: &Vec<OggPacket>, comments: &CommentBlock) -> (r: Result<
    Vec<OggPacket>,
    RewriteError,
>)
    ensures
        match r {
            Ok(out) => has_comment_packet(packet_views(packets@)) && comment_fits(comments@)
                && packet_views(out@) == rewrite_spec(packet_views(packets@), comments@),
            Err(e) => (e == RewriteError::InvalidCommentHeader && !has_comment_packet(
                packet_views(packets@),
            )) || (e == RewriteError::OversizedComment && has_comment_packet(
                packet_views(packets@),
            ) && !comment_fits(comments@)),
        },
{
    let ghost views = packet_views(packets@);
    proof {
        lemma_first_comment_idx(views);
    }
    let mut out: Vec<OggPacket> = Vec::new();
    let mut replaced = false;
    let n = packets.len();
    let mut i: usize = 0;
    while i < n
        invariant
            0 <= i <= n,
            n == packets@.len(),
            views == packet_views(packets@),
            !replaced ==> out@.len() == i && packet_views(out@) == views.take(i as int) && forall|
                j: int,
            | 0 <= j < i ==> !is_comment_header(#[trigger] views[j].payload),
            replaced ==> has_comment_packet(views) && comment_fits(comments@) && first_comment_idx(
                views,
            ) < i && packet_views(out@) == rewrite_spec(views, comments@).take(i as int),
        decreases n - i,
    {
        let p = &packets[i];
        proof {
            assert(views[i as int] == packets@[i as int]@);
        }
        if !replaced {
            match parse_comment_header(&p.payload) {
                Some(_parsed) => {
                    proof {
                        assert(is_comment_header(views[i as int].payload));
                        assert(has_comment_packet(views));
                        if first_comment_idx(views) < i {
                            assert(!is_comment_header(views[first_comment_idx(views)].payload));
                            assert(false);
                        }
                        if first_comment_idx(views) > i {
                            assert(!is_comment_header(views[i as int].payload));
                            assert(false);
                        }
                        assert(first_comment_idx(views) == i);
                    }
                    match make_comment_header(comments) {
                        None => {
                            return Err(RewriteError::OversizedComment);
                        },
                        Some(payload) => {
                            let ghost prev = out@;
                            out.push(
                                OggPacket {
                                    payload,
                                    serial: p.serial,
                                    last_in_page: p.last_in_page,
                                    last_in_stream: p.last_in_stream,
                                    absgp: p.absgp,
                                },
                            );
                            replaced = true;
                            proof {
                                assert(packet_views(out@) =~= packet_views(prev).push(
                                    PacketView {
                                        payload: comment_bytes(comments@),
                                        ..views[i as int]
                                    },
                                ));
                                assert(packet_views(out@) =~= rewrite_spec(views, comments@).take(
                                    i + 1,
                                ));
                            }
                        },
                    }
                },
                None => {
                    let ghost prev = out@;
                    out.push(clone_packet(p));
                    proof {
                        assert(packet_views(out@) =~= packet_views(prev).push(views[i as int]));
                        assert(packet_views(out@) =~= views.take(i + 1));
                    }
                },
            }
        } else {
            let ghost prev = out@;
            out.push(clone_packet(p));
            proof {
                assert(packet_views(out@) =~= packet_views(prev).push(views[i as int]));
                assert(rewrite_spec(views, comments@)[i as int] == views[i as int]);
                assert(packet_views(out@) =~= rewrite_spec(views, comments@).take(i + 1));
            }
        }
        i = i + 1;
    }
    if !replaced {
        proof {
            if has_comment_packet(views) {
                let k = choose|k: int|
                    0 <= k < views.len() && is_comment_header(#[trigger] views[k].payload);
                assert(!is_comment_header(views[k].payload));
                assert(false);
            }
        }
        return Err(RewriteError::InvalidCommentHeader);
    }
    proof {
        assert(rewrite_spec(views, comments@).take(n as int) =~= rewrite_spec(views, comments@));
    }
    Ok(out)
}

/// Serializes the packets back into one container byte stream, each packet
/// written with its original serial, granule position and boundary marker.
/// The in-memory writer cannot fail, so neither can this.
pub fn write_all_packets(packets: Vec<OggPacket>) -> (r: Vec<u8>)
    ensures
        r@ == bytes_of_packets(written_views(packet_views(packets@))),
{
    let ghost views = packet_views(packets@);
    let mut writer = OggStreamWriter::new();
    proof {
        assert(writer_written(writer) =~= written_views(views.take(0)));
    }
    let n = packets.len();
    let mut i: usize = 0;
    while i < n
        invariant
            0 <= i <= n,
            n == packets@.len(),
            views == packet_views(packets@),
            writer_written(writer) == written_views(views.take(i as int)),
        decreases n - i,
    {
        let p = &packets[i];
        proof {
            assert(views[i as int] == packets@[i as int]@);
        }
        let boundary = boundary_of(p);
        let payload = clone_bytes(&p.payload);
        writer.write_packet(payload, p.serial, boundary, p.absgp);
        proof {
            assert(writer_written(writer) =~= written_views(views.take(i as int)).push(
                written_view(views[i as int]),
            ));
            assert(writer_written(writer) =~= written_views(views.take(i + 1)));
        }
        i = i + 1;
    }
    proof {
        assert(views.take(n as int) =~= views);
    }
    writer.into_bytes()
}

/// Rewrites a container's comment block in place: parses the packet
/// stream, substitutes the serialized `comments` for the payload of the
/// first comment-header packet, and re-emits every packet in original
/// order with its original framing. The encoded audio payload and every
/// framing fact pass through bit-for-bit.
///
/// The outcome is a function of the two arguments alone, each case if and
/// only if: the read error on a malformed container, the missing-header
/// error on a well-formed container with no comment-header packet, the
/// oversize error when one exists but the block's lengths do not fit the
/// layout, and otherwise the rewritten stream.
pub fn replace_header_comment(container: &Vec<u8>, comments: &CommentBlock) -> (r: Result<
    Vec<u8>,
    RewriteError,
>)
    ensures
        ({
            let ps = packets_of(container@);
            match r {
                Ok(out) => container_wf(container@) && has_comment_packet(ps) && comment_fits(
                    comments@,
                ) && out@ == bytes_of_packets(written_views(rewrite_spec(ps, comments@))),
                Err(e) => {
                    &&& (e == RewriteError::PacketRead <==> !container_wf(container@))
                    &&& (e == RewriteError::InvalidCommentHeader <==> container_wf(container@)
                        && !has_comment_packet(ps))
                    &&& (e == RewriteError::OversizedComment <==> container_wf(container@)
                        && has_comment_packet(ps) && !comment_fits(comments@))
                    &&& e != RewriteError::PacketWrite
                },
            }
        }),
{
    let packets = match read_all_packets(container) {
        Ok(packets) => packets,
        Err(e) => {
            return Err(e);
        },
    };
    let rewritten = match rewrite_packets(&packets, comments) {
        Ok(rewritten) => rewritten,
        Err(e) => {
            return Err(e);
        },
    };
    Ok(write_all_packets(rewritten))
}

/// The rewrite preserves the stream's shape: as many packets out as in,
/// every framing fact unchanged, every payload other than the replaced one
/// byte-identical, and the replaced packet — the first comment header —
/// carrying bytes that parse back to exactly the requested block.
pub proof fn lemma_rewrite_preserves_framing(ps: Seq<PacketView>, c: CommentView)
    requires
        has_comment_packet(ps),
        comment_fits(c),
        comment_keys_wf(c),
    ensures
        ({
            let out = rewrite_spec(ps, c);
            let i = first_comment_idx(ps);
            &&& out.len() == ps.len()
            &&& 0 <= i < ps.len()
            &&& is_comment_header(ps[i].payload)
            &&& forall|j: int| 0 <= j < i ==> !is_comment_header(#[trigger] ps[j].payload)
            &&& forall|j: int| 0 <= j < ps.len() && j != i ==> out[j] == ps[j]
            &&& out[i].serial == ps[i].serial
            &&& out[i].last_in_page == ps[i].last_in_page
            &&& out[i].last_in_stream == ps[i].last_in_stream
            &&& out[i].absgp == ps[i].absgp
            &&& comment_parse(out[i].payload) == Some(c)
        }),
{
    lemma_first_comment_idx(ps);
    lemma_comment_round_trip(c);
}

} // verus!
