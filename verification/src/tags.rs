//! Building the replacement comment block for a track, and the one-call
//! rewrite that stamps it into a container.

use vstd::prelude::*;

use crate::comment::{comment_fits, CommentBlock, CommentEntry, CommentView, EntryView};
use crate::formats::{TrackRecord, TrackView};
use crate::ids::clone_bytes;
use crate::packets::{bytes_of_packets, container_wf, packets_of, RewriteError};
use crate::rewrite::{has_comment_packet, replace_header_comment, rewrite_spec, written_views};

verus! {

/// `"title"`.
pub open spec fn title_key() -> Seq<u8> {
    seq![116u8, 105u8, 116u8, 108u8, 101u8]
}

/// `"album"`.
pub open spec fn album_key() -> Seq<u8> {
    seq![97u8, 108u8, 98u8, 117u8, 109u8]
}

/// `"artist"`.
pub open spec fn artist_key() -> Seq<u8> {
    seq![97u8, 114u8, 116u8, 105u8, 115u8, 116u8]
}

/// `"Ogg"`, the vendor string this library writes.
pub open spec fn vendor_string() -> Seq<u8> {
    seq![79u8, 103u8, 103u8]
}

/// The comment block written for a track: the vendor string, a title
/// entry, an album entry, then one artist entry per artist in catalog
/// order — the full ordered artist sequence is preserved, so which artist
/// counts as "main" stays a caller-side decision.
pub open spec fn track_comment_spec(t: TrackView) -> CommentView {
    CommentView {
        vendor: vendor_string(),
        entries: seq![
            EntryView { key: title_key(), value: t.name },
            EntryView { key: album_key(), value: t.album_name },
        ] + t.artist_names.map_values(|n: Seq<u8>| EntryView { key: artist_key(), value: n }),
    }
}

/// Builds the comment block for a track's metadata.
#[verifier::loop_isolation(false)]
pub fn comment_for_track(rec: &TrackRecord) -> (c: CommentBlock)
    ensures
        c@ == track_comment_spec(rec@),
{
    let mut vendor: Vec<u8> = Vec::new();
    vendor.push(79);
    vendor.push(103);
    vendor.push(103);
    let mut title_key_b: Vec<u8> = Vec::new();
    title_key_b.push(116);
    title_key_b.push(105);
    title_key_b.push(116);
    title_key_b.push(108);
    title_key_b.push(101);
    let mut album_key_b: Vec<u8> = Vec::new();
    album_key_b.push(97);
    album_key_b.push(108);
    album_key_b.push(98);
    album_key_b.push(117);
    album_key_b.push(109);
    proof {
        assert(title_key_b@ =~= title_key());
        assert(album_key_b@ =~= album_key());
    }
    let mut entries: Vec<CommentEntry> = Vec::new();
    entries.push(CommentEntry { key: title_key_b, value: clone_bytes(&rec.name) });
    entries.push(CommentEntry { key: album_key_b, value: clone_bytes(&rec.album_name) });
    let ghost head = seq![
        EntryView { key: title_key(), value: rec@.name },
        EntryView { key: album_key(), value: rec@.album_name },
    ];
    proof {
        assert(vendor@ =~= vendor_string());
        assert(entries@.map_values(|e: CommentEntry| e@) =~= head);
    }
    let an = rec.artist_names.len();
    let mut a: usize = 0;
    while a < an
        invariant
            0 <= a <= an,
            an == rec@.artist_names.len(),
            entries@.map_values(|e: CommentEntry| e@) == head + rec@.artist_names.take(
                a as int,
            ).map_values(|n: Seq<u8>| EntryView { key: artist_key(), value: n }),
        decreases an - a,
    {
        let mut artist_key_b: Vec<u8> = Vec::new();
        artist_key_b.push(97);
        artist_key_b.push(114);
        artist_key_b.push(116);
        artist_key_b.push(105);
        artist_key_b.push(115);
        artist_key_b.push(116);
        proof {
            assert(artist_key_b@ =~= artist_key());
            assert(rec@.artist_names[a as int] == rec.artist_names@[a as int]@);
        }
        let ghost prev = entries@;
        entries.push(
            CommentEntry { key: artist_key_b, value: clone_bytes(&rec.artist_names[a]) },
        );
        proof {
            let f = |n: Seq<u8>| EntryView { key: artist_key(), value: n };
            assert(entries@.map_values(|e: CommentEntry| e@) =~= prev.map_values(
                |e: CommentEntry| e@,
            ).push(EntryView { key: artist_key(), value: rec@.artist_names[a as int] }));
            assert(rec@.artist_names.take(a + 1).map_values(f) =~= rec@.artist_names.take(
                a as int,
            ).map_values(f).push(f(rec@.artist_names[a as int])));
            assert(entries@.map_values(|e: CommentEntry| e@) =~= head + rec@.artist_names.take(
                a + 1,
            ).map_values(f));
        }
        a = a + 1;
    }
    proof {
        assert(rec@.artist_names.take(an as int) =~= rec@.artist_names);
    }
    let c = CommentBlock { vendor, entries };
    proof {
        assert(c@.entries =~= track_comment_spec(rec@).entries);
    }
    c
}

/// Stamps a track's metadata into its container: builds the comment block
/// for the record and rewrites the container's comment packet with it,
/// leaving every other packet and all framing untouched. The outcome is a
/// function of the two arguments alone, each case if and only if, as in
/// `replace_header_comment`.
pub fn track_add_metadata_tags(container: &Vec<u8>, rec: &TrackRecord) -> (r: Result<
    Vec<u8>,
    RewriteError,
>)
    ensures
        ({
            let ps = packets_of(container@);
            let c = track_comment_spec(rec@);
            match r {
                Ok(out) => container_wf(container@) && has_comment_packet(ps) && comment_fits(c)
                    && out@ == bytes_of_packets(written_views(rewrite_spec(ps, c))),
                Err(e) => {
                    &&& (e == RewriteError::PacketRead <==> !container_wf(container@))
                    &&& (e == RewriteError::InvalidCommentHeader <==> container_wf(container@)
                        && !has_comment_packet(ps))
                    &&& (e == RewriteError::OversizedComment <==> container_wf(container@)
                        && has_comment_packet(ps) && !comment_fits(c))
                    &&& e != RewriteError::PacketWrite
                },
            }
        }),
{
    let comments = comment_for_track(rec);
    replace_header_comment(container, &comments)
}

} // verus!
