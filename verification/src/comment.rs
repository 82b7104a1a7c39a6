//! The text-tag comment block of the audio container: its data model, the
//! exact byte layout it is serialized to, and the parser that reads it back.
//!
//! Layout of a serialized comment block:
//! - a 7-byte signature: the packet-type byte `3` followed by `vorbis`;
//! - the vendor string, as a little-endian 32-bit length and the raw bytes;
//! - a little-endian 32-bit count of tag entries;
//! - each entry as a little-endian 32-bit length and the bytes `key=value`;
//! - a single trailing framing byte `1`.
//!
//! The parser accepts what this crate's serializer emits, mirroring the
//! shape a standards-compliant reader expects: entry bytes without a `=`
//! are skipped rather than rejected, and bytes after the framing byte are
//! ignored.

use vstd::bytes::{
    lemma_auto_spec_u32_to_from_le_bytes, spec_u32_from_le_bytes, spec_u32_to_le_bytes,
    u32_from_le_bytes, u32_to_le_bytes,
};
use vstd::prelude::*;
use vstd::slice::{slice_subrange, slice_to_vec};

use crate::ids::clone_bytes;

verus! {

/// One tag: a key and a value. The same key may repeat across entries; the
/// block is an ordered multi-map, not a mapping with unique keys.
pub struct CommentEntry {
    pub key: Vec<u8>,
    pub value: Vec<u8>,
}

/// Ghost image of a `CommentEntry`.
pub struct EntryView {
    pub key: Seq<u8>,
    pub value: Seq<u8>,
}

impl View for CommentEntry {
    type V = EntryView;

    open spec fn view(&self) -> EntryView {
        EntryView { key: self.key@, value: self.value@ }
    }
}

/// A comment block: a vendor string and an ordered sequence of tag entries,
/// whose order is preserved on serialization.
pub struct CommentBlock {
    pub vendor: Vec<u8>,
    pub entries: Vec<CommentEntry>,
}

/// Ghost image of a `CommentBlock`.
pub struct CommentView {
    pub vendor: Seq<u8>,
    pub entries: Seq<EntryView>,
}

impl View for CommentBlock {
    type V = CommentView;

    open spec fn view(&self) -> CommentView {
        CommentView {
            vendor: self.vendor@,
            entries: self.entries@.map_values(|e: CommentEntry| e@),
        }
    }
}

/// The fixed signature prefix: packet type `3`, then `vorbis`.
pub open spec fn comment_signature() -> Seq<u8> {
    seq![3u8, 118u8, 111u8, 114u8, 98u8, 105u8, 115u8]
}

/// The wire form of one entry: `key=value`.
pub open spec fn entry_line(e: EntryView) -> Seq<u8> {
    e.key + seq![61u8] + e.value
}

/// A length-prefixed byte string: little-endian 32-bit length, then bytes.
pub open spec fn len_prefixed(s: Seq<u8>) -> Seq<u8>
    recommends
        s.len() <= u32::MAX,
{
    spec_u32_to_le_bytes(s.len() as u32) + s
}

/// The concatenated wire form of the entries, in order.
pub open spec fn entries_bytes(es: Seq<EntryView>) -> Seq<u8>
    decreases es.len(),
{
    if es.len() == 0 {
        Seq::<u8>::empty()
    } else {
        len_prefixed(entry_line(es[0])) + entries_bytes(es.drop_first())
    }
}

/// The exact serialized form of a comment block.
pub open spec fn comment_bytes(c: CommentView) -> Seq<u8> {
    comment_signature() + len_prefixed(c.vendor) + spec_u32_to_le_bytes(c.entries.len() as u32)
        + entries_bytes(c.entries) + seq![1u8]
}

/// Every length that the layout stores in 32 bits actually fits in 32 bits.
/// Serialization fails exactly when this does not hold.
pub open spec fn comment_fits(c: CommentView) -> bool {
    &&& c.vendor.len() <= u32::MAX
    &&& c.entries.len() <= u32::MAX
    &&& forall|i: int|
        0 <= i < c.entries.len() ==> entry_line(#[trigger] c.entries[i]).len() <= u32::MAX
}

/// No `=` inside a key, so that `key=value` splits back at the right place.
pub open spec fn entry_key_wf(e: EntryView) -> bool {
    forall|j: int| 0 <= j < e.key.len() ==> e.key[j] != 61u8
}

/// All keys of a block are free of `=`.
pub open spec fn comment_keys_wf(c: CommentView) -> bool {
    forall|i: int| 0 <= i < c.entries.len() ==> entry_key_wf(#[trigger] c.entries[i])
}

/// Index of the first `=` in a wire entry, or the length if there is none.
pub open spec fn first_eq(line: Seq<u8>) -> int
    decreases line.len(),
{
    if line.len() == 0 {
        0
    } else if line[0] == 61u8 {
        0
    } else {
        1 + first_eq(line.drop_first())
    }
}

/// `first_eq` is what its name says: in bounds, an `=` where it points
/// when one exists, and nothing but other bytes before it.
pub proof fn lemma_first_eq(line: Seq<u8>)
    ensures
        0 <= first_eq(line) <= line.len(),
        first_eq(line) < line.len() ==> line[first_eq(line)] == 61u8,
        forall|j: int| 0 <= j < first_eq(line) ==> line[j] != 61u8,
    decreases line.len(),
{
    if line.len() == 0 {
    } else if line[0] == 61u8 {
    } else {
        lemma_first_eq(line.drop_first());
        assert forall|j: int| 0 <= j < first_eq(line) implies line[j] != 61u8 by {
            if j > 0 {
                assert(line.drop_first()[j - 1] == line[j]);
            }
        }
    }
}

/// How a wire entry is read back: split at the first `=`; an entry without
/// one carries no tag and is skipped.
pub open spec fn entry_split(line: Seq<u8>) -> Option<EntryView> {
    let i = first_eq(line);
    if i < line.len() {
        Some(EntryView { key: line.subrange(0, i), value: line.subrange(i + 1, line.len() as int) })
    } else {
        None
    }
}

/// Reads `n` length-prefixed entries of `s` starting at `pos`. Returns the
/// tags found (entries without `=` are skipped) and the position after the
/// last entry, or `None` if the bytes run out.
pub open spec fn entries_parse(s: Seq<u8>, pos: int, n: int) -> Option<(Seq<EntryView>, int)>
    decreases n,
{
    if n <= 0 {
        Some((Seq::<EntryView>::empty(), pos))
    } else if pos < 0 || pos + 4 > s.len() {
        None
    } else {
        let l = spec_u32_from_le_bytes(s.subrange(pos, pos + 4)) as int;
        if pos + 4 + l > s.len() {
            None
        } else {
            let line = s.subrange(pos + 4, pos + 4 + l);
            match entries_parse(s, pos + 4 + l, n - 1) {
                Some(tail) => match entry_split(line) {
                    Some(e) => Some((seq![e] + tail.0, tail.1)),
                    None => Some((tail.0, tail.1)),
                },
                None => None,
            }
        }
    }
}

/// Whether, and as what, a packet payload reads as a comment block: the
/// signature, the vendor string, the entries, and a framing byte `1`;
/// whatever follows the framing byte is ignored.
pub open spec fn comment_parse(s: Seq<u8>) -> Option<CommentView> {
    if s.len() < 7 || s.subrange(0, 7) != comment_signature() {
        None
    } else if 7 + 4 > s.len() {
        None
    } else {
        let vl = spec_u32_from_le_bytes(s.subrange(7, 11)) as int;
        if 11 + vl > s.len() {
            None
        } else {
            let vendor = s.subrange(11, 11 + vl);
            if 11 + vl + 4 > s.len() {
                None
            } else {
                let n = spec_u32_from_le_bytes(s.subrange(11 + vl, 15 + vl)) as int;
                match entries_parse(s, 15 + vl, n) {
                    Some(t) => {
                        if t.1 < s.len() && s[t.1] == 1u8 {
                            Some(CommentView { vendor, entries: t.0 })
                        } else {
                            None
                        }
                    },
                    None => None,
                }
            }
        }
    }
}

/// A payload is a comment header when it parses.
pub open spec fn is_comment_header(s: Seq<u8>) -> bool {
    comment_parse(s) is Some
}

proof fn lemma_entries_bytes_push(es: Seq<EntryView>, e: EntryView)
    ensures
        entries_bytes(es.push(e)) == entries_bytes(es) + len_prefixed(entry_line(e)),
    decreases es.len(),
{
    reveal_with_fuel(entries_bytes, 3);
    if es.len() == 0 {
        assert(es.push(e)[0] == e);
        assert(es.push(e).drop_first() =~= Seq::<EntryView>::empty());
        assert(entries_bytes(es.push(e)) =~= entries_bytes(es) + len_prefixed(entry_line(e)));
    } else {
        assert(es.push(e).drop_first() =~= es.drop_first().push(e));
        lemma_entries_bytes_push(es.drop_first(), e);
        assert(es.push(e)[0] == es[0]);
        assert(entries_bytes(es.push(e)) == len_prefixed(entry_line(es[0])) + (entries_bytes(
            es.drop_first(),
        ) + len_prefixed(entry_line(e))));
        assert(entries_bytes(es.push(e)) =~= entries_bytes(es) + len_prefixed(entry_line(e)));
    }
}

/// Serializes a comment block to its exact byte layout. Fails, returning
/// `None`, exactly when a stored length does not fit in 32 bits.
#[verifier::loop_isolation(false)]
pub fn make_comment_header(c: &CommentBlock) -> (r: Option<Vec<u8>>)
    ensures
        match r {
            Some(v) => comment_fits(c@) && v@ == comment_bytes(c@),
            None => !comment_fits(c@),
        },
{
    let u32_max: u64 = 0xffff_ffff;
    let mut out: Vec<u8> = Vec::new();
    out.push(3);
    out.push(118);
    out.push(111);
    out.push(114);
    out.push(98);
    out.push(105);
    out.push(115);
    proof {
        assert(out@ =~= comment_signature());
    }
    if c.vendor.len() as u64 > u32_max {
        return None;
    }
    let mut vendor_len = u32_to_le_bytes(c.vendor.len() as u32);
    out.append(&mut vendor_len);
    let mut vendor = clone_bytes(&c.vendor);
    out.append(&mut vendor);
    if c.entries.len() as u64 > u32_max {
        return None;
    }
    let mut count = u32_to_le_bytes(c.entries.len() as u32);
    out.append(&mut count);
    let ghost head = comment_signature() + len_prefixed(c@.vendor) + spec_u32_to_le_bytes(
        c@.entries.len() as u32,
    );
    proof {
        assert(out@ =~= head);
    }
    let n = c.entries.len();
    let mut i: usize = 0;
    while i < n
        invariant
            0 <= i <= n,
            n == c@.entries.len(),
            n <= u32::MAX,
            c@.vendor.len() <= u32::MAX,
            head == comment_signature() + len_prefixed(c@.vendor) + spec_u32_to_le_bytes(
                c@.entries.len() as u32,
            ),
            out@ == head + entries_bytes(c@.entries.take(i as int)),
            forall|k: int| 0 <= k < i ==> entry_line(#[trigger] c@.entries[k]).len() <= u32::MAX,
        decreases n - i,
    {
        let e = &c.entries[i];
        proof {
            assert(c@.entries[i as int] == c.entries@[i as int]@);
        }
        let klen = e.key.len();
        let vlen = e.value.len();
        if klen as u64 > u32_max - 1 || vlen as u64 > u32_max - 1 - klen as u64 {
            proof {
                assert(entry_line(c@.entries[i as int]).len() > u32::MAX);
            }
            return None;
        }
        assert(klen + 1 + vlen <= 0xffff_ffff);
        let line_len = klen + 1 + vlen;
        let mut llen = u32_to_le_bytes(line_len as u32);
        out.append(&mut llen);
        let mut key = clone_bytes(&e.key);
        out.append(&mut key);
        out.push(61);
        let mut value = clone_bytes(&e.value);
        out.append(&mut value);
        proof {
            let ev = c@.entries[i as int];
            assert(entry_line(ev) =~= e.key@ + seq![61u8] + e.value@);
            lemma_entries_bytes_push(c@.entries.take(i as int), ev);
            assert(c@.entries.take(i + 1) =~= c@.entries.take(i as int).push(ev));
            assert(out@ =~= head + entries_bytes(c@.entries.take(i + 1)));
        }
        i = i + 1;
    }
    out.push(1);
    proof {
        assert(c@.entries.take(n as int) =~= c@.entries);
        assert(out@ =~= comment_bytes(c@));
    }
    Some(out)
}

/// Reads the little-endian 32-bit integer stored at `pos`.
fn read_u32_at(s: &Vec<u8>, pos: usize) -> (r: u32)
    requires
        pos + 4 <= s@.len(),
    ensures
        r == spec_u32_from_le_bytes(s@.subrange(pos as int, pos as int + 4)),
{
    let _n = s.len();
    let sl = slice_subrange(s.as_slice(), pos, pos + 4);
    u32_from_le_bytes(sl)
}

/// Copies `len` bytes of `s` starting at `start`.
fn copy_range(s: &Vec<u8>, start: usize, len: usize) -> (r: Vec<u8>)
    requires
        start + len <= s@.len(),
    ensures
        r@ == s@.subrange(start as int, start as int + len as int),
{
    let _n = s.len();
    slice_to_vec(slice_subrange(s.as_slice(), start, start + len))
}

/// Looks for the first `=` in the `len` bytes of `s` starting at `start`.
#[verifier::loop_isolation(false)]
fn find_eq_in(s: &Vec<u8>, start: usize, len: usize) -> (r: Option<usize>)
    requires
        start + len <= s@.len(),
    ensures
        ({
            let line = s@.subrange(start as int, start as int + len as int);
            match r {
                Some(off) => off < len && first_eq(line) == off,
                None => first_eq(line) == line.len(),
            }
        }),
{
    let _n = s.len();
    let ghost line = s@.subrange(start as int, start as int + len as int);
    proof {
        lemma_first_eq(line);
    }
    let mut j: usize = 0;
    while j < len
        invariant
            0 <= j <= len,
            forall|k: int| 0 <= k < j ==> line[k] != 61u8,
        decreases len - j,
    {
        if s[start + j] == 61 {
            proof {
                assert(line[j as int] == 61u8);
                if first_eq(line) < j {
                    assert(line[first_eq(line)] != 61u8);
                    assert(false);
                }
                if first_eq(line) > j {
                    assert(line[j as int] != 61u8);
                    assert(false);
                }
            }
            return Some(j);
        }
        proof {
            assert(line[j as int] == s@[start + j]);
        }
        j = j + 1;
    }
    proof {
        if first_eq(line) < line.len() {
            assert(line[first_eq(line)] != 61u8);
            assert(false);
        }
    }
    None
}

/// Continuation form of `entries_parse`: what the whole entry region parses
/// to when `acc` has already been read and `m` entries remain at `pos`.
spec fn entries_parse_cont(s: Seq<u8>, pos: int, m: int, acc: Seq<EntryView>) -> Option<
    (Seq<EntryView>, int),
> {
    match entries_parse(s, pos, m) {
        Some(t) => Some((acc + t.0, t.1)),
        None => None,
    }
}

/// Attempts to interpret a packet payload as a comment block. Returns the
/// block exactly when `comment_parse` accepts the bytes, and `None` on the
/// same payloads on which `comment_parse` rejects them.
#[verifier::loop_isolation(false)]
pub fn parse_comment_header(s: &Vec<u8>) -> (r: Option<CommentBlock>)
    ensures
        match r {
            Some(c) => comment_parse(s@) == Some(c@),
            None => comment_parse(s@) is None,
        },
{
    if s.len() < 7 {
        return None;
    }
    if !(s[0] == 3 && s[1] == 118 && s[2] == 111 && s[3] == 114 && s[4] == 98 && s[5] == 105 && s[6]
        == 115) {
        proof {
            if s@.subrange(0, 7) == comment_signature() {
                assert(s@[0] == s@.subrange(0, 7)[0]);
                assert(s@[1] == s@.subrange(0, 7)[1]);
                assert(s@[2] == s@.subrange(0, 7)[2]);
                assert(s@[3] == s@.subrange(0, 7)[3]);
                assert(s@[4] == s@.subrange(0, 7)[4]);
                assert(s@[5] == s@.subrange(0, 7)[5]);
                assert(s@[6] == s@.subrange(0, 7)[6]);
                assert(false);
            }
        }
        return None;
    }
    proof {
        assert(s@.subrange(0, 7) =~= comment_signature());
    }
    if s.len() - 7 < 4 {
        return None;
    }
    let vendor_len32 = read_u32_at(s, 7);
    let vendor_len = vendor_len32 as usize;
    if vendor_len > s.len() - 11 {
        return None;
    }
    let vendor = copy_range(s, 11, vendor_len);
    if s.len() - (11 + vendor_len) < 4 {
        return None;
    }
    let count32 = read_u32_at(s, 11 + vendor_len);
    let count = count32 as usize;
    let ghost start = 15 + vendor_len as int;
    let mut pos: usize = 15 + vendor_len;
    let mut entries: Vec<CommentEntry> = Vec::new();
    let mut i: usize = 0;
    proof {
        match entries_parse(s@, start, count as int) {
            Some(t) => {
                assert(Seq::<EntryView>::empty() + t.0 =~= t.0);
            },
            None => {},
        }
    }
    while i < count
        invariant
            0 <= i <= count,
            pos <= s@.len() <= usize::MAX,
            start == 15 + vendor_len as int,
            entries_parse(s@, start, count as int) == entries_parse_cont(
                s@,
                pos as int,
                count - i,
                entries@.map_values(|e: CommentEntry| e@),
            ),
        decreases count - i,
    {
        if s.len() - pos < 4 {
            return None;
        }
        let l32 = read_u32_at(s, pos);
        let l = l32 as usize;
        let body = pos + 4;
        if l > s.len() - body {
            return None;
        }
        let ghost line = s@.subrange(body as int, body as int + l as int);
        let eq_off = find_eq_in(s, body, l);
        proof {
            lemma_first_eq(line);
        }
        match eq_off {
            Some(off) => {
                let key = copy_range(s, body, off);
                let value = copy_range(s, body + off + 1, l - off - 1);
                let entry = CommentEntry { key, value };
                proof {
                    assert(entry@.key =~= line.subrange(0, off as int));
                    assert(entry@.value =~= line.subrange(off + 1, line.len() as int));
                    assert(entry_split(line) == Some(entry@));
                }
                entries.push(entry);
                proof {
                    let prev = entries@.drop_last().map_values(|e: CommentEntry| e@);
                    assert(entries@.drop_last() =~= entries@.subrange(
                        0,
                        entries@.len() - 1,
                    ));
                    assert(entries@.map_values(|e: CommentEntry| e@) =~= prev.push(entry@));
                    match entries_parse(s@, body + l, count - i - 1) {
                        Some(t) => {
                            assert(prev + (seq![entry@] + t.0) =~= prev.push(entry@) + t.0);
                        },
                        None => {},
                    }
                }
            },
            None => {
                proof {
                    assert(entry_split(line) is None);
                }
            },
        }
        pos = body + l;
        i = i + 1;
    }
    proof {
        assert(entries_parse(s@, pos as int, 0) == Some(
            (Seq::<EntryView>::empty(), pos as int),
        ));
        let acc = entries@.map_values(|e: CommentEntry| e@);
        assert(acc + Seq::<EntryView>::empty() =~= acc);
    }
    if pos >= s.len() {
        return None;
    }
    if s[pos] != 1 {
        return None;
    }
    proof {
        assert(vendor@ =~= s@.subrange(11, 11 + vendor_len as int));
    }
    Some(CommentBlock { vendor, entries })
}

proof fn lemma_entries_parse_exact(s: Seq<u8>, pos: int, es: Seq<EntryView>)
    requires
        0 <= pos,
        pos + entries_bytes(es).len() <= s.len(),
        s.subrange(pos, pos + entries_bytes(es).len()) == entries_bytes(es),
        forall|i: int| 0 <= i < es.len() ==> entry_line(#[trigger] es[i]).len() <= u32::MAX,
        forall|i: int| 0 <= i < es.len() ==> entry_key_wf(#[trigger] es[i]),
    ensures
        entries_parse(s, pos, es.len() as int) == Some(
            (es, pos + entries_bytes(es).len()),
        ),
    decreases es.len(),
{
    lemma_auto_spec_u32_to_from_le_bytes();
    if es.len() == 0 {
        assert(entries_bytes(es).len() == 0);
    } else {
        let e = es[0];
        let line = entry_line(e);
        let rest = es.drop_first();
        let eb = entries_bytes(es);
        assert(eb == len_prefixed(line) + entries_bytes(rest));
        assert(line.len() <= u32::MAX);
        // The four length bytes at `pos` decode to the line's length.
        assert(s.subrange(pos, pos + 4) =~= spec_u32_to_le_bytes(line.len() as u32)) by {
            assert forall|j: int| 0 <= j < 4 implies #[trigger] s.subrange(pos, pos + 4)[j]
                == spec_u32_to_le_bytes(line.len() as u32)[j] by {
                assert(s.subrange(pos, pos + eb.len())[j] == eb[j]);
            }
        }
        let l = spec_u32_from_le_bytes(s.subrange(pos, pos + 4)) as int;
        assert(l == line.len());
        assert(pos + 4 + l <= s.len());
        assert(s.subrange(pos + 4, pos + 4 + l) =~= line) by {
            assert forall|j: int| 0 <= j < l implies #[trigger] s.subrange(pos + 4, pos + 4 + l)[j]
                == line[j] by {
                assert(s.subrange(pos, pos + eb.len())[4 + j] == eb[4 + j]);
                assert(eb[4 + j] == len_prefixed(line)[4 + j]);
            }
        }
        lemma_split_entry_line(e);
        // The remaining entries sit right after this one.
        let pos2 = pos + 4 + l;
        assert(s.subrange(pos2, pos2 + entries_bytes(rest).len()) =~= entries_bytes(rest)) by {
            assert forall|j: int| 0 <= j < entries_bytes(rest).len() implies #[trigger] s.subrange(
                pos2,
                pos2 + entries_bytes(rest).len(),
            )[j] == entries_bytes(rest)[j] by {
                assert(s.subrange(pos, pos + eb.len())[4 + l + j] == eb[4 + l + j]);
                assert(eb[4 + l + j] == entries_bytes(rest)[j]);
            }
        }
        lemma_entries_parse_exact(s, pos2, rest);
        assert(seq![e] + rest =~= es);
    }
}

proof fn lemma_split_entry_line(e: EntryView)
    requires
        entry_key_wf(e),
    ensures
        entry_split(entry_line(e)) == Some(e),
{
    let line = entry_line(e);
    let k = e.key.len() as int;
    lemma_first_eq(line);
    assert(line[k] == 61u8);
    assert forall|j: int| 0 <= j < k implies line[j] != 61u8 by {
        assert(line[j] == e.key[j]);
    }
    if first_eq(line) < k {
        assert(line[first_eq(line)] != 61u8);
        assert(false);
    }
    if first_eq(line) > k {
        assert(line[k] != 61u8);
        assert(false);
    }
    assert(first_eq(line) == k);
    assert(line.subrange(0, k) =~= e.key);
    assert(line.subrange(k + 1, line.len() as int) =~= e.value);
}

/// Round trip of the byte layout: serializing a comment block and reading
/// the bytes back yields exactly the block that was requested, for every
/// block whose lengths fit the layout and whose keys are free of `=`.
pub proof fn lemma_comment_round_trip(c: CommentView)
    requires
        comment_fits(c),
        comment_keys_wf(c),
    ensures
        comment_parse(comment_bytes(c)) == Some(c),
{
    lemma_auto_spec_u32_to_from_le_bytes();
    let b = comment_bytes(c);
    let vl = c.vendor.len() as int;
    let eb = entries_bytes(c.entries);
    assert(b.len() == 7 + 4 + vl + 4 + eb.len() + 1);
    assert(b.subrange(0, 7) =~= comment_signature());
    assert(b.subrange(7, 11) =~= spec_u32_to_le_bytes(c.vendor.len() as u32));
    assert(spec_u32_from_le_bytes(b.subrange(7, 11)) as int == vl);
    assert(b.subrange(11, 11 + vl) =~= c.vendor);
    assert(b.subrange(11 + vl, 15 + vl) =~= spec_u32_to_le_bytes(c.entries.len() as u32));
    assert(spec_u32_from_le_bytes(b.subrange(11 + vl, 15 + vl)) as int == c.entries.len());
    assert(b.subrange(15 + vl, 15 + vl + eb.len()) =~= eb);
    lemma_entries_parse_exact(b, 15 + vl, c.entries);
    let end = 15 + vl + eb.len();
    assert(b[end] == 1u8);
    assert(comment_parse(b) == Some(CommentView { vendor: b.subrange(11, 11 + vl), entries: c.entries }));
    assert(CommentView { vendor: b.subrange(11, 11 + vl), entries: c.entries } == c);
}

} // verus!
