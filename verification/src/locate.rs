//! Recognizing input lines: each line must match one of the reference
//! grammars exactly (anchored, case-sensitive), or it is rejected.
//!
//! Two grammars exist for every reference kind `K`:
//! - long form:  `(http:// | https://)? open.spotify.com/K/<id>`
//! - short form: `spotify:K:<id>`
//!
//! where `<id>` is exactly `ID_WIDTH` alphanumeric bytes.

use vstd::prelude::*;

use crate::ids::{id_wf, is_id_byte, CatalogId, CatalogReference, RefView, ResourceKind, ID_WIDTH};

verus! {

/// The name of a reference kind as it appears inside both grammars.
pub open spec fn kind_word(k: ResourceKind) -> Seq<u8> {
    match k {
        ResourceKind::Track => seq![116u8, 114u8, 97u8, 99u8, 107u8],  // "track"
        ResourceKind::Album => seq![97u8, 108u8, 98u8, 117u8, 109u8],  // "album"
        ResourceKind::Playlist => seq![
            112u8,
            108u8,
            97u8,
            121u8,
            108u8,
            105u8,
            115u8,
            116u8,
        ],  // "playlist"
        ResourceKind::Artist => seq![97u8, 114u8, 116u8, 105u8, 115u8, 116u8],  // "artist"
    }
}

/// `"spotify:"`, the head of the short native-URI form.
pub open spec fn uri_head() -> Seq<u8> {
    seq![115u8, 112u8, 111u8, 116u8, 105u8, 102u8, 121u8, 58u8]
}

/// `"open.spotify.com/"`, the head of the long web-link form.
pub open spec fn url_head() -> Seq<u8> {
    seq![
        111u8,
        112u8,
        101u8,
        110u8,
        46u8,
        115u8,
        112u8,
        111u8,
        116u8,
        105u8,
        102u8,
        121u8,
        46u8,
        99u8,
        111u8,
        109u8,
        47u8,
    ]
}

/// `"http://"`, one of the two optional schemes of the long form.
pub open spec fn http_head() -> Seq<u8> {
    seq![104u8, 116u8, 116u8, 112u8, 58u8, 47u8, 47u8]
}

/// `"https://"`, the other optional scheme of the long form.
pub open spec fn https_head() -> Seq<u8> {
    seq![104u8, 116u8, 116u8, 112u8, 115u8, 58u8, 47u8, 47u8]
}

/// The identifier a matching line carries: its last `ID_WIDTH` bytes.
pub open spec fn grammar_id(s: Seq<u8>) -> Seq<u8> {
    s.subrange(s.len() - ID_WIDTH, s.len() as int)
}

/// The short form: `spotify:` + kind word + `:` + identifier, nothing else.
pub open spec fn matches_uri(s: Seq<u8>, k: ResourceKind) -> bool {
    let w = kind_word(k);
    &&& s.len() == 8 + w.len() + 1 + ID_WIDTH
    &&& s.subrange(0, 8) == uri_head()
    &&& s.subrange(8, 8 + w.len() as int) == w
    &&& s[8 + w.len() as int] == 58u8  // ':'
    &&& id_wf(grammar_id(s))
}

/// The long form without its scheme, starting at byte `off` of the line:
/// `open.spotify.com/` + kind word + `/` + identifier, ending the line.
pub open spec fn matches_url_at(s: Seq<u8>, off: int, k: ResourceKind) -> bool {
    let w = kind_word(k);
    &&& 0 <= off
    &&& s.len() == off + 17 + w.len() + 1 + ID_WIDTH
    &&& s.subrange(off, off + 17) == url_head()
    &&& s.subrange(off + 17, off + 17 + w.len()) == w
    &&& s[off + 17 + w.len() as int] == 47u8  // '/'
    &&& id_wf(grammar_id(s))
}

/// The long form: an optional `http://` or `https://` scheme, then the
/// domain, kind word and identifier.
pub open spec fn matches_url(s: Seq<u8>, k: ResourceKind) -> bool {
    ||| matches_url_at(s, 0, k)
    ||| (s.len() >= 7 && s.subrange(0, 7) == http_head() && matches_url_at(s, 7, k))
    ||| (s.len() >= 8 && s.subrange(0, 8) == https_head() && matches_url_at(s, 8, k))
}

/// A line names a reference of kind `k` when either grammar matches.
pub open spec fn matches_kind(s: Seq<u8>, k: ResourceKind) -> bool {
    matches_url(s, k) || matches_uri(s, k)
}

/// What `locate` returns: the first kind, in the order Track, Album,
/// Playlist, Artist, whose grammar matches, with the captured identifier.
pub open spec fn locate_spec(s: Seq<u8>) -> Option<RefView> {
    if matches_kind(s, ResourceKind::Track) {
        Some(RefView { kind: ResourceKind::Track, id: grammar_id(s) })
    } else if matches_kind(s, ResourceKind::Album) {
        Some(RefView { kind: ResourceKind::Album, id: grammar_id(s) })
    } else if matches_kind(s, ResourceKind::Playlist) {
        Some(RefView { kind: ResourceKind::Playlist, id: grammar_id(s) })
    } else if matches_kind(s, ResourceKind::Artist) {
        Some(RefView { kind: ResourceKind::Artist, id: grammar_id(s) })
    } else {
        None
    }
}

/// An input line that matches no reference grammar; it carries the line so
/// the caller can warn and skip it.
pub struct UnrecognizedInput {
    pub line: Vec<u8>,
}

impl View for UnrecognizedInput {
    type V = Seq<u8>;

    open spec fn view(&self) -> Seq<u8> {
        self.line@
    }
}

/// The kind word as executable bytes.
fn kind_word_vec(k: ResourceKind) -> (r: Vec<u8>)
    ensures
        r@ == kind_word(k),
{
    let mut v: Vec<u8> = Vec::new();
    match k {
        ResourceKind::Track => {
            v.push(116);
            v.push(114);
            v.push(97);
            v.push(99);
            v.push(107);
        },
        ResourceKind::Album => {
            v.push(97);
            v.push(108);
            v.push(98);
            v.push(117);
            v.push(109);
        },
        ResourceKind::Playlist => {
            v.push(112);
            v.push(108);
            v.push(97);
            v.push(121);
            v.push(108);
            v.push(105);
            v.push(115);
            v.push(116);
        },
        ResourceKind::Artist => {
            v.push(97);
            v.push(114);
            v.push(116);
            v.push(105);
            v.push(115);
            v.push(116);
        },
    }
    proof {
        assert(v@ =~= kind_word(k));
    }
    v
}

fn uri_head_vec() -> (r: Vec<u8>)
    ensures
        r@ == uri_head(),
{
    let mut v: Vec<u8> = Vec::new();
    v.push(115);
    v.push(112);
    v.push(111);
    v.push(116);
    v.push(105);
    v.push(102);
    v.push(121);
    v.push(58);
    proof {
        assert(v@ =~= uri_head());
    }
    v
}

fn url_head_vec() -> (r: Vec<u8>)
    ensures
        r@ == url_head(),
{
    let mut v: Vec<u8> = Vec::new();
    v.push(111);
    v.push(112);
    v.push(101);
    v.push(110);
    v.push(46);
    v.push(115);
    v.push(112);
    v.push(111);
    v.push(116);
    v.push(105);
    v.push(102);
    v.push(121);
    v.push(46);
    v.push(99);
    v.push(111);
    v.push(109);
    v.push(47);
    proof {
        assert(v@ =~= url_head());
    }
    v
}

fn http_head_vec() -> (r: Vec<u8>)
    ensures
        r@ == http_head(),
{
    let mut v: Vec<u8> = Vec::new();
    v.push(104);
    v.push(116);
    v.push(116);
    v.push(112);
    v.push(58);
    v.push(47);
    v.push(47);
    proof {
        assert(v@ =~= http_head());
    }
    v
}

fn https_head_vec() -> (r: Vec<u8>)
    ensures
        r@ == https_head(),
{
    let mut v: Vec<u8> = Vec::new();
    v.push(104);
    v.push(116);
    v.push(116);
    v.push(112);
    v.push(115);
    v.push(58);
    v.push(47);
    v.push(47);
    proof {
        assert(v@ =~= https_head());
    }
    v
}

/// Does `pat` occur in `s` starting exactly at `at`?
fn eq_at(s: &Vec<u8>, at: usize, pat: &Vec<u8>) -> (r: bool)
    ensures
        r == (at + pat@.len() <= s@.len() && s@.subrange(
            at as int,
            at as int + pat@.len() as int,
        ) == pat@),
{
    if pat.len() > s.len() || at > s.len() - pat.len() {
        assert(!(at + pat@.len() <= s@.len()));
        return false;
    }
    let n = pat.len();
    let mut i: usize = 0;
    while i < n
        invariant
            n == pat@.len(),
            at + n <= s@.len() <= usize::MAX,
            0 <= i <= n,
            forall|j: int| 0 <= j < i ==> s@[at + j] == pat@[j],
        decreases n - i,
    {
        if s[at + i] != pat[i] {
            assert(s@.subrange(at as int, at as int + pat@.len() as int)[i as int] != pat@[
                i as int
            ]);
            return false;
        }
        i = i + 1;
    }
    assert(s@.subrange(at as int, at as int + pat@.len() as int) =~= pat@);
    true
}

fn is_id_byte_exec(b: u8) -> (r: bool)
    ensures
        r == is_id_byte(b),
{
    (48 <= b && b <= 57) || (97 <= b && b <= 122) || (65 <= b && b <= 90)
}

/// Are the last `ID_WIDTH` bytes of `s` a well-formed identifier, with `s`
/// long enough to hold one?
fn id_tail_ok(s: &Vec<u8>) -> (r: bool)
    ensures
        r == (s@.len() >= ID_WIDTH && id_wf(grammar_id(s@))),
{
    if s.len() < ID_WIDTH {
        return false;
    }
    let start = s.len() - ID_WIDTH;
    let mut i: usize = 0;
    while i < ID_WIDTH
        invariant
            ID_WIDTH <= s@.len() <= usize::MAX,
            start == s@.len() - ID_WIDTH,
            0 <= i <= ID_WIDTH,
            forall|j: int| 0 <= j < i ==> is_id_byte(#[trigger] grammar_id(s@)[j]),
        decreases ID_WIDTH - i,
    {
        if !is_id_byte_exec(s[start + i]) {
            assert(grammar_id(s@)[i as int] == s@[start + i]);
            return false;
        }
        assert(grammar_id(s@)[i as int] == s@[start + i]);
        i = i + 1;
    }
    assert(id_wf(grammar_id(s@)));
    true
}

/// Exact test of the short native-URI grammar.
fn matches_uri_exec(s: &Vec<u8>, k: ResourceKind) -> (r: bool)
    ensures
        r == matches_uri(s@, k),
{
    let head = uri_head_vec();
    let word = kind_word_vec(k);
    let expected_len = 8 + word.len() + 1 + ID_WIDTH;
    if s.len() != expected_len {
        return false;
    }
    if !eq_at(s, 0, &head) {
        return false;
    }
    if !eq_at(s, 8, &word) {
        return false;
    }
    if s[8 + word.len()] != 58 {
        return false;
    }
    id_tail_ok(s)
}

/// Exact test of the long web-link grammar starting at `off`.
fn matches_url_at_exec(s: &Vec<u8>, off: usize, k: ResourceKind) -> (r: bool)
    requires
        off <= 8,
    ensures
        r == matches_url_at(s@, off as int, k),
{
    let head = url_head_vec();
    let word = kind_word_vec(k);
    let expected_len = off + 17 + word.len() + 1 + ID_WIDTH;
    if s.len() != expected_len {
        return false;
    }
    if !eq_at(s, off, &head) {
        return false;
    }
    if !eq_at(s, off + 17, &word) {
        return false;
    }
    if s[off + 17 + word.len()] != 47 {
        return false;
    }
    id_tail_ok(s)
}

/// Exact test of the long grammar, trying the optional schemes.
fn matches_url_exec(s: &Vec<u8>, k: ResourceKind) -> (r: bool)
    ensures
        r == matches_url(s@, k),
{
    let https = https_head_vec();
    let http = http_head_vec();
    if eq_at(s, 0, &https) {
        proof {
            // A line opening with "https://" can match neither the bare form
            // (which opens with 'o') nor the "http://" form (':' vs 's').
            assert(!matches_url_at(s@, 0, k));
            assert(!(s@.len() >= 7 && s@.subrange(0, 7) == http_head() && matches_url_at(
                s@,
                7,
                k,
            )));
        }
        matches_url_at_exec(s, 8, k)
    } else if eq_at(s, 0, &http) {
        proof {
            assert(!matches_url_at(s@, 0, k));
            assert(!(s@.len() >= 8 && s@.subrange(0, 8) == https_head()));
        }
        matches_url_at_exec(s, 7, k)
    } else {
        matches_url_at_exec(s, 0, k)
    }
}

/// Exact test of both grammars for one kind.
fn matches_kind_exec(s: &Vec<u8>, k: ResourceKind) -> (r: bool)
    ensures
        r == matches_kind(s@, k),
{
    matches_url_exec(s, k) || matches_uri_exec(s, k)
}

/// Copies the identifier out of a matching line.
fn extract_id(s: &Vec<u8>) -> (r: CatalogId)
    requires
        s@.len() >= ID_WIDTH,
    ensures
        r@ == grammar_id(s@),
{
    let start = s.len() - ID_WIDTH;
    let mut bytes: Vec<u8> = Vec::new();
    let mut i: usize = 0;
    while i < ID_WIDTH
        invariant
            ID_WIDTH <= s@.len() <= usize::MAX,
            start == s@.len() - ID_WIDTH,
            0 <= i <= ID_WIDTH,
            bytes@ =~= grammar_id(s@).subrange(0, i as int),
        decreases ID_WIDTH - i,
    {
        bytes.push(s[start + i]);
        assert(bytes@ =~= grammar_id(s@).subrange(0, i + 1));
        i = i + 1;
    }
    assert(bytes@ =~= grammar_id(s@));
    CatalogId::new(bytes)
}

/// Matches one input line against the recognized reference grammars and
/// extracts the typed reference. The kinds are tried in the fixed order
/// Track, Album, Playlist, Artist, and the first match wins; a line that
/// matches no grammar is handed back unchanged inside the error.
pub fn locate(line: &Vec<u8>) -> (r: Result<CatalogReference, UnrecognizedInput>)
    ensures
        match r {
            Ok(res) => locate_spec(line@) == Some(res@),
            Err(e) => locate_spec(line@) is None && e@ == line@,
        },
{
    if matches_kind_exec(line, ResourceKind::Track) {
        assert(line@.len() >= ID_WIDTH);
        Ok(CatalogReference { kind: ResourceKind::Track, id: extract_id(line) })
    } else if matches_kind_exec(line, ResourceKind::Album) {
        assert(line@.len() >= ID_WIDTH);
        Ok(CatalogReference { kind: ResourceKind::Album, id: extract_id(line) })
    } else if matches_kind_exec(line, ResourceKind::Playlist) {
        assert(line@.len() >= ID_WIDTH);
        Ok(CatalogReference { kind: ResourceKind::Playlist, id: extract_id(line) })
    } else if matches_kind_exec(line, ResourceKind::Artist) {
        assert(line@.len() >= ID_WIDTH);
        Ok(CatalogReference { kind: ResourceKind::Artist, id: extract_id(line) })
    } else {
        Err(UnrecognizedInput { line: crate::ids::clone_bytes(line) })
    }
}

} // verus!
