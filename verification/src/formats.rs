//! The alternate-format resolver: given one requested track and a fixed
//! priority order of acceptable audio encodings, find a concrete
//! downloadable file, walking the "alternative version" links breadth-first
//! when the requested record offers none.
//!
//! Catalog lookups are outside work, so the walk is a step machine: the
//! caller asks for the next identifier to fetch, fetches its record, and
//! feeds it back. Selection is always the first tag of the priority list
//! present in a record — a fixed preference order, never a quality search.
//! A visited set guarantees that no identifier is fetched twice, so the
//! walk terminates even on a cyclic alternatives graph.

use vstd::prelude::*;

use crate::ids::{clone_bytes, CatalogId};
use crate::resolve::{id_views, IdSet};

verus! {

broadcast use vstd::seq_lib::group_seq_properties;

/// A ranked audio encoding, named by the catalog's format code.
#[derive(Clone, Copy, PartialEq, Eq, Structural, Debug)]
pub struct EncodingTag {
    pub code: u32,
}

/// The identifier of one downloadable file in the catalog.
pub struct FileId {
    pub bytes: Vec<u8>,
}

impl View for FileId {
    type V = Seq<u8>;

    open spec fn view(&self) -> Seq<u8> {
        self.bytes@
    }
}

impl FileId {
    pub fn duplicate(&self) -> (r: FileId)
        ensures
            r@ == self@,
    {
        FileId { bytes: clone_bytes(&self.bytes) }
    }
}

/// One encoding a record offers, with the file that carries it.
pub struct Encoding {
    pub tag: EncodingTag,
    pub file: FileId,
}

/// Ghost image of an `Encoding`.
pub struct EncodingView {
    pub tag: EncodingTag,
    pub file: Seq<u8>,
}

impl View for Encoding {
    type V = EncodingView;

    open spec fn view(&self) -> EncodingView {
        EncodingView { tag: self.tag, file: self.file@ }
    }
}

/// One track's catalog record, read-only for this core: its display data,
/// the encodings it offers, and its alternative versions in order.
pub struct TrackRecord {
    pub id: CatalogId,
    pub name: Vec<u8>,
    pub album_name: Vec<u8>,
    pub artist_names: Vec<Vec<u8>>,
    pub encodings: Vec<Encoding>,
    pub alternatives: Vec<CatalogId>,
}

/// Ghost image of a `TrackRecord`.
pub struct TrackView {
    pub id: Seq<u8>,
    pub name: Seq<u8>,
    pub album_name: Seq<u8>,
    pub artist_names: Seq<Seq<u8>>,
    pub encodings: Seq<EncodingView>,
    pub alternatives: Seq<Seq<u8>>,
}

impl View for TrackRecord {
    type V = TrackView;

    open spec fn view(&self) -> TrackView {
        TrackView {
            id: self.id@,
            name: self.name@,
            album_name: self.album_name@,
            artist_names: self.artist_names@.map_values(|n: Vec<u8>| n@),
            encodings: self.encodings@.map_values(|e: Encoding| e@),
            alternatives: id_views(self.alternatives@),
        }
    }
}

/// Index of the first encoding carrying `tag`, or the length if none does.
pub open spec fn find_tag(encs: Seq<EncodingView>, tag: EncodingTag) -> int
    decreases encs.len(),
{
    if encs.len() == 0 {
        0
    } else if encs[0].tag == tag {
        0
    } else {
        1 + find_tag(encs.drop_first(), tag)
    }
}

/// `find_tag` is in bounds, points at the tag when the record offers it,
/// and no earlier encoding carries it.
pub proof fn lemma_find_tag(encs: Seq<EncodingView>, tag: EncodingTag)
    ensures
        0 <= find_tag(encs, tag) <= encs.len(),
        find_tag(encs, tag) < encs.len() ==> encs[find_tag(encs, tag)].tag == tag,
        forall|j: int| 0 <= j < find_tag(encs, tag) ==> (#[trigger] encs[j]).tag != tag,
    decreases encs.len(),
{
    if encs.len() == 0 {
    } else if encs[0].tag == tag {
    } else {
        lemma_find_tag(encs.drop_first(), tag);
        assert forall|j: int| 0 <= j < find_tag(encs, tag) implies (#[trigger] encs[j]).tag
            != tag by {
            if j > 0 {
                assert(encs.drop_first()[j - 1] == encs[j]);
            }
        }
    }
}

/// The file a record yields under a priority order: the first tag of the
/// list that the record offers wins, and among equal tags the record's
/// first entry; `None` when the record offers no listed tag at all.
pub open spec fn choose_spec(encs: Seq<EncodingView>, prio: Seq<EncodingTag>) -> Option<Seq<u8>>
    decreases prio.len(),
{
    if prio.len() == 0 {
        None
    } else if find_tag(encs, prio[0]) < encs.len() {
        Some(encs[find_tag(encs, prio[0])].file)
    } else {
        choose_spec(encs, prio.drop_first())
    }
}

/// Tests a record's encodings against the priority order. Selection is by
/// fixed preference: the first priority tag present wins immediately.
#[verifier::loop_isolation(false)]
pub fn choose_encoding(rec: &TrackRecord, priority: &Vec<EncodingTag>) -> (r: Option<FileId>)
    ensures
        match r {
            Some(f) => choose_spec(rec@.encodings, priority@) == Some(f@),
            None => choose_spec(rec@.encodings, priority@) is None,
        },
{
    let pn = priority.len();
    let mut p: usize = 0;
    while p < pn
        invariant
            0 <= p <= pn,
            pn == priority@.len(),
            choose_spec(rec@.encodings, priority@) == choose_spec(
                rec@.encodings,
                priority@.skip(p as int),
            ),
        decreases pn - p,
    {
        let ghost encs = rec@.encodings;
        let ghost rest = priority@.skip(p as int);
        proof {
            lemma_find_tag(encs, priority@[p as int]);
            assert(rest[0] == priority@[p as int]);
        }
        let tag = priority[p];
        let en = rec.encodings.len();
        let mut e: usize = 0;
        while e < en
            invariant
                0 <= e <= en,
                en == encs.len(),
                encs == rec@.encodings,
                tag == priority@[p as int],
                forall|j: int| 0 <= j < e ==> (#[trigger] encs[j]).tag != tag,
            decreases en - e,
        {
            proof {
                assert(encs[e as int] == rec.encodings@[e as int]@);
            }
            if rec.encodings[e].tag == tag {
                proof {
                    lemma_find_tag(encs, tag);
                    if find_tag(encs, tag) < e {
                        assert(encs[find_tag(encs, tag)].tag != tag);
                        assert(false);
                    }
                    if find_tag(encs, tag) > e {
                        assert(encs[e as int].tag != tag);
                        assert(false);
                    }
                }
                proof {
                    assert(rest.len() > 0);
                    assert(choose_spec(encs, rest) == Some(encs[e as int].file));
                }
                return Some(rec.encodings[e].file.duplicate());
            }
            e = e + 1;
        }
        proof {
            lemma_find_tag(encs, tag);
            if find_tag(encs, tag) < encs.len() {
                assert(encs[find_tag(encs, tag)].tag == tag);
                assert(false);
            }
            assert(rest.drop_first() =~= priority@.skip(p + 1));
        }
        p = p + 1;
    }
    proof {
        assert(priority@.skip(pn as int) =~= Seq::<EncodingTag>::empty());
    }
    None
}

/// Ghost image of the walk's state.
pub struct ResolverView {
    pub queue: Seq<Seq<u8>>,
    pub visited: Seq<Seq<u8>>,
    pub priority: Seq<EncodingTag>,
}

/// The state a walk starts in: the requested track queued, nothing
/// visited.
pub open spec fn resolver_init(start: Seq<u8>, priority: Seq<EncodingTag>) -> ResolverView {
    ResolverView { queue: seq![start], visited: Seq::<Seq<u8>>::empty(), priority }
}

/// Index of the first queued identifier not yet visited, or the queue's
/// length if every queued identifier was already fetched.
pub open spec fn first_unvisited(queue: Seq<Seq<u8>>, visited: Seq<Seq<u8>>) -> int
    decreases queue.len(),
{
    if queue.len() == 0 {
        0
    } else if !visited.contains(queue[0]) {
        0
    } else {
        1 + first_unvisited(queue.drop_first(), visited)
    }
}

/// `first_unvisited` is in bounds, points at an unvisited identifier when
/// one is queued, and everything before it was already visited.
pub proof fn lemma_first_unvisited(queue: Seq<Seq<u8>>, visited: Seq<Seq<u8>>)
    ensures
        0 <= first_unvisited(queue, visited) <= queue.len(),
        first_unvisited(queue, visited) < queue.len() ==> !visited.contains(
            queue[first_unvisited(queue, visited)],
        ),
        forall|j: int| 0 <= j < first_unvisited(queue, visited) ==> visited.contains(
            #[trigger] queue[j],
        ),
    decreases queue.len(),
{
    if queue.len() == 0 {
    } else if !visited.contains(queue[0]) {
    } else {
        lemma_first_unvisited(queue.drop_first(), visited);
        assert forall|j: int| 0 <= j < first_unvisited(queue, visited) implies visited.contains(
            #[trigger] queue[j],
        ) by {
            if j > 0 {
                assert(queue.drop_first()[j - 1] == queue[j]);
            }
        }
    }
}

/// What granting a request does: the first unvisited queued identifier is
/// handed out and becomes visited; identifiers already fetched are
/// discarded on the way. `None` means the queue is exhausted: there is no
/// suitable format anywhere in the walked graph.
pub open spec fn grant_spec(st: ResolverView) -> (ResolverView, Option<Seq<u8>>) {
    let k = first_unvisited(st.queue, st.visited);
    if k < st.queue.len() {
        (
            ResolverView {
                queue: st.queue.skip(k + 1),
                visited: st.visited.push(st.queue[k]),
                priority: st.priority,
            },
            Some(st.queue[k]),
        )
    } else {
        (ResolverView { queue: Seq::<Seq<u8>>::empty(), ..st }, None)
    }
}

/// What feeding a fetched record back does: a record offering a priority
/// encoding answers the walk with its file; one offering none queues its
/// alternatives, in order, behind the queue (breadth-first).
pub open spec fn answer_spec(st: ResolverView, rec: TrackView) -> (ResolverView, Option<Seq<u8>>) {
    match choose_spec(rec.encodings, st.priority) {
        Some(f) => (st, Some(f)),
        None => (ResolverView { queue: st.queue + rec.alternatives, ..st }, None),
    }
}

/// The alternate-format walk's state: the work queue seeded with the
/// requested track, the identifiers already fetched, and the priority
/// order.
pub struct FormatResolver {
    queue: Vec<CatalogId>,
    visited: IdSet,
    priority: Vec<EncodingTag>,
}

impl View for FormatResolver {
    type V = ResolverView;

    closed spec fn view(&self) -> ResolverView {
        ResolverView {
            queue: id_views(self.queue@),
            visited: self.visited@,
            priority: self.priority@,
        }
    }
}

impl FormatResolver {
    /// No identifier is recorded as visited twice.
    pub open spec fn wf(&self) -> bool {
        self@.visited.no_duplicates()
    }

    /// Starts a walk for one requested track under a priority order.
    pub fn new(start: CatalogId, priority: Vec<EncodingTag>) -> (r: FormatResolver)
        ensures
            r@ == resolver_init(start@, priority@),
            r.wf(),
    {
        let mut queue: Vec<CatalogId> = Vec::new();
        queue.push(start);
        let r = FormatResolver { queue, visited: IdSet::new(), priority };
        proof {
            assert(r@.queue =~= seq![r.queue@[0]@]);
        }
        r
    }

    /// Hands out the next identifier to fetch, skipping and discarding any
    /// that were fetched before — the same identifier is never handed out
    /// twice. `None` reports exhaustion: no suitable format was found.
    pub fn next_request(&mut self) -> (r: Option<CatalogId>)
        requires
            old(self).wf(),
        ensures
            final(self).wf(),
            final(self)@ == grant_spec(old(self)@).0,
            match r {
                Some(id) => grant_spec(old(self)@).1 == Some(id@),
                None => grant_spec(old(self)@).1 is None,
            },
    {
        let ghost st0 = self@;
        let queue_len = self.queue.len();
        proof {
            lemma_first_unvisited(st0.queue, st0.visited);
            assert(st0.queue.len() == queue_len);
        }
        let mut dropped: usize = 0;
        loop
            invariant
                0 <= dropped <= st0.queue.len() <= usize::MAX,
                self@.queue == st0.queue.skip(dropped as int),
                self@.visited == st0.visited,
                self@.priority == st0.priority,
                self.wf(),
                forall|j: int| 0 <= j < dropped ==> st0.visited.contains(#[trigger] st0.queue[j]),
            ensures
                self@.visited == st0.visited,
                self@.priority == st0.priority,
                self.wf(),
                dropped == first_unvisited(st0.queue, st0.visited),
                self@.queue == st0.queue.skip(dropped as int),
                dropped < st0.queue.len() ==> !st0.visited.contains(st0.queue[dropped as int]),
            decreases st0.queue.len() - dropped,
        {
            if self.queue.len() == 0 {
                proof {
                    lemma_first_unvisited(st0.queue, st0.visited);
                    assert(self@.queue.len() == 0);
                    assert(dropped == st0.queue.len());
                    if first_unvisited(st0.queue, st0.visited) < dropped {
                        assert(!st0.visited.contains(
                            st0.queue[first_unvisited(st0.queue, st0.visited)],
                        ));
                        assert(false);
                    }
                }
                break ;
            }
            proof {
                assert(self@.queue.len() > 0);
                assert(st0.queue.skip(dropped as int).len() == st0.queue.len() - dropped);
                assert(dropped < st0.queue.len());
                vstd::seq_lib::lemma_seq_skip_index(st0.queue, dropped as int, 0);
                assert(self@.queue[0] == st0.queue[dropped as int]);
                assert(self@.queue[0] == self.queue@[0]@);
            }
            let head_visited = self.visited.contains(&self.queue[0]);
            if !head_visited {
                proof {
                    lemma_first_unvisited(st0.queue, st0.visited);
                    if first_unvisited(st0.queue, st0.visited) < dropped {
                        assert(!st0.visited.contains(
                            st0.queue[first_unvisited(st0.queue, st0.visited)],
                        ));
                        assert(false);
                    }
                    if first_unvisited(st0.queue, st0.visited) > dropped {
                        assert(st0.visited.contains(st0.queue[dropped as int]));
                        assert(false);
                    }
                }
                break ;
            }
            let ghost before = self.queue@;
            let _ = self.queue.remove(0);
            proof {
                assert(self.queue@ =~= before.drop_first());
                assert(id_views(self.queue@) =~= id_views(before).drop_first());
                assert(self@.queue =~= st0.queue.skip(dropped + 1));
            }
            dropped = dropped + 1;
        }
        if self.queue.len() == 0 {
            proof {
                assert(grant_spec(st0).1 is None);
                assert(self@ =~= grant_spec(st0).0);
            }
            None
        } else {
            let ghost before = self.queue@;
            proof {
                assert(id_views(before)[0] == before[0]@);
                assert(st0.queue.skip(dropped as int)[0] == st0.queue[dropped as int]);
            }
            let id = self.queue.remove(0);
            self.visited.insert(id.duplicate());
            proof {
                assert(self.queue@ =~= before.drop_first());
                assert(id_views(self.queue@) =~= id_views(before).drop_first());
                assert(self@.queue =~= st0.queue.skip(dropped + 1));
                assert(!st0.visited.contains(id@));
                assert(self@.visited == st0.visited.push(id@));
            }
            Some(id)
        }
    }

    /// Feeds back the fetched record for the identifier last handed out.
    /// Returns the chosen file immediately when the record offers a
    /// priority encoding — the first list entry present, never a quality
    /// search; otherwise queues the record's alternatives breadth-first
    /// and returns `None` so the walk goes on. A caller that cannot fetch
    /// a record may simply ask for the next request instead; nothing needs
    /// to be undone.
    pub fn on_record(&mut self, rec: &TrackRecord) -> (r: Option<FileId>)
        requires
            old(self).wf(),
        ensures
            final(self).wf(),
            final(self)@ == answer_spec(old(self)@, rec@).0,
            match r {
                Some(f) => answer_spec(old(self)@, rec@).1 == Some(f@),
                None => answer_spec(old(self)@, rec@).1 is None,
            },
    {
        match choose_encoding(rec, &self.priority) {
            Some(f) => Some(f),
            None => {
                let ghost st0 = self@;
                let ghost alts = rec@.alternatives;
                let an = rec.alternatives.len();
                let mut a: usize = 0;
                while a < an
                    invariant
                        0 <= a <= an,
                        an == alts.len(),
                        alts == rec@.alternatives,
                        self@.queue == st0.queue + alts.take(a as int),
                        self@.visited == st0.visited,
                        self@.priority == st0.priority,
                        self.wf(),
                    decreases an - a,
                {
                    proof {
                        assert(alts[a as int] == rec.alternatives@[a as int]@);
                    }
                    let ghost before = self.queue@;
                    self.queue.push(rec.alternatives[a].duplicate());
                    proof {
                        assert(id_views(self.queue@) =~= id_views(before).push(alts[a as int]));
                        assert(id_views(before).push(alts[a as int]) =~= st0.queue + alts.take(
                            a + 1,
                        ));
                    }
                    a = a + 1;
                }
                proof {
                    assert(alts.take(an as int) =~= alts);
                }
                None
            },
        }
    }
}

/// The visited set does its job: a granted request is never an identifier
/// granted before, and it joins the visited set at once. Every step of the
/// walk therefore fetches a fresh identifier, so a catalog with finitely
/// many tracks can only feed the walk finitely often.
pub proof fn lemma_no_repeat_request(st: ResolverView)
    requires
        st.visited.no_duplicates(),
    ensures
        ({
            let g = grant_spec(st);
            g.1 matches Some(id) ==> !st.visited.contains(id) && g.0.visited == st.visited.push(id)
                && g.0.visited.no_duplicates()
        }),
{
    lemma_first_unvisited(st.queue, st.visited);
}

/// Format fallback determinism: when the requested track's record offers
/// no priority encoding but its first alternative's does, the walk fetches
/// exactly that alternative next and answers with its file. The record
/// that wins is the alternative's, not the requested track's, so the
/// caller sees the substitution: the serving identifier differs from the
/// requested one.
pub proof fn lemma_fallback_substitution(
    primary: TrackView,
    alt: TrackView,
    prio: Seq<EncodingTag>,
    f: Seq<u8>,
)
    requires
        primary.alternatives.len() >= 1,
        alt.id == primary.alternatives[0],
        alt.id != primary.id,
        choose_spec(primary.encodings, prio) is None,
        choose_spec(alt.encodings, prio) == Some(f),
    ensures
        ({
            let g1 = grant_spec(resolver_init(primary.id, prio));
            let s2 = answer_spec(g1.0, primary);
            let g3 = grant_spec(s2.0);
            let s4 = answer_spec(g3.0, alt);
            &&& g1.1 == Some(primary.id)
            &&& s2.1 is None
            &&& g3.1 == Some(alt.id)
            &&& s4.1 == Some(f)
        }),
{
    let st0 = resolver_init(primary.id, prio);
    assert(first_unvisited(st0.queue, st0.visited) == 0);
    let g1 = grant_spec(st0);
    assert(g1.1 == Some(primary.id));
    assert(g1.0.queue =~= Seq::<Seq<u8>>::empty());
    assert(g1.0.visited =~= seq![primary.id]);
    let s2 = answer_spec(g1.0, primary);
    assert(s2.0.queue =~= primary.alternatives);
    assert(s2.0.queue[0] == alt.id);
    assert(!s2.0.visited.contains(alt.id)) by {
        if s2.0.visited.contains(alt.id) {
            let k = choose|k: int| 0 <= k < s2.0.visited.len() && s2.0.visited[k] == alt.id;
            assert(s2.0.visited[k] == primary.id);
        }
    }
    assert(first_unvisited(s2.0.queue, s2.0.visited) == 0);
    let g3 = grant_spec(s2.0);
    assert(g3.1 == Some(alt.id));
    let s4 = answer_spec(g3.0, alt);
    assert(s4.1 == Some(f));
}

/// Cycle safety: on a two-track graph whose alternatives point at each
/// other and whose records offer no priority encoding, the walk fetches
/// each track exactly once and then reports exhaustion — it can never
/// loop, because a visited identifier is discarded, not refetched.
pub proof fn lemma_cycle_walk_terminates(a: TrackView, b: TrackView, prio: Seq<EncodingTag>)
    requires
        a.id != b.id,
        a.alternatives == seq![b.id],
        b.alternatives == seq![a.id],
        choose_spec(a.encodings, prio) is None,
        choose_spec(b.encodings, prio) is None,
    ensures
        ({
            let g1 = grant_spec(resolver_init(a.id, prio));
            let s2 = answer_spec(g1.0, a);
            let g3 = grant_spec(s2.0);
            let s4 = answer_spec(g3.0, b);
            let g5 = grant_spec(s4.0);
            &&& g1.1 == Some(a.id)
            &&& s2.1 is None
            &&& g3.1 == Some(b.id)
            &&& s4.1 is None
            &&& g5.1 is None
        }),
{
    let st0 = resolver_init(a.id, prio);
    assert(first_unvisited(st0.queue, st0.visited) == 0);
    let g1 = grant_spec(st0);
    assert(g1.0.queue =~= Seq::<Seq<u8>>::empty());
    assert(g1.0.visited =~= seq![a.id]);
    let s2 = answer_spec(g1.0, a);
    assert(s2.0.queue =~= seq![b.id]);
    assert(!s2.0.visited.contains(b.id)) by {
        if s2.0.visited.contains(b.id) {
            let k = choose|k: int| 0 <= k < s2.0.visited.len() && s2.0.visited[k] == b.id;
            assert(s2.0.visited[k] == a.id);
        }
    }
    assert(first_unvisited(s2.0.queue, s2.0.visited) == 0);
    let g3 = grant_spec(s2.0);
    assert(g3.1 == Some(b.id));
    assert(g3.0.queue =~= Seq::<Seq<u8>>::empty());
    assert(g3.0.visited =~= seq![a.id, b.id]);
    let s4 = answer_spec(g3.0, b);
    assert(s4.0.queue =~= seq![a.id]);
    assert(s4.0.visited.contains(a.id)) by {
        assert(s4.0.visited[0] == a.id);
    }
    assert(first_unvisited(s4.0.queue, s4.0.visited) == 1) by {
        assert(s4.0.queue[0] == a.id);
        assert(s4.0.queue.drop_first() =~= Seq::<Seq<u8>>::empty());
        assert(first_unvisited(s4.0.queue.drop_first(), s4.0.visited) == 0);
    }
    let g5 = grant_spec(s4.0);
    assert(g5.1 is None);
}

} // verus!
