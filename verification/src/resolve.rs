//! The resolution engine: expands typed catalog references into a flat,
//! duplicate-free set of track identifiers.
//!
//! Catalog lookups are outside work, so the engine is a step machine: the
//! caller repeatedly takes the next reference that needs a lookup, performs
//! it, and feeds the outcome back. Track references contribute their own
//! identifier without a lookup; playlist and album lookups contribute their
//! member tracks; an artist lookup contributes its album groupings, whose
//! albums re-enter the engine as ordinary album references; a failed lookup
//! becomes a warning and the run continues. A failure never aborts the
//! remaining references: this is a partial-failure pipeline.

use vstd::prelude::*;

use crate::ids::{CatalogId, CatalogReference, RefView, ResourceKind};

verus! {

broadcast use vstd::seq_lib::group_seq_properties;

/// The ghost images of a sequence of identifiers.
pub open spec fn id_views(ids: Seq<CatalogId>) -> Seq<Seq<u8>> {
    ids.map_values(|i: CatalogId| i@)
}

/// The ghost images of a sequence of references.
pub open spec fn ref_views(rs: Seq<CatalogReference>) -> Seq<RefView> {
    rs.map_values(|r: CatalogReference| r@)
}

/// Appends `id` unless it is already present.
pub open spec fn push_missing(found: Seq<Seq<u8>>, id: Seq<u8>) -> Seq<Seq<u8>> {
    if found.contains(id) {
        found
    } else {
        found.push(id)
    }
}

/// Appends each identifier in turn, skipping the ones already present.
pub open spec fn push_missing_all(found: Seq<Seq<u8>>, ids: Seq<Seq<u8>>) -> Seq<Seq<u8>>
    decreases ids.len(),
{
    if ids.len() == 0 {
        found
    } else {
        push_missing_all(push_missing(found, ids[0]), ids.drop_first())
    }
}

/// The deduplicating set of resolved track identifiers. Insertion order is
/// kept only for iteration; the content is a mathematical set, and the
/// length always equals the number of distinct identifiers.
pub struct IdSet {
    items: Vec<CatalogId>,
}

impl View for IdSet {
    type V = Seq<Seq<u8>>;

    closed spec fn view(&self) -> Seq<Seq<u8>> {
        id_views(self.items@)
    }
}

impl IdSet {
    /// No identifier occurs twice.
    pub open spec fn wf(&self) -> bool {
        self@.no_duplicates()
    }

    /// The content as a mathematical set.
    pub open spec fn as_set(&self) -> Set<Seq<u8>> {
        self@.to_set()
    }

    pub fn new() -> (r: IdSet)
        ensures
            r@ == Seq::<Seq<u8>>::empty(),
            r.wf(),
    {
        let r = IdSet { items: Vec::new() };
        proof {
            assert(r@ =~= Seq::<Seq<u8>>::empty());
        }
        r
    }

    pub fn len(&self) -> (r: usize)
        ensures
            r == self@.len(),
    {
        self.items.len()
    }

    /// Byte-exact membership test.
    pub fn contains(&self, id: &CatalogId) -> (r: bool)
        ensures
            r == self@.contains(id@),
    {
        let n = self.items.len();
        let mut i: usize = 0;
        while i < n
            invariant
                n == self@.len(),
                0 <= i <= n,
                forall|j: int| 0 <= j < i ==> self@[j] != id@,
            decreases n - i,
        {
            proof {
                assert(self@[i as int] == self.items@[i as int]@);
            }
            if self.items[i].same_as(id) {
                return true;
            }
            i = i + 1;
        }
        false
    }

    /// Inserts an identifier; one already present is dropped, so the set
    /// never double-counts.
    pub fn insert(&mut self, id: CatalogId)
        ensures
            final(self)@ == push_missing(old(self)@, id@),
            old(self).wf() ==> final(self).wf(),
    {
        if !self.contains(&id) {
            let ghost prev = self.items@;
            self.items.push(id);
            proof {
                assert(self@ =~= id_views(prev).push(id@));
            }
        }
    }

    /// Hands the identifiers out for iteration, in insertion order.
    pub fn into_items(self) -> (r: Vec<CatalogId>)
        ensures
            id_views(r@) == self@,
    {
        self.items
    }
}

/// Never double-counted: a duplicate-free sequence is exactly as long as
/// the set of its elements.
pub proof fn lemma_no_double_count(s: Seq<Seq<u8>>)
    requires
        s.no_duplicates(),
    ensures
        s.len() == s.to_set().len(),
{
    s.unique_seq_to_set();
}

/// What deduplicated insertion does to the content: a plain set union.
pub proof fn lemma_push_missing_all_set(found: Seq<Seq<u8>>, ids: Seq<Seq<u8>>)
    ensures
        push_missing_all(found, ids).to_set() == found.to_set().union(ids.to_set()),
        found.no_duplicates() ==> push_missing_all(found, ids).no_duplicates(),
    decreases ids.len(),
{
    broadcast use vstd::seq_lib::group_seq_properties;

    if ids.len() == 0 {
        assert(ids.to_set() =~= Set::<Seq<u8>>::empty());
        assert(push_missing_all(found, ids).to_set() =~= found.to_set().union(ids.to_set()));
    } else {
        let f1 = push_missing(found, ids[0]);
        lemma_push_missing_all_set(f1, ids.drop_first());
        assert(f1.to_set() =~= found.to_set().insert(ids[0])) by {
            if found.contains(ids[0]) {
                assert(found.to_set().contains(ids[0]));
                assert(found.to_set() =~= found.to_set().insert(ids[0]));
            } else {
                assert(found.push(ids[0]).to_set() =~= found.to_set().insert(ids[0]));
            }
        }
        assert(ids.to_set() =~= ids.drop_first().to_set().insert(ids[0])) by {
            assert forall|x: Seq<u8>| ids.to_set().contains(x) implies ids.drop_first()
                .to_set()
                .insert(ids[0])
                .contains(x) by {
                let k = choose|k: int| 0 <= k < ids.len() && ids[k] == x;
                if k > 0 {
                    assert(ids.drop_first()[k - 1] == x);
                }
            }
            assert forall|x: Seq<u8>|
                ids.drop_first().to_set().insert(ids[0]).contains(x) implies ids.to_set().contains(
                x,
            ) by {
                if ids.drop_first().to_set().contains(x) {
                    let k = choose|k: int|
                        0 <= k < ids.drop_first().len() && ids.drop_first()[k] == x;
                    assert(ids[k + 1] == x);
                }
            }
        }
        assert(push_missing_all(found, ids).to_set() =~= found.to_set().union(ids.to_set()));
        if found.no_duplicates() {
            assert(f1.no_duplicates());
        }
    }
}

/// Identifiers once inserted stay present.
proof fn lemma_push_missing_all_monotone(found: Seq<Seq<u8>>, ids: Seq<Seq<u8>>, x: Seq<u8>)
    requires
        found.contains(x),
    ensures
        push_missing_all(found, ids).contains(x),
    decreases ids.len(),
{
    if ids.len() > 0 {
        let f1 = push_missing(found, ids[0]);
        assert(f1.contains(x)) by {
            let k = choose|k: int| 0 <= k < found.len() && found[k] == x;
            if !found.contains(ids[0]) {
                assert(found.push(ids[0])[k] == x);
            }
        }
        lemma_push_missing_all_monotone(f1, ids.drop_first(), x);
    }
}

/// Every inserted identifier is present afterwards.
proof fn lemma_push_missing_all_added(found: Seq<Seq<u8>>, ids: Seq<Seq<u8>>, j: int)
    requires
        0 <= j < ids.len(),
    ensures
        push_missing_all(found, ids).contains(ids[j]),
    decreases ids.len(),
{
    let f1 = push_missing(found, ids[0]);
    if j == 0 {
        assert(f1.contains(ids[0])) by {
            if found.contains(ids[0]) {
            } else {
                assert(found.push(ids[0])[found.len() as int] == ids[0]);
            }
        }
        lemma_push_missing_all_monotone(f1, ids.drop_first(), ids[0]);
    } else {
        lemma_push_missing_all_added(f1, ids.drop_first(), j - 1);
        assert(ids.drop_first()[j - 1] == ids[j]);
    }
}

/// Inserting identifiers that are all present already changes nothing.
proof fn lemma_push_missing_all_noop(found: Seq<Seq<u8>>, ids: Seq<Seq<u8>>)
    requires
        forall|j: int| 0 <= j < ids.len() ==> found.contains(#[trigger] ids[j]),
    ensures
        push_missing_all(found, ids) == found,
    decreases ids.len(),
{
    if ids.len() > 0 {
        assert(found.contains(ids[0]));
        assert(push_missing(found, ids[0]) == found);
        assert forall|j: int| 0 <= j < ids.drop_first().len() implies found.contains(
            #[trigger] ids.drop_first()[j],
        ) by {
            assert(ids.drop_first()[j] == ids[j + 1]);
        }
        lemma_push_missing_all_noop(found, ids.drop_first());
    }
}

/// Dedup idempotence: resolving the same collection's members a second
/// time adds nothing — the deduplicated content after two passes equals
/// the content after one, so a track shared between two collections is
/// never double-counted.
pub proof fn lemma_dedup_idempotent(found: Seq<Seq<u8>>, ids: Seq<Seq<u8>>)
    ensures
        push_missing_all(push_missing_all(found, ids), ids) == push_missing_all(found, ids),
{
    let once = push_missing_all(found, ids);
    assert forall|j: int| 0 <= j < ids.len() implies once.contains(#[trigger] ids[j]) by {
        lemma_push_missing_all_added(found, ids, j);
    }
    lemma_push_missing_all_noop(once, ids);
}

/// A lookup failure, recorded and carried alongside the results instead of
/// aborting the run.
pub struct ResolutionWarning {
    pub kind: ResourceKind,
    pub id: CatalogId,
    pub cause: Vec<u8>,
}

/// Ghost image of a `ResolutionWarning`.
pub struct WarningView {
    pub kind: ResourceKind,
    pub id: Seq<u8>,
    pub cause: Seq<u8>,
}

impl View for ResolutionWarning {
    type V = WarningView;

    open spec fn view(&self) -> WarningView {
        WarningView { kind: self.kind, id: self.id@, cause: self.cause@ }
    }
}

/// One track-bearing grouping of an artist's releases: the albums in it,
/// in catalog order.
pub struct AlbumGroup {
    pub albums: Vec<CatalogId>,
}

impl View for AlbumGroup {
    type V = Seq<Seq<u8>>;

    open spec fn view(&self) -> Seq<Seq<u8>> {
        id_views(self.albums@)
    }
}

/// The ghost images of a sequence of groups, flattened in order.
pub open spec fn group_ids(gs: Seq<Seq<Seq<u8>>>) -> Seq<Seq<u8>>
    decreases gs.len(),
{
    if gs.len() == 0 {
        Seq::<Seq<u8>>::empty()
    } else {
        gs[0] + group_ids(gs.drop_first())
    }
}

/// Album references for a sequence of album identifiers, in order.
pub open spec fn album_refs(ids: Seq<Seq<u8>>) -> Seq<RefView> {
    ids.map_values(|id: Seq<u8>| RefView { kind: ResourceKind::Album, id })
}

/// Index of the first pending reference that needs a catalog lookup (any
/// kind but Track), or the length if only tracks remain.
pub open spec fn first_fetch(pending: Seq<RefView>) -> int
    decreases pending.len(),
{
    if pending.len() == 0 {
        0
    } else if pending[0].kind != ResourceKind::Track {
        0
    } else {
        1 + first_fetch(pending.drop_first())
    }
}

/// `first_fetch` is in bounds, points at a non-track reference when one
/// exists, and only track references come before it.
pub proof fn lemma_first_fetch(pending: Seq<RefView>)
    ensures
        0 <= first_fetch(pending) <= pending.len(),
        first_fetch(pending) < pending.len() ==> pending[first_fetch(pending)].kind
            != ResourceKind::Track,
        forall|j: int| 0 <= j < first_fetch(pending) ==> (#[trigger] pending[j]).kind
            == ResourceKind::Track,
    decreases pending.len(),
{
    if pending.len() == 0 {
    } else if pending[0].kind != ResourceKind::Track {
    } else {
        lemma_first_fetch(pending.drop_first());
        assert forall|j: int| 0 <= j < first_fetch(pending) implies (#[trigger] pending[j]).kind
            == ResourceKind::Track by {
            if j > 0 {
                assert(pending.drop_first()[j - 1] == pending[j]);
            }
        }
    }
}

/// Ghost image of the engine's whole state.
pub struct EngineView {
    pub pending: Seq<RefView>,
    pub found: Seq<Seq<u8>>,
    pub warnings: Seq<WarningView>,
}

/// The resolution engine's state: references still to expand, the
/// deduplicated track identifiers found so far, and the warnings recorded
/// for failed lookups.
pub struct ResolutionEngine {
    pending: Vec<CatalogReference>,
    found: IdSet,
    warnings: Vec<ResolutionWarning>,
}

impl View for ResolutionEngine {
    type V = EngineView;

    closed spec fn view(&self) -> EngineView {
        EngineView {
            pending: ref_views(self.pending@),
            found: self.found@,
            warnings: self.warnings@.map_values(|w: ResolutionWarning| w@),
        }
    }
}

impl ResolutionEngine {
    /// The found set never holds a duplicate.
    pub open spec fn wf(&self) -> bool {
        self@.found.no_duplicates()
    }

    /// Starts a run over the given references, in order.
    pub fn new(refs: Vec<CatalogReference>) -> (r: ResolutionEngine)
        ensures
            r@.pending == ref_views(refs@),
            r@.found == Seq::<Seq<u8>>::empty(),
            r@.warnings == Seq::<WarningView>::empty(),
            r.wf(),
    {
        let r = ResolutionEngine { pending: refs, found: IdSet::new(), warnings: Vec::new() };
        proof {
            assert(r@.warnings =~= Seq::<WarningView>::empty());
        }
        r
    }

    /// Hands out the next reference that needs a catalog lookup. Track
    /// references ahead of it contribute their identifiers directly and
    /// are consumed on the way; `None` means the run is complete.
    pub fn take_request(&mut self) -> (r: Option<CatalogReference>)
        requires
            old(self).wf(),
        ensures
            final(self).wf(),
            final(self)@.warnings == old(self)@.warnings,
            ({
                let pending = old(self)@.pending;
                let k = first_fetch(pending);
                match r {
                    Some(req) => {
                        &&& k < pending.len()
                        &&& req@ == pending[k]
                        &&& req@.kind != ResourceKind::Track
                        &&& final(self)@.pending == pending.skip(k + 1)
                        &&& final(self)@.found == push_missing_all(
                            old(self)@.found,
                            pending.take(k).map_values(|rv: RefView| rv.id),
                        )
                    },
                    None => {
                        &&& k == pending.len()
                        &&& final(self)@.pending == Seq::<RefView>::empty()
                        &&& final(self)@.found == push_missing_all(
                            old(self)@.found,
                            pending.map_values(|rv: RefView| rv.id),
                        )
                    },
                }
            }),
    {
        let ghost pending0 = self@.pending;
        let ghost found0 = self@.found;
        let pending_len = self.pending.len();
        proof {
            lemma_first_fetch(pending0);
            assert(pending0.len() == pending_len);
        }
        let mut taken: usize = 0;
        loop
            invariant
                0 <= taken <= pending0.len() <= usize::MAX,
                self@.pending == pending0.skip(taken as int),
                self@.found == push_missing_all(
                    found0,
                    pending0.take(taken as int).map_values(|rv: RefView| rv.id),
                ),
                self@.warnings == old(self)@.warnings,
                self.wf(),
                forall|j: int| 0 <= j < taken ==> (#[trigger] pending0[j]).kind
                    == ResourceKind::Track,
            ensures
                self@.warnings == old(self)@.warnings,
                self.wf(),
                taken == first_fetch(pending0),
                taken == pending0.len() ==> self@.pending =~= Seq::<RefView>::empty()
                    && self@.found == push_missing_all(
                    found0,
                    pending0.map_values(|rv: RefView| rv.id),
                ),
                taken < pending0.len() ==> self@.pending == pending0.skip(taken as int)
                    && self@.found == push_missing_all(
                    found0,
                    pending0.take(taken as int).map_values(|rv: RefView| rv.id),
                ) && pending0[taken as int].kind != ResourceKind::Track,
            decreases pending0.len() - taken,
        {
            if self.pending.len() == 0 {
                proof {
                    lemma_first_fetch(pending0);
                    assert(self@.pending.len() == 0);
                    assert(taken == pending0.len());
                    if first_fetch(pending0) < taken {
                        assert(pending0[first_fetch(pending0)].kind == ResourceKind::Track);
                        assert(false);
                    }
                    assert(taken == first_fetch(pending0));
                    assert(pending0.take(taken as int) =~= pending0);
                }
                break ;
            }
            proof {
                vstd::seq_lib::lemma_seq_skip_index(pending0, taken as int, 0);
                assert(self@.pending[0] == pending0[taken as int]);
                assert(self@.pending[0] == self.pending@[0]@);
            }
            let is_track = match self.pending[0].kind {
                ResourceKind::Track => true,
                _ => false,
            };
            if !is_track {
                proof {
                    lemma_first_fetch(pending0);
                    if first_fetch(pending0) < taken {
                        assert(pending0[first_fetch(pending0)].kind == ResourceKind::Track);
                        assert(false);
                    }
                    if first_fetch(pending0) > taken {
                        assert(pending0[taken as int].kind == ResourceKind::Track);
                        assert(false);
                    }
                }
                break ;
            }
            let ghost before = self.pending@;
            let req = self.pending.remove(0);
            self.found.insert(req.id);
            proof {
                assert(self.pending@ =~= before.drop_first());
                assert(ref_views(self.pending@) =~= ref_views(before).drop_first());
                assert(self@.pending =~= pending0.skip(taken + 1));
                let prefix = pending0.take(taken as int).map_values(|rv: RefView| rv.id);
                let prefix1 = pending0.take(taken + 1).map_values(|rv: RefView| rv.id);
                assert(prefix1 =~= prefix.push(pending0[taken as int].id));
                lemma_push_missing_all_snoc(found0, prefix, pending0[taken as int].id);
                assert(req.id@ == pending0[taken as int].id);
            }
            taken = taken + 1;
        }
        if self.pending.len() == 0 {
            None
        } else {
            let ghost before = self.pending@;
            proof {
                assert(ref_views(before)[0] == before[0]@);
                vstd::seq_lib::lemma_seq_skip_index(pending0, taken as int, 0);
                assert(pending0.skip(taken as int)[0] == pending0[taken as int]);
            }
            let req = self.pending.remove(0);
            proof {
                assert(self.pending@ =~= before.drop_first());
                assert(ref_views(self.pending@) =~= ref_views(before).drop_first());
                assert(self@.pending =~= pending0.skip(taken + 1));
            }
            Some(req)
        }
    }

    /// Feeds back the member tracks of a playlist or album lookup: each is
    /// inserted, duplicates dropped.
    #[verifier::loop_isolation(false)]
    pub fn on_members(&mut self, ids: &Vec<CatalogId>)
        requires
            old(self).wf(),
        ensures
            final(self).wf(),
            final(self)@.pending == old(self)@.pending,
            final(self)@.warnings == old(self)@.warnings,
            final(self)@.found == push_missing_all(old(self)@.found, id_views(ids@)),
    {
        let ghost found0 = self@.found;
        let n = ids.len();
        let mut i: usize = 0;
        while i < n
            invariant
                0 <= i <= n,
                self@.pending == old(self)@.pending,
                self@.warnings == old(self)@.warnings,
                self.wf(),
                self@.found == push_missing_all(found0, id_views(ids@).take(i as int)),
            decreases n - i,
        {
            proof {
                assert(id_views(ids@)[i as int] == ids@[i as int]@);
            }
            self.found.insert(ids[i].duplicate());
            proof {
                let prefix = id_views(ids@).take(i as int);
                assert(id_views(ids@).take(i + 1) =~= prefix.push(id_views(ids@)[i as int]));
                lemma_push_missing_all_snoc(found0, prefix, id_views(ids@)[i as int]);
            }
            i = i + 1;
        }
        proof {
            assert(id_views(ids@).take(n as int) =~= id_views(ids@));
        }
    }

    /// Feeds back an artist lookup: every album of every grouping re-enters
    /// the run as an album reference, ahead of the remaining references,
    /// and is later expanded exactly as a plain album reference would be.
    #[verifier::loop_isolation(false)]
    pub fn on_artist(&mut self, groups: &Vec<AlbumGroup>)
        requires
            old(self).wf(),
        ensures
            final(self).wf(),
            final(self)@.found == old(self)@.found,
            final(self)@.warnings == old(self)@.warnings,
            final(self)@.pending == album_refs(
                group_ids(groups@.map_values(|g: AlbumGroup| g@)),
            ) + old(self)@.pending,
    {
        let ghost gviews = groups@.map_values(|g: AlbumGroup| g@);
        let mut refs: Vec<CatalogReference> = Vec::new();
        proof {
            assert(ref_views(refs@) =~= album_refs(group_ids(gviews.take(0))));
        }
        let gn = groups.len();
        let mut g: usize = 0;
        while g < gn
            invariant
                0 <= g <= gn,
                gn == gviews.len(),
                ref_views(refs@) == album_refs(group_ids(gviews.take(g as int))),
            decreases gn - g,
        {
            let group = &groups[g];
            proof {
                assert(gviews[g as int] == groups@[g as int]@);
            }
            let an = group.albums.len();
            let mut a: usize = 0;
            while a < an
                invariant
                    0 <= a <= an,
                    0 <= g < gn,
                    gn == gviews.len(),
                    an == gviews[g as int].len(),
                    gviews[g as int] == groups@[g as int]@,
                    ref_views(refs@) == album_refs(
                        group_ids(gviews.take(g as int)) + gviews[g as int].take(a as int),
                    ),
                decreases an - a,
            {
                proof {
                    assert(gviews[g as int][a as int] == group.albums@[a as int]@);
                }
                let ghost prev = refs@;
                refs.push(
                    CatalogReference { kind: ResourceKind::Album, id: group.albums[a].duplicate() },
                );
                proof {
                    assert(ref_views(refs@) =~= ref_views(prev).push(
                        RefView { kind: ResourceKind::Album, id: gviews[g as int][a as int] },
                    ));
                    assert(ref_views(refs@) =~= album_refs(
                        group_ids(gviews.take(g as int)) + gviews[g as int].take(a + 1),
                    ));
                }
                a = a + 1;
            }
            proof {
                lemma_group_ids_snoc(gviews, g as int);
                assert(gviews[g as int].take(an as int) =~= gviews[g as int]);
                assert(ref_views(refs@) =~= album_refs(group_ids(gviews.take(g + 1))));
            }
            g = g + 1;
        }
        proof {
            assert(gviews.take(gn as int) =~= gviews);
        }
        let ghost built = ref_views(refs@);
        refs.append(&mut self.pending);
        self.pending = refs;
        proof {
            assert(self@.pending =~= built + old(self)@.pending);
        }
    }

    /// Records a failed lookup as a warning; resolution of the remaining
    /// references goes on.
    pub fn on_failure(&mut self, kind: ResourceKind, id: CatalogId, cause: Vec<u8>)
        requires
            old(self).wf(),
        ensures
            final(self).wf(),
            final(self)@.pending == old(self)@.pending,
            final(self)@.found == old(self)@.found,
            final(self)@.warnings == old(self)@.warnings.push(
                WarningView { kind, id: id@, cause: cause@ },
            ),
    {
        let ghost prev = self.warnings@;
        let w = ResolutionWarning { kind, id, cause };
        self.warnings.push(w);
        proof {
            assert(self@.warnings =~= prev.map_values(|w: ResolutionWarning| w@).push(
                WarningView { kind, id: id@, cause: cause@ },
            ));
        }
    }

    /// Ends the run, handing out the deduplicated identifiers and the
    /// warnings.
    pub fn into_results(self) -> (r: (IdSet, Vec<ResolutionWarning>))
        ensures
            r.0@ == self@.found,
            r.1@.map_values(|w: ResolutionWarning| w@) == self@.warnings,
    {
        (self.found, self.warnings)
    }
}

/// Inserting one more identifier after a prefix.
proof fn lemma_push_missing_all_snoc(found: Seq<Seq<u8>>, ids: Seq<Seq<u8>>, x: Seq<u8>)
    ensures
        push_missing_all(found, ids.push(x)) == push_missing(push_missing_all(found, ids), x),
    decreases ids.len(),
{
    reveal_with_fuel(push_missing_all, 3);
    if ids.len() == 0 {
        assert(ids.push(x)[0] == x);
        assert(ids.push(x).drop_first() =~= Seq::<Seq<u8>>::empty());
    } else {
        assert(ids.push(x)[0] == ids[0]);
        assert(ids.push(x).drop_first() =~= ids.drop_first().push(x));
        lemma_push_missing_all_snoc(push_missing(found, ids[0]), ids.drop_first(), x);
    }
}

/// Flattening one more group after a prefix.
proof fn lemma_group_ids_snoc(gs: Seq<Seq<Seq<u8>>>, g: int)
    requires
        0 <= g < gs.len(),
    ensures
        group_ids(gs.take(g + 1)) == group_ids(gs.take(g)) + gs[g],
    decreases g,
{
    reveal_with_fuel(group_ids, 3);
    if g == 0 {
        assert(gs.take(1)[0] == gs[0]);
        assert(gs.take(1).drop_first() =~= Seq::<Seq<Seq<u8>>>::empty());
        assert(group_ids(gs.take(1)) =~= group_ids(gs.take(0)) + gs[0]);
    } else {
        assert(gs.take(g + 1)[0] == gs[0]);
        assert(gs.take(g + 1).drop_first() =~= gs.drop_first().take(g));
        assert(gs.take(g)[0] == gs[0]);
        assert(gs.take(g).drop_first() =~= gs.drop_first().take(g - 1));
        assert(gs.drop_first()[g - 1] == gs[g]);
        lemma_group_ids_snoc(gs.drop_first(), g - 1);
        assert(group_ids(gs.take(g + 1)) =~= group_ids(gs.take(g)) + gs[g]);
    }
}

} // verus!
