use vstd::prelude::*;

use crate::cached_object_storage::{
    bytes_eq, distinct_keys, has_key, lemma_map_of_keys, map_of, CachedObjectStorage,
};
use crate::metadata::FileLikeMetadata;

verus! {

/// Why a scan step could not proceed.
#[derive(Debug, Clone, PartialEq, Eq)]
pub enum ReadError {
    /// A lookup or enumeration failed for a reason other than "not found".
    Io,
    /// A glob pattern could not be parsed.
    MalformedPattern,
    /// A stored object key does not decode to a representable path.
    NotRepresentable,
}

/// One proposed change to the known object set. The scanner proposes;
/// the engine applies accepted actions to the cached store.
#[derive(Debug, Clone, PartialEq, Eq)]
pub enum QueuedAction {
    /// A previously-unseen object now exists: initial ingestion.
    Read(Vec<u8>, FileLikeMetadata),
    /// An already-known object's metadata changed.
    Update(Vec<u8>, FileLikeMetadata),
    /// A previously-known object no longer resolves.
    Delete(Vec<u8>),
}

/// The mathematical value of a queued action.
pub enum ActionView {
    Read(Seq<u8>, FileLikeMetadata),
    Update(Seq<u8>, FileLikeMetadata),
    Delete(Seq<u8>),
}

impl ActionView {
    pub open spec fn key(self) -> Seq<u8> {
        match self {
            ActionView::Read(k, _) => k,
            ActionView::Update(k, _) => k,
            ActionView::Delete(k) => k,
        }
    }
}

impl View for QueuedAction {
    type V = ActionView;

    open spec fn view(&self) -> ActionView {
        match self {
            QueuedAction::Read(k, m) => ActionView::Read(k@, *m),
            QueuedAction::Update(k, m) => ActionView::Update(k@, *m),
            QueuedAction::Delete(k) => ActionView::Delete(k@),
        }
    }
}

impl QueuedAction {
    /// The object key the action refers to.
    pub fn key_bytes(&self) -> (r: &Vec<u8>)
        ensures
            r@ == self@.key(),
    {
        match self {
            QueuedAction::Read(k, _) => k,
            QueuedAction::Update(k, _) => k,
            QueuedAction::Delete(k) => k,
        }
    }
}

/// What a point lookup of an object's current metadata came back with.
#[derive(Debug, Clone, Copy, PartialEq, Eq)]
pub enum MetadataLookup {
    /// The object exists and has this metadata.
    Found(FileLikeMetadata),
    /// The object does not currently exist.
    Absent,
    /// The stored key does not decode to a path that can be looked up.
    Unrepresentable,
    /// The lookup failed with a genuine I/O error.
    Failed,
}

/// A candidate discovered by enumeration: its object key, and the
/// metadata its stat came back with (`None` when the object vanished
/// between enumeration and stat).
#[derive(Debug, Clone, PartialEq, Eq)]
pub struct DiscoveredObject {
    pub key: Vec<u8>,
    pub metadata: Option<FileLikeMetadata>,
}

impl View for DiscoveredObject {
    type V = (Seq<u8>, Option<FileLikeMetadata>);

    open spec fn view(&self) -> (Seq<u8>, Option<FileLikeMetadata>) {
        (self.key@, self.metadata)
    }
}

pub open spec fn action_views(s: Seq<QueuedAction>) -> Seq<ActionView> {
    s.map_values(|a: QueuedAction| a@)
}

pub open spec fn discovered_views(s: Seq<DiscoveredObject>) -> Seq<(Seq<u8>, Option<FileLikeMetadata>)> {
    s.map_values(|d: DiscoveredObject| d@)
}

/// Some action in the batch refers to this key.
pub open spec fn actions_contain_key(acts: Seq<ActionView>, key: Seq<u8>) -> bool {
    exists|i: int| 0 <= i < acts.len() && acts[i].key() == key
}

/// How many actions in the batch refer to this key.
pub open spec fn key_count(acts: Seq<ActionView>, key: Seq<u8>) -> nat
    decreases acts.len(),
{
    if acts.len() == 0 {
        0
    } else {
        key_count(acts.drop_last(), key) + if acts.last().key() == key {
            1nat
        } else {
            0nat
        }
    }
}

/// No two actions in the batch refer to the same key.
pub open spec fn distinct_action_keys(acts: Seq<ActionView>) -> bool {
    forall|i: int, j: int| 0 <= i < j < acts.len() ==> acts[i].key() != acts[j].key()
}

/// The at-most-once-per-object invariant every emitted batch obeys:
/// keys are distinct, a `Read` is only for an untracked key, and an
/// `Update` or `Delete` is only for a known one.
pub open spec fn batch_invariant(
    known: Map<Seq<u8>, FileLikeMetadata>,
    acts: Seq<ActionView>,
) -> bool {
    &&& distinct_action_keys(acts)
    &&& forall|i: int|
        0 <= i < acts.len() ==> match #[trigger] acts[i] {
            ActionView::Read(k, _) => !known.contains_key(k),
            ActionView::Update(k, _) => known.contains_key(k),
            ActionView::Delete(k) => known.contains_key(k),
        }
}

/// What one known entry contributes to the deletion/update pass,
/// given what its lookup came back with: gone means `Delete`, changed
/// metadata means `Update`, anything else means no action.
pub open spec fn deletion_contribution(
    key: Seq<u8>,
    stored: FileLikeMetadata,
    outcome: MetadataLookup,
) -> Seq<ActionView> {
    match outcome {
        MetadataLookup::Absent => seq![ActionView::Delete(key)],
        MetadataLookup::Found(m) => if stored.is_changed_spec(m) {
            seq![ActionView::Update(key, m)]
        } else {
            Seq::empty()
        },
        MetadataLookup::Unrepresentable => Seq::empty(),
        MetadataLookup::Failed => Seq::empty(),
    }
}

/// The whole deletion/update pass: entry `i` of the store is judged
/// against lookup outcome `i`, contributions in store order.
pub open spec fn deletion_actions_spec(
    entries: Seq<(Seq<u8>, FileLikeMetadata)>,
    outcomes: Seq<MetadataLookup>,
) -> Seq<ActionView>
    decreases entries.len(),
{
    if entries.len() == 0 || entries.len() > outcomes.len() {
        Seq::empty()
    } else {
        deletion_actions_spec(entries.drop_last(), outcomes) + deletion_contribution(
            entries.last().0,
            entries.last().1,
            outcomes[entries.len() - 1],
        )
    }
}

/// The whole insertion pass: a candidate becomes a `Read` exactly when
/// its key is not yet known, no earlier candidate already produced an
/// action for the same key, and its stat succeeded.
pub open spec fn insertion_actions_spec(
    known: Map<Seq<u8>, FileLikeMetadata>,
    cands: Seq<(Seq<u8>, Option<FileLikeMetadata>)>,
) -> Seq<ActionView>
    decreases cands.len(),
{
    if cands.len() == 0 {
        Seq::empty()
    } else {
        let prefix = insertion_actions_spec(known, cands.drop_last());
        let k = cands.last().0;
        if known.contains_key(k) || actions_contain_key(prefix, k) {
            prefix
        } else {
            match cands.last().1 {
                Some(m) => prefix.push(ActionView::Read(k, m)),
                None => prefix,
            }
        }
    }
}

/// Judge every known entry against the outcome of its lookup. An
/// `Io`-failed lookup is fatal for the cycle, because it may hide a
/// real deletion; an unrepresentable key is skipped, never fatal.
pub fn deletion_and_replacement_actions_for(
    cached: &CachedObjectStorage,
    outcomes: &Vec<MetadataLookup>,
) -> (r: Result<Vec<QueuedAction>, ReadError>)
    requires
        outcomes@.len() == cached.entry_seq().len(),
    ensures
        match r {
            Ok(acts) => action_views(acts@) == deletion_actions_spec(
                cached.entry_seq(),
                outcomes@,
            ) && forall|i: int| 0 <= i < outcomes@.len() ==> !(#[trigger] outcomes@[i] is Failed),
            Err(e) => e == ReadError::Io && exists|i: int|
                0 <= i < outcomes@.len() && #[trigger] outcomes@[i] is Failed,
        },
{
    let ghost s = cached.entry_seq();
    let mut result: Vec<QueuedAction> = Vec::new();
    let n = cached.len();
    assert(action_views(result@) =~= deletion_actions_spec(s.take(0), outcomes@));
    let mut i: usize = 0;
    while i < n
        invariant
            n == s.len(),
            s == cached.entry_seq(),
            outcomes@.len() == n,
            i <= n,
            action_views(result@) == deletion_actions_spec(s.take(i as int), outcomes@),
            forall|j: int| 0 <= j < i ==> !(#[trigger] outcomes@[j] is Failed),
        decreases n - i,
    {
        let ghost prev = action_views(result@);
        proof {
            assert(s.take(i + 1).drop_last() =~= s.take(i as int));
            assert(s.take(i + 1).last() == s[i as int]);
        }
        match &outcomes[i] {
            MetadataLookup::Failed => {
                assert(outcomes@[i as int] is Failed);
                return Err(ReadError::Io);
            },
            MetadataLookup::Absent => {
                let key = cached.key_at(i).clone();
                result.push(QueuedAction::Delete(key));
                proof {
                    assert(action_views(result@) =~= prev.push(ActionView::Delete(s[i as int].0)));
                    assert(prev.push(ActionView::Delete(s[i as int].0)) =~= prev
                        + deletion_contribution(s[i as int].0, s[i as int].1, outcomes@[i as int]));
                }
            },
            MetadataLookup::Found(m) => {
                let stored = cached.metadata_at(i);
                if stored.is_changed(m) {
                    let key = cached.key_at(i).clone();
                    result.push(QueuedAction::Update(key, *m));
                    proof {
                        assert(action_views(result@) =~= prev.push(
                            ActionView::Update(s[i as int].0, *m),
                        ));
                        assert(prev.push(ActionView::Update(s[i as int].0, *m)) =~= prev
                            + deletion_contribution(
                            s[i as int].0,
                            s[i as int].1,
                            outcomes@[i as int],
                        ));
                    }
                } else {
                    proof {
                        assert(prev =~= prev + deletion_contribution(
                            s[i as int].0,
                            s[i as int].1,
                            outcomes@[i as int],
                        ));
                    }
                }
            },
            MetadataLookup::Unrepresentable => {
                proof {
                    assert(prev =~= prev + deletion_contribution(
                        s[i as int].0,
                        s[i as int].1,
                        outcomes@[i as int],
                    ));
                }
            },
        }
        i += 1;
    }
    proof {
        assert(s.take(n as int) =~= s);
    }
    Ok(result)
}

/// Whether some action already in the batch refers to this key.
pub fn actions_have_key(acts: &Vec<QueuedAction>, key: &[u8]) -> (r: bool)
    ensures
        r == actions_contain_key(action_views(acts@), key@),
{
    let ghost views = action_views(acts@);
    let n = acts.len();
    let mut i: usize = 0;
    while i < n
        invariant
            n == acts@.len(),
            views == action_views(acts@),
            views.len() == n,
            i <= n,
            forall|j: int| 0 <= j < i ==> #[trigger] views[j].key() != key@,
        decreases n - i,
    {
        assert(views[i as int] == acts@[i as int]@);
        if bytes_eq(acts[i].key_bytes().as_slice(), key) {
            assert(views[i as int].key() == key@);
            return true;
        }
        i += 1;
    }
    false
}

/// Turn discovered candidates into `Read` proposals, suppressing keys
/// that are already known, keys already proposed in this batch, and
/// candidates whose stat lost the race.
pub fn insertion_actions_for(
    cached: &CachedObjectStorage,
    candidates: &Vec<DiscoveredObject>,
) -> (r: Vec<QueuedAction>)
    ensures
        action_views(r@) == insertion_actions_spec(cached@, discovered_views(candidates@)),
{
    let ghost cands = discovered_views(candidates@);
    let mut result: Vec<QueuedAction> = Vec::new();
    let n = candidates.len();
    assert(action_views(result@) =~= insertion_actions_spec(cached@, cands.take(0)));
    let mut i: usize = 0;
    while i < n
        invariant
            n == candidates@.len(),
            cands == discovered_views(candidates@),
            cands.len() == n,
            i <= n,
            action_views(result@) == insertion_actions_spec(cached@, cands.take(i as int)),
        decreases n - i,
    {
        let ghost prev = action_views(result@);
        proof {
            assert(cands.take(i + 1).drop_last() =~= cands.take(i as int));
            assert(cands.take(i + 1).last() == cands[i as int]);
            assert(cands[i as int] == candidates@[i as int]@);
        }
        let known = cached.contains_object(candidates[i].key.as_slice());
        if !known {
            let emitted = actions_have_key(&result, candidates[i].key.as_slice());
            if !emitted {
                match &candidates[i].metadata {
                    Some(m) => {
                        let key = candidates[i].key.clone();
                        result.push(QueuedAction::Read(key, *m));
                        proof {
                            assert(action_views(result@) =~= prev.push(
                                ActionView::Read(cands[i as int].0, *m),
                            ));
                        }
                    },
                    None => {},
                }
            }
        }
        i += 1;
    }
    proof {
        assert(cands.take(n as int) =~= cands);
    }
    result
}

proof fn lemma_key_count_concat(a: Seq<ActionView>, b: Seq<ActionView>, k: Seq<u8>)
    ensures
        key_count(a + b, k) == key_count(a, k) + key_count(b, k),
    decreases b.len(),
{
    if b.len() == 0 {
        assert(a + b =~= a);
    } else {
        assert((a + b).drop_last() =~= a + b.drop_last());
        assert((a + b).last() == b.last());
        lemma_key_count_concat(a, b.drop_last(), k);
    }
}

proof fn lemma_key_count_zero(acts: Seq<ActionView>, k: Seq<u8>)
    ensures
        key_count(acts, k) == 0 <==> !actions_contain_key(acts, k),
    decreases acts.len(),
{
    if acts.len() > 0 {
        lemma_key_count_zero(acts.drop_last(), k);
        if acts.last().key() == k {
            assert(acts[acts.len() - 1].key() == k);
            assert(actions_contain_key(acts, k));
        } else {
            if actions_contain_key(acts, k) {
                let i = choose|i: int| 0 <= i < acts.len() && acts[i].key() == k;
                assert(i < acts.len() - 1);
                assert(acts.drop_last()[i] == acts[i]);
                assert(actions_contain_key(acts.drop_last(), k));
            }
            if actions_contain_key(acts.drop_last(), k) {
                let i = choose|i: int|
                    0 <= i < acts.drop_last().len() && acts.drop_last()[i].key() == k;
                assert(acts[i] == acts.drop_last()[i]);
                assert(actions_contain_key(acts, k));
            }
        }
    }
}

/// The deletion/update pass never mentions a key that no entry carries.
proof fn lemma_deletion_untracked(
    entries: Seq<(Seq<u8>, FileLikeMetadata)>,
    outcomes: Seq<MetadataLookup>,
    k: Seq<u8>,
)
    requires
        !has_key(entries, k),
    ensures
        key_count(deletion_actions_spec(entries, outcomes), k) == 0,
        !actions_contain_key(deletion_actions_spec(entries, outcomes), k),
    decreases entries.len(),
{
    lemma_key_count_zero(deletion_actions_spec(entries, outcomes), k);
    if entries.len() == 0 || entries.len() > outcomes.len() {
    } else {
        assert(!has_key(entries.drop_last(), k)) by {
            if has_key(entries.drop_last(), k) {
                let i = choose|i: int|
                    0 <= i < entries.drop_last().len() && entries.drop_last()[i].0 == k;
                assert(entries[i] == entries.drop_last()[i]);
                assert(has_key(entries, k));
            }
        }
        lemma_deletion_untracked(entries.drop_last(), outcomes, k);
        let c = deletion_contribution(
            entries.last().0,
            entries.last().1,
            outcomes[entries.len() - 1],
        );
        lemma_key_count_concat(deletion_actions_spec(entries.drop_last(), outcomes), c, k);
        assert(entries[entries.len() - 1].0 != k);
        assert(key_count(c, k) == 0) by {
            assert(key_count(Seq::<ActionView>::empty(), k) == 0);
            if c.len() > 0 {
                assert(c.drop_last() =~= Seq::<ActionView>::empty());
                assert(c.last().key() == entries[entries.len() - 1].0);
                assert(key_count(c, k) == key_count(c.drop_last(), k));
            }
        }
    }
}

/// Every action of the deletion/update pass for a given entry's key is
/// exactly that entry's contribution, and it occurs exactly
/// `contribution.len()` times (zero or one).
proof fn lemma_deletion_per_entry(
    entries: Seq<(Seq<u8>, FileLikeMetadata)>,
    outcomes: Seq<MetadataLookup>,
    i: int,
)
    requires
        distinct_keys(entries),
        entries.len() <= outcomes.len(),
        0 <= i < entries.len(),
    ensures
        key_count(deletion_actions_spec(entries, outcomes), entries[i].0)
            == deletion_contribution(entries[i].0, entries[i].1, outcomes[i]).len(),
        forall|j: int|
            0 <= j < deletion_actions_spec(entries, outcomes).len() && (
            #[trigger] deletion_actions_spec(entries, outcomes)[j]).key() == entries[i].0
                ==> deletion_actions_spec(entries, outcomes)[j] == deletion_contribution(
                entries[i].0,
                entries[i].1,
                outcomes[i],
            )[0],
    decreases entries.len(),
{
    let acts = deletion_actions_spec(entries, outcomes);
    let prefix = deletion_actions_spec(entries.drop_last(), outcomes);
    let c = deletion_contribution(entries.last().0, entries.last().1, outcomes[entries.len() - 1]);
    assert(acts == prefix + c);
    lemma_key_count_concat(prefix, c, entries[i].0);
    if i == entries.len() - 1 {
        assert(!has_key(entries.drop_last(), entries[i].0)) by {
            if has_key(entries.drop_last(), entries[i].0) {
                let j = choose|j: int|
                    0 <= j < entries.drop_last().len() && entries.drop_last()[j].0 == entries[i].0;
                assert(entries[j] == entries.drop_last()[j]);
            }
        }
        lemma_deletion_untracked(entries.drop_last(), outcomes, entries[i].0);
        assert(key_count(c, entries[i].0) == c.len()) by {
            assert(key_count(Seq::<ActionView>::empty(), entries[i].0) == 0);
            if c.len() > 0 {
                assert(c.drop_last() =~= Seq::<ActionView>::empty());
                assert(c.last().key() == entries[i].0);
                assert(key_count(c, entries[i].0) == key_count(c.drop_last(), entries[i].0) + 1);
            }
        }
        assert forall|j: int|
            0 <= j < acts.len() && (#[trigger] acts[j]).key() == entries[i].0 implies acts[j] == c[0] by {
            if j < prefix.len() {
                assert(acts[j] == prefix[j]);
                assert(actions_contain_key(prefix, entries[i].0));
            } else {
                assert(acts[j] == c[j - prefix.len()]);
            }
        }
    } else {
        assert(distinct_keys(entries.drop_last())) by {
            assert forall|a: int, b: int|
                0 <= a < b < entries.drop_last().len() implies entries.drop_last()[a].0
                != entries.drop_last()[b].0 by {
                assert(entries.drop_last()[a] == entries[a]);
                assert(entries.drop_last()[b] == entries[b]);
            }
        }
        assert(entries.drop_last()[i] == entries[i]);
        lemma_deletion_per_entry(entries.drop_last(), outcomes, i);
        assert(entries[entries.len() - 1].0 != entries[i].0);
        assert(key_count(c, entries[i].0) == 0) by {
            assert(key_count(Seq::<ActionView>::empty(), entries[i].0) == 0);
            if c.len() > 0 {
                assert(c.drop_last() =~= Seq::<ActionView>::empty());
                assert(c.last().key() == entries[entries.len() - 1].0);
                assert(key_count(c, entries[i].0) == key_count(c.drop_last(), entries[i].0));
            }
        }
        assert forall|j: int|
            0 <= j < acts.len() && (#[trigger] acts[j]).key() == entries[i].0 implies acts[j]
            == deletion_contribution(entries[i].0, entries[i].1, outcomes[i])[0] by {
            if j < prefix.len() {
                assert(acts[j] == prefix[j]);
            } else {
                assert(acts[j] == c[j - prefix.len()]);
                assert(acts[j].key() == entries[entries.len() - 1].0);
            }
        }
    }
}

/// No missed deletion: when a tracked object's lookup says it is gone,
/// the deletion/update pass proposes exactly one action for its key,
/// and that action is `Delete`.
pub proof fn lemma_no_missed_deletion(
    entries: Seq<(Seq<u8>, FileLikeMetadata)>,
    outcomes: Seq<MetadataLookup>,
    i: int,
)
    requires
        distinct_keys(entries),
        entries.len() <= outcomes.len(),
        0 <= i < entries.len(),
        outcomes[i] is Absent,
    ensures
        key_count(deletion_actions_spec(entries, outcomes), entries[i].0) == 1,
        forall|j: int|
            0 <= j < deletion_actions_spec(entries, outcomes).len() && (
            #[trigger] deletion_actions_spec(entries, outcomes)[j]).key() == entries[i].0
                ==> deletion_actions_spec(entries, outcomes)[j] == ActionView::Delete(
                entries[i].0,
            ),
{
    lemma_deletion_per_entry(entries, outcomes, i);
    assert(deletion_contribution(entries[i].0, entries[i].1, outcomes[i]) =~= seq![
        ActionView::Delete(entries[i].0),
    ]);
}

/// Update detection is metadata-driven: a tracked object whose fresh
/// metadata differs in size or modification time gets exactly one
/// action, an `Update` carrying the fresh metadata; one whose metadata
/// is unchanged gets no action at all.
pub proof fn lemma_update_detection(
    entries: Seq<(Seq<u8>, FileLikeMetadata)>,
    outcomes: Seq<MetadataLookup>,
    i: int,
    m: FileLikeMetadata,
)
    requires
        distinct_keys(entries),
        entries.len() <= outcomes.len(),
        0 <= i < entries.len(),
        outcomes[i] == MetadataLookup::Found(m),
    ensures
        entries[i].1.is_changed_spec(m) ==> key_count(
            deletion_actions_spec(entries, outcomes),
            entries[i].0,
        ) == 1 && forall|j: int|
            0 <= j < deletion_actions_spec(entries, outcomes).len() && (
            #[trigger] deletion_actions_spec(entries, outcomes)[j]).key() == entries[i].0
                ==> deletion_actions_spec(entries, outcomes)[j] == ActionView::Update(
                entries[i].0,
                m,
            ),
        !entries[i].1.is_changed_spec(m) ==> !actions_contain_key(
            deletion_actions_spec(entries, outcomes),
            entries[i].0,
        ),
{
    lemma_deletion_per_entry(entries, outcomes, i);
    if entries[i].1.is_changed_spec(m) {
        assert(deletion_contribution(entries[i].0, entries[i].1, outcomes[i]) =~= seq![
            ActionView::Update(entries[i].0, m),
        ]);
    } else {
        assert(deletion_contribution(entries[i].0, entries[i].1, outcomes[i]).len() == 0);
        lemma_key_count_zero(deletion_actions_spec(entries, outcomes), entries[i].0);
    }
}

/// No duplicate insertion: the insertion pass never proposes a `Read`
/// for a key that the cached store already holds.
pub proof fn lemma_no_duplicate_insertion(
    known: Map<Seq<u8>, FileLikeMetadata>,
    cands: Seq<(Seq<u8>, Option<FileLikeMetadata>)>,
    k: Seq<u8>,
)
    requires
        known.contains_key(k),
    ensures
        !actions_contain_key(insertion_actions_spec(known, cands), k),
    decreases cands.len(),
{
    if cands.len() > 0 {
        lemma_no_duplicate_insertion(known, cands.drop_last(), k);
        let prefix = insertion_actions_spec(known, cands.drop_last());
        let acts = insertion_actions_spec(known, cands);
        if actions_contain_key(acts, k) {
            let i = choose|i: int| 0 <= i < acts.len() && acts[i].key() == k;
            if i < prefix.len() && acts == prefix.push(
                ActionView::Read(cands.last().0, cands.last().1->Some_0),
            ) {
                assert(prefix[i] == acts[i]);
                assert(actions_contain_key(prefix, k));
            } else if acts == prefix {
                assert(actions_contain_key(prefix, k));
            } else {
                assert(acts[i] == acts.last());
                assert(cands.last().0 == k);
                assert(!known.contains_key(k));
            }
        }
    }
}

/// The insertion pass proposes only `Read` actions, only for keys the
/// store does not hold, and never two actions for one key.
proof fn lemma_insertion_shape(
    known: Map<Seq<u8>, FileLikeMetadata>,
    cands: Seq<(Seq<u8>, Option<FileLikeMetadata>)>,
)
    ensures
        forall|j: int|
            0 <= j < insertion_actions_spec(known, cands).len() ==> (
            #[trigger] insertion_actions_spec(known, cands)[j]) is Read && !known.contains_key(
                insertion_actions_spec(known, cands)[j].key(),
            ),
        distinct_action_keys(insertion_actions_spec(known, cands)),
    decreases cands.len(),
{
    if cands.len() > 0 {
        lemma_insertion_shape(known, cands.drop_last());
        let prefix = insertion_actions_spec(known, cands.drop_last());
        let acts = insertion_actions_spec(known, cands);
        if acts != prefix {
            assert(acts == prefix.push(ActionView::Read(cands.last().0, cands.last().1->Some_0)));
            assert(!actions_contain_key(prefix, cands.last().0));
            assert forall|a: int, b: int|
                0 <= a < b < acts.len() implies acts[a].key() != acts[b].key() by {
                if b < prefix.len() {
                    assert(acts[a] == prefix[a]);
                    assert(acts[b] == prefix[b]);
                } else {
                    assert(acts[a] == prefix[a]);
                    if acts[a].key() == cands.last().0 {
                        assert(actions_contain_key(prefix, cands.last().0));
                    }
                }
            }
        }
    }
}

/// A key with no candidate in the enumeration gets no insertion action.
proof fn lemma_insertion_unseen(
    known: Map<Seq<u8>, FileLikeMetadata>,
    cands: Seq<(Seq<u8>, Option<FileLikeMetadata>)>,
    k: Seq<u8>,
)
    requires
        forall|i: int| 0 <= i < cands.len() ==> (#[trigger] cands[i]).0 != k,
    ensures
        !actions_contain_key(insertion_actions_spec(known, cands), k),
    decreases cands.len(),
{
    if cands.len() > 0 {
        assert forall|i: int| 0 <= i < cands.drop_last().len() implies (
            #[trigger] cands.drop_last()[i]).0 != k by {
            assert(cands.drop_last()[i] == cands[i]);
        }
        lemma_insertion_unseen(known, cands.drop_last(), k);
        let prefix = insertion_actions_spec(known, cands.drop_last());
        let acts = insertion_actions_spec(known, cands);
        if actions_contain_key(acts, k) {
            let i = choose|i: int| 0 <= i < acts.len() && acts[i].key() == k;
            if acts == prefix {
                assert(actions_contain_key(prefix, k));
            } else {
                if i < prefix.len() {
                    assert(acts[i] == prefix[i]);
                    assert(actions_contain_key(prefix, k));
                } else {
                    assert(acts[i] == acts.last());
                    assert(cands[cands.len() - 1].0 == k);
                }
            }
        }
    }
}

/// An object that is neither tracked nor present among the enumerated
/// candidates is not mentioned by any action of a full scan cycle:
/// after its `Delete` is accepted, the object stays silent until it
/// reappears.
pub proof fn lemma_untracked_object_silent(
    entries: Seq<(Seq<u8>, FileLikeMetadata)>,
    outcomes: Seq<MetadataLookup>,
    cands: Seq<(Seq<u8>, Option<FileLikeMetadata>)>,
    k: Seq<u8>,
)
    requires
        !has_key(entries, k),
        forall|i: int| 0 <= i < cands.len() ==> (#[trigger] cands[i]).0 != k,
    ensures
        !actions_contain_key(
            deletion_actions_spec(entries, outcomes) + insertion_actions_spec(
                map_of(entries),
                cands,
            ),
            k,
        ),
{
    let d = deletion_actions_spec(entries, outcomes);
    let ins = insertion_actions_spec(map_of(entries), cands);
    lemma_deletion_untracked(entries, outcomes, k);
    lemma_insertion_unseen(map_of(entries), cands, k);
    if actions_contain_key(d + ins, k) {
        let i = choose|i: int| 0 <= i < (d + ins).len() && (d + ins)[i].key() == k;
        if i < d.len() {
            assert((d + ins)[i] == d[i]);
            assert(actions_contain_key(d, k));
        } else {
            assert((d + ins)[i] == ins[i - d.len()]);
            assert(actions_contain_key(ins, k));
        }
    }
}

/// The deletion/update pass proposes only `Update` and `Delete`
/// actions, only for tracked keys, and never two actions for one key.
proof fn lemma_deletion_shape(
    entries: Seq<(Seq<u8>, FileLikeMetadata)>,
    outcomes: Seq<MetadataLookup>,
)
    requires
        distinct_keys(entries),
    ensures
        forall|j: int|
            0 <= j < deletion_actions_spec(entries, outcomes).len() ==> ((
            #[trigger] deletion_actions_spec(entries, outcomes)[j]) is Update
                || deletion_actions_spec(entries, outcomes)[j] is Delete) && has_key(
                entries,
                deletion_actions_spec(entries, outcomes)[j].key(),
            ),
        distinct_action_keys(deletion_actions_spec(entries, outcomes)),
    decreases entries.len(),
{
    if entries.len() == 0 || entries.len() > outcomes.len() {
    } else {
        assert(distinct_keys(entries.drop_last())) by {
            assert forall|a: int, b: int|
                0 <= a < b < entries.drop_last().len() implies entries.drop_last()[a].0
                != entries.drop_last()[b].0 by {
                assert(entries.drop_last()[a] == entries[a]);
                assert(entries.drop_last()[b] == entries[b]);
            }
        }
        lemma_deletion_shape(entries.drop_last(), outcomes);
        let prefix = deletion_actions_spec(entries.drop_last(), outcomes);
        let c = deletion_contribution(
            entries.last().0,
            entries.last().1,
            outcomes[entries.len() - 1],
        );
        let acts = deletion_actions_spec(entries, outcomes);
        assert(acts == prefix + c);
        assert forall|j: int|
            0 <= j < acts.len() implies ((#[trigger] acts[j]) is Update || acts[j] is Delete)
            && has_key(entries, acts[j].key()) by {
            if j < prefix.len() {
                assert(acts[j] == prefix[j]);
                assert(has_key(entries.drop_last(), prefix[j].key()));
                let w = choose|w: int|
                    0 <= w < entries.drop_last().len() && entries.drop_last()[w].0
                        == prefix[j].key();
                assert(entries[w] == entries.drop_last()[w]);
                assert(has_key(entries, acts[j].key()));
            } else {
                assert(acts[j] == c[j - prefix.len()]);
                assert(c.len() > 0);
                assert(c[0].key() == entries[entries.len() - 1].0);
                assert(has_key(entries, acts[j].key()));
            }
        }
        assert forall|a: int, b: int|
            0 <= a < b < acts.len() implies acts[a].key() != acts[b].key() by {
            if b < prefix.len() {
                assert(acts[a] == prefix[a]);
                assert(acts[b] == prefix[b]);
            } else {
                assert(acts[a] == prefix[a]);
                assert(acts[b] == c[b - prefix.len()]);
                assert(acts[b].key() == entries[entries.len() - 1].0);
                assert(has_key(entries.drop_last(), acts[a].key()));
                let w = choose|w: int|
                    0 <= w < entries.drop_last().len() && entries.drop_last()[w].0 == acts[a].key();
                assert(entries.drop_last()[w] == entries[w]);
                assert(entries[w].0 != entries[entries.len() - 1].0);
            }
        }
    }
}

/// A full scan cycle obeys the emitted-action invariant: at most one
/// action per object, `Read` only for untracked keys, `Update` and
/// `Delete` only for tracked ones.
pub proof fn lemma_batch_invariant(
    entries: Seq<(Seq<u8>, FileLikeMetadata)>,
    outcomes: Seq<MetadataLookup>,
    cands: Seq<(Seq<u8>, Option<FileLikeMetadata>)>,
)
    requires
        distinct_keys(entries),
    ensures
        batch_invariant(
            map_of(entries),
            deletion_actions_spec(entries, outcomes) + insertion_actions_spec(
                map_of(entries),
                cands,
            ),
        ),
        batch_invariant(map_of(entries), insertion_actions_spec(map_of(entries), cands)),
{
    let known = map_of(entries);
    let d = deletion_actions_spec(entries, outcomes);
    let ins = insertion_actions_spec(known, cands);
    let acts = d + ins;
    lemma_deletion_shape(entries, outcomes);
    lemma_insertion_shape(known, cands);
    lemma_map_of_keys(entries);
    assert forall|j: int| 0 <= j < acts.len() implies match #[trigger] acts[j] {
        ActionView::Read(k, _) => !known.contains_key(k),
        ActionView::Update(k, _) => known.contains_key(k),
        ActionView::Delete(k) => known.contains_key(k),
    } by {
        if j < d.len() {
            assert(acts[j] == d[j]);
        } else {
            assert(acts[j] == ins[j - d.len()]);
        }
    }
    assert forall|a: int, b: int| 0 <= a < b < acts.len() implies acts[a].key() != acts[b].key() by {
        if b < d.len() {
            assert(acts[a] == d[a]);
            assert(acts[b] == d[b]);
        } else if a >= d.len() {
            assert(acts[a] == ins[a - d.len()]);
            assert(acts[b] == ins[b - d.len()]);
        } else {
            assert(acts[a] == d[a]);
            assert(acts[b] == ins[b - d.len()]);
            assert(has_key(entries, acts[a].key()));
            assert(known.contains_key(acts[a].key()));
            assert(!known.contains_key(acts[b].key()));
        }
    }
}

/// Idempotent re-scan: two insertion passes over the same cached view
/// and the same enumerated candidates propose identical `Read` batches;
/// nothing about a pass depends on anything but those two inputs.
pub proof fn lemma_idempotent_rescan(
    known: Map<Seq<u8>, FileLikeMetadata>,
    cands: Seq<(Seq<u8>, Option<FileLikeMetadata>)>,
    first: Seq<ActionView>,
    second: Seq<ActionView>,
)
    requires
        first == insertion_actions_spec(known, cands),
        second == insertion_actions_spec(known, cands),
    ensures
        first == second,
{
}

/// The capability contract every change-detection backend implements:
/// point lookup of current metadata, content retrieval, and production
/// of a batch of pending change actions against the engine's cached
/// store. Backends other than the filesystem one may compute the batch
/// from cheaper incremental sources, as long as the emitted-action
/// invariant holds.
pub trait PosixLikeScanner {
    /// Current metadata for a stored key: `None` when the object does
    /// not currently exist; an error only on genuine failure.
    fn object_metadata(&mut self, object_path: &[u8]) -> (r: Result<
        Option<FileLikeMetadata>,
        ReadError,
    >);

    /// The object's full current content.
    fn read_object(&mut self, object_path: &[u8]) -> (r: Result<Vec<u8>, ReadError>);

    /// One scan cycle: propose at most one action per object, `Read`
    /// only for keys the store does not hold, `Update` and `Delete`
    /// only for keys it does.
    fn next_scanner_actions(
        &mut self,
        are_deletions_enabled: bool,
        cached_object_storage: &CachedObjectStorage,
    ) -> (r: Result<Vec<QueuedAction>, ReadError>)
        requires
            cached_object_storage.wf(),
        ensures
            r matches Ok(acts) ==> batch_invariant(
                cached_object_storage@,
                action_views(acts@),
            ),
    ;

    /// Whether the backend holds more buffered actions beyond what one
    /// call returned.
    fn has_pending_actions(&self) -> (r: bool);

    /// A human-readable identity for the backend.
    fn short_description(&self) -> (r: String);
}

/// Apply an accepted action to the cached store, as the engine does
/// once the consumer has committed it: `Read` and `Update` record the
/// action's metadata under its key, `Delete` forgets the key. The
/// scanner itself never calls this; it only proposes.
pub fn accept_action(store: &mut CachedObjectStorage, action: &QueuedAction)
    requires
        old(store).wf(),
    ensures
        final(store).wf(),
        final(store)@ == match action@ {
            ActionView::Read(k, m) => old(store)@.insert(k, m),
            ActionView::Update(k, m) => old(store)@.insert(k, m),
            ActionView::Delete(k) => old(store)@.remove(k),
        },
{
    match action {
        QueuedAction::Read(key, metadata) => store.place_object(key.clone(), *metadata),
        QueuedAction::Update(key, metadata) => store.place_object(key.clone(), *metadata),
        QueuedAction::Delete(key) => store.remove_object(key.as_slice()),
    }
}

} // verus!
