use vstd::prelude::*;

use crate::metadata::FileLikeMetadata;

verus! {

/// Byte-wise equality of two byte strings.
pub fn bytes_eq(a: &[u8], b: &[u8]) -> (r: bool)
    ensures
        r == (a@ == b@),
{
    if a.len() != b.len() {
        assert(a@ != b@);
        return false;
    }
    let mut i: usize = 0;
    while i < a.len()
        invariant
            i <= a@.len(),
            a@.len() == b@.len(),
            forall|j: int| 0 <= j < i ==> a@[j] == b@[j],
        decreases a@.len() - i,
    {
        if a[i] != b[i] {
            assert(a@ != b@);
            return false;
        }
        i += 1;
    }
    assert(a@ =~= b@);
    true
}

/// Some entry of `s` carries the key `k`.
pub open spec fn has_key(s: Seq<(Seq<u8>, FileLikeMetadata)>, k: Seq<u8>) -> bool {
    exists|i: int| 0 <= i < s.len() && s[i].0 == k
}

/// The mathematical contents of an entry list: later entries win, as in
/// repeated map insertion.
pub open spec fn map_of(s: Seq<(Seq<u8>, FileLikeMetadata)>) -> Map<Seq<u8>, FileLikeMetadata>
    decreases s.len(),
{
    if s.len() == 0 {
        Map::empty()
    } else {
        map_of(s.drop_last()).insert(s.last().0, s.last().1)
    }
}

/// No object key occurs twice in the entry list.
pub open spec fn distinct_keys(s: Seq<(Seq<u8>, FileLikeMetadata)>) -> bool {
    forall|i: int, j: int| 0 <= i < j < s.len() ==> s[i].0 != s[j].0
}

/// A key is in `map_of(s)` exactly when some entry carries it.
pub proof fn lemma_map_of_keys(s: Seq<(Seq<u8>, FileLikeMetadata)>)
    ensures
        forall|k: Seq<u8>| #[trigger] map_of(s).contains_key(k) <==> has_key(s, k),
    decreases s.len(),
{
    if s.len() > 0 {
        lemma_map_of_keys(s.drop_last());
        assert forall|k: Seq<u8>| #[trigger] map_of(s).contains_key(k) <==> has_key(s, k) by {
            if map_of(s).contains_key(k) {
                assert(map_of(s) == map_of(s.drop_last()).insert(s.last().0, s.last().1));
                if k == s.last().0 {
                    assert(s[s.len() - 1].0 == k);
                } else {
                    assert(map_of(s.drop_last()).contains_key(k));
                    assert(has_key(s.drop_last(), k));
                    let i = choose|i: int| 0 <= i < s.drop_last().len() && s.drop_last()[i].0 == k;
                    assert(s.drop_last()[i] == s[i]);
                    assert(s[i].0 == k);
                }
                assert(has_key(s, k));
            }
            if has_key(s, k) {
                let i = choose|i: int| 0 <= i < s.len() && s[i].0 == k;
                if i < s.len() - 1 {
                    assert(s.drop_last()[i] == s[i]);
                    assert(has_key(s.drop_last(), k));
                    assert(map_of(s.drop_last()).contains_key(k));
                } else {
                    assert(k == s.last().0);
                }
                assert(map_of(s).contains_key(k));
            }
        }
    }
}

/// Updating the entry that holds a key is map insertion on that key.
pub proof fn lemma_map_of_update(s: Seq<(Seq<u8>, FileLikeMetadata)>, i: int, v: FileLikeMetadata)
    requires
        distinct_keys(s),
        0 <= i < s.len(),
    ensures
        map_of(s.update(i, (s[i].0, v))) == map_of(s).insert(s[i].0, v),
    decreases s.len(),
{
    let t = s.update(i, (s[i].0, v));
    assert(t.len() == s.len());
    if i == s.len() - 1 {
        assert(t.drop_last() =~= s.drop_last());
        assert(t.last() == (s[i].0, v));
        assert(map_of(t) =~= map_of(s).insert(s[i].0, v));
    } else {
        assert(t.drop_last() =~= s.drop_last().update(i, (s[i].0, v)));
        assert(s.drop_last()[i] == s[i]);
        lemma_map_of_update(s.drop_last(), i, v);
        assert(s[i].0 != s[s.len() - 1].0);
        assert(t.last() == s.last());
        assert(map_of(t) =~= map_of(s).insert(s[i].0, v));
    }
}

/// Removing the entry that holds a key is map removal of that key.
pub proof fn lemma_map_of_remove(s: Seq<(Seq<u8>, FileLikeMetadata)>, i: int)
    requires
        distinct_keys(s),
        0 <= i < s.len(),
    ensures
        map_of(s.remove(i)) == map_of(s).remove(s[i].0),
    decreases s.len(),
{
    let t = s.remove(i);
    if i == s.len() - 1 {
        assert(t =~= s.drop_last());
        lemma_map_of_keys(s.drop_last());
        assert forall|j: int| 0 <= j < s.len() - 1 implies s.drop_last()[j].0 != s[s.len() - 1].0 by {
            assert(s.drop_last()[j] == s[j]);
        }
        assert(!has_key(s.drop_last(), s.last().0));
        assert(!map_of(s.drop_last()).contains_key(s.last().0));
        assert(map_of(t) =~= map_of(s).remove(s[i].0));
    } else {
        assert(t.drop_last() =~= s.drop_last().remove(i));
        assert(s.drop_last()[i] == s[i]);
        lemma_map_of_remove(s.drop_last(), i);
        assert(s[i].0 != s[s.len() - 1].0);
        assert(t.last() == s.last());
        assert(map_of(t) =~= map_of(s).remove(s[i].0));
    }
}

/// Overwriting an entry's metadata in place keeps the keys distinct.
proof fn lemma_distinct_after_update(s: Seq<(Seq<u8>, FileLikeMetadata)>, i: int, v: FileLikeMetadata)
    requires
        distinct_keys(s),
        0 <= i < s.len(),
    ensures
        distinct_keys(s.update(i, (s[i].0, v))),
{
    let t = s.update(i, (s[i].0, v));
    assert forall|a: int, b: int| 0 <= a < b < t.len() implies t[a].0 != t[b].0 by {
        assert(t[a].0 == s[a].0);
        assert(t[b].0 == s[b].0);
    }
}

/// Appending an entry under a fresh key keeps the keys distinct.
proof fn lemma_distinct_after_push(s: Seq<(Seq<u8>, FileLikeMetadata)>, k: Seq<u8>, v: FileLikeMetadata)
    requires
        distinct_keys(s),
        !has_key(s, k),
    ensures
        distinct_keys(s.push((k, v))),
{
    let t = s.push((k, v));
    assert forall|a: int, b: int| 0 <= a < b < t.len() implies t[a].0 != t[b].0 by {
        assert(t[a] == s[a]);
        if b < s.len() {
            assert(t[b] == s[b]);
        } else {
            assert(s[a].0 != k);
        }
    }
}

/// Removing an entry keeps the keys distinct.
proof fn lemma_distinct_after_remove(s: Seq<(Seq<u8>, FileLikeMetadata)>, i: int)
    requires
        distinct_keys(s),
        0 <= i < s.len(),
    ensures
        distinct_keys(s.remove(i)),
{
    let t = s.remove(i);
    assert forall|a: int, b: int| 0 <= a < b < t.len() implies t[a].0 != t[b].0 by {
        if a < i && b < i {
            assert(t[a] == s[a]);
            assert(t[b] == s[b]);
        } else if a < i {
            assert(t[a] == s[a]);
            assert(t[b] == s[b + 1]);
        } else {
            assert(t[a] == s[a + 1]);
            assert(t[b] == s[b + 1]);
        }
    }
}

/// In-memory table mapping each object key (opaque bytes) to the
/// metadata last accepted for it: the source of truth for "what did we
/// already see". Entries keep their position, so iterating by index is
/// stable for the whole of one scan cycle.
pub struct CachedObjectStorage {
    pub entries: Vec<(Vec<u8>, FileLikeMetadata)>,
}

impl View for CachedObjectStorage {
    type V = Map<Seq<u8>, FileLikeMetadata>;

    open spec fn view(&self) -> Map<Seq<u8>, FileLikeMetadata> {
        map_of(self.entry_seq())
    }
}

impl CachedObjectStorage {
    /// The entries in iteration order, as mathematical values.
    pub open spec fn entry_seq(&self) -> Seq<(Seq<u8>, FileLikeMetadata)> {
        self.entries@.map_values(|e: (Vec<u8>, FileLikeMetadata)| (e.0@, e.1))
    }

    /// Each key is tracked at most once.
    pub open spec fn wf(&self) -> bool {
        distinct_keys(self.entry_seq())
    }

    proof fn lemma_entry_unfold(&self)
        ensures
            self.entry_seq().len() == self.entries@.len(),
            forall|j: int|
                0 <= j < self.entries@.len() ==> #[trigger] self.entry_seq()[j] == (
                    self.entries@[j].0@,
                    self.entries@[j].1,
                ),
    {
    }

    pub fn new() -> (r: CachedObjectStorage)
        ensures
            r.wf(),
            r@ == Map::<Seq<u8>, FileLikeMetadata>::empty(),
            r.entry_seq() == Seq::<(Seq<u8>, FileLikeMetadata)>::empty(),
    {
        let r = CachedObjectStorage { entries: Vec::new() };
        proof {
            assert(r.entry_seq() =~= Seq::<(Seq<u8>, FileLikeMetadata)>::empty());
        }
        r
    }

    pub fn len(&self) -> (r: usize)
        ensures
            r == self.entry_seq().len(),
    {
        proof {
            self.lemma_entry_unfold();
        }
        self.entries.len()
    }

    pub fn key_at(&self, i: usize) -> (r: &Vec<u8>)
        requires
            i < self.entry_seq().len(),
        ensures
            r@ == self.entry_seq()[i as int].0,
    {
        proof {
            self.lemma_entry_unfold();
        }
        &self.entries[i].0
    }

    pub fn metadata_at(&self, i: usize) -> (r: &FileLikeMetadata)
        requires
            i < self.entry_seq().len(),
        ensures
            *r == self.entry_seq()[i as int].1,
    {
        proof {
            self.lemma_entry_unfold();
        }
        &self.entries[i].1
    }

    /// Whether the key is already tracked; used to suppress duplicate
    /// `Read` proposals.
    pub fn contains_object(&self, key: &[u8]) -> (r: bool)
        ensures
            r == self@.contains_key(key@),
    {
        proof {
            self.lemma_entry_unfold();
            lemma_map_of_keys(self.entry_seq());
        }
        let ghost s0 = self.entry_seq();
        let n = self.entries.len();
        let mut idx: usize = 0;
        while idx < n
            invariant
                n == self.entries@.len(),
                s0 == self.entry_seq(),
                idx <= n,
                forall|j: int| 0 <= j < idx ==> s0[j].0 != key@,
                forall|j: int|
                    0 <= j < n ==> #[trigger] s0[j] == (self.entries@[j].0@, self.entries@[j].1),
            decreases n - idx,
        {
            if bytes_eq(self.entries[idx].0.as_slice(), key) {
                assert(s0[idx as int].0 == key@);
                assert(has_key(s0, key@));
                proof {
                    lemma_map_of_keys(s0);
                }
                assert(map_of(s0).contains_key(key@));
                assert(self@.contains_key(key@));
                return true;
            }
            assert(s0[idx as int].0 != key@);
            idx += 1;
        }
        assert(!has_key(s0, key@));
        proof {
            lemma_map_of_keys(s0);
        }
        assert(!self@.contains_key(key@));
        false
    }

    /// Record the metadata accepted for a key: overwrite in place when
    /// the key is tracked, append otherwise. The engine calls this after
    /// it accepts a `Read` or `Update` action.
    pub fn place_object(&mut self, key: Vec<u8>, metadata: FileLikeMetadata)
        requires
            old(self).wf(),
        ensures
            final(self).wf(),
            final(self)@ == old(self)@.insert(key@, metadata),
            old(self)@.contains_key(key@) ==> exists|i: int|
                0 <= i < old(self).entry_seq().len() && old(self).entry_seq()[i].0 == key@
                    && final(self).entry_seq() == old(self).entry_seq().update(i, (key@, metadata)),
            !old(self)@.contains_key(key@) ==> final(self).entry_seq() == old(
                self,
            ).entry_seq().push((key@, metadata)),
    {
        proof {
            self.lemma_entry_unfold();
            lemma_map_of_keys(self.entry_seq());
        }
        let ghost s0 = self.entry_seq();
        let n = self.entries.len();
        let mut idx: usize = 0;
        while idx < n
            invariant
                *self == *old(self),
                n == self.entries@.len(),
                s0 == self.entry_seq(),
                idx <= n,
                distinct_keys(s0),
                forall|j: int| 0 <= j < idx ==> s0[j].0 != key@,
                forall|j: int|
                    0 <= j < n ==> #[trigger] s0[j] == (self.entries@[j].0@, self.entries@[j].1),
            decreases n - idx,
        {
            if bytes_eq(self.entries[idx].0.as_slice(), key.as_slice()) {
                assert(s0[idx as int].0 == key@);
                assert(has_key(s0, key@));
                self.entries.remove(idx);
                self.entries.insert(idx, (key, metadata));
                proof {
                    self.lemma_entry_unfold();
                    assert(self.entry_seq() =~= s0.update(idx as int, (s0[idx as int].0, metadata)));
                    lemma_map_of_update(s0, idx as int, metadata);
                    lemma_distinct_after_update(s0, idx as int, metadata);
                    lemma_map_of_keys(s0);
                    assert(map_of(s0).contains_key(key@));
                    assert(old(self)@.contains_key(key@));
                    assert(s0.update(idx as int, (s0[idx as int].0, metadata)) =~= s0.update(
                        idx as int,
                        (key@, metadata),
                    ));
                    assert(0 <= idx < s0.len() && s0[idx as int].0 == key@ && self.entry_seq()
                        == s0.update(idx as int, (key@, metadata)));
                }
                return ;
            }
            assert(s0[idx as int].0 != key@);
            idx += 1;
        }
        assert(!has_key(s0, key@));
        proof {
            lemma_map_of_keys(s0);
        }
        assert(!old(self)@.contains_key(key@));
        self.entries.push((key, metadata));
        proof {
            self.lemma_entry_unfold();
            assert(self.entry_seq() =~= s0.push((key@, metadata)));
            assert(self.entry_seq().drop_last() =~= s0);
            assert(self.entry_seq().last() == (key@, metadata));
            lemma_distinct_after_push(s0, key@, metadata);
        }
    }

    /// Forget a key; the engine calls this after it accepts a `Delete`
    /// action. Removing an untracked key changes nothing.
    pub fn remove_object(&mut self, key: &[u8])
        requires
            old(self).wf(),
        ensures
            final(self).wf(),
            final(self)@ == old(self)@.remove(key@),
            old(self)@.contains_key(key@) ==> exists|i: int|
                0 <= i < old(self).entry_seq().len() && old(self).entry_seq()[i].0 == key@
                    && final(self).entry_seq() == old(self).entry_seq().remove(i),
            !old(self)@.contains_key(key@) ==> final(self).entry_seq() == old(self).entry_seq(),
    {
        proof {
            self.lemma_entry_unfold();
            lemma_map_of_keys(self.entry_seq());
        }
        let ghost s0 = self.entry_seq();
        let n = self.entries.len();
        let mut idx: usize = 0;
        while idx < n
            invariant
                *self == *old(self),
                n == self.entries@.len(),
                s0 == self.entry_seq(),
                idx <= n,
                distinct_keys(s0),
                forall|j: int| 0 <= j < idx ==> s0[j].0 != key@,
                forall|j: int|
                    0 <= j < n ==> #[trigger] s0[j] == (self.entries@[j].0@, self.entries@[j].1),
            decreases n - idx,
        {
            if bytes_eq(self.entries[idx].0.as_slice(), key) {
                assert(s0[idx as int].0 == key@);
                assert(has_key(s0, key@));
                self.entries.remove(idx);
                proof {
                    self.lemma_entry_unfold();
                    assert(self.entry_seq() =~= s0.remove(idx as int));
                    lemma_map_of_remove(s0, idx as int);
                    lemma_distinct_after_remove(s0, idx as int);
                    lemma_map_of_keys(s0);
                    assert(map_of(s0).contains_key(key@));
                    assert(old(self)@.contains_key(key@));
                    assert(0 <= idx < s0.len() && s0[idx as int].0 == key@ && self.entry_seq()
                        == s0.remove(idx as int));
                }
                return ;
            }
            assert(s0[idx as int].0 != key@);
            idx += 1;
        }
        proof {
            assert(!has_key(s0, key@));
            lemma_map_of_keys(s0);
            assert(!old(self)@.contains_key(key@));
            assert(self@ =~= old(self)@.remove(key@));
        }
    }
}

} // verus!
