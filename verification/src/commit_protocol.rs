use vstd::prelude::*;
use vstd::string::StringSliceAdditionalSpecFns;

use crate::cached_object_storage::bytes_eq;
use crate::kv_paths::{has_temporary_suffix, key_to_path, key_to_path_spec, keys_from_paths, lemma_no_temp_keys, listed_keys, str_views, temp_path_for};

verus! {

/// Unicode-aware string equality.
pub fn str_eq(a: &str, b: &str) -> (r: bool)
    ensures
        r == (a@ == b@),
{
    let r = bytes_eq(a.as_bytes(), b.as_bytes());
    proof {
        if a.spec_bytes() == b.spec_bytes() {
            vstd::utf8::encode_utf8_decode_utf8(a@);
            vstd::utf8::encode_utf8_decode_utf8(b@);
            assert(a@ == b@);
        }
    }
    r
}

/// Some file of `s` lies at the path `p`.
pub open spec fn has_path(s: Seq<(Seq<char>, Seq<u8>)>, p: Seq<char>) -> bool {
    exists|i: int| 0 <= i < s.len() && s[i].0 == p
}

/// The mathematical contents of a file list: later files win.
pub open spec fn file_map_of(s: Seq<(Seq<char>, Seq<u8>)>) -> Map<Seq<char>, Seq<u8>>
    decreases s.len(),
{
    if s.len() == 0 {
        Map::empty()
    } else {
        file_map_of(s.drop_last()).insert(s.last().0, s.last().1)
    }
}

/// No path occurs twice in the file list.
pub open spec fn distinct_paths(s: Seq<(Seq<char>, Seq<u8>)>) -> bool {
    forall|i: int, j: int| 0 <= i < j < s.len() ==> s[i].0 != s[j].0
}

/// A path is in `file_map_of(s)` exactly when some file lies at it.
pub proof fn lemma_file_map_keys(s: Seq<(Seq<char>, Seq<u8>)>)
    ensures
        forall|p: Seq<char>| #[trigger] file_map_of(s).contains_key(p) <==> has_path(s, p),
    decreases s.len(),
{
    if s.len() > 0 {
        lemma_file_map_keys(s.drop_last());
        assert forall|p: Seq<char>| #[trigger] file_map_of(s).contains_key(p) <==> has_path(s, p) by {
            if file_map_of(s).contains_key(p) {
                assert(file_map_of(s) == file_map_of(s.drop_last()).insert(s.last().0, s.last().1));
                if p == s.last().0 {
                    assert(s[s.len() - 1].0 == p);
                } else {
                    assert(file_map_of(s.drop_last()).contains_key(p));
                    assert(has_path(s.drop_last(), p));
                    let i = choose|i: int| 0 <= i < s.drop_last().len() && s.drop_last()[i].0 == p;
                    assert(s.drop_last()[i] == s[i]);
                    assert(s[i].0 == p);
                }
                assert(has_path(s, p));
            }
            if has_path(s, p) {
                let i = choose|i: int| 0 <= i < s.len() && s[i].0 == p;
                if i < s.len() - 1 {
                    assert(s.drop_last()[i] == s[i]);
                    assert(has_path(s.drop_last(), p));
                    assert(file_map_of(s.drop_last()).contains_key(p));
                } else {
                    assert(p == s.last().0);
                }
                assert(file_map_of(s).contains_key(p));
            }
        }
    }
}

/// With distinct paths, each file's content is what the map carries.
pub proof fn lemma_file_map_values(s: Seq<(Seq<char>, Seq<u8>)>)
    requires
        distinct_paths(s),
    ensures
        forall|i: int|
            0 <= i < s.len() ==> file_map_of(s).contains_key(#[trigger] s[i].0) && file_map_of(s)[s[i].0]
                == s[i].1,
    decreases s.len(),
{
    lemma_file_map_keys(s);
    if s.len() > 0 {
        lemma_file_map_values(s.drop_last());
        assert forall|i: int| 0 <= i < s.len() implies file_map_of(s).contains_key(#[trigger] s[i].0)
            && file_map_of(s)[s[i].0] == s[i].1 by {
            if i < s.len() - 1 {
                assert(s.drop_last()[i] == s[i]);
                assert(s[i].0 != s[s.len() - 1].0);
                assert(file_map_of(s.drop_last())[s[i].0] == s[i].1);
            }
        }
    }
}

/// Updating the file at a path is map insertion on that path.
pub proof fn lemma_file_map_update(s: Seq<(Seq<char>, Seq<u8>)>, i: int, v: Seq<u8>)
    requires
        distinct_paths(s),
        0 <= i < s.len(),
    ensures
        file_map_of(s.update(i, (s[i].0, v))) == file_map_of(s).insert(s[i].0, v),
    decreases s.len(),
{
    let t = s.update(i, (s[i].0, v));
    assert(t.len() == s.len());
    if i == s.len() - 1 {
        assert(t.drop_last() =~= s.drop_last());
        assert(t.last() == (s[i].0, v));
        assert(file_map_of(t) =~= file_map_of(s).insert(s[i].0, v));
    } else {
        assert(t.drop_last() =~= s.drop_last().update(i, (s[i].0, v)));
        assert(s.drop_last()[i] == s[i]);
        lemma_file_map_update(s.drop_last(), i, v);
        assert(s[i].0 != s[s.len() - 1].0);
        assert(t.last() == s.last());
        assert(file_map_of(t) =~= file_map_of(s).insert(s[i].0, v));
    }
}

/// Removing the file at a path is map removal of that path.
pub proof fn lemma_file_map_remove(s: Seq<(Seq<char>, Seq<u8>)>, i: int)
    requires
        distinct_paths(s),
        0 <= i < s.len(),
    ensures
        file_map_of(s.remove(i)) == file_map_of(s).remove(s[i].0),
    decreases s.len(),
{
    let t = s.remove(i);
    if i == s.len() - 1 {
        assert(t =~= s.drop_last());
        lemma_file_map_keys(s.drop_last());
        assert forall|j: int| 0 <= j < s.len() - 1 implies s.drop_last()[j].0 != s[s.len() - 1].0 by {
            assert(s.drop_last()[j] == s[j]);
        }
        assert(!has_path(s.drop_last(), s.last().0));
        assert(!file_map_of(s.drop_last()).contains_key(s.last().0));
        assert(file_map_of(t) =~= file_map_of(s).remove(s[i].0));
    } else {
        assert(t.drop_last() =~= s.drop_last().remove(i));
        assert(s.drop_last()[i] == s[i]);
        lemma_file_map_remove(s.drop_last(), i);
        assert(s[i].0 != s[s.len() - 1].0);
        assert(t.last() == s.last());
        assert(file_map_of(t) =~= file_map_of(s).remove(s[i].0));
    }
}

/// Overwriting a file's content in place keeps the paths distinct.
proof fn lemma_distinct_paths_update(s: Seq<(Seq<char>, Seq<u8>)>, i: int, v: Seq<u8>)
    requires
        distinct_paths(s),
        0 <= i < s.len(),
    ensures
        distinct_paths(s.update(i, (s[i].0, v))),
{
    let t = s.update(i, (s[i].0, v));
    assert forall|a: int, b: int| 0 <= a < b < t.len() implies t[a].0 != t[b].0 by {
        assert(t[a].0 == s[a].0);
        assert(t[b].0 == s[b].0);
    }
}

/// Appending a file at a fresh path keeps the paths distinct.
proof fn lemma_distinct_paths_push(s: Seq<(Seq<char>, Seq<u8>)>, p: Seq<char>, v: Seq<u8>)
    requires
        distinct_paths(s),
        !has_path(s, p),
    ensures
        distinct_paths(s.push((p, v))),
{
    let t = s.push((p, v));
    assert forall|a: int, b: int| 0 <= a < b < t.len() implies t[a].0 != t[b].0 by {
        assert(t[a] == s[a]);
        if b < s.len() {
            assert(t[b] == s[b]);
        } else {
            assert(s[a].0 != p);
        }
    }
}

/// Removing a file keeps the paths distinct.
proof fn lemma_distinct_paths_remove(s: Seq<(Seq<char>, Seq<u8>)>, i: int)
    requires
        distinct_paths(s),
        0 <= i < s.len(),
    ensures
        distinct_paths(s.remove(i)),
{
    let t = s.remove(i);
    assert forall|a: int, b: int| 0 <= a < b < t.len() implies t[a].0 != t[b].0 by {
        if a < i && b < i {
            assert(t[a] == s[a]);
            assert(t[b] == s[b]);
        } else if a < i {
            assert(t[a] == s[a]);
            assert(t[b] == s[b + 1]);
        } else {
            assert(t[a] == s[a + 1]);
            assert(t[b] == s[b + 1]);
        }
    }
}

/// A model of one directory tree of complete files: what a disk holds
/// between operations. Writes may stop partway (`written` short of the
/// value), renames are atomic; that asymmetry is exactly what the
/// commit protocol builds on.
pub struct DiskModel {
    pub files: Vec<(String, Vec<u8>)>,
}

impl View for DiskModel {
    type V = Map<Seq<char>, Seq<u8>>;

    open spec fn view(&self) -> Map<Seq<char>, Seq<u8>> {
        file_map_of(self.file_seq())
    }
}

impl DiskModel {
    pub open spec fn file_seq(&self) -> Seq<(Seq<char>, Seq<u8>)> {
        self.files@.map_values(|e: (String, Vec<u8>)| (e.0@, e.1@))
    }

    pub open spec fn wf(&self) -> bool {
        distinct_paths(self.file_seq())
    }

    proof fn lemma_file_unfold(&self)
        ensures
            self.file_seq().len() == self.files@.len(),
            forall|j: int|
                0 <= j < self.files@.len() ==> #[trigger] self.file_seq()[j] == (
                    self.files@[j].0@,
                    self.files@[j].1@,
                ),
    {
    }

    pub fn new() -> (r: DiskModel)
        ensures
            r.wf(),
            r@ == Map::<Seq<char>, Seq<u8>>::empty(),
            r.file_seq() == Seq::<(Seq<char>, Seq<u8>)>::empty(),
    {
        let r = DiskModel { files: Vec::new() };
        proof {
            assert(r.file_seq() =~= Seq::<(Seq<char>, Seq<u8>)>::empty());
        }
        r
    }

    fn find_path(&self, path: &str) -> (r: Option<usize>)
        ensures
            match r {
                Some(i) => i < self.file_seq().len() && self.file_seq()[i as int].0 == path@,
                None => !has_path(self.file_seq(), path@),
            },
    {
        proof {
            self.lemma_file_unfold();
        }
        let ghost s = self.file_seq();
        let n = self.files.len();
        let mut i: usize = 0;
        while i < n
            invariant
                n == self.files@.len(),
                s == self.file_seq(),
                s.len() == n,
                i <= n,
                forall|j: int| 0 <= j < i ==> s[j].0 != path@,
                forall|j: int|
                    0 <= j < n ==> #[trigger] s[j] == (self.files@[j].0@, self.files@[j].1@),
            decreases n - i,
        {
            if str_eq(self.files[i].0.as_str(), path) {
                assert(s[i as int].0 == path@);
                return Some(i);
            }
            assert(s[i as int].0 != path@);
            i += 1;
        }
        assert(!has_path(s, path@));
        None
    }

    /// What a reader opening the path sees: the complete content the
    /// path currently holds, or nothing.
    pub fn read(&self, path: &str) -> (r: Option<&Vec<u8>>)
        requires
            self.wf(),
        ensures
            match r {
                Some(v) => self@.contains_key(path@) && v@ == self@[path@],
                None => !self@.contains_key(path@),
            },
    {
        proof {
            self.lemma_file_unfold();
            lemma_file_map_keys(self.file_seq());
            lemma_file_map_values(self.file_seq());
        }
        match self.find_path(path) {
            Some(i) => Some(&self.files[i].1),
            None => None,
        }
    }

    /// A write that got through the first `written` bytes of the value
    /// before it finished or was cut short: the path then holds exactly
    /// that prefix.
    pub fn write_file(&mut self, path: &str, content: &[u8], written: usize)
        requires
            old(self).wf(),
            written <= content@.len(),
        ensures
            final(self).wf(),
            final(self)@ == old(self)@.insert(path@, content@.take(written as int)),
    {
        let mut data: Vec<u8> = Vec::new();
        let mut j: usize = 0;
        while j < written
            invariant
                j <= written,
                written <= content@.len(),
                data@ == content@.take(j as int),
            decreases written - j,
        {
            data.push(content[j]);
            proof {
                assert(data@ =~= content@.take(j + 1));
            }
            j += 1;
        }
        let ghost s0 = self.file_seq();
        proof {
            self.lemma_file_unfold();
        }
        match self.find_path(path) {
            Some(i) => {
                assert(s0[i as int].0 == path@);
                self.files.remove(i);
                self.files.insert(i, (path.to_owned(), data));
                proof {
                    self.lemma_file_unfold();
                    assert(self.file_seq() =~= s0.update(
                        i as int,
                        (s0[i as int].0, content@.take(written as int)),
                    ));
                    lemma_file_map_update(s0, i as int, content@.take(written as int));
                    lemma_distinct_paths_update(s0, i as int, content@.take(written as int));
                }
            },
            None => {
                self.files.push((path.to_owned(), data));
                proof {
                    self.lemma_file_unfold();
                    assert(self.file_seq() =~= s0.push((path@, content@.take(written as int))));
                    assert(self.file_seq().drop_last() =~= s0);
                    lemma_file_map_keys(s0);
                    lemma_distinct_paths_push(s0, path@, content@.take(written as int));
                }
            },
        }
    }

    /// The atomic rename: in one step the target path stops holding its
    /// old content and holds the moved file's complete content; no
    /// intermediate state exists for a reader to see.
    pub fn rename(&mut self, from: &str, to: &str)
        requires
            old(self).wf(),
            old(self)@.contains_key(from@),
        ensures
            final(self).wf(),
            final(self)@ == old(self)@.remove(from@).insert(to@, old(self)@[from@]),
    {
        proof {
            self.lemma_file_unfold();
            lemma_file_map_keys(self.file_seq());
            lemma_file_map_values(self.file_seq());
        }
        let ghost s0 = self.file_seq();
        let i = match self.find_path(from) {
            Some(i) => i,
            None => {
                proof {
                    assert(has_path(s0, from@));
                }
                unreached()
            },
        };
        let moved = self.files.remove(i);
        let ghost s1 = self.file_seq();
        proof {
            self.lemma_file_unfold();
            assert(s1 =~= s0.remove(i as int));
            lemma_file_map_remove(s0, i as int);
            lemma_distinct_paths_remove(s0, i as int);
            assert(moved.1@ == s0[i as int].1);
            lemma_file_map_values(s0);
            assert(s0[i as int].1 == old(self)@[from@]);
        }
        self.write_moved(to, moved.1);
        proof {
            assert(final(self)@ == old(self)@.remove(from@).insert(to@, old(self)@[from@]));
        }
    }

    /// Install complete content at a path (helper for `rename`).
    fn write_moved(&mut self, path: &str, content: Vec<u8>)
        requires
            old(self).wf(),
        ensures
            final(self).wf(),
            final(self)@ == old(self)@.insert(path@, content@),
    {
        let ghost s0 = self.file_seq();
        proof {
            self.lemma_file_unfold();
        }
        match self.find_path(path) {
            Some(i) => {
                assert(s0[i as int].0 == path@);
                self.files.remove(i);
                self.files.insert(i, (path.to_owned(), content));
                proof {
                    self.lemma_file_unfold();
                    assert(self.file_seq() =~= s0.update(i as int, (s0[i as int].0, content@)));
                    lemma_file_map_update(s0, i as int, content@);
                    lemma_distinct_paths_update(s0, i as int, content@);
                }
            },
            None => {
                self.files.push((path.to_owned(), content));
                proof {
                    self.lemma_file_unfold();
                    assert(self.file_seq() =~= s0.push((path@, content@)));
                    assert(self.file_seq().drop_last() =~= s0);
                    lemma_file_map_keys(s0);
                    lemma_distinct_paths_push(s0, path@, content@);
                }
            },
        }
    }

    /// Delete the file at a path; deleting an absent path changes
    /// nothing.
    pub fn remove_file(&mut self, path: &str)
        requires
            old(self).wf(),
        ensures
            final(self).wf(),
            final(self)@ == old(self)@.remove(path@),
    {
        let ghost s0 = self.file_seq();
        proof {
            self.lemma_file_unfold();
        }
        match self.find_path(path) {
            Some(i) => {
                assert(s0[i as int].0 == path@);
                self.files.remove(i);
                proof {
                    self.lemma_file_unfold();
                    assert(self.file_seq() =~= s0.remove(i as int));
                    lemma_file_map_remove(s0, i as int);
                    lemma_distinct_paths_remove(s0, i as int);
                }
            },
            None => {
                proof {
                    lemma_file_map_keys(s0);
                    assert(self@ =~= old(self)@.remove(path@));
                }
            },
        }
    }

    /// Every path the disk currently holds, in file order.
    pub fn all_paths(&self) -> (r: Vec<String>)
        ensures
            str_views(r@).len() == self.file_seq().len(),
            forall|i: int|
                0 <= i < self.file_seq().len() ==> #[trigger] str_views(r@)[i]
                    == self.file_seq()[i].0,
    {
        proof {
            self.lemma_file_unfold();
        }
        let mut r: Vec<String> = Vec::new();
        let n = self.files.len();
        let mut i: usize = 0;
        while i < n
            invariant
                n == self.files@.len(),
                self.file_seq().len() == n,
                i <= n,
                str_views(r@).len() == i,
                forall|j: int|
                    0 <= j < n ==> #[trigger] self.file_seq()[j] == (
                        self.files@[j].0@,
                        self.files@[j].1@,
                    ),
                forall|j: int| 0 <= j < i ==> #[trigger] str_views(r@)[j] == self.file_seq()[j].0,
            decreases n - i,
        {
            let ghost prev = str_views(r@);
            r.push(self.files[i].0.clone());
            proof {
                assert(str_views(r@) =~= prev.push(self.files@[i as int].0@));
            }
            i += 1;
        }
        r
    }
}

/// The temporary path differs from the final path it will be renamed
/// onto, so no write to it can touch what a reader of the key sees.
pub proof fn lemma_temp_path_distinct(root: Seq<char>, key: Seq<char>)
    ensures
        key_to_path_spec(root, key) + ".tmp"@ != key_to_path_spec(root, key),
{
    reveal_strlit(".tmp");
    assert((key_to_path_spec(root, key) + ".tmp"@).len() == key_to_path_spec(root, key).len() + 4);
}

/// The durable key-value backend's commit protocol over the disk
/// model: a `put` first writes the value to the key's temporary
/// sibling path — a write that may stop partway — and then atomically
/// renames it onto the final path. Readers and listings go only to
/// final paths, which is what makes the protocol's guarantees hold.
pub struct FilesystemKVModel {
    pub disk: DiskModel,
    pub root: String,
}

impl FilesystemKVModel {
    pub open spec fn wf(&self) -> bool {
        self.disk.wf()
    }

    /// The final on-disk path of a key.
    pub open spec fn final_path_of(&self, key: Seq<char>) -> Seq<char> {
        key_to_path_spec(self.root@, key)
    }

    /// The temporary sibling path a `put` of the key writes to first.
    pub open spec fn temp_path_of(&self, key: Seq<char>) -> Seq<char> {
        key_to_path_spec(self.root@, key) + ".tmp"@
    }

    /// The paths the disk holds, in file order.
    pub open spec fn disk_paths(&self) -> Seq<Seq<char>> {
        self.disk.file_seq().map_values(|e: (Seq<char>, Seq<u8>)| e.0)
    }

    pub fn new(root: String) -> (r: FilesystemKVModel)
        ensures
            r.wf(),
            r.disk@ == Map::<Seq<char>, Seq<u8>>::empty(),
            r.root@ == root@,
    {
        FilesystemKVModel { disk: DiskModel::new(), root }
    }

    /// What `get(key)` observes: the complete value committed at the
    /// key's final path, or nothing. In-flight temporary artifacts are
    /// invisible here, whatever state they are in.
    pub fn get(&self, key: &str) -> (r: Option<&Vec<u8>>)
        requires
            self.wf(),
        ensures
            match r {
                Some(v) => self.disk@.contains_key(self.final_path_of(key@)) && v@
                    == self.disk@[self.final_path_of(key@)],
                None => !self.disk@.contains_key(self.final_path_of(key@)),
            },
    {
        let p = key_to_path(self.root.as_str(), key);
        self.disk.read(p.as_str())
    }

    /// First protocol step of `put(key, value)`: write the value to
    /// the temporary path. `written` says how far the write got before
    /// it completed or the process died; either way the key's
    /// committed value is untouched.
    pub fn put_write_temp(&mut self, key: &str, value: &[u8], written: usize)
        requires
            old(self).wf(),
            written <= value@.len(),
        ensures
            final(self).wf(),
            final(self).root == old(self).root,
            final(self).disk@ == old(self).disk@.insert(
                old(self).temp_path_of(key@),
                value@.take(written as int),
            ),
            final(self).disk@.contains_key(final(self).final_path_of(key@)) == old(self).disk@.contains_key(old(self).final_path_of(key@)),
            old(self).disk@.contains_key(old(self).final_path_of(key@)) ==> final(self).disk@[final(self).final_path_of(key@)] == old(self).disk@[old(self).final_path_of(key@)],
    {
        let fp = key_to_path(self.root.as_str(), key);
        let tp = temp_path_for(fp.as_str());
        self.disk.write_file(tp.as_str(), value, written);
        proof {
            lemma_temp_path_distinct(self.root@, key@);
        }
    }

    /// Second protocol step: the atomic rename of the temporary file
    /// onto the final path. Only now does a reader's view of the key
    /// change, and it changes in one step to the complete value the
    /// temporary file held.
    pub fn put_commit(&mut self, key: &str)
        requires
            old(self).wf(),
            old(self).disk@.contains_key(old(self).temp_path_of(key@)),
        ensures
            final(self).wf(),
            final(self).root == old(self).root,
            final(self).disk@ == old(self).disk@.remove(old(self).temp_path_of(key@)).insert(
                old(self).final_path_of(key@),
                old(self).disk@[old(self).temp_path_of(key@)],
            ),
            final(self).disk@.contains_key(final(self).final_path_of(key@)),
            final(self).disk@[final(self).final_path_of(key@)] == old(self).disk@[old(self).temp_path_of(key@)],
    {
        let fp = key_to_path(self.root.as_str(), key);
        let tp = temp_path_for(fp.as_str());
        self.disk.rename(tp.as_str(), fp.as_str());
    }

    /// `remove(key)`: delete the committed record.
    pub fn remove_key(&mut self, key: &str)
        requires
            old(self).wf(),
        ensures
            final(self).wf(),
            final(self).root == old(self).root,
            final(self).disk@ == old(self).disk@.remove(old(self).final_path_of(key@)),
    {
        let fp = key_to_path(self.root.as_str(), key);
        self.disk.remove_file(fp.as_str());
    }

    /// `list_keys()`: every committed key under the root. A temporary
    /// artifact never appears, whatever state an in-flight or
    /// abandoned write left it in.
    pub fn list_keys(&self) -> (r: Vec<String>)
        ensures
            str_views(r@) == listed_keys(self.root@, self.disk_paths()),
            forall|j: int|
                0 <= j < r@.len() ==> !has_temporary_suffix(#[trigger] str_views(r@)[j]),
    {
        let paths = self.disk.all_paths();
        proof {
            assert(str_views(paths@) =~= self.disk_paths());
            lemma_no_temp_keys(self.root@, self.disk_paths());
        }
        keys_from_paths(self.root.as_str(), &paths)
    }
}

/// Atomicity of durable writes: while an overwrite of a key sits
/// anywhere between its temporary write — however many bytes that
/// write got to — and its commit, a reader of the key still observes
/// exactly the old committed value; the moment the commit's rename
/// lands, the reader observes exactly the complete new value. At no
/// point is a fragment of either value observable under the key.
pub proof fn lemma_durable_write_atomic(
    disk0: Map<Seq<char>, Seq<u8>>,
    root: Seq<char>,
    key: Seq<char>,
    value: Seq<u8>,
    written: int,
)
    requires
        0 <= written <= value.len(),
    ensures
        ({
            let fp = key_to_path_spec(root, key);
            let tp = fp + ".tmp"@;
            let during = disk0.insert(tp, value.take(written));
            let committed = during.remove(tp).insert(fp, during[tp]);
            &&& during.contains_key(fp) == disk0.contains_key(fp)
            &&& disk0.contains_key(fp) ==> during[fp] == disk0[fp]
            &&& written == value.len() ==> committed.contains_key(fp) && committed[fp] == value
        }),
{
    lemma_temp_path_distinct(root, key);
    assert(value.take(value.len() as int) =~= value);
}

} // verus!
