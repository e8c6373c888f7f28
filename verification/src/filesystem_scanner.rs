use vstd::prelude::*;
use vstd::string::{StrSliceExecFns, StringExecFns, StringSliceAdditionalSpecFns};
use vstd::utf8::valid_utf8;

use crate::cached_object_storage::CachedObjectStorage;
use crate::metadata::FileLikeMetadata;
use crate::scanner::{
    action_views, batch_invariant, deletion_actions_spec, deletion_and_replacement_actions_for,
    insertion_actions_for, insertion_actions_spec, lemma_batch_invariant, DiscoveredObject,
    MetadataLookup, PosixLikeScanner, QueuedAction, ReadError,
};

verus! {

/// Whether a string parses as a shell-style glob pattern: the answer
/// `glob::Pattern::new` gives, which depends on the pattern string
/// alone for one build target (the parser consults the platform's
/// path separator around recursive wildcards).
pub uninterp spec fn glob_pattern_ok(pattern: Seq<char>) -> bool;

/// Whether `glob::glob` accepts a pattern. It parses the whole
/// pattern and then each `/`-separated component on its own, all
/// before any I/O, so this too depends on the pattern string alone
/// for one build target. An openable pattern parses as a whole; the
/// converse can fail, e.g. when a separator splits a bracket
/// expression.
pub uninterp spec fn glob_openable(pattern: Seq<char>) -> bool;

/// Relies on glob::Pattern::new: an invalid glob pattern, and only an
/// invalid one, yields a `PatternError`.
#[verifier::external_body]
fn glob_pattern_valid(pattern: &str) -> (r: bool)
    ensures
        r == glob_pattern_ok(pattern@),
{
    glob::Pattern::new(pattern).is_ok()
}

#[verifier::external_type_specification]
#[verifier::external_body]
pub struct ExPaths(glob::Paths);

#[verifier::external_type_specification]
#[verifier::external_body]
pub struct ExPathBuf(std::path::PathBuf);

#[verifier::external_type_specification]
#[verifier::external_body]
pub struct ExGlobError(glob::GlobError);

/// Relies on glob::glob: it validates the whole pattern with
/// glob::Pattern::new and then re-parses each component, all before it
/// touches the disk, and errors exactly when one of those parses
/// fails. What the enumeration will yield depends on the disk, so
/// nothing more is pinned.
#[verifier::external_body]
fn glob_open(pattern: &str) -> (r: Option<glob::Paths>)
    ensures
        r is Some <==> glob_openable(pattern@),
        r is Some ==> glob_pattern_ok(pattern@),
{
    glob::glob(pattern).ok()
}

/// One step of a lazy glob enumeration.
pub enum GlobStep {
    /// The enumeration is exhausted.
    Done,
    /// An entry that cannot be used: an unreadable path, or one not
    /// representable as Unicode.
    Skip,
    /// A matched path.
    Entry(String),
}

/// Relies on glob::Paths::next: each step yields a matched path, an
/// unreadable-path error, or the end of the enumeration. What comes
/// back depends on the disk at call time.
#[verifier::external_body]
fn glob_next(paths: &mut glob::Paths) -> (r: GlobStep) {
    match paths.next() {
        None => GlobStep::Done,
        Some(Err(_)) => GlobStep::Skip,
        Some(Ok(p)) => match p.to_str() {
            None => GlobStep::Skip,
            Some(s) => GlobStep::Entry(s.to_string()),
        },
    }
}

/// Relies on std::path::Path::is_file: whether the path currently
/// names an existing regular file. Depends on the disk at call time.
#[verifier::external_body]
fn path_is_file(path: &str) -> (r: bool) {
    std::path::Path::new(path).is_file()
}

/// Relies on std::path::Path::metadata (a stat): the object's size,
/// modification time in whole seconds since the Unix epoch (a
/// sub-second change with unchanged size therefore reads as
/// unchanged), and kind; or that it does not exist; or that the
/// lookup genuinely failed. What comes back depends on the disk at
/// call time, so only the result's shape is pinned: the body never
/// judges a key unrepresentable — its caller does that before the
/// call.
#[verifier::external_body]
fn path_metadata_lookup(path: &str) -> (r: MetadataLookup)
    ensures
        !(r is Unrepresentable),
{
    match std::path::Path::new(path).metadata() {
        Ok(m) => MetadataLookup::Found(
            FileLikeMetadata {
                size: m.len(),
                modified_at: m.modified().ok().and_then(
                    |t| t.duration_since(std::time::UNIX_EPOCH).ok(),
                ).map(|d| d.as_secs()),
                is_directory: m.is_dir(),
            },
        ),
        Err(e) if e.kind() == std::io::ErrorKind::NotFound => MetadataLookup::Absent,
        Err(_) => MetadataLookup::Failed,
    }
}

/// Relies on std::str::from_utf8: it succeeds exactly on valid UTF-8
/// and returns the borrowed decoding of the bytes.
#[verifier::external_body]
fn bytes_as_path(key: &[u8]) -> (r: Option<&str>)
    ensures
        r is Some <==> valid_utf8(key@),
        r matches Some(s) ==> s.spec_bytes() == key@,
{
    std::str::from_utf8(key).ok()
}

/// Relies on tokio::fs::read, driven to completion on a one-off local
/// runtime: the file's full current contents, or that reading failed.
/// Blocking on (or dropping) a runtime inside an asynchronous
/// execution context would panic, so there the body reports failure
/// instead of reading.
#[verifier::external_body]
fn read_file_contents(path: &str) -> (r: Option<Vec<u8>>) {
    if tokio::runtime::Handle::try_current().is_ok() {
        return None;
    }
    let runtime = tokio::runtime::Builder::new_current_thread().build().ok()?;
    runtime.block_on(tokio::fs::read(path)).ok()
}

/// The glob pattern that finds, under a matched directory, every file
/// matching the object pattern: `<base>/**/<object_pattern>`.
fn folder_scan_pattern(base: &str, object_pattern: &str) -> (r: String)
    ensures
        r@ == base@ + "/**/"@ + object_pattern@,
{
    let mut s = base.to_owned();
    s.append("/**/");
    s.append(object_pattern);
    s
}

/// `r` is the scanner-contract judgment of the lookup outcome: the
/// metadata when the object exists, `Ok(None)` exactly when it does
/// not — absence is never an error — and an I/O error otherwise.
pub open spec fn judged_metadata(
    outcome: MetadataLookup,
    r: Result<Option<FileLikeMetadata>, ReadError>,
) -> bool {
    r == (match outcome {
        MetadataLookup::Found(m) => Ok::<Option<FileLikeMetadata>, ReadError>(Some(m)),
        MetadataLookup::Absent => Ok(None),
        MetadataLookup::Unrepresentable => Err(ReadError::Io),
        MetadataLookup::Failed => Err(ReadError::Io),
    })
}

/// `r` is the scanner-contract judgment of a content retrieval: the
/// complete bytes when the read succeeded, an I/O error when and only
/// when it did not.
pub open spec fn judged_contents(
    contents: Option<Vec<u8>>,
    r: Result<Vec<u8>, ReadError>,
) -> bool {
    r == (match contents {
        Some(v) => Ok::<Vec<u8>, ReadError>(v),
        None => Err(ReadError::Io),
    })
}

/// Judge a point lookup as the scanner contract asks.
pub fn object_metadata_from_lookup(outcome: MetadataLookup) -> (r: Result<
    Option<FileLikeMetadata>,
    ReadError,
>)
    ensures
        judged_metadata(outcome, r),
{
    match outcome {
        MetadataLookup::Found(m) => Ok(Some(m)),
        MetadataLookup::Absent => Ok(None),
        MetadataLookup::Unrepresentable => Err(ReadError::Io),
        MetadataLookup::Failed => Err(ReadError::Io),
    }
}

/// Judge a content retrieval as the scanner contract asks.
pub fn read_object_from_contents(contents: Option<Vec<u8>>) -> (r: Result<Vec<u8>, ReadError>)
    ensures
        judged_contents(contents, r),
{
    match contents {
        Some(v) => Ok(v),
        None => Err(ReadError::Io),
    }
}

/// What one run of the deletion/update pass reports: one lookup
/// outcome per tracked entry, a key judged unrepresentable exactly
/// when it is not UTF-8; on success the batch is exactly the judgment
/// of those outcomes, and the cycle fails exactly when some lookup
/// genuinely failed — so a scan of an empty store cannot fail.
pub open spec fn deletion_pass_report(
    entries: Seq<(Seq<u8>, FileLikeMetadata)>,
    outcomes: Seq<MetadataLookup>,
    r: Result<Vec<QueuedAction>, ReadError>,
) -> bool {
    &&& outcomes.len() == entries.len()
    &&& forall|i: int|
        0 <= i < entries.len() ==> ((#[trigger] outcomes[i] is Unrepresentable) <==> !valid_utf8(
            entries[i].0,
        ))
    &&& match r {
        Ok(acts) => action_views(acts@) == deletion_actions_spec(entries, outcomes) && (forall|
            i: int,
        |
            0 <= i < outcomes.len() ==> !(#[trigger] outcomes[i] is Failed)),
        Err(e) => e == ReadError::Io && (exists|i: int|
            0 <= i < outcomes.len() && (#[trigger] outcomes[i] is Failed)),
    }
}

/// Reference implementation of the scanner contract over a local or
/// mounted filesystem, configured with a root glob pattern and an
/// object-name pattern for matched directories.
pub struct FilesystemScanner {
    pub path: String,
    pub object_pattern: String,
}

impl FilesystemScanner {
    /// A scanner over the given root glob. A malformed root pattern is
    /// rejected here, at construction, never silently.
    pub fn new(path: &str, object_pattern: &str) -> (r: Result<FilesystemScanner, ReadError>)
        ensures
            r is Ok <==> glob_pattern_ok(path@),
            r matches Ok(s) ==> s.path@ == path@ && s.object_pattern@ == object_pattern@,
            r matches Err(e) ==> e == ReadError::MalformedPattern,
    {
        if glob_pattern_valid(path) {
            Ok(
                FilesystemScanner {
                    path: path.to_owned(),
                    object_pattern: object_pattern.to_owned(),
                },
            )
        } else {
            Err(ReadError::MalformedPattern)
        }
    }

    /// Deletion/update pass: stat every tracked key and judge the
    /// outcomes. The batch is exactly the judgment of the observed
    /// outcome sequence; a lookup that fails with a genuine I/O error
    /// aborts the cycle, since it may hide a real deletion, and only
    /// such a failure can.
    pub fn new_deletion_and_replacement_actions(cached: &CachedObjectStorage) -> (r: Result<
        Vec<QueuedAction>,
        ReadError,
    >)
        ensures
            exists|outcomes: Seq<MetadataLookup>|
                deletion_pass_report(cached.entry_seq(), outcomes, r),
    {
        let mut outcomes: Vec<MetadataLookup> = Vec::new();
        let n = cached.len();
        let mut i: usize = 0;
        while i < n
            invariant
                i <= n,
                n == cached.entry_seq().len(),
                outcomes@.len() == i,
                forall|j: int|
                    0 <= j < i ==> ((#[trigger] outcomes@[j] is Unrepresentable) <==> !valid_utf8(
                        cached.entry_seq()[j].0,
                    )),
            decreases n - i,
        {
            let key = cached.key_at(i);
            let outcome = match bytes_as_path(key.as_slice()) {
                None => MetadataLookup::Unrepresentable,
                Some(p) => path_metadata_lookup(p),
            };
            outcomes.push(outcome);
            i += 1;
        }
        let r = deletion_and_replacement_actions_for(cached, &outcomes);
        proof {
            assert(deletion_pass_report(cached.entry_seq(), outcomes@, r));
        }
        r
    }

    /// Insertion pass: enumerate matching paths, turn each untracked
    /// one that can still be statted into a `Read` proposal. The batch
    /// is exactly the judgment of the observed candidate sequence.
    pub fn new_insertion_actions(&mut self, cached: &CachedObjectStorage) -> (r: Result<
        Vec<QueuedAction>,
        ReadError,
    >)
        ensures
            r matches Ok(acts) ==> exists|cands: Seq<(Seq<u8>, Option<FileLikeMetadata>)>|
                action_views(acts@) == insertion_actions_spec(cached@, cands),
            r matches Err(e) ==> e == ReadError::MalformedPattern,
            !glob_openable(old(self).path@) ==> r is Err,
    {
        let paths = match self.get_matching_file_paths() {
            Ok(paths) => paths,
            Err(e) => {
                return Err(e);
            },
        };
        let mut candidates: Vec<DiscoveredObject> = Vec::new();
        let n = paths.len();
        let mut i: usize = 0;
        while i < n
            invariant
                i <= n,
                n == paths@.len(),
            decreases n - i,
        {
            let object_key = paths[i].as_bytes_vec();
            if !cached.contains_object(object_key.as_slice()) {
                let metadata = match path_metadata_lookup(paths[i].as_str()) {
                    MetadataLookup::Found(m) => Some(m),
                    _ => None,
                };
                candidates.push(DiscoveredObject { key: object_key, metadata });
            }
            i += 1;
        }
        let acts = insertion_actions_for(cached, &candidates);
        Ok(acts)
    }

    /// Enumerate every path matching the root glob; a matched plain
    /// file is a candidate itself, and a matched directory is searched
    /// for files matching the object pattern anywhere beneath it.
    /// Unreadable entries and non-Unicode paths are skipped, never
    /// fatal; only a malformed pattern is.
    pub fn get_matching_file_paths(&self) -> (r: Result<Vec<String>, ReadError>)
        ensures
            r matches Err(e) ==> e == ReadError::MalformedPattern,
            !glob_openable(self.path@) ==> r is Err,
            r is Err ==> !glob_openable(self.path@) || exists|dir: Seq<char>|
                !glob_openable(dir + "/**/"@ + self.object_pattern@),
    {
        let mut result: Vec<String> = Vec::new();
        let mut paths = match glob_open(self.path.as_str()) {
            None => {
                return Err(ReadError::MalformedPattern);
            },
            Some(p) => p,
        };
        // A filesystem cannot hold more distinct paths than the address
        // space can count, so the step bounds are never the ones to stop
        // an enumeration.
        let mut steps: usize = usize::MAX;
        while steps > 0
            decreases steps,
        {
            steps -= 1;
            match glob_next(&mut paths) {
                GlobStep::Done => {
                    break ;
                },
                GlobStep::Skip => {},
                GlobStep::Entry(entry) => {
                    if path_is_file(entry.as_str()) {
                        result.push(entry);
                    } else {
                        let pattern = folder_scan_pattern(entry.as_str(), self.object_pattern.as_str());
                        let mut nested = match glob_open(pattern.as_str()) {
                            None => {
                                proof {
                                    assert(!glob_openable(entry@ + "/**/"@ + self.object_pattern@));
                                }
                                return Err(ReadError::MalformedPattern);
                            },
                            Some(p) => p,
                        };
                        let mut nested_steps: usize = usize::MAX;
                        while nested_steps > 0
                            decreases nested_steps,
                        {
                            nested_steps -= 1;
                            match glob_next(&mut nested) {
                                GlobStep::Done => {
                                    break ;
                                },
                                GlobStep::Skip => {},
                                GlobStep::Entry(nested_entry) => {
                                    if path_is_file(nested_entry.as_str()) {
                                        result.push(nested_entry);
                                    }
                                },
                            }
                        }
                    }
                },
            }
        }
        Ok(result)
    }
}

impl PosixLikeScanner for FilesystemScanner {
    fn object_metadata(&mut self, object_path: &[u8]) -> (r: Result<
        Option<FileLikeMetadata>,
        ReadError,
    >)
    // a stored key that does not decode to a representable path is the
    // one condition this backend itself rejects
        ensures
            (r matches Err(e) && e == ReadError::NotRepresentable) <==> !valid_utf8(object_path@),
            valid_utf8(object_path@) ==> exists|outcome: MetadataLookup|
                !(outcome is Unrepresentable) && judged_metadata(outcome, r),
    {
        match bytes_as_path(object_path) {
            None => Err(ReadError::NotRepresentable),
            Some(p) => {
                let outcome = path_metadata_lookup(p);
                let r = object_metadata_from_lookup(outcome);
                proof {
                    assert(!(outcome is Unrepresentable) && judged_metadata(outcome, r));
                }
                r
            },
        }
    }

    fn read_object(&mut self, object_path: &[u8]) -> (r: Result<Vec<u8>, ReadError>)
        ensures
            (r matches Err(e) && e == ReadError::NotRepresentable) <==> !valid_utf8(object_path@),
            valid_utf8(object_path@) ==> exists|contents: Option<Vec<u8>>|
                judged_contents(contents, r),
    {
        match bytes_as_path(object_path) {
            None => Err(ReadError::NotRepresentable),
            Some(p) => {
                let contents = read_file_contents(p);
                let ghost witness = contents;
                let r = read_object_from_contents(contents);
                proof {
                    assert(judged_contents(witness, r));
                }
                r
            },
        }
    }

    fn next_scanner_actions(
        &mut self,
        are_deletions_enabled: bool,
        cached_object_storage: &CachedObjectStorage,
    ) -> (r: Result<Vec<QueuedAction>, ReadError>)
    // beyond the batch invariant the trait asks for: the batch is the
    // judgment of observed outcomes and candidates, deletion and update
    // decisions placed before insertion decisions, the deletion/update
    // pass runs only when deletions are enabled, and an error is a
    // fatal lookup failure of that pass or a malformed glob pattern
        ensures
            r matches Ok(acts) ==> exists|outcomes: Seq<MetadataLookup>, cands: Seq<
                (Seq<u8>, Option<FileLikeMetadata>),
            >|
                action_views(acts@) == deletion_actions_spec(
                    cached_object_storage.entry_seq(),
                    outcomes,
                ) + insertion_actions_spec(cached_object_storage@, cands) && (
                !are_deletions_enabled ==> outcomes == Seq::<MetadataLookup>::empty()),
            r matches Err(e) ==> e == ReadError::Io || e == ReadError::MalformedPattern,
            !are_deletions_enabled ==> (r matches Err(e) ==> e == ReadError::MalformedPattern),
            !glob_openable(old(self).path@) ==> r is Err,
    {
        let mut result: Vec<QueuedAction> = Vec::new();
        let ghost entries = cached_object_storage.entry_seq();
        let ghost mut del_outcomes: Seq<MetadataLookup> = Seq::empty();
        if are_deletions_enabled {
            let mut dels = match Self::new_deletion_and_replacement_actions(cached_object_storage) {
                Ok(dels) => dels,
                Err(e) => {
                    return Err(e);
                },
            };
            proof {
                del_outcomes = choose|outcomes: Seq<MetadataLookup>|
                    outcomes.len() == entries.len() && action_views(dels@)
                        == deletion_actions_spec(entries, outcomes);
            }
            result.append(&mut dels);
        } else {
            assert(action_views(result@) =~= deletion_actions_spec(entries, Seq::empty()));
        }
        assert(action_views(result@) == deletion_actions_spec(entries, del_outcomes));
        let mut ins = match self.new_insertion_actions(cached_object_storage) {
            Ok(ins) => ins,
            Err(e) => {
                return Err(e);
            },
        };
        let ghost ins_cands = choose|cands: Seq<(Seq<u8>, Option<FileLikeMetadata>)>|
            action_views(ins@) == insertion_actions_spec(cached_object_storage@, cands);
        let ghost dels_views = action_views(result@);
        let ghost ins_views = action_views(ins@);
        result.append(&mut ins);
        proof {
            assert(action_views(result@) =~= dels_views + ins_views);
            lemma_batch_invariant(entries, del_outcomes, ins_cands);
        }
        Ok(result)
    }

    fn has_pending_actions(&self) -> (r: bool)
    // this backend recomputes the full diff on every call, so nothing
    // is ever left buffered
        ensures
            r == false,
    {
        false
    }

    fn short_description(&self) -> (r: String)
        ensures
            r@ == "FileSystem("@ + self.path@ + ")"@,
    {
        let mut s = "FileSystem(".to_owned();
        s.append(self.path.as_str());
        s.append(")");
        s
    }
}

} // verus!
