use vstd::prelude::*;
use vstd::string::StrSliceExecFns;
use vstd::string::StringExecFns;

verus! {

/// A key rendered as a path suffix: each maximal nonempty run of
/// non-separator characters becomes one `/`-prefixed path component,
/// so empty components never reach the disk.
pub open spec fn rendered_components(key: Seq<char>, in_component: bool) -> Seq<char>
    decreases key.len(),
{
    if key.len() == 0 {
        Seq::empty()
    } else if key[0] == '/' {
        rendered_components(key.drop_first(), false)
    } else if in_component {
        seq![key[0]] + rendered_components(key.drop_first(), true)
    } else {
        seq!['/', key[0]] + rendered_components(key.drop_first(), true)
    }
}

/// Where the value of a logical `/`-delimited key lives on disk: the
/// backend root followed by the key's nonempty components.
pub open spec fn key_to_path_spec(root: Seq<char>, key: Seq<char>) -> Seq<char> {
    root + rendered_components(key, false)
}

/// Map a logical key to its platform path under the backend root.
pub fn key_to_path(root: &str, key: &str) -> (r: String)
    ensures
        r@ == key_to_path_spec(root@, key@),
{
    let mut out = root.to_owned();
    let n = key.unicode_len();
    let mut i: usize = 0;
    let mut in_component = false;
    proof {
        assert(key@.skip(0) =~= key@);
    }
    while i < n
        invariant
            n == key@.len(),
            i <= n,
            out@ + rendered_components(key@.skip(i as int), in_component) == root@
                + rendered_components(key@, false),
        decreases n - i,
    {
        let ghost rest = key@.skip(i as int);
        proof {
            assert(rest.drop_first() =~= key@.skip(i + 1));
            assert(rest[0] == key@[i as int]);
        }
        let c = key.get_char(i);
        if c == '/' {
            in_component = false;
        } else {
            let ghost out0 = out@;
            if !in_component {
                out.append("/");
                proof {
                    reveal_strlit("/");
                    assert(out@ =~= out0 + seq!['/']);
                }
            }
            let ghost out1 = out@;
            let piece = key.substring_char(i, i + 1);
            proof {
                assert(piece@ =~= seq![key@[i as int]]);
            }
            out.append(piece);
            proof {
                assert(out@ =~= out1 + seq![key@[i as int]]);
                if in_component {
                    assert(out@ + rendered_components(key@.skip(i + 1), true) =~= out1 + (seq![
                        key@[i as int],
                    ] + rendered_components(key@.skip(i + 1), true)));
                } else {
                    assert(out@ + rendered_components(key@.skip(i + 1), true) =~= out0 + (seq![
                        '/',
                        key@[i as int],
                    ] + rendered_components(key@.skip(i + 1), true)));
                    assert(seq!['/', key@[i as int]] =~= seq!['/'] + seq![key@[i as int]]);
                }
            }
            in_component = true;
        }
        i += 1;
    }
    proof {
        assert(key@.skip(n as int) =~= Seq::<char>::empty());
    }
    out
}

/// The sibling temporary path a value is written to before the atomic
/// rename onto its final path.
pub fn temp_path_for(path: &str) -> (r: String)
    ensures
        r@ == path@ + ".tmp"@,
{
    let mut s = path.to_owned();
    s.append(".tmp");
    s
}

/// Whether a path carries the temporary-object suffix; such paths are
/// in-flight or abandoned write artifacts, never committed records.
pub open spec fn has_temporary_suffix(path: Seq<char>) -> bool {
    path.len() >= 4 && path.subrange(path.len() - 4, path.len() as int) == ".tmp"@
}

pub fn is_temporary_path(path: &str) -> (r: bool)
    ensures
        r == has_temporary_suffix(path@),
{
    proof {
        reveal_strlit(".tmp");
    }
    let n = path.unicode_len();
    if n < 4 {
        return false;
    }
    let m = ".tmp";
    let mut k: usize = 0;
    while k < 4
        invariant
            n == path@.len(),
            4 <= n,
            k <= 4,
            m@ == ".tmp"@,
            m@.len() == 4,
            forall|j: int| 0 <= j < k ==> path@[n - 4 + j] == m@[j],
        decreases 4 - k,
    {
        proof {
            reveal_strlit(".tmp");
        }
        if path.get_char(n - 4 + k) != m.get_char(k) {
            assert(path@.subrange(n - 4, n as int)[k as int] != ".tmp"@[k as int]);
            return false;
        }
        k += 1;
    }
    assert(path@.subrange(n - 4, n as int) =~= ".tmp"@);
    true
}

/// The path lies strictly under the root: `<root>/<nonempty rest>`.
pub open spec fn is_under_root(root: Seq<char>, path: Seq<char>) -> bool {
    path.len() > root.len() + 1 && path.subrange(0, root.len() as int) == root && path[root.len() as int]
        == '/'
}

fn path_under_root(root: &str, path: &str) -> (r: bool)
    ensures
        r == is_under_root(root@, path@),
{
    let rn = root.unicode_len();
    let pn = path.unicode_len();
    if pn <= rn {
        return false;
    }
    if pn - rn <= 1 {
        return false;
    }
    let mut k: usize = 0;
    while k < rn
        invariant
            rn == root@.len(),
            pn == path@.len(),
            pn > rn + 1,
            k <= rn,
            forall|j: int| 0 <= j < k ==> path@[j] == root@[j],
        decreases rn - k,
    {
        if path.get_char(k) != root.get_char(k) {
            assert(path@.subrange(0, rn as int)[k as int] != root@[k as int]);
            return false;
        }
        k += 1;
    }
    if path.get_char(rn) != '/' {
        return false;
    }
    assert(path@.subrange(0, rn as int) =~= root@);
    true
}

pub open spec fn str_views(s: Seq<String>) -> Seq<Seq<char>> {
    s.map_values(|p: String| p@)
}

/// The committed keys a listing reports for the given paths: temporary
/// artifacts and paths outside the root are excluded, the rest are
/// stripped of `<root>/`.
pub open spec fn listed_keys(root: Seq<char>, paths: Seq<Seq<char>>) -> Seq<Seq<char>>
    decreases paths.len(),
{
    if paths.len() == 0 {
        Seq::empty()
    } else {
        let prefix = listed_keys(root, paths.drop_last());
        let p = paths.last();
        if has_temporary_suffix(p) || !is_under_root(root, p) {
            prefix
        } else {
            prefix.push(p.skip(root.len() + 1 as int))
        }
    }
}

/// Turn the enumerated file paths of the backend's directory tree into
/// the logical keys a caller may rely on.
pub fn keys_from_paths(root: &str, paths: &Vec<String>) -> (r: Vec<String>)
    ensures
        str_views(r@) == listed_keys(root@, str_views(paths@)),
{
    let ghost pviews = str_views(paths@);
    let mut result: Vec<String> = Vec::new();
    let n = paths.len();
    assert(str_views(result@) =~= listed_keys(root@, pviews.take(0)));
    let mut i: usize = 0;
    while i < n
        invariant
            n == paths@.len(),
            pviews == str_views(paths@),
            pviews.len() == n,
            i <= n,
            str_views(result@) == listed_keys(root@, pviews.take(i as int)),
        decreases n - i,
    {
        let ghost prev = str_views(result@);
        proof {
            assert(pviews.take(i + 1).drop_last() =~= pviews.take(i as int));
            assert(pviews.take(i + 1).last() == pviews[i as int]);
            assert(pviews[i as int] == paths@[i as int]@);
        }
        let p = &paths[i];
        if !is_temporary_path(p.as_str()) && path_under_root(root, p.as_str()) {
            let rn = root.unicode_len();
            let pn = p.as_str().unicode_len();
            let key = p.as_str().substring_char(rn + 1, pn).to_owned();
            proof {
                assert(key@ =~= pviews[i as int].skip(root@.len() + 1 as int));
            }
            result.push(key);
            proof {
                assert(str_views(result@) =~= prev.push(pviews[i as int].skip(root@.len() + 1 as int)));
            }
        }
        i += 1;
    }
    proof {
        assert(pviews.take(n as int) =~= pviews);
    }
    result
}

/// A listing never reports a key bearing the temporary suffix: the key
/// would have to come from a path bearing it, and those are excluded.
pub proof fn lemma_no_temp_keys(root: Seq<char>, paths: Seq<Seq<char>>)
    ensures
        forall|j: int|
            0 <= j < listed_keys(root, paths).len() ==> !has_temporary_suffix(
                #[trigger] listed_keys(root, paths)[j],
            ),
    decreases paths.len(),
{
    if paths.len() > 0 {
        lemma_no_temp_keys(root, paths.drop_last());
        let prefix = listed_keys(root, paths.drop_last());
        let all = listed_keys(root, paths);
        let p = paths.last();
        assert forall|j: int| 0 <= j < all.len() implies !has_temporary_suffix(
            #[trigger] all[j],
        ) by {
            if j < prefix.len() {
                assert(all[j] == prefix[j]);
            } else if all.len() > prefix.len() {
                let k = p.skip(root.len() + 1 as int);
                assert(all[j] == k);
                if has_temporary_suffix(k) {
                    assert(p.subrange(p.len() - 4, p.len() as int) =~= k.subrange(
                        k.len() - 4,
                        k.len() as int,
                    ));
                    assert(has_temporary_suffix(p));
                }
            }
        }
    }
}

} // verus!
