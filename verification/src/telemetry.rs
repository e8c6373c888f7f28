use vstd::prelude::*;
use vstd::string::StrSliceExecFns;
use vstd::utf8::encode_utf8;

verus! {

/// Per-process observability settings, assembled once at startup and
/// handed to the components that emit observations.
#[derive(Debug, Clone)]
pub struct TelemetryEnabled {
    pub telemetry_server: Option<String>,
    pub monitoring_server: Option<String>,
    pub logging_servers: Vec<String>,
    pub tracing_servers: Vec<String>,
    pub metrics_servers: Vec<String>,
    pub service_name: String,
    pub service_version: String,
    pub service_namespace: String,
    pub service_instance_id: String,
    pub run_id: String,
    pub trace_parent: Option<String>,
    pub license_key: String,
    /// Export interval in seconds.
    pub periodic_reader_interval: u64,
}

/// Whether the process reports telemetry at all.
#[derive(Debug, Clone)]
pub enum Config {
    Enabled(Box<TelemetryEnabled>),
    Disabled,
}

/// The telemetry identity a running reporter carries.
pub struct Telemetry {
    pub config: Box<TelemetryEnabled>,
}

impl Telemetry {
    pub fn new(config: Box<TelemetryEnabled>) -> (r: Telemetry)
        ensures
            r.config == config,
    {
        Telemetry { config }
    }
}

/// No separator occurs in `s` at positions `lo <= k < hi`.
pub open spec fn dash_free(s: Seq<char>, lo: int, hi: int) -> bool {
    forall|k: int| lo <= k < hi ==> s[k] != '-'
}

/// `t` is the field of `s` between the first separator (at `i`) and
/// the next one after it (at `j`, or the end of `s`).
pub open spec fn trace_id_field(s: Seq<char>, t: Seq<char>, i: int, j: int) -> bool {
    &&& 0 <= i < j <= s.len()
    &&& s[i] == '-'
    &&& dash_free(s, 0, i)
    &&& dash_free(s, i + 1, j)
    &&& j == s.len() || s[j] == '-'
    &&& t == s.subrange(i + 1, j)
}

/// `t` is the root trace id carried by the trace-parent header `s`.
pub open spec fn is_root_trace_id_of(s: Seq<char>, t: Seq<char>) -> bool {
    exists|i: int, j: int| trace_id_field(s, t, i, j)
}

/// The root trace id inside a trace-parent header: the field between
/// the first separator and the one after it (or the end). A present
/// header must carry at least one separator.
pub fn root_trace_id(trace_parent: Option<&str>) -> (r: Option<&str>)
    requires
        trace_parent matches Some(s) ==> exists|k: int| 0 <= k < s@.len() && s@[k] == '-',
    ensures
        r is Some <==> trace_parent is Some,
        trace_parent matches Some(s) ==> (r matches Some(t) ==> is_root_trace_id_of(s@, t@)),
{
    match trace_parent {
        None => None,
        Some(s) => {
            let n = s.unicode_len();
            let mut i: usize = 0;
            while i < n && s.get_char(i) != '-'
                invariant
                    n == s@.len(),
                    i <= n,
                    dash_free(s@, 0, i as int),
                    exists|k: int| 0 <= k < s@.len() && s@[k] == '-',
                decreases n - i,
            {
                i += 1;
            }
            if i == n {
                proof {
                    let k = choose|k: int| 0 <= k < s@.len() && s@[k] == '-';
                    assert(s@[k] != '-');
                }
                unreached()
            } else {
                let mut j: usize = i + 1;
                while j < n && s.get_char(j) != '-'
                    invariant
                        n == s@.len(),
                        i < j <= n,
                        i < n,
                        s@[i as int] == '-',
                        dash_free(s@, 0, i as int),
                        dash_free(s@, i + 1, j as int),
                    decreases n - j,
                {
                    j += 1;
                }
                let t = s.substring_char(i + 1, j);
                proof {
                    assert(is_root_trace_id_of(s@, t@)) by {
                        assert(trace_id_field(s@, t@, i as int, j as int));
                    }
                }
                Some(t)
            }
        },
    }
}

/// Strict lexicographic order on byte strings: the order the sorted
/// server lists are kept in (string order and byte order agree for
/// UTF-8).
pub open spec fn bytes_lt(a: Seq<u8>, b: Seq<u8>) -> bool
    decreases a.len(),
{
    if b.len() == 0 {
        false
    } else if a.len() == 0 {
        true
    } else if a[0] < b[0] {
        true
    } else if a[0] > b[0] {
        false
    } else {
        bytes_lt(a.drop_first(), b.drop_first())
    }
}

proof fn lemma_bytes_lt_connected(a: Seq<u8>, b: Seq<u8>)
    requires
        !bytes_lt(a, b),
        !bytes_lt(b, a),
    ensures
        a == b,
    decreases a.len(),
{
    if a.len() == 0 || b.len() == 0 {
        assert(a =~= b);
    } else {
        lemma_bytes_lt_connected(a.drop_first(), b.drop_first());
        assert(a =~= seq![a[0]] + a.drop_first());
        assert(b =~= seq![b[0]] + b.drop_first());
    }
}

proof fn lemma_bytes_lt_trans(a: Seq<u8>, b: Seq<u8>, c: Seq<u8>)
    requires
        bytes_lt(a, b),
        bytes_lt(b, c),
    ensures
        bytes_lt(a, c),
    decreases a.len(),
{
    if b.len() == 0 {
    } else if a.len() == 0 {
        assert(c.len() > 0);
    } else if c.len() == 0 {
    } else {
        if a[0] == b[0] && b[0] == c[0] {
            lemma_bytes_lt_trans(a.drop_first(), b.drop_first(), c.drop_first());
        }
    }
}

/// Compare two strings in lexicographic byte order.
fn str_lt(a: &str, b: &str) -> (r: bool)
    ensures
        r == bytes_lt(encode_utf8(a@), encode_utf8(b@)),
{
    let ab = a.as_bytes();
    let bb = b.as_bytes();
    let an = ab.len();
    let bn = bb.len();
    proof {
        assert(ab@.skip(0) =~= ab@);
        assert(bb@.skip(0) =~= bb@);
    }
    let mut i: usize = 0;
    while i < an && i < bn
        invariant
            an == ab@.len(),
            bn == bb@.len(),
            ab@ == encode_utf8(a@),
            bb@ == encode_utf8(b@),
            i <= an,
            i <= bn,
            bytes_lt(ab@, bb@) == bytes_lt(ab@.skip(i as int), bb@.skip(i as int)),
        decreases an - i,
    {
        let ghost ra = ab@.skip(i as int);
        let ghost rb = bb@.skip(i as int);
        proof {
            assert(ra[0] == ab@[i as int]);
            assert(rb[0] == bb@[i as int]);
            assert(ra.drop_first() =~= ab@.skip(i + 1));
            assert(rb.drop_first() =~= bb@.skip(i + 1));
        }
        if ab[i] < bb[i] {
            assert(bytes_lt(ra, rb));
            return true;
        }
        if ab[i] > bb[i] {
            assert(!bytes_lt(ra, rb));
            return false;
        }
        i += 1;
    }
    proof {
        if an < bn {
            assert(ab@.skip(i as int).len() == 0);
            assert(bb@.skip(i as int).len() > 0);
        } else if an > bn {
            assert(bb@.skip(i as int).len() == 0);
        } else {
            assert(ab@.skip(i as int).len() == 0);
            assert(bb@.skip(i as int).len() == 0);
        }
    }
    an < bn
}

/// Every pair of entries is strictly ascending, so no value repeats.
pub open spec fn strictly_sorted(s: Seq<Seq<char>>) -> bool {
    forall|i: int, j: int|
        0 <= i < j < s.len() ==> bytes_lt(encode_utf8(s[i]), encode_utf8(s[j]))
}

/// Place a value into its sorted position, unless it is already there.
fn insert_unique(out: &mut Vec<String>, s: String)
    requires
        strictly_sorted(old(out).deep_view()),
    ensures
        strictly_sorted(final(out).deep_view()),
        forall|v: Seq<char>|
            #[trigger] final(out).deep_view().contains(v) <==> (old(out).deep_view().contains(v)
                || v == s@),
{
    let ghost dv0 = out.deep_view();
    let n = out.len();
    let mut k: usize = 0;
    while k < n && str_lt(out[k].as_str(), s.as_str())
        invariant
            n == out@.len(),
            dv0 == out.deep_view(),
            dv0.len() == n,
            forall|i: int| 0 <= i < n ==> #[trigger] dv0[i] == out@[i]@,
            k <= n,
            forall|i: int| 0 <= i < k ==> bytes_lt(encode_utf8(#[trigger] dv0[i]), encode_utf8(s@)),
            strictly_sorted(dv0),
        decreases n - k,
    {
        k += 1;
    }
    if k < n && !str_lt(s.as_str(), out[k].as_str()) {
        proof {
            lemma_bytes_lt_connected(encode_utf8(s@), encode_utf8(dv0[k as int]));
            vstd::utf8::encode_utf8_decode_utf8(s@);
            vstd::utf8::encode_utf8_decode_utf8(dv0[k as int]);
            assert(s@ == dv0[k as int]);
            assert(dv0.contains(dv0[k as int]));
            assert forall|v: Seq<char>| #[trigger] out.deep_view().contains(v) <==> (
            dv0.contains(v) || v == s@) by {}
        }
        return ;
    }
    let ghost sorted_pos = k as int;
    out.insert(k, s);
    proof {
        let dv1 = out.deep_view();
        assert(dv1 =~= dv0.insert(sorted_pos, s@));
        assert forall|i: int, j: int|
            0 <= i < j < dv1.len() implies bytes_lt(
            encode_utf8(dv1[i]),
            encode_utf8(dv1[j]),
        ) by {
            if j < sorted_pos {
                assert(dv1[i] == dv0[i]);
                assert(dv1[j] == dv0[j]);
            } else if i < sorted_pos && j == sorted_pos {
                assert(dv1[i] == dv0[i]);
                assert(dv1[j] == s@);
            } else if i < sorted_pos {
                assert(dv1[i] == dv0[i]);
                assert(dv1[j] == dv0[j - 1]);
            } else if i == sorted_pos {
                assert(dv1[j] == dv0[j - 1]);
                assert(dv1[i] == s@);
                assert(sorted_pos <= j - 1 < dv0.len());
                assert(bytes_lt(encode_utf8(s@), encode_utf8(dv0[sorted_pos])));
                if j - 1 > sorted_pos {
                    lemma_bytes_lt_trans(
                        encode_utf8(s@),
                        encode_utf8(dv0[sorted_pos]),
                        encode_utf8(dv0[j - 1]),
                    );
                }
            } else {
                assert(dv1[i] == dv0[i - 1]);
                assert(dv1[j] == dv0[j - 1]);
            }
        }
        assert forall|v: Seq<char>| #[trigger] dv1.contains(v) <==> (dv0.contains(v) || v == s@) by {
            if dv1.contains(v) {
                let i = choose|i: int| 0 <= i < dv1.len() && dv1[i] == v;
                if i < sorted_pos {
                    assert(dv0[i] == v);
                } else if i == sorted_pos {
                } else {
                    assert(dv0[i - 1] == v);
                }
            }
            if dv0.contains(v) {
                let i = choose|i: int| 0 <= i < dv0.len() && dv0[i] == v;
                if i < sorted_pos {
                    assert(dv1[i] == v);
                } else {
                    assert(dv1[i + 1] == v);
                }
            }
            if v == s@ {
                assert(dv1[sorted_pos] == v);
            }
        }
    }
}

/// Flatten the present values, sort them, and drop duplicates: the
/// result is strictly ascending in byte order and holds exactly the
/// distinct values that were present.
pub fn deduplicate(input: Vec<Option<String>>) -> (r: Vec<String>)
    ensures
        strictly_sorted(r.deep_view()),
        forall|v: Seq<char>|
            #[trigger] r.deep_view().contains(v) <==> input.deep_view().contains(Some(v)),
{
    let mut out: Vec<String> = Vec::new();
    proof {
        assert(out.deep_view() =~= Seq::<Seq<char>>::empty());
    }
    let n = input.len();
    let mut idx: usize = 0;
    while idx < n
        invariant
            n == input@.len(),
            idx <= n,
            strictly_sorted(out.deep_view()),
            forall|v: Seq<char>|
                #[trigger] out.deep_view().contains(v) <==> input.deep_view().take(
                    idx as int,
                ).contains(Some(v)),
        decreases n - idx,
    {
        let ghost dvin = input.deep_view();
        proof {
            assert(dvin.len() == n);
            assert(dvin[idx as int] == input@[idx as int].deep_view());
            assert(dvin.take(idx + 1).drop_last() =~= dvin.take(idx as int));
            assert(dvin.take(idx + 1).last() == dvin[idx as int]);
        }
        let ghost out_before = out.deep_view();
        match &input[idx] {
            None => {
                proof {
                    assert forall|v: Seq<char>| #[trigger] out.deep_view().contains(v) <==> dvin.take(
                        idx + 1,
                    ).contains(Some(v)) by {
                        if dvin.take(idx + 1).contains(Some(v)) {
                            let i = choose|i: int|
                                0 <= i < dvin.take(idx + 1).len() && #[trigger] dvin.take(
                                    idx + 1,
                                )[i] == Some(v);
                            if i < idx {
                                assert(dvin.take(idx as int)[i] == Some(v));
                                assert(dvin.take(idx as int).contains(Some(v)));
                            }
                        }
                        if dvin.take(idx as int).contains(Some(v)) {
                            let i = choose|i: int|
                                0 <= i < idx && #[trigger] dvin.take(idx as int)[i] == Some(v);
                            assert(dvin.take(idx + 1)[i] == Some(v));
                            assert(dvin.take(idx + 1).contains(Some(v)));
                        }
                    }
                }
            },
            Some(s) => {
                let cloned = s.clone();
                insert_unique(&mut out, cloned);
                proof {
                    assert forall|v: Seq<char>| #[trigger] out.deep_view().contains(v) <==> dvin.take(
                        idx + 1,
                    ).contains(Some(v)) by {
                        if out.deep_view().contains(v) {
                            if out_before.contains(v) {
                                let i = choose|i: int|
                                    0 <= i < idx && #[trigger] dvin.take(idx as int)[i] == Some(v);
                                assert(dvin.take(idx + 1)[i] == Some(v));
                            } else {
                                assert(v == s@);
                                assert(dvin.take(idx + 1)[idx as int] == Some(v));
                            }
                            assert(dvin.take(idx + 1).contains(Some(v)));
                        }
                        if dvin.take(idx + 1).contains(Some(v)) {
                            let i = choose|i: int|
                                0 <= i < dvin.take(idx + 1).len() && #[trigger] dvin.take(
                                    idx + 1,
                                )[i] == Some(v);
                            if i < idx {
                                assert(dvin.take(idx as int)[i] == Some(v));
                                assert(dvin.take(idx as int).contains(Some(v)));
                                assert(out_before.contains(v));
                            } else {
                                assert(v == s@);
                            }
                            assert(out.deep_view().contains(v));
                        }
                    }
                }
            },
        }
        idx += 1;
    }
    proof {
        assert(input.deep_view().take(n as int) =~= input.deep_view());
    }
    out
}

} // verus!
