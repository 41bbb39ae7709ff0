//! The shape of the model-price catalog, and the status reported about it.
use vstd::prelude::*;
use crate::sources::path_names;
use crate::text::{lemma_seq_less_irreflexive, lemma_seq_less_transitive, seq_less, str_less};

verus! {

/// Column order of a row in the trimmed catalog.
pub const FIELDS: [&'static str; 7] = [
    "provider",
    "model",
    "input",
    "output",
    "cacheRead",
    "cacheWrite",
    "context",
];

pub open spec fn fields_spec() -> Seq<Seq<char>> {
    seq![
        "provider"@,
        "model"@,
        "input"@,
        "output"@,
        "cacheRead"@,
        "cacheWrite"@,
        "context"@,
    ]
}

/// Whether a catalog lists exactly the expected columns, in order.
pub fn fields_match(fields: &Vec<String>) -> (r: bool)
    ensures
        r == (path_names(fields@) == fields_spec()),
{
    let expected: Vec<String> = vec![
        "provider".to_owned(),
        "model".to_owned(),
        "input".to_owned(),
        "output".to_owned(),
        "cacheRead".to_owned(),
        "cacheWrite".to_owned(),
        "context".to_owned(),
    ];
    proof {
        assert(path_names(expected@) =~= fields_spec());
    }
    if fields.len() != expected.len() {
        return false;
    }
    let n: usize = fields.len();
    for i in 0..n
        invariant
            n == fields.len(),
            n == expected.len(),
            path_names(expected@) == fields_spec(),
            forall|j: int| 0 <= j < i ==> fields@[j]@ == expected@[j]@,
    {
        if !(fields[i] == expected[i]) {
            proof {
                assert(path_names(fields@)[i as int] != path_names(expected@)[i as int]);
            }
            return false;
        }
    }
    proof {
        assert(path_names(fields@) =~= path_names(expected@));
    }
    true
}

/// A catalog row's key by value: (provider, model).
pub open spec fn key_view(k: (String, String)) -> (Seq<char>, Seq<char>) {
    (k.0@, k.1@)
}

pub open spec fn keys_view(keys: Seq<(String, String)>) -> Seq<(Seq<char>, Seq<char>)> {
    keys.map_values(|k: (String, String)| key_view(k))
}

/// Catalog order: by provider, then by model.
pub open spec fn key_less(a: (Seq<char>, Seq<char>), b: (Seq<char>, Seq<char>)) -> bool {
    seq_less(a.0, b.0) || (a.0 == b.0 && seq_less(a.1, b.1))
}

/// `order` holds the indices `0..bound` of `keys` once each, in catalog
/// order, with indices of equal keys ascending.
pub open spec fn ordered_indices(keys: Seq<(Seq<char>, Seq<char>)>, order: Seq<usize>, bound: int) -> bool {
    &&& order.len() == bound
    &&& forall|i: int| 0 <= i < order.len() ==> #[trigger] order[i] < bound
    &&& forall|i: int, j: int| 0 <= i < j < order.len() ==> order[i] != order[j]
    &&& forall|i: int, j: int|
        0 <= i < j < order.len() ==> !key_less(keys[order[j] as int], keys[order[i] as int])
    &&& forall|i: int, j: int|
        0 <= i < j < order.len() && keys[order[i] as int] == keys[order[j] as int] ==> order[i]
            < order[j]
}

proof fn lemma_key_less_irreflexive(a: (Seq<char>, Seq<char>))
    ensures
        !key_less(a, a),
{
    lemma_seq_less_irreflexive(a.0);
    lemma_seq_less_irreflexive(a.1);
}

proof fn lemma_key_less_transitive(
    a: (Seq<char>, Seq<char>),
    b: (Seq<char>, Seq<char>),
    c: (Seq<char>, Seq<char>),
)
    requires
        key_less(a, b),
        key_less(b, c),
    ensures
        key_less(a, c),
{
    if seq_less(a.0, b.0) && seq_less(b.0, c.0) {
        lemma_seq_less_transitive(a.0, b.0, c.0);
    } else if !seq_less(a.0, b.0) && !seq_less(b.0, c.0) {
        lemma_seq_less_transitive(a.1, b.1, c.1);
    }
}

/// Inserting the next index at a position where everything before it is not
/// after it, and the entry at it is after it, keeps the indices ordered.
proof fn lemma_insert_ordered(
    keys: Seq<(Seq<char>, Seq<char>)>,
    ov: Seq<usize>,
    t: usize,
    p: int,
)
    requires
        t < keys.len(),
        ordered_indices(keys, ov, t as int),
        0 <= p <= ov.len(),
        forall|q: int| 0 <= q < p ==> !key_less(keys[t as int], #[trigger] keys[ov[q] as int]),
        p < ov.len() ==> key_less(keys[t as int], keys[ov[p] as int]),
    ensures
        ordered_indices(keys, ov.insert(p, t), t + 1),
{
    let nv = ov.insert(p, t);
    assert forall|i: int| 0 <= i < nv.len() implies #[trigger] nv[i] < t + 1 by {
        if i < p {
            assert(nv[i] == ov[i]);
        } else if i > p {
            assert(nv[i] == ov[i - 1]);
        }
    }
    assert forall|i: int, j: int| 0 <= i < j < nv.len() implies nv[i] != nv[j] && !key_less(
        keys[nv[j] as int],
        keys[nv[i] as int],
    ) && (keys[nv[i] as int] == keys[nv[j] as int] ==> nv[i] < nv[j]) by {
        if j < p {
            assert(nv[i] == ov[i] && nv[j] == ov[j]);
        } else if j == p {
            assert(nv[i] == ov[i] && nv[j] == t);
            assert(ov[i] < t);
        } else if i < p {
            assert(nv[i] == ov[i] && nv[j] == ov[j - 1]);
        } else if i == p {
            assert(nv[i] == t && nv[j] == ov[j - 1]);
            assert(ov[j - 1] < t);
            let kt = keys[t as int];
            let kp = keys[ov[p] as int];
            let kj = keys[ov[j - 1] as int];
            assert(key_less(kt, kp));
            if j - 1 > p {
                assert(!key_less(kj, kp));
                if key_less(kj, kt) {
                    lemma_key_less_transitive(kj, kt, kp);
                }
            } else {
                if key_less(kj, kt) {
                    lemma_key_less_transitive(kt, kj, kt);
                    lemma_key_less_irreflexive(kt);
                }
            }
            if kt == kj {
                if j - 1 > p {
                    assert(!key_less(kj, kp));
                } else {
                    lemma_key_less_irreflexive(kt);
                }
            }
        } else {
            assert(nv[i] == ov[i - 1] && nv[j] == ov[j - 1]);
        }
    }
}

fn key_before(a: &(String, String), b: &(String, String)) -> (r: bool)
    ensures
        r == key_less(key_view(*a), key_view(*b)),
{
    str_less(a.0.as_str(), b.0.as_str()) || (a.0 == b.0 && str_less(a.1.as_str(), b.1.as_str()))
}

/// The order in which catalog rows, keyed (provider, model), are written:
/// every row once, sorted by provider then model, rows with equal keys in
/// their original order.
pub fn catalog_order(keys: &Vec<(String, String)>) -> (order: Vec<usize>)
    ensures
        ordered_indices(keys_view(keys@), order@, keys.len() as int),
{
    let ghost kv = keys_view(keys@);
    let n: usize = keys.len();
    let mut order: Vec<usize> = Vec::new();
    let mut t: usize = 0;
    while t < n
        invariant
            n == keys.len(),
            kv == keys_view(keys@),
            0 <= t <= n,
            ordered_indices(kv, order@, t as int),
        decreases n - t,
    {
        let ghost ov = order@;
        let mut p: usize = 0;
        while p < order.len() && !key_before(&keys[t], &keys[order[p]])
            invariant
                ov == order@,
                t < n,
                n == keys.len(),
                kv == keys_view(keys@),
                ordered_indices(kv, ov, t as int),
                0 <= p <= ov.len(),
                forall|q: int| 0 <= q < p ==> !key_less(kv[t as int], #[trigger] kv[ov[q] as int]),
            decreases ov.len() - p,
        {
            proof {
                assert(ov[p as int] < t);
                assert(kv[ov[p as int] as int] == key_view(keys@[ov[p as int] as int]));
                assert(kv[t as int] == key_view(keys@[t as int]));
            }
            p = p + 1;
        }
        proof {
            if p < ov.len() {
                assert(ov[p as int] < t);
                assert(kv[ov[p as int] as int] == key_view(keys@[ov[p as int] as int]));
                assert(kv[t as int] == key_view(keys@[t as int]));
            }
            lemma_insert_ordered(kv, ov, t, p as int);
        }
        order.insert(p, t);
        t = t + 1;
    }
    order
}

/// The priced entries among the first `n` models of a fetched catalog, each
/// given as (has an input rate, context limit if given): their positions, with
/// the context limit defaulting to 0.
pub open spec fn priced_upto(entries: Seq<(bool, Option<i64>)>, n: int) -> Seq<(usize, i64)>
    decreases n,
{
    if n <= 0 {
        Seq::empty()
    } else {
        let prev = priced_upto(entries, n - 1);
        let e = entries[n - 1];
        if e.0 {
            prev.push(
                (
                    (n - 1) as usize,
                    match e.1 {
                        Some(c) => c,
                        None => 0,
                    },
                ),
            )
        } else {
            prev
        }
    }
}

proof fn lemma_priced_upto_empty(entries: Seq<(bool, Option<i64>)>, n: int)
    ensures
        priced_upto(entries, n).len() == 0 <==> forall|i: int| 0 <= i < n ==> !(#[trigger] entries[i]).0,
    decreases n,
{
    if n > 0 {
        lemma_priced_upto_empty(entries, n - 1);
    }
}

/// Selects the models of a fetched catalog that can be priced: those with an
/// input rate, in catalog order, with their context limit (0 when none is
/// given). A catalog with no such model is refused.
pub fn priced_models(entries: &Vec<(bool, Option<i64>)>) -> (r: Result<Vec<(usize, i64)>, String>)
    ensures
        r is Ok <==> exists|i: int| 0 <= i < entries.len() && (#[trigger] entries@[i]).0,
        r matches Ok(v) ==> v@ == priced_upto(entries@, entries.len() as int),
        r matches Err(e) ==> e@ == "no priced models in the fetched catalog"@,
{
    let mut out: Vec<(usize, i64)> = Vec::new();
    let n: usize = entries.len();
    for i in 0..n
        invariant
            n == entries.len(),
            out@ == priced_upto(entries@, i as int),
    {
        if entries[i].0 {
            let context: i64 = match entries[i].1 {
                Some(c) => c,
                None => 0,
            };
            out.push((i, context));
        }
    }
    proof {
        lemma_priced_upto_empty(entries@, n as int);
    }
    if out.len() == 0 {
        return Err("no priced models in the fetched catalog".to_owned());
    }
    Ok(out)
}

/// The epoch milliseconds of an RFC 3339 timestamp, as chrono's
/// `DateTime::parse_from_rfc3339(..).timestamp_millis()` gives them; `None`
/// when the text is not such a timestamp.
pub uninterp spec fn rfc3339_millis(s: Seq<char>) -> Option<i64>;

/// `chrono::DateTime::parse_from_rfc3339`, then `timestamp_millis`.
#[verifier::external_body]
fn parse_rfc3339_millis(s: &str) -> (r: Option<i64>)
    ensures
        r == rfc3339_millis(s@),
{
    chrono::DateTime::parse_from_rfc3339(s).ok().map(|at| at.timestamp_millis())
}

/// Whole hours in `ms` milliseconds, truncated toward zero.
pub open spec fn whole_hours(ms: int) -> int {
    if ms >= 0 {
        ms / 3_600_000
    } else {
        -((-ms) / 3_600_000)
    }
}

/// Whole hours from `at_ms` to `now_ms`, truncated toward zero.
pub fn hours_between(at_ms: i64, now_ms: i64) -> (h: i64)
    ensures
        h == whole_hours(now_ms - at_ms),
{
    let d: i128 = now_ms as i128 - at_ms as i128;
    let h: i128 = if d >= 0 {
        d / 3_600_000
    } else {
        -((-d) / 3_600_000)
    };
    proof {
        assert(i64::MIN <= h <= i64::MAX);
    }
    h as i64
}

/// How old a fetched catalog is at `now_ms`, in whole hours: none for the
/// bundled snapshot, whose age is the build's rather than anything the user
/// did, and none when its `generated` stamp is not an RFC 3339 time.
pub fn catalog_age_hours(bundled: bool, generated: &str, now_ms: i64) -> (r: Option<i64>)
    ensures
        bundled ==> r is None,
        !bundled ==> r == match rfc3339_millis(generated@) {
            Some(at) => Some(whole_hours(now_ms - at) as i64),
            None => None::<i64>,
        },
{
    if bundled {
        return None;
    }
    match parse_rfc3339_millis(generated) {
        Some(at) => Some(hours_between(at, now_ms)),
        None => None,
    }
}

/// What the dashboard shows about the price catalog in use.
#[derive(Debug)]
pub struct PricingStatus {
    pub source: String,
    pub generated: String,
    pub bundled: bool,
    pub models: i64,
    /// Hours since this catalog was fetched; none for the bundled snapshot.
    pub age_hours: Option<i64>,
    /// Set when a refresh actually changed a rate.
    pub changed: bool,
    /// Distinct provider/model pairs seen in the data that the catalog cannot
    /// price.
    pub unpriced_models: Vec<String>,
}

} // verus!
