//! The list of manually registered database paths.
use vstd::prelude::*;

verus! {

/// `serde_json::Error`, carried through unread.
#[verifier::external_type_specification]
#[verifier::external_body]
pub struct ExJsonError(serde_json::Error);

/// What `serde_json::from_str::<Vec<String>>` gives for a text: the list of
/// strings of a JSON array of strings, or `None` when the text is not one.
pub uninterp spec fn json_string_list(raw: Seq<char>) -> Option<Seq<Seq<char>>>;

/// What `serde_json::to_string_pretty` writes for a list of strings.
pub uninterp spec fn json_pretty_of(paths: Seq<Seq<char>>) -> Seq<char>;

/// `serde_json::from_str::<Vec<String>>`, its error dropped: the contract
/// ties the outcome to the text through `json_string_list`.
#[verifier::external_body]
fn parse_string_list(raw: &str) -> (r: Option<Vec<String>>)
    ensures
        match r {
            Some(v) => json_string_list(raw@) == Some(path_names(v@)),
            None => json_string_list(raw@) is None,
        },
{
    serde_json::from_str::<Vec<String>>(raw).ok()
}

/// `serde_json::to_string_pretty` of a list of strings: on success the text
/// is `json_pretty_of` the list. Nothing is claimed of when it fails.
#[verifier::external_body]
fn write_string_list(paths: &Vec<String>) -> (r: Result<String, serde_json::Error>)
    ensures
        r matches Ok(s) ==> s@ == json_pretty_of(path_names(paths@)),
{
    serde_json::to_string_pretty(paths)
}

/// The message of a `serde_json::Error` (its `Display`). Its text is not
/// stated.
#[verifier::external_body]
fn json_error_text(e: &serde_json::Error) -> (r: String) {
    e.to_string()
}

/// The registered paths stored in a `sources.json` text: the strings of its
/// JSON array, or none when the text is not such an array.
pub fn paths_from_json(raw: &str) -> (r: Vec<String>)
    ensures
        path_names(r@) == match json_string_list(raw@) {
            Some(p) => p,
            None => Seq::empty(),
        },
{
    match parse_string_list(raw) {
        Some(v) => v,
        None => {
            let v: Vec<String> = Vec::new();
            proof {
                assert(path_names(v@) =~= Seq::<Seq<char>>::empty());
            }
            v
        },
    }
}

/// The `sources.json` text for a list of paths, or the serialiser's message
/// when it fails.
pub fn paths_to_json(paths: &Vec<String>) -> (r: Result<String, String>)
    ensures
        r matches Ok(s) ==> s@ == json_pretty_of(path_names(paths@)),
{
    match write_string_list(paths) {
        Ok(s) => Ok(s),
        Err(e) => Err(json_error_text(&e)),
    }
}

/// The paths of a list, as character sequences.
pub open spec fn path_names(v: Seq<String>) -> Seq<Seq<char>> {
    v.map_values(|p: String| p@)
}

/// The list after registering `path`: appended when new, unchanged otherwise.
pub open spec fn with_path(paths: Seq<Seq<char>>, path: Seq<char>) -> Seq<Seq<char>> {
    if paths.contains(path) {
        paths
    } else {
        paths.push(path)
    }
}

/// The list after unregistering `path`: every occurrence dropped, the rest in
/// order.
pub open spec fn without_path(paths: Seq<Seq<char>>, path: Seq<char>) -> Seq<Seq<char>> {
    paths.filter(|p: Seq<char>| p != path)
}

/// Registers `path`. Returns whether the list changed, which is when it must be
/// saved again.
pub fn add(paths: &mut Vec<String>, path: &str) -> (changed: bool)
    ensures
        changed == !path_names(old(paths)@).contains(path@),
        path_names(final(paths)@) == with_path(path_names(old(paths)@), path@),
{
    let target = path.to_owned();
    let mut i: usize = 0;
    while i < paths.len()
        invariant
            0 <= i <= paths.len(),
            target@ == path@,
            forall|j: int| 0 <= j < i ==> paths@[j]@ != path@,
        decreases paths.len() - i,
    {
        if paths[i] == target {
            proof {
                assert(path_names(paths@)[i as int] == path@);
            }
            return false;
        }
        i = i + 1;
    }
    proof {
        assert forall|j: int| 0 <= j < path_names(paths@).len() implies #[trigger] path_names(
            paths@,
        )[j] != path@ by {
            assert(path_names(paths@)[j] == paths@[j]@);
        }
    }
    let ghost before = paths@;
    paths.push(target);
    proof {
        assert(path_names(paths@) =~= path_names(before).push(path@));
    }
    true
}

/// Unregisters every occurrence of `path`, keeping the others in order.
pub fn remove(paths: &mut Vec<String>, path: &str)
    ensures
        path_names(final(paths)@) == without_path(path_names(old(paths)@), path@),
{
    let target = path.to_owned();
    let mut kept: Vec<String> = Vec::new();
    let n = paths.len();
    let ghost orig = path_names(paths@);
    for i in 0..n
        invariant
            n == paths.len(),
            orig == path_names(paths@),
            target@ == path@,
            path_names(kept@) == without_path(orig.take(i as int), path@),
    {
        proof {
            reveal_with_fuel(Seq::<_>::filter, 1);
            assert(orig.take(i as int + 1).drop_last() =~= orig.take(i as int));
            assert(orig.take(i as int + 1).last() == paths@[i as int]@);
        }
        let item = paths[i].clone();
        if item == target {
        } else {
            let ghost before = kept@;
            kept.push(item);
            proof {
                assert(path_names(kept@) =~= path_names(before).push(path_names(kept@).last()));
            }
        }
    }
    proof {
        assert(orig.take(n as int) =~= orig);
    }
    *paths = kept;
}

/// Registering a path twice changes nothing the second time.
pub proof fn law_add_idempotent(paths: Seq<Seq<char>>, path: Seq<char>)
    ensures
        with_path(with_path(paths, path), path) == with_path(paths, path),
{
    if !paths.contains(path) {
        assert(paths.push(path)[paths.len() as int] == path);
    }
}

/// After registering, the path is listed.
pub proof fn law_add_lists_path(paths: Seq<Seq<char>>, path: Seq<char>)
    ensures
        with_path(paths, path).contains(path),
{
    if !paths.contains(path) {
        assert(paths.push(path)[paths.len() as int] == path);
    }
}

/// Registering keeps a list free of duplicates.
pub proof fn law_add_keeps_unique(paths: Seq<Seq<char>>, path: Seq<char>)
    requires
        paths.no_duplicates(),
    ensures
        with_path(paths, path).no_duplicates(),
{
    if !paths.contains(path) {
        let q = paths.push(path);
        assert forall|i: int, j: int| 0 <= i < q.len() && 0 <= j < q.len() && i != j implies q[i]
            != q[j] by {
            if i < paths.len() && j < paths.len() {
                assert(q[i] == paths[i] && q[j] == paths[j]);
            } else if i < paths.len() {
                assert(q[i] == paths[i]);
            } else if j < paths.len() {
                assert(q[j] == paths[j]);
            }
        }
    }
}

/// After unregistering, the path is no longer listed.
pub proof fn law_remove_unlists_path(paths: Seq<Seq<char>>, path: Seq<char>)
    ensures
        !without_path(paths, path).contains(path),
{
    let pred = |p: Seq<char>| p != path;
    if without_path(paths, path).contains(path) {
        let k = choose|k: int| 0 <= k < without_path(paths, path).len() && without_path(paths, path)[k] == path;
        paths.lemma_filter_pred(pred, k);
    }
}

/// Unregistering a freshly registered path gives what unregistering it from
/// the original list gives.
pub proof fn law_remove_undoes_add(paths: Seq<Seq<char>>, path: Seq<char>)
    ensures
        without_path(with_path(paths, path), path) == without_path(paths, path),
{
    if !paths.contains(path) {
        reveal_with_fuel(Seq::<_>::filter, 1);
        assert(paths.push(path).drop_last() =~= paths);
    }
}

/// Unregistering a path that is not listed changes nothing.
pub proof fn law_remove_absent_is_identity(paths: Seq<Seq<char>>, path: Seq<char>)
    requires
        !paths.contains(path),
    ensures
        without_path(paths, path) == paths,
    decreases paths.len(),
{
    if paths.len() > 0 {
        reveal_with_fuel(Seq::<_>::filter, 1);
        let p = paths.drop_last();
        assert(!p.contains(path)) by {
            if p.contains(path) {
                let k = choose|k: int| 0 <= k < p.len() && p[k] == path;
                assert(paths[k] == path);
            }
        }
        law_remove_absent_is_identity(p, path);
        assert(paths[paths.len() - 1] != path);
        assert(p.push(paths.last()) =~= paths);
    }
}

} // verus!
