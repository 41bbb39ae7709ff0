//! Which opencode databases the app knows about, and what each is called.
use vstd::prelude::*;
use crate::sources::path_names;

verus! {

/// One opencode database as listed to the user.
#[derive(Debug)]
pub struct Profile {
    pub id: String,
    pub name: String,
    pub path: String,
    pub is_default: bool,
    pub size_bytes: u64,
    pub sessions: i64,
    pub first_activity: Option<i64>,
    pub last_activity: Option<i64>,
}

impl Clone for Profile {
    fn clone(&self) -> (r: Self)
        ensures
            r == *self,
    {
        Profile {
            id: self.id.clone(),
            name: self.name.clone(),
            path: self.path.clone(),
            is_default: self.is_default,
            size_bytes: self.size_bytes,
            sessions: self.sessions,
            first_activity: self.first_activity,
            last_activity: self.last_activity,
        }
    }
}

/// The known paths after considering the first `n` custom paths: the default
/// candidates, then each custom path that exists on disk and is not listed
/// yet.
pub open spec fn known_paths_upto(
    defaults: Seq<Seq<char>>,
    customs: Seq<Seq<char>>,
    exists: Seq<bool>,
    n: int,
) -> Seq<Seq<char>>
    decreases n,
{
    if n <= 0 {
        defaults
    } else {
        let prev = known_paths_upto(defaults, customs, exists, n - 1);
        if exists[n - 1] && !prev.contains(customs[n - 1]) {
            prev.push(customs[n - 1])
        } else {
            prev
        }
    }
}

fn contains_path(list: &Vec<String>, path: &String) -> (r: bool)
    ensures
        r == path_names(list@).contains(path@),
{
    let mut i: usize = 0;
    while i < list.len()
        invariant
            0 <= i <= list.len(),
            forall|j: int| 0 <= j < i ==> list@[j]@ != path@,
        decreases list.len() - i,
    {
        if list[i] == *path {
            proof {
                assert(path_names(list@)[i as int] == path@);
            }
            return true;
        }
        i = i + 1;
    }
    proof {
        assert forall|j: int| 0 <= j < path_names(list@).len() implies #[trigger] path_names(
            list@,
        )[j] != path@ by {
            assert(path_names(list@)[j] == list@[j]@);
        }
    }
    false
}

/// Every database path worth showing: the default locations that exist, then
/// the registered custom paths that exist, without repeats.
/// `custom_exists[i]` tells whether `custom_paths[i]` is a file on disk.
pub fn known_paths(
    defaults: &Vec<String>,
    custom_paths: &Vec<String>,
    custom_exists: &Vec<bool>,
) -> (out: Vec<String>)
    requires
        custom_exists.len() == custom_paths.len(),
    ensures
        path_names(out@) == known_paths_upto(
            path_names(defaults@),
            path_names(custom_paths@),
            custom_exists@,
            custom_paths.len() as int,
        ),
{
    let mut out: Vec<String> = defaults.clone();
    let n: usize = custom_paths.len();
    proof {
        assert(path_names(out@) =~= path_names(defaults@));
    }
    for i in 0..n
        invariant
            n == custom_paths.len(),
            n == custom_exists.len(),
            path_names(out@) == known_paths_upto(
                path_names(defaults@),
                path_names(custom_paths@),
                custom_exists@,
                i as int,
            ),
    {
        let path = &custom_paths[i];
        proof {
            assert(path_names(custom_paths@)[i as int] == path@);
        }
        if custom_exists[i] && !contains_path(&out, path) {
            let ghost before = out@;
            out.push(path.clone());
            proof {
                assert(path_names(out@) =~= path_names(before).push(path@));
            }
        }
    }
    out
}

/// The profiles after considering the first `n` custom paths: the probed
/// defaults, then each custom path not already listed whose probe succeeded.
pub open spec fn profiles_upto(
    found: Seq<Profile>,
    customs: Seq<Seq<char>>,
    probed: Seq<Option<Profile>>,
    n: int,
) -> Seq<Profile>
    decreases n,
{
    if n <= 0 {
        found
    } else {
        let prev = profiles_upto(found, customs, probed, n - 1);
        if exists|k: int| 0 <= k < prev.len() && (#[trigger] prev[k]).path@ == customs[n - 1] {
            prev
        } else {
            match probed[n - 1] {
                Some(p) => prev.push(p),
                None => prev,
            }
        }
    }
}

fn listed(out: &Vec<Profile>, path: &String) -> (r: bool)
    ensures
        r == exists|k: int| 0 <= k < out@.len() && (#[trigger] out@[k]).path@ == path@,
{
    let mut i: usize = 0;
    while i < out.len()
        invariant
            0 <= i <= out.len(),
            forall|j: int| 0 <= j < i ==> (#[trigger] out@[j]).path@ != path@,
        decreases out.len() - i,
    {
        if out[i].path == *path {
            return true;
        }
        i = i + 1;
    }
    false
}

/// Assembles the profile list. `found` holds the default databases that
/// probed successfully; `probed[i]` is the outcome of probing `custom_paths[i]`
/// (`None` when it is not a readable opencode database). A custom path that
/// is already listed is skipped whatever its probe gave.
pub fn discover_profiles(
    found: Vec<Profile>,
    custom_paths: &Vec<String>,
    probed: Vec<Option<Profile>>,
) -> (out: Vec<Profile>)
    requires
        probed.len() == custom_paths.len(),
    ensures
        out@ == profiles_upto(found@, path_names(custom_paths@), probed@, custom_paths.len() as int),
        forall|i: int|
            0 <= i < custom_paths.len() && (#[trigger] probed@[i] matches Some(p) && p.path@
                == custom_paths@[i]@) ==> lists_path(out@, custom_paths@[i]@),
        forall|k: int| 0 <= k < found@.len() ==> #[trigger] out@[k] == found@[k],
{
    let ghost found0 = found@;
    let mut out = found;
    let n: usize = custom_paths.len();
    for i in 0..n
        invariant
            n == custom_paths.len(),
            n == probed.len(),
            out@ == profiles_upto(found0, path_names(custom_paths@), probed@, i as int),
    {
        let raw = &custom_paths[i];
        proof {
            assert(path_names(custom_paths@)[i as int] == raw@);
        }
        if !listed(&out, raw) {
            match &probed[i] {
                Some(p) => {
                    out.push(p.clone());
                },
                None => {},
            }
        }
    }
    proof {
        let cs = path_names(custom_paths@);
        assert forall|i: int|
            0 <= i < custom_paths.len() && (#[trigger] probed@[i] matches Some(p) && p.path@
                == custom_paths@[i]@) implies lists_path(out@, custom_paths@[i]@) by {
            assert(cs[i] == custom_paths@[i]@);
            law_successful_probes_are_listed(found0, cs, probed@, i);
        }
        lemma_profiles_grow(found0, cs, probed@, 0, n as int);
    }
    out
}

/// Index of the first `profiles` component, or the length when there is none.
pub open spec fn profiles_index(cs: Seq<Seq<char>>) -> int
    decreases cs.len(),
{
    if cs.len() == 0 {
        0
    } else if cs[0] == "profiles"@ {
        0
    } else {
        1 + profiles_index(cs.drop_first())
    }
}

/// The file name of a path's parent, given the path's components: the
/// second-to-last component when it names a directory entry (not the root,
/// `.` or `..`).
pub open spec fn parent_name(cs: Seq<Seq<char>>) -> Option<Seq<char>> {
    if cs.len() >= 2 {
        let p = cs[cs.len() - 2];
        if p == "/"@ || p == "."@ || p == ".."@ {
            None
        } else {
            Some(p)
        }
    } else {
        None
    }
}

/// The profile name for a database path, given its components: the component
/// after a `profiles` directory, else the name of the containing directory,
/// else `custom`.
pub open spec fn derived_name(cs: Seq<Seq<char>>) -> Seq<char> {
    let i = profiles_index(cs);
    if i + 1 < cs.len() {
        cs[i + 1]
    } else {
        match parent_name(cs) {
            Some(p) => p,
            None => "custom"@,
        }
    }
}

proof fn lemma_profiles_index_bounds(cs: Seq<Seq<char>>)
    ensures
        0 <= profiles_index(cs) <= cs.len(),
        profiles_index(cs) < cs.len() ==> cs[profiles_index(cs)] == "profiles"@,
        forall|j: int| 0 <= j < profiles_index(cs) ==> cs[j] != "profiles"@,
    decreases cs.len(),
{
    if cs.len() > 0 && cs[0] != "profiles"@ {
        let t = cs.drop_first();
        lemma_profiles_index_bounds(t);
        assert forall|j: int| 0 <= j < profiles_index(cs) implies cs[j] != "profiles"@ by {
            if j > 0 {
                assert(cs[j] == t[j - 1]);
            }
        }
    }
}

proof fn lemma_profiles_index_is_first(cs: Seq<Seq<char>>, i: int)
    requires
        0 <= i <= cs.len(),
        i < cs.len() ==> cs[i] == "profiles"@,
        forall|j: int| 0 <= j < i ==> cs[j] != "profiles"@,
    ensures
        profiles_index(cs) == i,
{
    lemma_profiles_index_bounds(cs);
    let k = profiles_index(cs);
    if k < i {
        assert(cs[k] == "profiles"@);
    } else if k > i {
        assert(cs[i] != "profiles"@);
    }
}

/// Names a database from its path components (as `Path::components` gives
/// them, each as a lossy string).
pub fn derive_name(components: &Vec<String>) -> (name: String)
    ensures
        name@ == derived_name(path_names(components@)),
{
    let ghost cs = path_names(components@);
    let profiles = "profiles".to_owned();
    let n: usize = components.len();
    let mut i: usize = 0;
    while i < n && !(components[i] == profiles)
        invariant
            n == components.len(),
            cs == path_names(components@),
            profiles@ == "profiles"@,
            0 <= i <= n,
            forall|j: int| 0 <= j < i ==> cs[j] != "profiles"@,
        decreases n - i,
    {
        proof {
            assert(cs[i as int] == components@[i as int]@);
        }
        i = i + 1;
    }
    proof {
        if i < n {
            assert(cs[i as int] == components@[i as int]@);
        }
        lemma_profiles_index_is_first(cs, i as int);
    }
    if n > 0 && i < n - 1 {
        proof {
            assert(cs[i + 1] == components@[i + 1]@);
        }
        return components[i + 1].clone();
    }
    if n >= 2 {
        let p = &components[n - 2];
        proof {
            assert(cs[n - 2] == p@);
        }
        let root = "/".to_owned();
        let cur = ".".to_owned();
        let up = "..".to_owned();
        if !(*p == root) && !(*p == cur) && !(*p == up) {
            return p.clone();
        }
    }
    "custom".to_owned()
}

/// Accepts a path only when it is one of the default locations or a
/// registered custom path.
pub fn validate_known_path(path: &str, defaults: &Vec<String>, custom_paths: &Vec<String>) -> (res:
    Result<(), String>)
    ensures
        res is Ok <==> (path_names(defaults@).contains(path@) || path_names(
            custom_paths@,
        ).contains(path@)),
        res matches Err(e) ==> e@ == "unknown database path: "@ + path@,
{
    let target = path.to_owned();
    if contains_path(defaults, &target) || contains_path(custom_paths, &target) {
        Ok(())
    } else {
        let mut msg = "unknown database path: ".to_owned();
        msg.append(path);
        Err(msg)
    }
}

/// Decides how a user-chosen path is registered: refused with `file not
/// found` when it is not a file, otherwise the profile name to probe it under.
pub fn add_custom_path(path: &str, components: &Vec<String>, is_file: bool) -> (res: Result<
    String,
    String,
>)
    ensures
        res is Ok <==> is_file,
        res matches Ok(name) ==> name@ == derived_name(path_names(components@)),
        res matches Err(e) ==> e@ == "file not found: "@ + path@,
{
    if !is_file {
        let mut msg = "file not found: ".to_owned();
        msg.append(path);
        return Err(msg);
    }
    Ok(derive_name(components))
}

/// Whether `validate_known_path` accepts a path.
pub open spec fn is_known(defaults: Seq<Seq<char>>, customs: Seq<Seq<char>>, path: Seq<char>) -> bool {
    defaults.contains(path) || customs.contains(path)
}

/// The known paths start with the defaults, list nothing twice when the
/// defaults do not, and hold only defaults and custom paths that exist.
pub proof fn law_known_paths_shape(
    defaults: Seq<Seq<char>>,
    customs: Seq<Seq<char>>,
    exists: Seq<bool>,
    n: int,
)
    requires
        0 <= n <= customs.len(),
        exists.len() == customs.len(),
        defaults.no_duplicates(),
    ensures
        known_paths_upto(defaults, customs, exists, n).no_duplicates(),
        known_paths_upto(defaults, customs, exists, n).len() >= defaults.len(),
        known_paths_upto(defaults, customs, exists, n).take(defaults.len() as int) == defaults,
        forall|k: int|
            defaults.len() <= k < known_paths_upto(defaults, customs, exists, n).len() ==> exists|
                j: int,
            |
                0 <= j < n && exists[j] && customs[j] == #[trigger] known_paths_upto(
                    defaults,
                    customs,
                    exists,
                    n,
                )[k],
    decreases n,
{
    let out = known_paths_upto(defaults, customs, exists, n);
    if n <= 0 {
        assert(out.take(defaults.len() as int) =~= defaults);
    } else {
        law_known_paths_shape(defaults, customs, exists, n - 1);
        let prev = known_paths_upto(defaults, customs, exists, n - 1);
        if exists[n - 1] && !prev.contains(customs[n - 1]) {
            assert(out.take(defaults.len() as int) =~= prev.take(defaults.len() as int));
            assert forall|i: int, j: int| 0 <= i < out.len() && 0 <= j < out.len() && i != j implies out[i]
                != out[j] by {
                if i < prev.len() && j < prev.len() {
                    assert(out[i] == prev[i] && out[j] == prev[j]);
                } else if i < prev.len() {
                    assert(out[i] == prev[i]);
                } else if j < prev.len() {
                    assert(out[j] == prev[j]);
                }
            }
            assert forall|k: int| defaults.len() <= k < out.len() implies exists|j: int|
                0 <= j < n && exists[j] && customs[j] == #[trigger] out[k] by {
                if k < prev.len() {
                    assert(out[k] == prev[k]);
                } else {
                    assert(out[k] == customs[n - 1]);
                }
            }
        }
    }
}

/// Every path in the known list passes `validate_known_path`.
pub proof fn law_known_paths_are_valid(
    defaults: Seq<Seq<char>>,
    customs: Seq<Seq<char>>,
    exists: Seq<bool>,
    n: int,
    path: Seq<char>,
)
    requires
        0 <= n <= customs.len(),
        exists.len() == customs.len(),
        known_paths_upto(defaults, customs, exists, n).contains(path),
    ensures
        is_known(defaults, customs, path),
    decreases n,
{
    if n > 0 {
        let prev = known_paths_upto(defaults, customs, exists, n - 1);
        if prev.contains(path) {
            law_known_paths_are_valid(defaults, customs, exists, n - 1, path);
        } else {
            assert(path == customs[n - 1]);
        }
    }
}

/// Some profile of `ps` is at `path`.
pub open spec fn lists_path(ps: Seq<Profile>, path: Seq<char>) -> bool {
    exists|k: int| 0 <= k < ps.len() && (#[trigger] ps[k]).path@ == path
}

proof fn lemma_profiles_grow(
    found: Seq<Profile>,
    customs: Seq<Seq<char>>,
    probed: Seq<Option<Profile>>,
    m: int,
    n: int,
)
    requires
        0 <= m <= n,
    ensures
        profiles_upto(found, customs, probed, m).len() <= profiles_upto(found, customs, probed, n).len(),
        forall|k: int|
            0 <= k < profiles_upto(found, customs, probed, m).len() ==> #[trigger] profiles_upto(
                found,
                customs,
                probed,
                n,
            )[k] == profiles_upto(found, customs, probed, m)[k],
    decreases n - m,
{
    if m < n {
        lemma_profiles_grow(found, customs, probed, m, n - 1);
    }
}

/// Discovery keeps every default profile, in front and unchanged, and lists
/// every custom database whose probe succeeded (reporting its own path),
/// whatever the probes of the other paths gave: the path either was listed
/// already or its profile was added.
pub proof fn law_successful_probes_are_listed(
    found: Seq<Profile>,
    customs: Seq<Seq<char>>,
    probed: Seq<Option<Profile>>,
    i: int,
)
    requires
        probed.len() == customs.len(),
        0 <= i < customs.len(),
        probed[i] matches Some(p) && p.path@ == customs[i],
    ensures
        lists_path(profiles_upto(found, customs, probed, customs.len() as int), customs[i]),
        profiles_upto(found, customs, probed, customs.len() as int).len() >= found.len(),
        forall|k: int|
            0 <= k < found.len() ==> #[trigger] profiles_upto(
                found,
                customs,
                probed,
                customs.len() as int,
            )[k] == found[k],
{
    let n = customs.len() as int;
    let prev = profiles_upto(found, customs, probed, i);
    let next = profiles_upto(found, customs, probed, i + 1);
    lemma_profiles_grow(found, customs, probed, i + 1, n);
    lemma_profiles_grow(found, customs, probed, 0, n);
    if exists|k: int| 0 <= k < prev.len() && (#[trigger] prev[k]).path@ == customs[i] {
        let k = choose|k: int| 0 <= k < prev.len() && (#[trigger] prev[k]).path@ == customs[i];
        assert(next[k] == prev[k]);
        assert(profiles_upto(found, customs, probed, n)[k] == next[k]);
    } else {
        let k = prev.len() as int;
        assert(next[k] == probed[i]->0);
        assert(profiles_upto(found, customs, probed, n)[k] == next[k]);
    }
}

/// Profiles never repeat a path, provided the defaults did not and each
/// probe reports the path it was given.
pub proof fn law_profiles_unique(
    found: Seq<Profile>,
    customs: Seq<Seq<char>>,
    probed: Seq<Option<Profile>>,
    n: int,
)
    requires
        0 <= n <= customs.len(),
        probed.len() == customs.len(),
        forall|i: int, j: int|
            0 <= i < found.len() && 0 <= j < found.len() && i != j ==> (#[trigger] found[i]).path@
                != (#[trigger] found[j]).path@,
        forall|i: int|
            0 <= i < probed.len() && (#[trigger] probed[i]) is Some ==> probed[i]->0.path@
                == customs[i],
    ensures
        forall|i: int, j: int|
            0 <= i < profiles_upto(found, customs, probed, n).len() && 0 <= j < profiles_upto(
                found,
                customs,
                probed,
                n,
            ).len() && i != j ==> (#[trigger] profiles_upto(found, customs, probed, n)[i]).path@
                != (#[trigger] profiles_upto(found, customs, probed, n)[j]).path@,
    decreases n,
{
    if n > 0 {
        law_profiles_unique(found, customs, probed, n - 1);
        let prev = profiles_upto(found, customs, probed, n - 1);
        let out = profiles_upto(found, customs, probed, n);
        if !(exists|k: int| 0 <= k < prev.len() && (#[trigger] prev[k]).path@ == customs[n - 1]) {
            if probed[n - 1] is Some {
                assert forall|i: int, j: int|
                    0 <= i < out.len() && 0 <= j < out.len() && i != j implies (
                    #[trigger] out[i]).path@ != (#[trigger] out[j]).path@ by {
                    if i < prev.len() && j < prev.len() {
                        assert(out[i] == prev[i] && out[j] == prev[j]);
                    } else if i < prev.len() {
                        assert(out[i] == prev[i]);
                    } else if j < prev.len() {
                        assert(out[j] == prev[j]);
                    }
                }
            }
        }
    }
}

} // verus!
