//! Session listing: project filters, search patterns, paging and nesting.
use vstd::prelude::*;
use crate::text::{push_char, strip_prefix};
use crate::sources::path_names;

verus! {

/// Keyset position in a listing ordered by `time_updated` then `id`, both
/// descending: the next page starts after this session.
#[derive(Debug)]
pub struct SessionCursor {
    pub time_updated: i64,
    pub id: String,
}

impl Clone for SessionCursor {
    fn clone(&self) -> (r: Self)
        ensures
            r == *self,
    {
        SessionCursor { time_updated: self.time_updated, id: self.id.clone() }
    }
}

/// The (project id, directory) filter for a project key. `dir:<path>` keys
/// are synthetic: their sessions sit in the shared `global` project and only
/// the directory tells them apart.
pub open spec fn project_filter(project: Option<Seq<char>>) -> (Option<Seq<char>>, Option<Seq<char>>) {
    match project {
        None => (None, None),
        Some(id) => if "dir:"@.is_prefix_of(id) {
            (Some("global"@), Some(id.skip(4)))
        } else {
            (Some(id), None)
        },
    }
}

pub open spec fn str_opt_view(o: Option<&str>) -> Option<Seq<char>> {
    match o {
        Some(s) => Some(s@),
        None => None,
    }
}

pub open spec fn string_opt_view(o: Option<String>) -> Option<Seq<char>> {
    match o {
        Some(s) => Some(s@),
        None => None,
    }
}

pub fn project_params(project: Option<&str>) -> (r: (Option<String>, Option<String>))
    ensures
        (string_opt_view(r.0), string_opt_view(r.1)) == project_filter(str_opt_view(project)),
{
    match project {
        None => (None, None),
        Some(id) => {
            proof {
                reveal_strlit("dir:");
            }
            match strip_prefix(id, "dir:") {
                Some(directory) => (Some("global".to_owned()), Some(directory)),
                None => (Some(id.to_owned()), None),
            }
        },
    }
}

/// The escape sequence for one character in a `LIKE ... ESCAPE '\'` pattern.
pub open spec fn escape_char(c: char) -> Seq<char> {
    if c == '\\' || c == '%' || c == '_' {
        seq!['\\', c]
    } else {
        seq![c]
    }
}

/// `q` with every backslash, `%` and `_` escaped by a backslash.
pub open spec fn escape_like(q: Seq<char>) -> Seq<char>
    decreases q.len(),
{
    if q.len() == 0 {
        Seq::empty()
    } else {
        escape_char(q[0]) + escape_like(q.drop_first())
    }
}

proof fn lemma_escape_push(q: Seq<char>, c: char)
    ensures
        escape_like(q.push(c)) == escape_like(q) + escape_char(c),
    decreases q.len(),
{
    if q.len() == 0 {
        assert(q.push(c).drop_first() =~= Seq::<char>::empty());
        assert(escape_like(q.push(c).drop_first()) =~= Seq::<char>::empty());
        assert(q.push(c)[0] == c);
        assert(escape_like(q.push(c)) =~= escape_char(c));
        assert(escape_like(q) + escape_char(c) =~= escape_char(c));
    } else {
        lemma_escape_push(q.drop_first(), c);
        assert(q.push(c).drop_first() =~= q.drop_first().push(c));
        assert(q.push(c)[0] == q[0]);
        assert(escape_like(q.push(c)) =~= escape_like(q) + escape_char(c));
    }
}

/// A `LIKE` pattern matching any text that contains `query` literally.
pub fn like_pattern(query: &str) -> (p: String)
    ensures
        p@ == seq!['%'] + escape_like(query@) + seq!['%'],
{
    let mut out = String::new();
    push_char(&mut out, '%');
    broadcast use vstd::string::group_string_axioms;
    for c in it: query.chars()
        invariant
            it.seq() == query@,
            out@ == seq!['%'] + escape_like(query@.take(it.index() as int)),
    {
        let ghost i = it.index() as int;
        proof {
            assert(query@.take(i + 1).drop_last() =~= query@.take(i));
            assert(query@.take(i + 1).last() == c);
            assert(query@.take(i + 1) =~= query@.take(i).push(c));
        }
        let ghost before = out@;
        proof {
            lemma_escape_push(query@.take(i), c);
        }
        if c == '\\' || c == '%' || c == '_' {
            push_char(&mut out, '\\');
        }
        push_char(&mut out, c);
        proof {
            if c == '\\' || c == '%' || c == '_' {
                assert(escape_char(c) =~= seq!['\\', c]);
                assert(out@ =~= before + escape_char(c));
            } else {
                assert(escape_char(c) =~= seq![c]);
                assert(out@ =~= before + escape_char(c));
            }
            assert(out@ =~= seq!['%'] + escape_like(query@.take(i + 1)));
        }
    }
    proof {
        assert(query@.take(query@.len() as int) =~= query@);
    }
    push_char(&mut out, '%');
    out
}

/// Reads an escaped pattern body back: a backslash takes the next character
/// literally.
pub open spec fn unescape_like(e: Seq<char>) -> Seq<char>
    decreases e.len(),
{
    if e.len() == 0 {
        Seq::empty()
    } else if e[0] == '\\' && e.len() >= 2 {
        seq![e[1]] + unescape_like(e.skip(2))
    } else {
        seq![e[0]] + unescape_like(e.skip(1))
    }
}

/// Escaping loses nothing: reading the escaped text back gives the query.
pub proof fn law_like_escape_roundtrip(q: Seq<char>)
    ensures
        unescape_like(escape_like(q)) == q,
    decreases q.len(),
{
    if q.len() > 0 {
        let c = q[0];
        let rest = q.drop_first();
        law_like_escape_roundtrip(rest);
        let e = escape_like(q);
        assert(e == escape_char(c) + escape_like(rest));
        if c == '\\' || c == '%' || c == '_' {
            assert(e[0] == '\\' && e[1] == c);
            assert(e.skip(2) =~= escape_like(rest));
        } else {
            assert(e[0] == c);
            assert(e.skip(1) =~= escape_like(rest));
        }
        assert(seq![c] + rest =~= q);
    }
}

/// A pattern body that matches only itself under `ESCAPE '\\'`: every
/// backslash starts a pair, and no `%` or `_` stands unescaped.
pub open spec fn literal_pattern(e: Seq<char>) -> bool
    decreases e.len(),
{
    if e.len() == 0 {
        true
    } else if e[0] == '\\' {
        e.len() >= 2 && literal_pattern(e.skip(2))
    } else {
        e[0] != '%' && e[0] != '_' && literal_pattern(e.skip(1))
    }
}

/// The escaped query holds no wildcard and no dangling escape.
pub proof fn law_like_escape_is_literal(q: Seq<char>)
    ensures
        literal_pattern(escape_like(q)),
    decreases q.len(),
{
    if q.len() > 0 {
        let c = q[0];
        let rest = q.drop_first();
        law_like_escape_is_literal(rest);
        let e = escape_like(q);
        assert(e == escape_char(c) + escape_like(rest));
        if c == '\\' || c == '%' || c == '_' {
            assert(e[0] == '\\' && e[1] == c);
            assert(e.skip(2) =~= escape_like(rest));
        } else {
            assert(e[0] == c);
            assert(e.skip(1) =~= escape_like(rest));
        }
    }
}

/// Where the next page starts: after the last session shown, when the page
/// came back full.
pub fn next_cursor(rows: &Vec<SessionCursor>, limit: i64) -> (c: Option<SessionCursor>)
    ensures
        (rows.len() as i64) < limit ==> c is None,
        !((rows.len() as i64) < limit) ==> c == (if rows.len() == 0 {
            None
        } else {
            Some(rows@.last())
        }),
{
    if (rows.len() as i64) < limit {
        return None;
    }
    if rows.len() == 0 {
        return None;
    }
    Some(rows[rows.len() - 1].clone())
}

/// The first position of `x` among `ids`.
pub open spec fn first_index(ids: Seq<Seq<char>>, x: Seq<char>) -> Option<int>
    decreases ids.len(),
{
    if ids.len() == 0 {
        None
    } else if ids[0] == x {
        Some(0)
    } else {
        match first_index(ids.drop_first(), x) {
            Some(i) => Some(i + 1),
            None => None,
        }
    }
}

proof fn lemma_first_index(ids: Seq<Seq<char>>, x: Seq<char>, k: int)
    requires
        0 <= k <= ids.len(),
        forall|j: int| 0 <= j < k ==> ids[j] != x,
    ensures
        first_index(ids, x) == (if k < ids.len() && ids[k] == x {
            Some(k)
        } else {
            match first_index(ids.skip(k), x) {
                Some(i) => Some(i + k),
                None => None,
            }
        }),
    decreases k,
{
    if k > 0 {
        let t = ids.drop_first();
        assert forall|j: int| 0 <= j < k - 1 implies t[j] != x by {
            assert(t[j] == ids[j + 1]);
        }
        lemma_first_index(t, x, k - 1);
        assert(t.skip(k - 1) =~= ids.skip(k));
        if k < ids.len() {
            assert(t[k - 1] == ids[k]);
        }
    } else {
        assert(ids.skip(0) =~= ids);
        match first_index(ids, x) {
            Some(i) => {},
            None => {},
        }
    }
}

/// For each child session, the position of its parent among the listed
/// sessions (the first with that id), or `None` when its parent is not
/// listed.
pub fn nest_children(row_ids: &Vec<String>, child_parents: &Vec<Option<String>>) -> (r: Vec<
    Option<usize>,
>)
    ensures
        r.len() == child_parents.len(),
        forall|c: int|
            0 <= c < r.len() ==> (match #[trigger] child_parents@[c] {
                Some(p) => (match first_index(path_names(row_ids@), p@) {
                    Some(i) => r@[c] == Some(i as usize),
                    None => r@[c] is None,
                }),
                None => r@[c] is None,
            }),
{
    let ghost ids = path_names(row_ids@);
    let mut r: Vec<Option<usize>> = Vec::new();
    let n: usize = child_parents.len();
    for c in 0..n
        invariant
            n == child_parents.len(),
            ids == path_names(row_ids@),
            r.len() == c,
            forall|k: int|
                0 <= k < c ==> (match #[trigger] child_parents@[k] {
                    Some(p) => (match first_index(ids, p@) {
                        Some(i) => r@[k] == Some(i as usize),
                        None => r@[k] is None,
                    }),
                    None => r@[k] is None,
                }),
    {
        let found = match &child_parents[c] {
            Some(p) => {
                let mut i: usize = 0;
                while i < row_ids.len() && !(row_ids[i] == *p)
                    invariant
                        ids == path_names(row_ids@),
                        0 <= i <= row_ids.len(),
                        forall|j: int| 0 <= j < i ==> ids[j] != p@,
                    decreases row_ids.len() - i,
                {
                    proof {
                        assert(ids[i as int] == row_ids@[i as int]@);
                    }
                    i = i + 1;
                }
                proof {
                    if i < row_ids.len() {
                        assert(ids[i as int] == row_ids@[i as int]@);
                    }
                    lemma_first_index(ids, p@, i as int);
                    if i == row_ids.len() {
                        assert(ids.skip(i as int) =~= Seq::<Seq<char>>::empty());
                    }
                }
                if i < row_ids.len() {
                    Some(i)
                } else {
                    None
                }
            },
            None => None,
        };
        let ghost before = r@;
        r.push(found);
        proof {
            assert forall|k: int| 0 <= k < c + 1 implies (match #[trigger] child_parents@[k] {
                Some(p) => (match first_index(ids, p@) {
                    Some(i) => r@[k] == Some(i as usize),
                    None => r@[k] is None,
                }),
                None => r@[k] is None,
            }) by {
                if k < c {
                    assert(r@[k] == before[k]);
                }
            }
        }
    }
    r
}

/// Whether a session has more children than were attached inline.
pub fn has_more_children(child_count: i64, attached: usize) -> (more: bool)
    ensures
        more == (child_count > attached as i64),
{
    child_count > attached as i64
}

} // verus!
