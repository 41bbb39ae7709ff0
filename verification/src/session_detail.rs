//! Transcript view of one session: which parts are shown under which message,
//! and how long texts are cut.
use vstd::prelude::*;
use vstd::utf8::{encode_utf8, encode_scalar};
use crate::text::push_char;

verus! {

/// The text limit of a part. A text is flagged as cut when its full length
/// in characters exceeds it, and a cut text keeps the characters that start
/// within its first `TEXT_LIMIT` UTF-8 bytes.
pub const TEXT_LIMIT: usize = 4000;

/// One part of a message as shown in a transcript.
#[derive(Debug)]
pub struct PartView {
    pub kind: String,
    pub text: Option<String>,
    pub truncated: bool,
    pub tool: Option<String>,
    pub title: Option<String>,
    pub status: Option<String>,
    pub duration_ms: Option<i64>,
    pub files: Option<i64>,
}

pub open spec fn opt_view(o: Option<String>) -> Option<Seq<char>> {
    match o {
        Some(s) => Some(s@),
        None => None,
    }
}

/// A part by value: (kind, text, truncated, tool, title, status, duration,
/// files).
pub type PartModel = (
    Seq<char>,
    Option<Seq<char>>,
    bool,
    Option<Seq<char>>,
    Option<Seq<char>>,
    Option<Seq<char>>,
    Option<i64>,
    Option<i64>,
);

pub open spec fn part_model(p: PartView) -> PartModel {
    (
        p.kind@,
        opt_view(p.text),
        p.truncated,
        opt_view(p.tool),
        opt_view(p.title),
        opt_view(p.status),
        p.duration_ms,
        p.files,
    )
}

/// A part row as read from the source: the owning message, the part type,
/// the text (already cut to at most `TEXT_LIMIT + 1` characters) with the
/// length of the full text in characters, and the tool fields.
#[derive(Debug)]
pub struct PartRow {
    pub message_id: String,
    pub kind: String,
    pub text: String,
    pub text_len: i64,
    pub tool: Option<String>,
    pub title: Option<String>,
    pub status: Option<String>,
    pub start: Option<i64>,
    pub end: Option<i64>,
    pub files: Option<i64>,
}

/// The UTF-8 width of a character.
pub open spec fn utf8_width(c: char) -> int {
    encode_scalar(c as u32).len() as int
}

/// The characters of `s` among the first `n` that start before byte `limit`
/// of its UTF-8 encoding.
pub open spec fn chars_below(s: Seq<char>, n: int, limit: int) -> Seq<char>
    decreases n,
{
    if n <= 0 {
        Seq::empty()
    } else {
        let prev = chars_below(s, n - 1, limit);
        if encode_utf8(s.take(n - 1)).len() < limit {
            prev.push(s[n - 1])
        } else {
            prev
        }
    }
}

/// `s` cut after the last character that starts before byte `limit`.
pub open spec fn cut_at_bytes(s: Seq<char>, limit: int) -> Seq<char> {
    chars_below(s, s.len() as int, limit)
}

fn char_width(c: char) -> (w: usize)
    ensures
        w == utf8_width(c),
        1 <= w <= 4,
{
    proof {
        vstd::utf8::char_is_scalar(c);
    }
    let u = c as u32;
    if u <= 0x7F {
        1
    } else if u <= 0x7FF {
        2
    } else if u <= 0xFFFF {
        3
    } else {
        4
    }
}

proof fn lemma_encode_push(s: Seq<char>, c: char)
    ensures
        encode_utf8(s.push(c)).len() == encode_utf8(s).len() + utf8_width(c),
    decreases s.len(),
{
    if s.len() == 0 {
        assert(s.push(c).drop_first() =~= Seq::<char>::empty());
        assert(encode_utf8(Seq::<char>::empty()) =~= Seq::<u8>::empty());
    } else {
        lemma_encode_push(s.drop_first(), c);
        assert(s.push(c).drop_first() =~= s.drop_first().push(c));
        assert(s.push(c)[0] == s[0]);
    }
}

/// Cuts `text` after the last character that starts before byte `limit`.
pub fn cut_text(text: &str, limit: usize) -> (r: String)
    ensures
        r@ == cut_at_bytes(text@, limit as int),
{
    let mut out = String::new();
    let mut offset: usize = 0;
    let mut below = limit > 0;
    broadcast use vstd::string::group_string_axioms;
    proof {
        assert(text@.take(0) =~= Seq::<char>::empty());
        assert(encode_utf8(Seq::<char>::empty()) =~= Seq::<u8>::empty());
    }
    for c in it: text.chars()
        invariant
            it.seq() == text@,
            out@ == chars_below(text@, it.index() as int, limit as int),
            below ==> offset == encode_utf8(text@.take(it.index() as int)).len(),
            below <==> encode_utf8(text@.take(it.index() as int)).len() < limit,
            below ==> offset < limit,
    {
        let ghost i = it.index() as int;
        proof {
            assert(text@.take(i + 1) =~= text@.take(i).push(c));
            lemma_encode_push(text@.take(i), c);
            assert(text@[i] == c);
        }
        if below {
            push_char(&mut out, c);
            let w = char_width(c);
            if w >= limit - offset {
                below = false;
            } else {
                offset = offset + w;
            }
        }
    }
    proof {
        assert(text@.take(text@.len() as int) =~= text@);
    }
    out
}

/// The view of a part row, or `None` for kinds a transcript does not show.
/// Texts longer than `TEXT_LIMIT` characters are flagged and cut after the
/// characters starting within their first `TEXT_LIMIT` bytes. The length is
/// taken as an unsigned size, so a negative one, which SQLite never reports,
/// also counts as over the limit. A tool call's duration is its end minus its
/// start when both are known and in order.
pub open spec fn part_of(r: PartRow) -> Option<PartModel> {
    if r.kind@ == "text"@ || r.kind@ == "reasoning"@ {
        let truncated = r.text_len < 0 || r.text_len > TEXT_LIMIT;
        Some(
            (
                r.kind@,
                Some(
                    if truncated {
                        cut_at_bytes(r.text@, TEXT_LIMIT as int)
                    } else {
                        r.text@
                    },
                ),
                truncated,
                None,
                None,
                None,
                None,
                None,
            ),
        )
    } else if r.kind@ == "tool"@ {
        Some(
            (
                r.kind@,
                None,
                false,
                opt_view(r.tool),
                opt_view(r.title),
                opt_view(r.status),
                match (r.start, r.end) {
                    (Some(s), Some(e)) => if e >= s {
                        Some((e - s) as i64)
                    } else {
                        None
                    },
                    _ => None,
                },
                None,
            ),
        )
    } else if r.kind@ == "patch"@ {
        Some((r.kind@, None, false, None, None, None, None, r.files))
    } else {
        None
    }
}

/// A tool part is shown with its own tool, title and status, unswapped, and
/// with the time from its start to its end when both are known and in
/// order; it has no text and no file count.
pub proof fn law_tool_part_keeps_its_fields(r: PartRow)
    requires
        r.kind@ == "tool"@,
    ensures
        part_of(r) is Some,
        ({
            let m = part_of(r)->0;
            &&& m.0 == r.kind@
            &&& m.1 is None
            &&& !m.2
            &&& m.3 == opt_view(r.tool)
            &&& m.4 == opt_view(r.title)
            &&& m.5 == opt_view(r.status)
            &&& (r.start is Some && r.end is Some && r.end->0 >= r.start->0) ==> m.6 == Some(
                (r.end->0 - r.start->0) as i64,
            )
            &&& !(r.start is Some && r.end is Some && r.end->0 >= r.start->0) ==> m.6 is None
            &&& m.7 is None
        }),
{
    reveal_strlit("text");
    reveal_strlit("reasoning");
    reveal_strlit("tool");
    assert("text"@.len() == 4 && "reasoning"@.len() == 9 && "tool"@.len() == 4);
    assert("text"@[1] == 'e' && "tool"@[1] == 'o');
    assert("text"@ != "tool"@);
    assert("reasoning"@ != "tool"@);
}

/// A text or reasoning part is shown as a prefix of its text, the whole text
/// when it is not flagged as cut, and it is flagged exactly when its length
/// exceeds the limit (or is negative).
pub proof fn law_text_part_is_a_prefix(r: PartRow)
    requires
        r.kind@ == "text"@ || r.kind@ == "reasoning"@,
    ensures
        part_of(r) is Some,
        ({
            let m = part_of(r)->0;
            &&& m.0 == r.kind@
            &&& m.1 is Some
            &&& m.2 == (r.text_len < 0 || r.text_len > TEXT_LIMIT)
            &&& m.1->0 == r.text@.take(m.1->0.len() as int)
            &&& m.1->0.len() <= r.text@.len()
            &&& !m.2 ==> m.1->0 == r.text@
            &&& m.3 is None && m.4 is None && m.5 is None && m.6 is None && m.7 is None
        }),
{
    law_cut_is_prefix(r.text@, TEXT_LIMIT as int);
    assert(r.text@.take(r.text@.len() as int) =~= r.text@);
}

/// A tool part's duration is representable whenever it is computed.
pub open spec fn duration_fits(r: PartRow) -> bool {
    r.kind@ == "tool"@ ==> (r.start matches Some(s) ==> (r.end matches Some(e) ==> (e >= s ==> e
        - s <= i64::MAX)))
}

fn opt_clone(o: &Option<String>) -> (r: Option<String>)
    ensures
        opt_view(r) == opt_view(*o),
{
    match o {
        Some(s) => Some(s.clone()),
        None => None,
    }
}

/// Builds the view of a part row.
pub fn part_view(r: &PartRow) -> (v: Option<PartView>)
    requires
        duration_fits(*r),
    ensures
        match v {
            Some(p) => part_of(*r) == Some(part_model(p)),
            None => part_of(*r) is None,
        },
        r.kind@ == "tool"@ ==> (v matches Some(p) && opt_view(p.tool) == opt_view(r.tool)
            && opt_view(p.title) == opt_view(r.title) && opt_view(p.status) == opt_view(r.status)),
{
    proof {
        reveal_strlit("text");
        reveal_strlit("reasoning");
        reveal_strlit("tool");
        reveal_strlit("patch");
        assert("text"@.len() == 4 && "reasoning"@.len() == 9 && "tool"@.len() == 4 && "patch"@.len() == 5);
        assert("text"@[1] == 'e' && "tool"@[1] == 'o');
        assert("text"@ != "tool"@);
        if r.kind@ == "tool"@ {
            law_tool_part_keeps_its_fields(*r);
        }
    }
    let kind = r.kind.clone();
    if kind == "text".to_owned() || kind == "reasoning".to_owned() {
        let truncated = r.text_len < 0 || r.text_len > TEXT_LIMIT as i64;
        let content = if truncated {
            cut_text(r.text.as_str(), TEXT_LIMIT)
        } else {
            r.text.clone()
        };
        return Some(
            PartView {
                kind,
                text: Some(content),
                truncated,
                tool: None,
                title: None,
                status: None,
                duration_ms: None,
                files: None,
            },
        );
    }
    if kind == "tool".to_owned() {
        let duration_ms = match (r.start, r.end) {
            (Some(s), Some(e)) => if e >= s {
                Some(e - s)
            } else {
                None
            },
            _ => None,
        };
        return Some(
            PartView {
                kind,
                text: None,
                truncated: false,
                tool: opt_clone(&r.tool),
                title: opt_clone(&r.title),
                status: opt_clone(&r.status),
                duration_ms,
                files: None,
            },
        );
    }
    if kind == "patch".to_owned() {
        return Some(
            PartView {
                kind,
                text: None,
                truncated: false,
                tool: None,
                title: None,
                status: None,
                duration_ms: None,
                files: r.files,
            },
        );
    }
    None
}

/// The last position of `mid` among the message ids, which is the message a
/// part with that id is shown under.
pub open spec fn owner(ids: Seq<Seq<char>>, mid: Seq<char>) -> Option<int>
    decreases ids.len(),
{
    if ids.len() == 0 {
        None
    } else if ids.last() == mid {
        Some(ids.len() - 1)
    } else {
        owner(ids.drop_last(), mid)
    }
}

/// The parts shown under message `m`, from the first `n` part rows, in row
/// order.
pub open spec fn parts_for(ids: Seq<Seq<char>>, rows: Seq<PartRow>, n: int, m: int) -> Seq<PartModel>
    decreases n,
{
    if n <= 0 {
        Seq::empty()
    } else {
        let prev = parts_for(ids, rows, n - 1, m);
        let r = rows[n - 1];
        if owner(ids, r.message_id@) == Some(m) && part_of(r) is Some {
            prev.push(part_of(r)->0)
        } else {
            prev
        }
    }
}

pub open spec fn parts_models(v: Seq<PartView>) -> Seq<PartModel> {
    v.map_values(|p: PartView| part_model(p))
}

proof fn lemma_owner_bounds(ids: Seq<Seq<char>>, mid: Seq<char>)
    ensures
        owner(ids, mid) matches Some(i) ==> 0 <= i < ids.len() && ids[i] == mid,
    decreases ids.len(),
{
    if ids.len() > 0 && ids.last() != mid {
        lemma_owner_bounds(ids.drop_last(), mid);
    }
}

fn find_owner(ids: &Vec<String>, mid: &String) -> (r: Option<usize>)
    ensures
        match r {
            Some(i) => owner(crate::sources::path_names(ids@), mid@) == Some(i as int),
            None => owner(crate::sources::path_names(ids@), mid@) is None,
        },
{
    let ghost names = crate::sources::path_names(ids@);
    let mut k: usize = ids.len();
    proof {
        assert(names.take(k as int) =~= names);
    }
    while k > 0
        invariant
            k <= ids.len(),
            names == crate::sources::path_names(ids@),
            owner(names, mid@) == owner(names.take(k as int), mid@),
        decreases k,
    {
        proof {
            assert(names.take(k as int).drop_last() =~= names.take(k - 1));
            assert(names.take(k as int).last() == ids@[k - 1]@);
        }
        if ids[k - 1] == *mid {
            return Some(k - 1);
        }
        k = k - 1;
    }
    None
}

/// Groups part rows under their messages: `out[m]` lists, in row order, the
/// views of the rows that belong to message `m`. Rows of unknown messages
/// and of kinds a transcript does not show are skipped.
pub fn attach_parts(message_ids: &Vec<String>, rows: &Vec<PartRow>) -> (out: Vec<Vec<PartView>>)
    requires
        forall|i: int| 0 <= i < rows.len() ==> duration_fits(#[trigger] rows@[i]),
    ensures
        out.len() == message_ids.len(),
        forall|m: int|
            0 <= m < out.len() ==> parts_models(#[trigger] out@[m]@) == parts_for(
                crate::sources::path_names(message_ids@),
                rows@,
                rows.len() as int,
                m,
            ),
{
    let ghost ids = crate::sources::path_names(message_ids@);
    let mut out: Vec<Vec<PartView>> = Vec::new();
    let nm: usize = message_ids.len();
    for m in 0..nm
        invariant
            nm == message_ids.len(),
            out.len() == m,
            forall|j: int| 0 <= j < m ==> (#[trigger] out@[j])@.len() == 0,
    {
        out.push(Vec::new());
    }
    let n: usize = rows.len();
    for i in 0..n
        invariant
            n == rows.len(),
            nm == out.len(),
            nm == message_ids.len(),
            ids == crate::sources::path_names(message_ids@),
            forall|j: int| 0 <= j < rows.len() ==> duration_fits(#[trigger] rows@[j]),
            forall|m: int|
                0 <= m < out.len() ==> parts_models(#[trigger] out@[m]@) == parts_for(
                    ids,
                    rows@,
                    i as int,
                    m,
                ),
    {
        let r = &rows[i];
        match find_owner(message_ids, &r.message_id) {
            Some(m) => {
                proof {
                    lemma_owner_bounds(ids, r.message_id@);
                    assert(ids.len() == message_ids.len());
                }
                match part_view(r) {
                    Some(p) => {
                        let ghost before = out@;
                        let ghost pm = part_model(p);
                        out[m].push(p);
                        proof {
                            assert forall|k: int| 0 <= k < out.len() implies parts_models(
                                #[trigger] out@[k]@,
                            ) == parts_for(ids, rows@, i + 1, k) by {
                                if k == m {
                                    assert(parts_models(out@[k]@) =~= parts_models(before[k]@).push(
                                        pm,
                                    ));
                                } else {
                                    assert(out@[k] == before[k]);
                                }
                            }
                        }
                    },
                    None => {},
                }
            },
            None => {},
        }
    }
    out
}

/// A message stays in the transcript when it has parts to show or is a user
/// or assistant message.
pub fn keep_message(role: &str, parts: usize) -> (keep: bool)
    ensures
        keep == (parts > 0 || role@ == "assistant"@ || role@ == "user"@),
{
    let r = role.to_owned();
    parts > 0 || r == "assistant".to_owned() || r == "user".to_owned()
}

proof fn lemma_offsets_grow(s: Seq<char>, i: int, j: int)
    requires
        0 <= i <= j <= s.len(),
    ensures
        encode_utf8(s.take(i)).len() <= encode_utf8(s.take(j)).len(),
    decreases j - i,
{
    if i < j {
        lemma_offsets_grow(s, i, j - 1);
        assert(s.take(j) =~= s.take(j - 1).push(s[j - 1]));
        lemma_encode_push(s.take(j - 1), s[j - 1]);
    }
}

proof fn lemma_chars_below_prefix(s: Seq<char>, n: int, limit: int)
    requires
        0 <= n <= s.len(),
    ensures
        chars_below(s, n, limit).len() <= n,
        chars_below(s, n, limit) == s.take(chars_below(s, n, limit).len() as int),
        forall|j: int| chars_below(s, n, limit).len() <= j < n ==> encode_utf8(s.take(j)).len() >= limit,
    decreases n,
{
    if n > 0 {
        lemma_chars_below_prefix(s, n - 1, limit);
        let prev = chars_below(s, n - 1, limit);
        let k = prev.len() as int;
        if encode_utf8(s.take(n - 1)).len() < limit {
            if k < n - 1 {
                lemma_offsets_grow(s, k, n - 1);
            }
            assert(prev.push(s[n - 1]) =~= s.take(n));
        }
    }
}

/// Cutting keeps a prefix of the text, and leaves a text whose UTF-8 encoding
/// is within the limit untouched.
pub proof fn law_cut_is_prefix(s: Seq<char>, limit: int)
    ensures
        cut_at_bytes(s, limit).len() <= s.len(),
        cut_at_bytes(s, limit) == s.take(cut_at_bytes(s, limit).len() as int),
        encode_utf8(s).len() <= limit ==> cut_at_bytes(s, limit) == s,
{
    lemma_chars_below_prefix(s, s.len() as int, limit);
    let k = cut_at_bytes(s, limit).len() as int;
    if encode_utf8(s).len() <= limit && k < s.len() {
        lemma_offsets_grow(s, k, s.len() as int);
        assert(s.take(s.len() as int) =~= s);
        assert(s.take(k + 1) =~= s.take(k).push(s[k]));
        lemma_encode_push(s.take(k), s[k]);
        lemma_offsets_grow(s, k + 1, s.len() as int);
        assert(utf8_width(s[k]) >= 1) by {
            vstd::utf8::char_is_scalar(s[k]);
        }
    }
}

} // verus!
