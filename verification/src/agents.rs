//! Agent identity: conservative normalisation of free-text agent names.
use vstd::prelude::*;
use crate::text::{is_control, is_control_char, is_whitespace, is_whitespace_char, push_char};

verus! {

/// Zero-width and bidirectional formatting characters, the BOM, the soft
/// hyphen, and every control character.
pub open spec fn is_invisible_char(c: char) -> bool {
    ||| c == '\u{200B}'
    ||| c == '\u{200C}'
    ||| c == '\u{200D}'
    ||| c == '\u{200E}'
    ||| c == '\u{200F}'
    ||| c == '\u{2060}'
    ||| c == '\u{FEFF}'
    ||| c == '\u{00AD}'
    ||| is_control_char(c)
}

fn is_invisible(c: char) -> (r: bool)
    ensures
        r == is_invisible_char(c),
{
    c == '\u{200B}' || c == '\u{200C}' || c == '\u{200D}' || c == '\u{200E}' || c == '\u{200F}'
        || c == '\u{2060}' || c == '\u{FEFF}' || c == '\u{00AD}' || is_control(c)
}

/// `s` with every invisible character removed.
pub open spec fn strip_invisible(s: Seq<char>) -> Seq<char>
    decreases s.len(),
{
    if s.len() == 0 {
        s
    } else if is_invisible_char(s.last()) {
        strip_invisible(s.drop_last())
    } else {
        strip_invisible(s.drop_last()).push(s.last())
    }
}

/// The maximal runs of non-whitespace characters of `s`, in order.
pub open spec fn words(s: Seq<char>) -> Seq<Seq<char>>
    decreases s.len(),
{
    if s.len() == 0 {
        Seq::empty()
    } else {
        let p = s.drop_last();
        let c = s.last();
        let w = words(p);
        if is_whitespace_char(c) {
            w
        } else if p.len() > 0 && !is_whitespace_char(p.last()) {
            w.update(w.len() - 1, w.last().push(c))
        } else {
            w.push(seq![c])
        }
    }
}

/// The words joined by single spaces.
pub open spec fn join_words(ws: Seq<Seq<char>>) -> Seq<char>
    decreases ws.len(),
{
    if ws.len() == 0 {
        Seq::empty()
    } else if ws.len() == 1 {
        ws[0]
    } else {
        join_words(ws.drop_last()) + seq![' '] + ws.last()
    }
}

/// Display form of a raw agent name: invisibles removed, whitespace runs
/// collapsed to one space, leading and trailing whitespace trimmed.
pub open spec fn display_of(raw: Seq<char>) -> Seq<char> {
    join_words(words(strip_invisible(raw)))
}

/// What `str::to_lowercase` returns for a string.
pub uninterp spec fn lowercase(s: Seq<char>) -> Seq<char>;

/// Grouping key of a raw agent name.
pub open spec fn key_of(raw: Seq<char>) -> Seq<char> {
    if display_of(raw).len() == 0 {
        "unknown"@
    } else {
        lowercase(display_of(raw))
    }
}

/// A display form: no invisible characters, no leading or trailing
/// whitespace, and every whitespace character a single space between two
/// non-whitespace characters.
pub open spec fn is_display_form(d: Seq<char>) -> bool {
    &&& forall|i: int| 0 <= i < d.len() ==> !is_invisible_char(#[trigger] d[i])
    &&& forall|i: int|
        0 <= i < d.len() && is_whitespace_char(#[trigger] d[i]) ==> {
            &&& d[i] == ' '
            &&& 0 < i < d.len() - 1
            &&& !is_whitespace_char(d[i - 1])
            &&& !is_whitespace_char(d[i + 1])
        }
}

/// Every character is ASCII.
pub open spec fn is_ascii_seq(s: Seq<char>) -> bool {
    forall|i: int| 0 <= i < s.len() ==> (#[trigger] s[i] as u32) < 128
}

/// ASCII lowercasing of one character: `A`..`Z` become `a`..`z`.
pub open spec fn ascii_lower_char(c: char) -> char {
    match c {
        'A' => 'a',
        'B' => 'b',
        'C' => 'c',
        'D' => 'd',
        'E' => 'e',
        'F' => 'f',
        'G' => 'g',
        'H' => 'h',
        'I' => 'i',
        'J' => 'j',
        'K' => 'k',
        'L' => 'l',
        'M' => 'm',
        'N' => 'n',
        'O' => 'o',
        'P' => 'p',
        'Q' => 'q',
        'R' => 'r',
        'S' => 's',
        'T' => 't',
        'U' => 'u',
        'V' => 'v',
        'W' => 'w',
        'X' => 'x',
        'Y' => 'y',
        'Z' => 'z',
        _ => c,
    }
}

pub open spec fn ascii_lower(s: Seq<char>) -> Seq<char> {
    s.map_values(|c: char| ascii_lower_char(c))
}

/// `str::to_lowercase`: the Unicode lowercase mapping of a string. Besides
/// naming the result, the contract states what std documents of it: every
/// character maps to one or more characters, and ASCII letters map to their
/// lowercase letters, other ASCII characters to themselves.
#[verifier::external_body]
fn to_lowercase(s: &str) -> (r: String)
    ensures
        r@ == lowercase(s@),
        r@.len() >= s@.len(),
        is_ascii_seq(s@) ==> r@ == ascii_lower(s@),
{
    s.to_lowercase()
}

proof fn lemma_join_push(w: Seq<Seq<char>>, x: Seq<char>)
    ensures
        join_words(w.push(x)) == (if w.len() == 0 {
            x
        } else {
            join_words(w) + seq![' '] + x
        }),
{
    assert(w.push(x).drop_last() =~= w);
}

proof fn lemma_join_extend_last(w: Seq<Seq<char>>, c: char)
    requires
        w.len() > 0,
    ensures
        join_words(w.update(w.len() - 1, w.last().push(c))) == join_words(w).push(c),
{
    let w2 = w.update(w.len() - 1, w.last().push(c));
    if w.len() == 1 {
        assert(w2[0] == w[0].push(c));
    } else {
        assert(w2.drop_last() =~= w.drop_last());
        assert(join_words(w2) == join_words(w.drop_last()) + seq![' '] + w.last().push(c));
        assert(join_words(w2) =~= join_words(w).push(c));
    }
}

/// Display form: invisibles removed and whitespace collapsed, but original case
/// preserved.
pub fn clean_display(raw: &str) -> (res: String)
    ensures
        res@ == display_of(raw@),
        is_display_form(res@),
{
    let mut out = String::new();
    let mut prev_ws = true;
    let mut has_word = false;
    let ghost mut seen: Seq<char> = Seq::empty();
    broadcast use vstd::string::group_string_axioms;
    for c in it: raw.chars()
        invariant
            it.seq() == raw@,
            seen == strip_invisible(raw@.take(it.index() as int)),
            out@ == join_words(words(seen)),
            prev_ws <==> (seen.len() == 0 || is_whitespace_char(seen.last())),
            has_word <==> words(seen).len() > 0,
            !prev_ws ==> has_word,
            has_word <==> out@.len() > 0,
            out@.len() > 0 ==> !is_whitespace_char(out@.last()),
            is_display_form(out@),
    {
        proof {
            assert(raw@.take(it.index() as int + 1).drop_last() =~= raw@.take(it.index() as int));
        }
        if !is_invisible(c) {
            let ghost prev = seen;
            proof {
                seen = seen.push(c);
                assert(seen.drop_last() =~= prev);
            }
            if is_whitespace(c) {
                prev_ws = true;
            } else {
                if prev_ws {
                    proof {
                        lemma_join_push(words(prev), seq![c]);
                    }
                    if has_word {
                        push_char(&mut out, ' ');
                    }
                    push_char(&mut out, c);
                } else {
                    proof {
                        lemma_join_extend_last(words(prev), c);
                    }
                    push_char(&mut out, c);
                }
                prev_ws = false;
                has_word = true;
            }
        }
    }
    proof {
        assert(raw@.take(raw@.len() as int) =~= raw@);
    }
    out
}

/// Grouping key. Case-insensitive on top of [`clean_display`]; a name that
/// is empty once cleaned groups under `unknown`.
pub fn normalize_key(raw: &str) -> (res: String)
    ensures
        res@ == key_of(raw@),
        res@.len() > 0,
        is_ascii_seq(display_of(raw@)) ==> res@ == ascii_key(raw@),
{
    proof {
        reveal_strlit("unknown");
    }
    let display = clean_display(raw);
    if display.as_str().is_empty() {
        return "unknown".to_owned();
    }
    to_lowercase(display.as_str())
}

/// The grouping key of a name whose display form is ASCII.
pub open spec fn ascii_key(raw: Seq<char>) -> Seq<char> {
    if display_of(raw).len() == 0 {
        "unknown"@
    } else {
        ascii_lower(display_of(raw))
    }
}

proof fn lemma_ascii_lower_char(c: char)
    requires
        (c as u32) < 128,
    ensures
        (ascii_lower_char(c) as u32) < 128,
        ascii_lower_char(ascii_lower_char(c)) == ascii_lower_char(c),
        is_whitespace_char(ascii_lower_char(c)) == is_whitespace_char(c),
        is_invisible_char(ascii_lower_char(c)) == is_invisible_char(c),
{
}

/// A display form stays one, and stays ASCII, under ASCII lowercasing.
proof fn lemma_ascii_lower_display(d: Seq<char>)
    requires
        is_display_form(d),
        is_ascii_seq(d),
    ensures
        is_display_form(ascii_lower(d)),
        is_ascii_seq(ascii_lower(d)),
        ascii_lower(ascii_lower(d)) == ascii_lower(d),
        ascii_lower(d).len() == d.len(),
{
    let l = ascii_lower(d);
    assert forall|i: int| 0 <= i < d.len() implies #[trigger] l[i] == ascii_lower_char(d[i])
        && (l[i] as u32) < 128 && ascii_lower_char(l[i]) == l[i] && is_whitespace_char(l[i])
        == is_whitespace_char(d[i]) && is_invisible_char(l[i]) == is_invisible_char(d[i]) by {
        assert((d[i] as u32) < 128);
        lemma_ascii_lower_char(d[i]);
    }
    assert forall|i: int| 0 <= i < l.len() && is_whitespace_char(#[trigger] l[i]) implies {
        &&& l[i] == ' '
        &&& 0 < i < l.len() - 1
        &&& !is_whitespace_char(l[i - 1])
        &&& !is_whitespace_char(l[i + 1])
    } by {
        assert(is_whitespace_char(d[i]));
        assert(l[i - 1] == ascii_lower_char(d[i - 1]));
        assert(l[i + 1] == ascii_lower_char(d[i + 1]));
    }
    assert(ascii_lower(l) =~= l);
}

/// Among names whose display form is ASCII, a grouping key is its own display
/// form, ASCII, and normalising it again gives it back; so for such names
/// `normalize_key` applied to its own result changes nothing.
pub proof fn law_ascii_key_idempotent(raw: Seq<char>)
    requires
        is_ascii_seq(display_of(raw)),
    ensures
        display_of(ascii_key(raw)) == ascii_key(raw),
        is_ascii_seq(display_of(ascii_key(raw))),
        ascii_key(ascii_key(raw)) == ascii_key(raw),
        ascii_key(raw).len() > 0,
{
    let d = display_of(raw);
    law_display_is_display_form(raw);
    if d.len() == 0 {
        reveal_strlit("unknown");
        let u = "unknown"@;
        assert(u =~= seq!['u', 'n', 'k', 'n', 'o', 'w', 'n']);
        assert(is_display_form(u));
        assert(is_ascii_seq(u));
        lemma_strip_of_visible(u);
        lemma_join_words_of_display(u);
        lemma_ascii_lower_display(u);
        assert(ascii_lower(u) =~= u);
    } else {
        let l = ascii_lower(d);
        lemma_ascii_lower_display(d);
        lemma_strip_of_visible(l);
        lemma_join_words_of_display(l);
        assert(display_of(l) == l);
    }
}

proof fn lemma_strip_concat(a: Seq<char>, b: Seq<char>)
    ensures
        strip_invisible(a + b) == strip_invisible(a) + strip_invisible(b),
    decreases b.len(),
{
    if b.len() == 0 {
        assert(a + b =~= a);
        assert(strip_invisible(a) + strip_invisible(b) =~= strip_invisible(a));
    } else {
        let b2 = b.drop_last();
        assert((a + b).drop_last() =~= a + b2);
        assert((a + b).last() == b.last());
        lemma_strip_concat(a, b2);
        if is_invisible_char(b.last()) {
        } else {
            assert(strip_invisible(a + b) =~= strip_invisible(a) + strip_invisible(b));
        }
    }
}

proof fn lemma_strip_single(c: char)
    ensures
        strip_invisible(seq![c]) == (if is_invisible_char(c) {
            Seq::<char>::empty()
        } else {
            seq![c]
        }),
{
    let s = seq![c];
    assert(s.drop_last() =~= Seq::<char>::empty());
    assert(strip_invisible(s.drop_last()) =~= Seq::<char>::empty());
    assert(s.last() == c);
    assert(Seq::<char>::empty().push(c) =~= seq![c]);
}

proof fn lemma_strip_all_visible(s: Seq<char>)
    ensures
        forall|i: int| 0 <= i < strip_invisible(s).len() ==> !is_invisible_char(
            #[trigger] strip_invisible(s)[i],
        ),
    decreases s.len(),
{
    if s.len() > 0 {
        let p = s.drop_last();
        lemma_strip_all_visible(p);
        if !is_invisible_char(s.last()) {
            let q = strip_invisible(p);
            assert forall|i: int| 0 <= i < q.push(s.last()).len() implies !is_invisible_char(
                #[trigger] q.push(s.last())[i],
            ) by {
                if i < q.len() {
                    assert(q.push(s.last())[i] == q[i]);
                }
            }
        }
    }
}

proof fn lemma_strip_of_visible(d: Seq<char>)
    requires
        forall|i: int| 0 <= i < d.len() ==> !is_invisible_char(#[trigger] d[i]),
    ensures
        strip_invisible(d) == d,
    decreases d.len(),
{
    if d.len() > 0 {
        let p = d.drop_last();
        assert forall|i: int| 0 <= i < p.len() implies !is_invisible_char(#[trigger] p[i]) by {
            assert(p[i] == d[i]);
        }
        lemma_strip_of_visible(p);
        assert(!is_invisible_char(d[d.len() - 1]));
        assert(p.push(d.last()) =~= d);
    }
}

proof fn lemma_words_nonempty(s: Seq<char>)
    requires
        s.len() > 0,
        !is_whitespace_char(s.last()),
    ensures
        words(s).len() > 0,
    decreases s.len(),
{
    let p = s.drop_last();
    if p.len() > 0 && !is_whitespace_char(p.last()) {
        lemma_words_nonempty(p);
    }
}

/// Appending a non-whitespace, visible character keeps a display form.
proof fn lemma_display_form_push(d: Seq<char>, c: char)
    requires
        is_display_form(d),
        !is_whitespace_char(c),
        !is_invisible_char(c),
    ensures
        is_display_form(d.push(c)),
{
    let e = d.push(c);
    assert forall|i: int| 0 <= i < e.len() implies !is_invisible_char(#[trigger] e[i]) by {
        if i < d.len() {
            assert(e[i] == d[i]);
        }
    }
    assert forall|i: int| 0 <= i < e.len() && is_whitespace_char(#[trigger] e[i]) implies {
        &&& e[i] == ' '
        &&& 0 < i < e.len() - 1
        &&& !is_whitespace_char(e[i - 1])
        &&& !is_whitespace_char(e[i + 1])
    } by {
        assert(i < d.len());
        assert(e[i] == d[i]);
        assert(is_whitespace_char(d[i]));
        assert(e[i - 1] == d[i - 1]);
        assert(e[i + 1] == d[i + 1]);
    }
}

/// Joining the words of a string without invisible characters yields a
/// display form, which is empty exactly when there are no words.
proof fn lemma_join_is_display_form(s: Seq<char>)
    requires
        forall|i: int| 0 <= i < s.len() ==> !is_invisible_char(#[trigger] s[i]),
    ensures
        is_display_form(join_words(words(s))),
        join_words(words(s)).len() > 0 <==> words(s).len() > 0,
    decreases s.len(),
{
    if s.len() == 0 {
        assert(join_words(words(s)) =~= Seq::<char>::empty());
    } else {
        let p = s.drop_last();
        let c = s.last();
        assert forall|i: int| 0 <= i < p.len() implies !is_invisible_char(#[trigger] p[i]) by {
            assert(p[i] == s[i]);
        }
        assert(!is_invisible_char(s[s.len() - 1]));
        lemma_join_is_display_form(p);
        let w = words(p);
        let d = join_words(w);
        if is_whitespace_char(c) {
        } else if p.len() > 0 && !is_whitespace_char(p.last()) {
            lemma_words_nonempty(p);
            lemma_join_extend_last(w, c);
            lemma_display_form_push(d, c);
        } else {
            lemma_join_push(w, seq![c]);
            if w.len() == 0 {
                let e = seq![c];
                assert(join_words(words(s)) == e);
                assert forall|i: int| 0 <= i < e.len() implies !is_invisible_char(
                    #[trigger] e[i],
                ) by {
                    assert(e[i] == c);
                }
            } else {
                let e = d + seq![' '] + seq![c];
                assert(join_words(words(s)) == e);
                assert(d.len() > 0);
                assert(!is_whitespace_char(d[d.len() - 1]));
                assert forall|i: int| 0 <= i < e.len() implies !is_invisible_char(
                    #[trigger] e[i],
                ) by {
                    if i < d.len() {
                        assert(e[i] == d[i]);
                    } else if i == d.len() {
                        assert(e[i] == ' ');
                    } else {
                        assert(e[i] == c);
                    }
                }
                assert forall|i: int| 0 <= i < e.len() && is_whitespace_char(#[trigger] e[i]) implies {
                    &&& e[i] == ' '
                    &&& 0 < i < e.len() - 1
                    &&& !is_whitespace_char(e[i - 1])
                    &&& !is_whitespace_char(e[i + 1])
                } by {
                    if i < d.len() {
                        assert(e[i] == d[i]);
                        assert(e[i - 1] == d[i - 1]);
                        if i + 1 < d.len() {
                            assert(e[i + 1] == d[i + 1]);
                        } else {
                            assert(is_whitespace_char(d[i]));
                        }
                    } else if i == d.len() {
                        assert(e[i - 1] == d[d.len() - 1]);
                        assert(e[i + 1] == c);
                    } else {
                        assert(e[i] == c);
                    }
                }
            }
        }
    }
}

/// A display form reads back as itself through `words` and `join_words`.
proof fn lemma_join_words_of_display(d: Seq<char>)
    requires
        is_display_form(d),
    ensures
        join_words(words(d)) == d,
    decreases d.len(),
{
    if d.len() == 0 {
        assert(join_words(words(d)) =~= d);
    } else {
        let p = d.drop_last();
        let c = d.last();
        assert(!is_whitespace_char(c)) by {
            if is_whitespace_char(d[d.len() - 1]) {
            }
        }
        if p.len() == 0 {
            assert(words(p) =~= Seq::<Seq<char>>::empty());
            assert(words(d) == words(p).push(seq![c]));
            assert(words(d) =~= Seq::<Seq<char>>::empty().push(seq![c]));
            assert(join_words(words(d)) == seq![c]);
            assert(seq![c] =~= d);
        } else if !is_whitespace_char(p.last()) {
            assert(is_display_form(p)) by {
                assert forall|i: int| 0 <= i < p.len() implies !is_invisible_char(#[trigger] p[i]) by {
                    assert(p[i] == d[i]);
                }
                assert forall|i: int| 0 <= i < p.len() && is_whitespace_char(#[trigger] p[i]) implies {
                    &&& p[i] == ' '
                    &&& 0 < i < p.len() - 1
                    &&& !is_whitespace_char(p[i - 1])
                    &&& !is_whitespace_char(p[i + 1])
                } by {
                    assert(p[i] == d[i]);
                    assert(p[i - 1] == d[i - 1]);
                    assert(i != p.len() - 1);
                    assert(p[i + 1] == d[i + 1]);
                }
            }
            lemma_join_words_of_display(p);
            lemma_words_nonempty(p);
            lemma_join_extend_last(words(p), c);
            assert(p.push(c) =~= d);
        } else {
            let q = p.drop_last();
            assert(d[p.len() - 1] == p.last());
            assert(p.last() == ' ');
            assert(q.len() > 0);
            assert(d[q.len() - 1] == q.last());
            assert(!is_whitespace_char(q.last()));
            assert(is_display_form(q)) by {
                assert forall|i: int| 0 <= i < q.len() implies !is_invisible_char(#[trigger] q[i]) by {
                    assert(q[i] == d[i]);
                }
                assert forall|i: int| 0 <= i < q.len() && is_whitespace_char(#[trigger] q[i]) implies {
                    &&& q[i] == ' '
                    &&& 0 < i < q.len() - 1
                    &&& !is_whitespace_char(q[i - 1])
                    &&& !is_whitespace_char(q[i + 1])
                } by {
                    assert(q[i] == d[i]);
                    assert(q[i - 1] == d[i - 1]);
                    assert(i != q.len() - 1);
                    assert(q[i + 1] == d[i + 1]);
                }
            }
            lemma_join_words_of_display(q);
            lemma_words_nonempty(q);
            assert(words(p) == words(q));
            lemma_join_push(words(q), seq![c]);
            assert(q + seq![' '] + seq![c] =~= d);
        }
    }
}

/// The display form of any name is a display form.
pub proof fn law_display_is_display_form(raw: Seq<char>)
    ensures
        is_display_form(display_of(raw)),
{
    lemma_strip_all_visible(raw);
    lemma_join_is_display_form(strip_invisible(raw));
}

/// Cleaning a name twice gives the same result as cleaning it once.
pub proof fn law_display_idempotent(raw: Seq<char>)
    ensures
        display_of(display_of(raw)) == display_of(raw),
{
    let d = display_of(raw);
    law_display_is_display_form(raw);
    lemma_strip_of_visible(d);
    lemma_join_words_of_display(d);
}

/// An invisible character anywhere in a name does not change its display
/// form, and so neither its grouping key.
pub proof fn law_invisible_ignored(a: Seq<char>, c: char, b: Seq<char>)
    requires
        is_invisible_char(c),
    ensures
        display_of(a + seq![c] + b) == display_of(a + b),
        key_of(a + seq![c] + b) == key_of(a + b),
{
    lemma_strip_concat(a + seq![c], b);
    lemma_strip_concat(a, seq![c]);
    lemma_strip_concat(a, b);
    lemma_strip_single(c);
    assert(strip_invisible(a) + Seq::<char>::empty() =~= strip_invisible(a));
}

proof fn lemma_words_prepend_whitespace(w: char, s: Seq<char>)
    requires
        is_whitespace_char(w),
    ensures
        words(seq![w] + s) == words(s),
    decreases s.len(),
{
    let x = seq![w] + s;
    if s.len() == 0 {
        assert(x =~= seq![w]);
        assert(x.drop_last() =~= Seq::<char>::empty());
        assert(words(x.drop_last()) =~= Seq::<Seq<char>>::empty());
        assert(x.last() == w);
        assert(words(x) == words(x.drop_last()));
        assert(words(s) =~= Seq::<Seq<char>>::empty());
    } else {
        let t = s.drop_last();
        lemma_words_prepend_whitespace(w, t);
        assert(x.drop_last() =~= seq![w] + t);
        assert(x.last() == s.last());
        if t.len() > 0 {
            assert((seq![w] + t).last() == t.last());
        } else {
            assert((seq![w] + t).last() == w);
        }
    }
}

/// Leading and trailing whitespace never reaches the display form.
pub proof fn law_trims_whitespace(raw: Seq<char>, w: char)
    requires
        is_whitespace_char(w),
    ensures
        display_of(seq![w] + raw) == display_of(raw),
        display_of(raw.push(w)) == display_of(raw),
{
    lemma_strip_single(w);
    lemma_strip_concat(seq![w], raw);
    lemma_strip_concat(raw, seq![w]);
    assert(raw.push(w) =~= raw + seq![w]);
    if is_invisible_char(w) {
        assert(Seq::<char>::empty() + strip_invisible(raw) =~= strip_invisible(raw));
        assert(strip_invisible(raw) + Seq::<char>::empty() =~= strip_invisible(raw));
    } else {
        let x = strip_invisible(raw);
        lemma_words_prepend_whitespace(w, x);
        assert(x + seq![w] =~= x.push(w));
        assert(x.push(w).drop_last() =~= x);
        assert(x.push(w).last() == w);
        assert(words(x.push(w)) == words(x));
    }
}

proof fn lemma_words_double_whitespace(a: Seq<char>, w1: char, w2: char, b: Seq<char>)
    requires
        is_whitespace_char(w1),
        is_whitespace_char(w2),
    ensures
        words(a + seq![w1, w2] + b) == words(a + seq![w1] + b),
    decreases b.len(),
{
    let x = a + seq![w1, w2] + b;
    let y = a + seq![w1] + b;
    if b.len() == 0 {
        assert(x =~= (a + seq![w1]).push(w2));
        assert(y =~= a + seq![w1]);
        assert(x.drop_last() =~= a + seq![w1]);
    } else {
        let b2 = b.drop_last();
        lemma_words_double_whitespace(a, w1, w2, b2);
        let x2 = a + seq![w1, w2] + b2;
        let y2 = a + seq![w1] + b2;
        assert(x.drop_last() =~= x2);
        assert(y.drop_last() =~= y2);
        assert(x.last() == b.last());
        assert(y.last() == b.last());
        if b2.len() > 0 {
            assert(x2.last() == b2.last());
            assert(y2.last() == b2.last());
        } else {
            assert(x2.last() == w2);
            assert(y2.last() == w1);
        }
    }
}

/// A run of visible whitespace counts the same as a single whitespace
/// character.
pub proof fn law_collapses_whitespace_runs(a: Seq<char>, w1: char, w2: char, b: Seq<char>)
    requires
        is_whitespace_char(w1),
        is_whitespace_char(w2),
        !is_invisible_char(w1),
        !is_invisible_char(w2),
    ensures
        display_of(a + seq![w1, w2] + b) == display_of(a + seq![w1] + b),
{
    lemma_strip_concat(a + seq![w1, w2], b);
    lemma_strip_concat(a, seq![w1, w2]);
    lemma_strip_concat(a + seq![w1], b);
    lemma_strip_concat(a, seq![w1]);
    lemma_strip_single(w1);
    assert(seq![w1, w2].drop_last() =~= seq![w1]);
    assert(strip_invisible(seq![w1, w2]) =~= seq![w1, w2]);
    lemma_words_double_whitespace(strip_invisible(a), w1, w2, strip_invisible(b));
}

/// Two names with the same display form share a grouping key.
pub proof fn law_key_follows_display(a: Seq<char>, b: Seq<char>)
    requires
        display_of(a) == display_of(b),
    ensures
        key_of(a) == key_of(b),
{
}

} // verus!
