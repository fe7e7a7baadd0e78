//! Character-level text handling: whitespace, trimming, suffixes,
//! substrings, ordering and number formatting, all over `Seq<char>`.
use vstd::prelude::*;

verus! {

// ---------------------------------------------------------------------------
// Conversions between `str`/`String` and character vectors
// ---------------------------------------------------------------------------

/// `String::push`: appends one character.
#[verifier::external_body]
pub(crate) fn push_char(s: &mut String, c: char)
    ensures
        final(s)@ == old(s)@.push(c),
{
    s.push(c)
}

/// The characters of `s`, in order.
pub fn chars_of(s: &str) -> (v: Vec<char>)
    ensures
        v@ == s@,
{
    let mut v: Vec<char> = Vec::new();
    for c in it: s.chars()
        invariant
            it.seq() == s@,
            v@ == it.seq().take(it.index() as int),
    {
        v.push(c);
    }
    v
}

/// A `String` holding exactly the characters of `chars`.
pub fn string_of(chars: &Vec<char>) -> (s: String)
    ensures
        s@ == chars@,
{
    let mut s = String::new();
    let mut i: usize = 0;
    while i < chars.len()
        invariant
            i <= chars.len(),
            s@ == chars@.take(i as int),
        decreases chars.len() - i,
    {
        push_char(&mut s, chars[i]);
        assert(chars@.take(i as int).push(chars@[i as int]) =~= chars@.take(i + 1));
        i = i + 1;
    }
    assert(chars@.take(chars.len() as int) =~= chars@);
    s
}

/// Appends all characters of `t` to `s`.
pub fn push_str(s: &mut String, t: &str)
    ensures
        final(s)@ == old(s)@ + t@,
{
    let cs = chars_of(t);
    let mut i: usize = 0;
    while i < cs.len()
        invariant
            i <= cs.len(),
            cs@ == t@,
            s@ == old(s)@ + cs@.take(i as int),
        decreases cs.len() - i,
    {
        push_char(s, cs[i]);
        assert(cs@.take(i as int).push(cs@[i as int]) =~= cs@.take(i + 1));
        assert(old(s)@ + cs@.take(i + 1) =~= (old(s)@ + cs@.take(i as int)).push(cs@[i as int]));
        i = i + 1;
    }
    assert(cs@.take(cs.len() as int) =~= cs@);
}

/// A new `String` equal to `t`.
pub fn string_from(t: &str) -> (s: String)
    ensures
        s@ == t@,
{
    let mut s = String::new();
    push_str(&mut s, t);
    s
}

// ---------------------------------------------------------------------------
// Whitespace
// ---------------------------------------------------------------------------

/// The Unicode `White_Space` property.
pub open spec fn is_ws(c: char) -> bool {
    let u = c as u32;
    ||| 0x09 <= u <= 0x0D
    ||| u == 0x20
    ||| u == 0x85
    ||| u == 0xA0
    ||| u == 0x1680
    ||| 0x2000 <= u <= 0x200A
    ||| u == 0x2028
    ||| u == 0x2029
    ||| u == 0x202F
    ||| u == 0x205F
    ||| u == 0x3000
}

/// Whether `c` has the Unicode `White_Space` property.
pub fn is_whitespace(c: char) -> (r: bool)
    ensures
        r == is_ws(c),
{
    let u = c as u32;
    (0x09 <= u && u <= 0x0D) || u == 0x20 || u == 0x85 || u == 0xA0 || u == 0x1680 || (0x2000
        <= u && u <= 0x200A) || u == 0x2028 || u == 0x2029 || u == 0x202F || u == 0x205F || u
        == 0x3000
}

/// The maximal runs of non-whitespace characters of `s`, in order.
pub open spec fn words(s: Seq<char>) -> Seq<Seq<char>>
    decreases s.len(),
{
    if s.len() == 0 {
        Seq::empty()
    } else {
        let w = words(s.drop_last());
        let c = s.last();
        if is_ws(c) {
            w
        } else if s.len() >= 2 && !is_ws(s[s.len() - 2]) {
            w.update(w.len() - 1, w.last().push(c))
        } else {
            w.push(seq![c])
        }
    }
}

/// The words of a sequence joined by single spaces.
pub open spec fn join_with_space(ws: Seq<Seq<char>>) -> Seq<char>
    decreases ws.len(),
{
    if ws.len() == 0 {
        Seq::empty()
    } else if ws.len() == 1 {
        ws[0]
    } else {
        join_with_space(ws.drop_last()) + seq![' '] + ws.last()
    }
}

/// `s` with every run of whitespace replaced by one space and no leading or
/// trailing whitespace.
pub open spec fn collapse_ws(s: Seq<char>) -> Seq<char> {
    join_with_space(words(s))
}

proof fn lemma_join_extend_last(ws: Seq<Seq<char>>, c: char)
    requires
        ws.len() > 0,
    ensures
        join_with_space(ws.update(ws.len() - 1, ws.last().push(c))) == join_with_space(ws).push(c),
{
    let ws2 = ws.update(ws.len() - 1, ws.last().push(c));
    if ws.len() == 1 {
        assert(ws2[0] == ws[0].push(c));
    } else {
        assert(ws2.drop_last() =~= ws.drop_last());
        assert(ws2.last() == ws.last().push(c));
        assert(join_with_space(ws2) =~= join_with_space(ws).push(c));
    }
}

proof fn lemma_join_push(ws: Seq<Seq<char>>, x: Seq<char>)
    ensures
        join_with_space(ws.push(x)) == if ws.len() == 0 {
            x
        } else {
            join_with_space(ws) + seq![' '] + x
        },
{
    assert(ws.push(x).drop_last() =~= ws);
}

/// Each word of `ws` with `f` applied to every character.
pub open spec fn map_words(ws: Seq<Seq<char>>, f: spec_fn(char) -> char) -> Seq<Seq<char>> {
    Seq::new(ws.len(), |i: int| ws[i].map_values(f))
}

/// A text whose last character is not whitespace has a word.
proof fn lemma_words_nonempty(s: Seq<char>)
    requires
        s.len() > 0,
        !is_ws(s.last()),
    ensures
        words(s).len() > 0,
    decreases s.len(),
{
    if s.len() >= 2 && !is_ws(s[s.len() - 2]) {
        assert(s.drop_last().last() == s[s.len() - 2]);
        lemma_words_nonempty(s.drop_last());
    }
}

/// Applying a character map that keeps whitespace and non-whitespace apart
/// maps each word.
pub proof fn lemma_words_map(s: Seq<char>, f: spec_fn(char) -> char)
    requires
        forall|c: char| #[trigger] is_ws(f(c)) == is_ws(c),
    ensures
        words(s.map_values(f)) == map_words(words(s), f),
    decreases s.len(),
{
    let m = s.map_values(f);
    if s.len() == 0 {
        assert(map_words(words(s), f) =~= Seq::<Seq<char>>::empty());
    } else {
        let d = s.drop_last();
        lemma_words_map(d, f);
        assert(m.drop_last() =~= d.map_values(f));
        let w = words(d);
        let c = s.last();
        assert(m.last() == f(c));
        assert(is_ws(f(c)) == is_ws(c));
        if s.len() >= 2 {
            assert(m[m.len() - 2] == f(s[s.len() - 2]));
            assert(is_ws(f(s[s.len() - 2])) == is_ws(s[s.len() - 2]));
        }
        if is_ws(c) {
        } else if s.len() >= 2 && !is_ws(s[s.len() - 2]) {
            assert(d.last() == s[s.len() - 2]);
            lemma_words_nonempty(d);
            let mw = map_words(w, f);
            assert(mw.last() == w.last().map_values(f));
            assert(w.last().push(c).map_values(f) =~= w.last().map_values(f).push(f(c)));
            assert(mw.update(mw.len() - 1, mw.last().push(f(c))) =~= map_words(
                w.update(w.len() - 1, w.last().push(c)),
                f,
            ));
        } else {
            assert(seq![c].map_values(f) =~= seq![f(c)]);
            assert(map_words(w, f).push(seq![f(c)]) =~= map_words(w.push(seq![c]), f));
        }
    }
}

/// Joining mapped words maps the joined text, when the map keeps the space.
pub proof fn lemma_join_map(ws: Seq<Seq<char>>, f: spec_fn(char) -> char)
    requires
        f(' ') == ' ',
    ensures
        join_with_space(map_words(ws, f)) == join_with_space(ws).map_values(f),
    decreases ws.len(),
{
    let mw = map_words(ws, f);
    if ws.len() == 0 {
        assert(join_with_space(ws).map_values(f) =~= Seq::<char>::empty());
    } else if ws.len() == 1 {
        assert(mw[0] == ws[0].map_values(f));
    } else {
        lemma_join_map(ws.drop_last(), f);
        assert(mw.drop_last() =~= map_words(ws.drop_last(), f));
        assert(mw.last() == ws.last().map_values(f));
        assert((join_with_space(ws.drop_last()) + seq![' '] + ws.last()).map_values(f)
            =~= join_with_space(ws.drop_last()).map_values(f) + seq![' '] + ws.last().map_values(
            f,
        ));
    }
}

/// Collapsing whitespace commutes with a character map that keeps the
/// space and keeps whitespace and non-whitespace apart.
pub proof fn lemma_collapse_map(s: Seq<char>, f: spec_fn(char) -> char)
    requires
        f(' ') == ' ',
        forall|c: char| #[trigger] is_ws(f(c)) == is_ws(c),
    ensures
        collapse_ws(s.map_values(f)) == collapse_ws(s).map_values(f),
{
    lemma_words_map(s, f);
    lemma_join_map(words(s), f);
}

/// Every character of every word is a character with property `p` when all
/// characters of the text have it.
proof fn lemma_words_chars(s: Seq<char>, p: spec_fn(char) -> bool)
    requires
        forall|i: int| 0 <= i < s.len() ==> p(#[trigger] s[i]),
    ensures
        forall|i: int, j: int|
            0 <= i < words(s).len() && 0 <= j < words(s)[i].len() ==> p(#[trigger] words(s)[i][j]),
    decreases s.len(),
{
    if s.len() > 0 {
        let d = s.drop_last();
        assert forall|i: int| 0 <= i < d.len() implies p(#[trigger] d[i]) by {
            assert(d[i] == s[i]);
        }
        lemma_words_chars(d, p);
        let c = s.last();
        assert(p(s[s.len() - 1]));
        let w = words(d);
        assert(d.drop_last() =~= s.drop_last().drop_last());
        if is_ws(c) {
        } else if s.len() >= 2 && !is_ws(s[s.len() - 2]) {
            assert(d.last() == s[s.len() - 2]);
            lemma_words_nonempty(d);
            let nw = w.update(w.len() - 1, w.last().push(c));
            assert(words(s) == nw);
            assert forall|i: int, j: int| 0 <= i < nw.len() && 0 <= j < nw[i].len() implies p(
                #[trigger] nw[i][j],
            ) by {
                if i < w.len() - 1 {
                    assert(nw[i] == w[i]);
                } else if j < w.last().len() {
                    assert(nw[i][j] == w[w.len() - 1][j]);
                } else {
                    assert(nw[i][j] == c);
                }
            }
        } else {
            let nw = w.push(seq![c]);
            assert(words(s) == nw);
            assert forall|i: int, j: int| 0 <= i < nw.len() && 0 <= j < nw[i].len() implies p(
                #[trigger] nw[i][j],
            ) by {
                if i < w.len() {
                    assert(nw[i] == w[i]);
                } else {
                    assert(nw[i][j] == c);
                }
            }
        }
    }
}

/// Every character of the joined text has property `p` when the space and
/// every character of every word have it.
proof fn lemma_join_chars(ws: Seq<Seq<char>>, p: spec_fn(char) -> bool)
    requires
        p(' '),
        forall|i: int, j: int| 0 <= i < ws.len() && 0 <= j < ws[i].len() ==> p(#[trigger] ws[i][j]),
    ensures
        forall|k: int| 0 <= k < join_with_space(ws).len() ==> p(#[trigger] join_with_space(ws)[k]),
    decreases ws.len(),
{
    if ws.len() == 1 {
        assert forall|k: int| 0 <= k < join_with_space(ws).len() implies p(
            #[trigger] join_with_space(ws)[k],
        ) by {
            assert(join_with_space(ws)[k] == ws[0][k]);
        }
    } else if ws.len() > 1 {
        let d = ws.drop_last();
        assert forall|i: int, j: int| 0 <= i < d.len() && 0 <= j < d[i].len() implies p(
            #[trigger] d[i][j],
        ) by {
            assert(d[i] == ws[i]);
        }
        lemma_join_chars(d, p);
        let a = join_with_space(d);
        let l = ws.last();
        assert forall|k: int| 0 <= k < join_with_space(ws).len() implies p(
            #[trigger] join_with_space(ws)[k],
        ) by {
            if k < a.len() {
                assert(join_with_space(ws)[k] == a[k]);
            } else if k == a.len() {
                assert(join_with_space(ws)[k] == ' ');
            } else {
                assert(join_with_space(ws)[k] == l[k - a.len() - 1]);
                assert(p(ws[ws.len() - 1][k - a.len() - 1]));
            }
        }
    }
}

/// Collapsing whitespace keeps a property that the space and every
/// character of the text have.
pub proof fn lemma_collapse_chars(s: Seq<char>, p: spec_fn(char) -> bool)
    requires
        p(' '),
        forall|i: int| 0 <= i < s.len() ==> p(#[trigger] s[i]),
    ensures
        forall|k: int| 0 <= k < collapse_ws(s).len() ==> p(#[trigger] collapse_ws(s)[k]),
{
    lemma_words_chars(s, p);
    lemma_join_chars(words(s), p);
}

/// Whitespace at the end of a text adds no word.
pub proof fn lemma_words_append_ws(s: Seq<char>, t: Seq<char>)
    requires
        forall|i: int| 0 <= i < t.len() ==> is_ws(#[trigger] t[i]),
    ensures
        words(s + t) == words(s),
    decreases t.len(),
{
    if t.len() > 0 {
        let d = t.drop_last();
        assert((s + t).drop_last() =~= s + d);
        assert((s + t).last() == t[t.len() - 1]);
        assert forall|i: int| 0 <= i < d.len() implies is_ws(#[trigger] d[i]) by {
            assert(d[i] == t[i]);
        }
        lemma_words_append_ws(s, d);
    } else {
        assert(s + t =~= s);
    }
}

/// After whitespace (or at the start) a text's words follow those before.
pub proof fn lemma_words_concat(s: Seq<char>, t: Seq<char>)
    requires
        s.len() == 0 || is_ws(s.last()),
    ensures
        words(s + t) == words(s) + words(t),
    decreases t.len(),
{
    if t.len() == 0 {
        assert(s + t =~= s);
        assert(words(s) + words(t) =~= words(s));
    } else {
        let d = t.drop_last();
        let st = s + t;
        lemma_words_concat(s, d);
        assert(st.drop_last() =~= s + d);
        assert(st.last() == t.last());
        let c = t.last();
        if t.len() >= 2 {
            assert(st[st.len() - 2] == t[t.len() - 2]);
        } else if s.len() > 0 {
            assert(st[st.len() - 2] == s.last());
        }
        if is_ws(c) {
        } else if t.len() >= 2 && !is_ws(t[t.len() - 2]) {
            assert(d.last() == t[t.len() - 2]);
            lemma_words_nonempty(d);
            let w = words(d);
            assert((words(s) + w).update(words(s).len() + w.len() - 1, (words(s) + w).last().push(c))
                =~= words(s) + w.update(w.len() - 1, w.last().push(c)));
        } else {
            assert((words(s) + words(d)).push(seq![c]) =~= words(s) + words(d).push(seq![c]));
        }
    }
}

/// A non-empty text without whitespace is one word.
pub proof fn lemma_words_single(t: Seq<char>)
    requires
        t.len() > 0,
        forall|i: int| 0 <= i < t.len() ==> !is_ws(#[trigger] t[i]),
    ensures
        words(t) == seq![t],
    decreases t.len(),
{
    let d = t.drop_last();
    if t.len() == 1 {
        assert(d.len() == 0);
        assert(words(d) =~= Seq::<Seq<char>>::empty());
        assert(seq![t.last()] =~= t);
        assert(words(t) =~= seq![t]);
    } else {
        assert forall|i: int| 0 <= i < d.len() implies !is_ws(#[trigger] d[i]) by {
            assert(d[i] == t[i]);
        }
        lemma_words_single(d);
        assert(!is_ws(t[t.len() - 2]));
        assert(!is_ws(t[t.len() - 1]));
        assert(d.last() == t[t.len() - 2]);
        assert(d.push(t.last()) =~= t);
        assert(seq![d].update(0, d.push(t.last())) =~= seq![t]);
        assert(words(t) =~= seq![t]);
    }
}

/// Every word is non-empty and free of whitespace.
proof fn lemma_words_clean(s: Seq<char>)
    ensures
        forall|i: int| 0 <= i < words(s).len() ==> #[trigger] words(s)[i].len() > 0,
        forall|i: int, j: int|
            0 <= i < words(s).len() && 0 <= j < words(s)[i].len() ==> !is_ws(
                #[trigger] words(s)[i][j],
            ),
    decreases s.len(),
{
    if s.len() > 0 {
        let d = s.drop_last();
        lemma_words_clean(d);
        let c = s.last();
        let w = words(d);
        if is_ws(c) {
        } else if s.len() >= 2 && !is_ws(s[s.len() - 2]) {
            assert(d.last() == s[s.len() - 2]);
            lemma_words_nonempty(d);
            let nw = w.update(w.len() - 1, w.last().push(c));
            assert(words(s) == nw);
            assert forall|i: int| 0 <= i < nw.len() implies #[trigger] nw[i].len() > 0 by {
                if i < w.len() - 1 {
                    assert(nw[i] == w[i]);
                }
            }
            assert forall|i: int, j: int| 0 <= i < nw.len() && 0 <= j < nw[i].len() implies !is_ws(
                #[trigger] nw[i][j],
            ) by {
                if i < w.len() - 1 {
                    assert(nw[i] == w[i]);
                } else if j < w.last().len() {
                    assert(nw[i][j] == w[w.len() - 1][j]);
                } else {
                    assert(nw[i][j] == c);
                }
            }
        } else {
            let nw = w.push(seq![c]);
            assert(words(s) == nw);
            assert forall|i: int| 0 <= i < nw.len() implies #[trigger] nw[i].len() > 0 by {
                if i < w.len() {
                    assert(nw[i] == w[i]);
                }
            }
            assert forall|i: int, j: int| 0 <= i < nw.len() && 0 <= j < nw[i].len() implies !is_ws(
                #[trigger] nw[i][j],
            ) by {
                if i < w.len() {
                    assert(nw[i] == w[i]);
                } else {
                    assert(nw[i][j] == c);
                }
            }
        }
    }
}

/// Joined non-empty words start with the first word's first character and
/// end with the last word's last character.
proof fn lemma_join_ends(ws: Seq<Seq<char>>)
    requires
        ws.len() > 0,
        forall|i: int| 0 <= i < ws.len() ==> #[trigger] ws[i].len() > 0,
    ensures
        join_with_space(ws).len() > 0,
        join_with_space(ws)[0] == ws[0][0],
        join_with_space(ws).last() == ws.last().last(),
    decreases ws.len(),
{
    if ws.len() > 1 {
        let d = ws.drop_last();
        assert forall|i: int| 0 <= i < d.len() implies #[trigger] d[i].len() > 0 by {
            assert(d[i] == ws[i]);
        }
        lemma_join_ends(d);
        assert(d[0] == ws[0]);
        assert(ws.last().len() > 0);
    }
}

/// Collapsed text has no whitespace at either end.
pub proof fn lemma_collapse_trimmed(s: Seq<char>)
    ensures
        collapse_ws(s).len() == 0 <==> words(s).len() == 0,
        collapse_ws(s).len() > 0 ==> !is_ws(collapse_ws(s)[0]) && !is_ws(collapse_ws(s).last()),
{
    lemma_words_clean(s);
    let ws = words(s);
    if ws.len() > 0 {
        lemma_join_ends(ws);
        assert(ws[0].len() > 0);
        assert(!is_ws(ws[0][0]));
        assert(ws[ws.len() - 1].len() > 0);
        assert(!is_ws(ws[ws.len() - 1][ws[ws.len() - 1].len() - 1]));
    }
}

/// Joining one more word adds a space and the word.
pub proof fn lemma_join_with_space_push(ws: Seq<Seq<char>>, x: Seq<char>)
    ensures
        join_with_space(ws.push(x)) == if ws.len() == 0 {
            x
        } else {
            join_with_space(ws) + seq![' '] + x
        },
{
    lemma_join_push(ws, x);
}

/// `s` with runs of whitespace collapsed to single spaces and trimmed.
pub fn collapse_whitespace(s: &Vec<char>) -> (r: Vec<char>)
    ensures
        r@ == collapse_ws(s@),
{
    let mut out: Vec<char> = Vec::new();
    let mut i: usize = 0;
    let mut after_ws = true;
    let mut seen_word = false;
    while i < s.len()
        invariant
            i <= s.len(),
            out@ == collapse_ws(s@.take(i as int)),
            after_ws == (i == 0 || is_ws(s@[i - 1])),
            !after_ws ==> words(s@.take(i as int)).len() > 0,
            seen_word == (words(s@.take(i as int)).len() > 0),
        decreases s.len() - i,
    {
        let c = s[i];
        let ghost pre = s@.take(i as int);
        let ghost next = s@.take(i + 1);
        assert(next.drop_last() =~= pre);
        assert(next.last() == c);
        if is_whitespace(c) {
            after_ws = true;
        } else {
            proof {
                if i >= 1 {
                    assert(next[next.len() - 2] == s@[i - 1]);
                }
            }
            if after_ws {
                proof {
                    lemma_join_push(words(pre), seq![c]);
                }
                if seen_word {
                    out.push(' ');
                }
                out.push(c);
                proof {
                    if words(pre).len() == 0 {
                        assert(out@ =~= seq![c]);
                    } else {
                        assert(out@ =~= join_with_space(words(pre)) + seq![' '] + seq![c]);
                    }
                }
            } else {
                proof {
                    lemma_join_extend_last(words(pre), c);
                }
                out.push(c);
            }
            after_ws = false;
            seen_word = true;
        }
        i = i + 1;
    }
    assert(s@.take(s.len() as int) =~= s@);
    out
}

// ---------------------------------------------------------------------------
// Trimming, suffixes, substrings
// ---------------------------------------------------------------------------

/// `s` without its leading whitespace.
pub open spec fn trim_start_ws(s: Seq<char>) -> Seq<char>
    decreases s.len(),
{
    if s.len() > 0 && is_ws(s[0]) {
        trim_start_ws(s.drop_first())
    } else {
        s
    }
}

/// `s` without its trailing whitespace.
pub open spec fn trim_end_ws(s: Seq<char>) -> Seq<char>
    decreases s.len(),
{
    if s.len() > 0 && is_ws(s.last()) {
        trim_end_ws(s.drop_last())
    } else {
        s
    }
}

/// `s` without leading and trailing whitespace.
pub open spec fn trim_ws(s: Seq<char>) -> Seq<char> {
    trim_end_ws(trim_start_ws(s))
}

/// `s` without leading and trailing whitespace.
pub fn trim(s: &Vec<char>) -> (r: Vec<char>)
    ensures
        r@ == trim_ws(s@),
{
    let n = s.len();
    let mut lo: usize = 0;
    assert(s@.subrange(0, n as int) =~= s@);
    while lo < n && is_whitespace(s[lo])
        invariant
            lo <= n,
            n == s@.len(),
            trim_start_ws(s@) == trim_start_ws(s@.subrange(lo as int, n as int)),
        decreases n - lo,
    {
        assert(s@.subrange(lo as int, n as int).drop_first() =~= s@.subrange(lo + 1, n as int));
        lo = lo + 1;
    }
    assert(trim_start_ws(s@) == s@.subrange(lo as int, n as int));
    let mut hi: usize = n;
    while hi > lo && is_whitespace(s[hi - 1])
        invariant
            lo <= hi <= n,
            n == s@.len(),
            trim_ws(s@) == trim_end_ws(s@.subrange(lo as int, hi as int)),
        decreases hi,
    {
        assert(s@.subrange(lo as int, hi as int).drop_last() =~= s@.subrange(lo as int, hi - 1));
        hi = hi - 1;
    }
    let mut r: Vec<char> = Vec::new();
    let mut k: usize = lo;
    while k < hi
        invariant
            lo <= k <= hi <= n,
            n == s@.len(),
            r@ == s@.subrange(lo as int, k as int),
        decreases hi - k,
    {
        r.push(s[k]);
        assert(r@ =~= s@.subrange(lo as int, k + 1));
        k = k + 1;
    }
    r
}

/// Whether `s` ends with `suffix`.
pub open spec fn ends_with(s: Seq<char>, suffix: Seq<char>) -> bool {
    suffix.len() <= s.len() && s.subrange(s.len() - suffix.len(), s.len() as int) == suffix
}

/// `s` with `suffix` removed from its end, if it ends with it.
pub open spec fn strip_suffix_spec(s: Seq<char>, suffix: Seq<char>) -> Option<Seq<char>> {
    if ends_with(s, suffix) {
        Some(s.subrange(0, s.len() - suffix.len()))
    } else {
        None
    }
}

/// `s` with `prefix` removed from its start, if it starts with it.
pub open spec fn strip_prefix_spec(s: Seq<char>, prefix: Seq<char>) -> Option<Seq<char>> {
    if prefix.len() <= s.len() && s.subrange(0, prefix.len() as int) == prefix {
        Some(s.subrange(prefix.len() as int, s.len() as int))
    } else {
        None
    }
}

/// `s` with `prefix` removed from its start, if it starts with it.
pub fn strip_prefix(s: &str, prefix: &str) -> (r: Option<String>)
    ensures
        match r {
            Some(v) => strip_prefix_spec(s@, prefix@) == Some(v@),
            None => strip_prefix_spec(s@, prefix@) is None,
        },
{
    let cs = chars_of(s);
    let ps = chars_of(prefix);
    if !matches_at(&cs, &ps, 0) {
        return None;
    }
    let mut r: Vec<char> = Vec::new();
    let mut k: usize = ps.len();
    while k < cs.len()
        invariant
            ps.len() <= k <= cs.len(),
            r@ == cs@.subrange(ps.len() as int, k as int),
        decreases cs.len() - k,
    {
        r.push(cs[k]);
        assert(r@ =~= cs@.subrange(ps.len() as int, k + 1));
        k = k + 1;
    }
    Some(string_of(&r))
}

/// Whether `p` occurs in `s` starting at index `i`.
pub open spec fn occurs_at(s: Seq<char>, p: Seq<char>, i: int) -> bool {
    0 <= i && i + p.len() <= s.len() && s.subrange(i, i + p.len()) == p
}

/// Whether `p` occurs anywhere in `s`.
pub open spec fn has_substring(s: Seq<char>, p: Seq<char>) -> bool {
    exists|i: int| occurs_at(s, p, i)
}

/// Whether `p` occurs in `s` at index `i`.
pub fn matches_at(s: &Vec<char>, p: &Vec<char>, i: usize) -> (r: bool)
    ensures
        r == occurs_at(s@, p@, i as int),
{
    if i > s.len() || p.len() > s.len() - i {
        return false;
    }
    let mut k: usize = 0;
    while k < p.len()
        invariant
            k <= p.len(),
            i + p.len() <= s.len(),
            forall|j: int| 0 <= j < k ==> s@[i + j] == p@[j],
        decreases p.len() - k,
    {
        if s[i + k] != p[k] {
            assert(s@.subrange(i as int, i + p.len())[k as int] != p@[k as int]);
            return false;
        }
        k = k + 1;
    }
    assert(s@.subrange(i as int, i + p.len()) =~= p@);
    true
}

/// `s` with `suffix` removed from its end, if it ends with it.
pub fn strip_suffix(s: &Vec<char>, suffix: &Vec<char>) -> (r: Option<Vec<char>>)
    ensures
        match r {
            Some(v) => strip_suffix_spec(s@, suffix@) == Some(v@),
            None => strip_suffix_spec(s@, suffix@) is None,
        },
{
    if suffix.len() > s.len() {
        return None;
    }
    let start = s.len() - suffix.len();
    if !matches_at(s, suffix, start) {
        return None;
    }
    let mut r: Vec<char> = Vec::new();
    let mut k: usize = 0;
    while k < start
        invariant
            k <= start <= s.len(),
            r@ == s@.subrange(0, k as int),
        decreases start - k,
    {
        r.push(s[k]);
        assert(r@ =~= s@.subrange(0, k + 1));
        k = k + 1;
    }
    Some(r)
}

/// Whether `p` occurs anywhere in `s`.
pub fn contains(s: &Vec<char>, p: &Vec<char>) -> (r: bool)
    ensures
        r == has_substring(s@, p@),
{
    let mut i: usize = 0;
    loop
        invariant
            i <= s.len(),
            forall|j: int| 0 <= j < i ==> !occurs_at(s@, p@, j),
        ensures
            forall|j: int| 0 <= j <= s.len() ==> !occurs_at(s@, p@, j),
        decreases s.len() - i,
    {
        if matches_at(s, p, i) {
            return true;
        }
        if i == s.len() {
            break;
        }
        i = i + 1;
    }
    assert forall|j: int| !occurs_at(s@, p@, j) by {
        if 0 <= j && j + p@.len() <= s@.len() {
            assert(j <= s.len());
        }
    }
    false
}

// ---------------------------------------------------------------------------
// Case
// ---------------------------------------------------------------------------

/// What `str::to_lowercase` returns for a string (full Unicode lower-case
/// mapping, context-sensitive for final sigma).
pub uninterp spec fn lowercase(s: Seq<char>) -> Seq<char>;

/// Every character is ASCII (below 128).
pub open spec fn is_ascii_text(s: Seq<char>) -> bool {
    forall|i: int| 0 <= i < s.len() ==> (#[trigger] s[i] as u32) < 128
}

/// ASCII lower-case of every character.
pub open spec fn ascii_lowercase(s: Seq<char>) -> Seq<char> {
    s.map_values(|c: char| ascii_lower(c))
}

/// The lower-case form of a text: for ASCII text, `A`-`Z` become `a`-`z`
/// and nothing else changes; other text by the full Unicode mapping.
pub open spec fn lower_text(s: Seq<char>) -> Seq<char> {
    if is_ascii_text(s) {
        ascii_lowercase(s)
    } else {
        lowercase(s)
    }
}

/// `str::to_lowercase`: the Unicode lower-case form of `s`; the result is
/// named `lowercase` of the characters of `s`. For ASCII text the Unicode
/// lower-case mapping is the ASCII one (`A`-`Z` to `a`-`z`, every other
/// character unchanged), and the result says so; for other text nothing
/// beyond the name is claimed.
#[verifier::external_body]
pub(crate) fn to_lowercase(s: &str) -> (r: String)
    ensures
        r@ == lowercase(s@),
        is_ascii_text(s@) ==> r@ == ascii_lowercase(s@),
{
    s.to_lowercase()
}

/// ASCII lower-case of one character; other characters are unchanged.
pub open spec fn ascii_lower(c: char) -> char {
    if 'A' <= c && c <= 'Z' {
        ((c as u32) + 32) as char
    } else {
        c
    }
}

/// Equality of `a` and `b` up to ASCII case.
pub open spec fn eq_ignore_ascii_case_spec(a: Seq<char>, b: Seq<char>) -> bool {
    a.len() == b.len() && forall|i: int| 0 <= i < a.len() ==> ascii_lower(a[i]) == ascii_lower(b[i])
}

fn ascii_lower_exec(c: char) -> (r: char)
    ensures
        r == ascii_lower(c),
{
    if 'A' <= c && c <= 'Z' {
        let u = (c as u32) + 32;
        assert(0x61 <= u <= 0x7A);
        char_from_ascii_code(u)
    } else {
        c
    }
}

fn char_from_ascii_code(u: u32) -> (c: char)
    requires
        0x61 <= u <= 0x7A,
    ensures
        c == u as char,
{
    let b = u as u8;
    b as char
}

/// Equality of `a` and `b` up to ASCII case.
pub fn eq_ignore_ascii_case(a: &str, b: &str) -> (r: bool)
    ensures
        r == eq_ignore_ascii_case_spec(a@, b@),
{
    let x = chars_of(a);
    let y = chars_of(b);
    if x.len() != y.len() {
        return false;
    }
    let mut i: usize = 0;
    while i < x.len()
        invariant
            i <= x.len(),
            x.len() == y.len(),
            x@ == a@,
            y@ == b@,
            forall|j: int| 0 <= j < i ==> ascii_lower(x@[j]) == ascii_lower(y@[j]),
        decreases x.len() - i,
    {
        if ascii_lower_exec(x[i]) != ascii_lower_exec(y[i]) {
            return false;
        }
        i = i + 1;
    }
    true
}

// ---------------------------------------------------------------------------
// Ordering of strings (by code point, as `str`'s `Ord` orders them)
// ---------------------------------------------------------------------------

/// Lexicographic "less than" by code point.
pub open spec fn seq_lt(a: Seq<char>, b: Seq<char>) -> bool
    decreases a.len(),
{
    if a.len() == 0 {
        b.len() > 0
    } else if b.len() == 0 {
        false
    } else if a[0] != b[0] {
        (a[0] as int) < (b[0] as int)
    } else {
        seq_lt(a.drop_first(), b.drop_first())
    }
}

/// Strictly increasing by code point.
pub open spec fn strictly_sorted(s: Seq<Seq<char>>) -> bool {
    forall|i: int, j: int| 0 <= i < j < s.len() ==> seq_lt(s[i], s[j])
}

/// Lexicographic "less than or equal" by code point.
pub open spec fn seq_le(a: Seq<char>, b: Seq<char>) -> bool {
    a == b || seq_lt(a, b)
}

/// `seq_lt` is irreflexive.
pub proof fn lemma_seq_lt_irreflexive(a: Seq<char>)
    ensures
        !seq_lt(a, a),
    decreases a.len(),
{
    if a.len() > 0 {
        lemma_seq_lt_irreflexive(a.drop_first());
    }
}

/// `seq_lt` is transitive.
pub proof fn lemma_seq_lt_transitive(a: Seq<char>, b: Seq<char>, c: Seq<char>)
    requires
        seq_lt(a, b),
        seq_lt(b, c),
    ensures
        seq_lt(a, c),
    decreases a.len(),
{
    if a.len() > 0 && b.len() > 0 && c.len() > 0 {
        if a[0] == b[0] && b[0] == c[0] {
            lemma_seq_lt_transitive(a.drop_first(), b.drop_first(), c.drop_first());
        }
    }
}

/// Two sequences are equal or ordered one way or the other, but not both.
pub proof fn lemma_seq_lt_total(a: Seq<char>, b: Seq<char>)
    ensures
        a == b || seq_lt(a, b) || seq_lt(b, a),
        !(seq_lt(a, b) && seq_lt(b, a)),
    decreases a.len(),
{
    if a.len() > 0 && b.len() > 0 {
        lemma_seq_lt_total(a.drop_first(), b.drop_first());
        if a[0] == b[0] {
            if a.drop_first() == b.drop_first() {
                assert(a =~= seq![a[0]] + a.drop_first());
                assert(b =~= seq![b[0]] + b.drop_first());
            }
        }
    } else if a.len() == 0 && b.len() == 0 {
        assert(a =~= b);
    }
}

/// Result of a three-way comparison.
#[derive(Clone, Copy, Debug, PartialEq, Eq, Structural)]
pub enum Order {
    Less,
    Equal,
    Greater,
}

/// Compares `a` and `b` lexicographically by code point.
pub fn compare_chars(a: &Vec<char>, b: &Vec<char>) -> (r: Order)
    ensures
        r == Order::Less <==> seq_lt(a@, b@),
        r == Order::Equal <==> a@ == b@,
        r == Order::Greater <==> seq_lt(b@, a@),
{
    proof {
        lemma_seq_lt_total(a@, b@);
        lemma_seq_lt_irreflexive(a@);
    }
    let mut i: usize = 0;
    assert(a@.subrange(0, a.len() as int) =~= a@);
    assert(b@.subrange(0, b.len() as int) =~= b@);
    assert(a@.subrange(0, 0) =~= b@.subrange(0, 0));
    while i < a.len() && i < b.len()
        invariant
            i <= a.len(),
            i <= b.len(),
            a@.subrange(0, i as int) == b@.subrange(0, i as int),
            seq_lt(a@, b@) == seq_lt(a@.subrange(i as int, a.len() as int), b@.subrange(i as int, b.len() as int)),
            seq_lt(b@, a@) == seq_lt(b@.subrange(i as int, b.len() as int), a@.subrange(i as int, a.len() as int)),
        decreases a.len() - i,
    {
        if a[i] != b[i] {
            assert(a@.subrange(i as int, a.len() as int)[0] == a@[i as int]);
            assert(b@.subrange(i as int, b.len() as int)[0] == b@[i as int]);
            if a[i] < b[i] {
                return Order::Less;
            } else {
                return Order::Greater;
            }
        }
        assert(a@.subrange(i as int, a.len() as int).drop_first() =~= a@.subrange(i + 1, a.len() as int));
        assert(b@.subrange(i as int, b.len() as int).drop_first() =~= b@.subrange(i + 1, b.len() as int));
        assert(a@.subrange(0, i + 1) =~= a@.subrange(0, i as int).push(a@[i as int]));
        assert(b@.subrange(0, i + 1) =~= b@.subrange(0, i as int).push(b@[i as int]));
        i = i + 1;
    }
    if a.len() == b.len() {
        assert(a@ =~= a@.subrange(0, i as int));
        assert(b@ =~= b@.subrange(0, i as int));
        Order::Equal
    } else if a.len() < b.len() {
        Order::Less
    } else {
        Order::Greater
    }
}

/// Compares two strings lexicographically by code point.
pub fn compare_str(a: &str, b: &str) -> (r: Order)
    ensures
        r == Order::Less <==> seq_lt(a@, b@),
        r == Order::Equal <==> a@ == b@,
        r == Order::Greater <==> seq_lt(b@, a@),
{
    let x = chars_of(a);
    let y = chars_of(b);
    compare_chars(&x, &y)
}

/// Whether two strings hold the same characters.
pub fn str_eq(a: &str, b: &str) -> (r: bool)
    ensures
        r == (a@ == b@),
{
    let x = chars_of(a);
    let y = chars_of(b);
    if x.len() != y.len() {
        return false;
    }
    let mut i: usize = 0;
    while i < x.len()
        invariant
            i <= x.len(),
            x.len() == y.len(),
            x@ == a@,
            y@ == b@,
            forall|j: int| 0 <= j < i ==> x@[j] == y@[j],
        decreases x.len() - i,
    {
        if x[i] != y[i] {
            assert(a@[i as int] != b@[i as int]);
            return false;
        }
        i = i + 1;
    }
    assert(x@ =~= y@);
    true
}

// ---------------------------------------------------------------------------
// Numbers
// ---------------------------------------------------------------------------

/// The lower-case hexadecimal digit for `d` (`0 <= d < 16`).
pub open spec fn hex_digit(d: int) -> char {
    if d == 0 { '0' } else if d == 1 { '1' } else if d == 2 { '2' } else if d == 3 { '3' }
    else if d == 4 { '4' } else if d == 5 { '5' } else if d == 6 { '6' } else if d == 7 { '7' }
    else if d == 8 { '8' } else if d == 9 { '9' } else if d == 10 { 'a' } else if d == 11 { 'b' }
    else if d == 12 { 'c' } else if d == 13 { 'd' } else if d == 14 { 'e' } else { 'f' }
}

fn hex_digit_exec(d: u64) -> (c: char)
    requires
        d < 16,
    ensures
        c == hex_digit(d as int),
{
    if d == 0 { '0' } else if d == 1 { '1' } else if d == 2 { '2' } else if d == 3 { '3' }
    else if d == 4 { '4' } else if d == 5 { '5' } else if d == 6 { '6' } else if d == 7 { '7' }
    else if d == 8 { '8' } else if d == 9 { '9' } else if d == 10 { 'a' } else if d == 11 { 'b' }
    else if d == 12 { 'c' } else if d == 13 { 'd' } else if d == 14 { 'e' } else { 'f' }
}

/// The decimal digits of `n`, most significant first, without leading zeros.
pub open spec fn decimal(n: nat) -> Seq<char>
    decreases n,
{
    if n < 10 {
        seq![hex_digit(n as int)]
    } else {
        decimal(n / 10).push(hex_digit((n % 10) as int))
    }
}

/// Appends the decimal digits of `n` to `out`.
pub fn push_decimal(out: &mut Vec<char>, n: u64)
    ensures
        final(out)@ == old(out)@ + decimal(n as nat),
    decreases n,
{
    if n >= 10 {
        push_decimal(out, n / 10);
    }
    out.push(hex_digit_exec(n % 10));
    proof {
        if n >= 10 {
            assert(decimal(n as nat) == decimal((n / 10) as nat).push(hex_digit((n % 10) as int)));
        }
    }
    assert(out@ =~= old(out)@ + decimal(n as nat));
}

/// `n` as exactly four lower-case hexadecimal digits, zero-padded
/// (`n` is at most `0xffff`, so four digits always suffice).
pub open spec fn hex4(n: u16) -> Seq<char> {
    seq![
        hex_digit((n as int / 4096) % 16),
        hex_digit((n as int / 256) % 16),
        hex_digit((n as int / 16) % 16),
        hex_digit(n as int % 16),
    ]
}

/// `n` as exactly four lower-case hexadecimal digits.
pub fn format_hex4(n: u16) -> (s: String)
    ensures
        s@ == hex4(n),
{
    let v = n as u64;
    let mut out: Vec<char> = Vec::new();
    out.push(hex_digit_exec((v / 4096) % 16));
    out.push(hex_digit_exec((v / 256) % 16));
    out.push(hex_digit_exec((v / 16) % 16));
    out.push(hex_digit_exec(v % 16));
    assert(out@ =~= hex4(n));
    string_of(&out)
}

/// Whether `c` is an ASCII decimal digit.
pub open spec fn is_digit(c: char) -> bool {
    '0' <= c && c <= '9'
}

/// The value of a sequence of decimal digits (0 for the empty sequence).
pub open spec fn digits_value(s: Seq<char>) -> nat
    decreases s.len(),
{
    if s.len() == 0 {
        0
    } else {
        digits_value(s.drop_last()) * 10 + ((s.last() as u32) - 48) as nat
    }
}

/// What `str::parse` for an unsigned integer type of maximum `max` gives:
/// an optional `+`, then at least one decimal digit and nothing else, with a
/// value not above `max`.
pub open spec fn parse_unsigned(s: Seq<char>, max: nat) -> Option<nat> {
    let d = unsigned_digits(s);
    if d.len() > 0 && all_digits(d) && digits_value(d) <= max {
        Some(digits_value(d))
    } else {
        None
    }
}

/// `s` without one leading `+`, if it has one.
pub open spec fn unsigned_digits(s: Seq<char>) -> Seq<char> {
    if s.len() > 0 && s[0] == '+' {
        s.drop_first()
    } else {
        s
    }
}

/// Whether every character of `d` is a decimal digit.
pub open spec fn all_digits(d: Seq<char>) -> bool {
    forall|i: int| 0 <= i < d.len() ==> is_digit(d[i])
}

proof fn lemma_digits_value_prefix_le(s: Seq<char>, k: int)
    requires
        0 <= k <= s.len(),
        all_digits(s),
    ensures
        digits_value(s.take(k)) <= digits_value(s),
    decreases s.len() - k,
{
    if k < s.len() {
        lemma_digits_value_prefix_le(s, k + 1);
        assert(s.take(k + 1).drop_last() =~= s.take(k));
    } else {
        assert(s.take(k) =~= s);
    }
}

/// Parses `s` as an unsigned decimal number not above `max`, as
/// `str::parse` does for `u64` (with `max == u64::MAX`) and `u8`
/// (with `max == 255`).
pub fn parse_decimal(s: &str, max: u64) -> (r: Option<u64>)
    ensures
        match r {
            Some(v) => parse_unsigned(s@, max as nat) == Some(v as nat),
            None => parse_unsigned(s@, max as nat) is None,
        },
{
    let cs = chars_of(s);
    let mut start: usize = 0;
    if cs.len() > 0 && cs[0] == '+' {
        start = 1;
    }
    let ghost d = unsigned_digits(s@);
    assert(d =~= cs@.subrange(start as int, cs.len() as int));
    if start == cs.len() {
        return None;
    }
    let mut value: u64 = 0;
    let mut i: usize = start;
    while i < cs.len()
        invariant
            start <= i <= cs.len(),
            cs@ == s@,
            d == cs@.subrange(start as int, cs.len() as int),
            d == unsigned_digits(s@),
            forall|j: int| 0 <= j < i - start ==> is_digit(d[j]),
            value as nat == digits_value(d.take(i - start)),
            value <= max,
        decreases cs.len() - i,
    {
        let c = cs[i];
        let ghost k = i - start;
        assert(d[k] == c);
        if !('0' <= c && c <= '9') {
            assert(!is_digit(d[k]));
            assert(!all_digits(d));
            return None;
        }
        let digit = (c as u32 - 48) as u64;
        assert(d.take(k + 1).drop_last() =~= d.take(k));
        assert(d.take(k + 1).last() == c);
        if digit > max || value > (max - digit) / 10 {
            proof {
                assert(digits_value(d.take(k + 1)) == value * 10 + digit);
                if digit <= max {
                    assert(value * 10 + digit > max) by (nonlinear_arith)
                        requires
                            value > (max - digit) / 10,
                            digit <= max,
                    ;
                }
                if all_digits(d) {
                    lemma_digits_value_prefix_le(d, k + 1);
                    assert(digits_value(d) > max);
                }
                assert(parse_unsigned(s@, max as nat) is None);
            }
            return None;
        }
        assert(value * 10 + digit <= max) by (nonlinear_arith)
            requires
                value <= (max - digit) / 10,
                digit <= max,
        ;
        assert(digits_value(d.take(k + 1)) == value * 10 + digit);
        value = value * 10 + digit;
        i = i + 1;
    }
    assert(d.take(d.len() as int) =~= d);
    Some(value)
}

} // verus!
