//! Text normalization: ASCII punctuation is removed, whitespace runs are
//! collapsed to one space, and the result is lowercased.

use vstd::prelude::*;

verus! {

/// The ASCII punctuation characters: `!` to `/`, `:` to `@`, `[` to `` ` `` and `{` to `~`.
pub open spec fn is_punct(c: char) -> bool {
    let u = c as int;
    (33 <= u <= 47) || (58 <= u <= 64) || (91 <= u <= 96) || (123 <= u <= 126)
}

/// The characters with the Unicode `White_Space` property.
pub open spec fn is_space(c: char) -> bool {
    let u = c as int;
    (9 <= u <= 13) || u == 32 || u == 0x85 || u == 0xa0 || u == 0x1680 || (0x2000 <= u <= 0x200a)
        || u == 0x2028 || u == 0x2029 || u == 0x202f || u == 0x205f || u == 0x3000
}

/// `A` to `Z`.
pub open spec fn is_ascii_upper(c: char) -> bool {
    65 <= c as int <= 90
}

/// `A`..`Z` mapped to `a`..`z`; every other character kept.
pub open spec fn ascii_lower_char(c: char) -> char {
    if is_ascii_upper(c) {
        ((c as int) + 32) as char
    } else {
        c
    }
}

/// Each character mapped by `ascii_lower_char`.
pub open spec fn ascii_lower(s: Seq<char>) -> Seq<char> {
    s.map_values(|c: char| ascii_lower_char(c))
}

/// Every character is ASCII.
pub open spec fn all_ascii(s: Seq<char>) -> bool {
    forall|i: int| 0 <= i < s.len() ==> (s[i] as int) < 128
}

/// What `str::to_lowercase` makes of a string (full Unicode case mapping).
pub uninterp spec fn lower_of(s: Seq<char>) -> Seq<char>;

/// Relies on `char::is_whitespace`: true exactly on the Unicode `White_Space` characters.
pub assume_specification[ char::is_whitespace ](c: char) -> (r: bool)
    ensures
        r == is_space(c),
;

/// Relies on `char::is_ascii_punctuation`: true exactly on the ASCII punctuation characters.
pub assume_specification[ char::is_ascii_punctuation ](c: &char) -> (r: bool)
    ensures
        r == is_punct(*c),
;

/// Relies on `String::push`: appends one character.
pub assume_specification[ std::string::String::push ](s: &mut std::string::String, ch: char)
    ensures
        final(s)@ == old(s)@.push(ch),
;

/// Relies on `str::to_lowercase`: the lowercase mapping of the characters, which
/// on ASCII text maps `A`..`Z` to `a`..`z` and keeps every other character.
#[verifier::external_body]
pub(crate) fn lowercase(s: &str) -> (r: String)
    ensures
        r@ == lower_of(s@),
        all_ascii(s@) ==> r@ == ascii_lower(s@),
{
    s.to_lowercase()
}

/// The characters of `s` in order.
pub fn chars_of(s: &str) -> (r: Vec<char>)
    ensures
        r@ == s@,
{
    let mut r: Vec<char> = Vec::new();
    for c in it: s.chars()
        invariant
            r@ == it.seq().subrange(0, it.index() as int),
    {
        r.push(c);
    }
    r
}


/// `s` without its ASCII punctuation.
pub open spec fn strip_punct(s: Seq<char>) -> Seq<char>
    decreases s.len(),
{
    if s.len() == 0 {
        Seq::empty()
    } else {
        let r = strip_punct(s.drop_last());
        if is_punct(s.last()) {
            r
        } else {
            r.push(s.last())
        }
    }
}

/// Scanning `s` from the left: the words already closed by whitespace, and the
/// word being read.
pub open spec fn split_state(s: Seq<char>) -> (Seq<Seq<char>>, Seq<char>)
    decreases s.len(),
{
    if s.len() == 0 {
        (Seq::empty(), Seq::empty())
    } else {
        let (ws, cur) = split_state(s.drop_last());
        let c = s.last();
        if is_space(c) {
            if cur.len() > 0 {
                (ws.push(cur), Seq::empty())
            } else {
                (ws, Seq::empty())
            }
        } else {
            (ws, cur.push(c))
        }
    }
}

/// The maximal runs of non-whitespace characters of `s`, in order.
pub open spec fn split_words(s: Seq<char>) -> Seq<Seq<char>> {
    let (ws, cur) = split_state(s);
    if cur.len() > 0 {
        ws.push(cur)
    } else {
        ws
    }
}

/// The words joined with one space between each two.
pub open spec fn join_words(ws: Seq<Seq<char>>) -> Seq<char>
    decreases ws.len(),
{
    if ws.len() == 0 {
        Seq::empty()
    } else if ws.len() == 1 {
        ws[0]
    } else {
        join_words(ws.drop_last()) + seq![' '] + ws.last()
    }
}

/// Whitespace runs collapsed to one space, with none at either end.
pub open spec fn collapse(s: Seq<char>) -> Seq<char> {
    join_words(split_words(s))
}

/// The lowercase form of a text: on ASCII text `A`..`Z` become `a`..`z`.
pub open spec fn lower(s: Seq<char>) -> Seq<char> {
    if all_ascii(s) {
        ascii_lower(s)
    } else {
        lower_of(s)
    }
}

/// The normal form of a text: punctuation removed, whitespace collapsed, lowercased.
pub open spec fn normalize(s: Seq<char>) -> Seq<char> {
    lower(collapse(strip_punct(s)))
}

proof fn lemma_join_push(ws: Seq<Seq<char>>, w: Seq<char>)
    ensures
        join_words(ws.push(w)) == if ws.len() == 0 {
            w
        } else {
            join_words(ws) + seq![' '] + w
        },
{
    assert(ws.push(w).drop_last() =~= ws);
}

/// Removes ASCII punctuation, collapses whitespace runs to one space and lowercases.
pub fn normalize_string(input: &str) -> (r: String)
    ensures
        r@ == normalize(input@),
{
    let cs = chars_of(input);
    let mut out = String::new();
    let mut in_word = false;
    let mut any = false;
    let mut i: usize = 0;
    while i < cs.len()
        invariant
            0 <= i <= cs.len(),
            cs@ == input@,
            out@ == collapse(strip_punct(cs@.subrange(0, i as int))),
            in_word == (split_state(strip_punct(cs@.subrange(0, i as int))).1.len() > 0),
            any == (split_words(strip_punct(cs@.subrange(0, i as int))).len() > 0),
        decreases cs.len() - i,
    {
        let c = cs[i];
        let ghost pre = cs@.subrange(0, i as int);
        let ghost next = cs@.subrange(0, i + 1);
        assert(next.drop_last() =~= pre);
        assert(next.last() == c);
        if c.is_ascii_punctuation() {
            assert(strip_punct(next) == strip_punct(pre));
        } else if c.is_whitespace() {
            let ghost sp = strip_punct(pre);
            assert(strip_punct(next) == sp.push(c));
            assert(sp.push(c).drop_last() =~= sp);
            assert(split_words(sp.push(c)) == split_words(sp));
            in_word = false;
        } else {
            let ghost sp = strip_punct(pre);
            let ghost ws = split_state(sp).0;
            let ghost cur = split_state(sp).1;
            assert(strip_punct(next) == sp.push(c));
            assert(sp.push(c).drop_last() =~= sp);
            if in_word {
                proof {
                    lemma_join_push(ws, cur);
                    lemma_join_push(ws, cur.push(c));
                    if ws.len() > 0 {
                        assert(join_words(ws) + seq![' '] + cur.push(c) =~= (join_words(ws)
                            + seq![' '] + cur).push(c));
                    }
                }
            } else {
                proof {
                    lemma_join_push(ws, seq![c]);
                    assert(cur.push(c) =~= seq![c]);
                }
                if any {
                    out.push(' ');
                }
                proof {
                    if ws.len() > 0 {
                        assert(join_words(ws) + seq![' '] + seq![c] =~= join_words(ws).push(
                            ' ',
                        ).push(c));
                    }
                }
            }
            out.push(c);
            in_word = true;
            any = true;
        }
        i = i + 1;
    }
    assert(cs@.subrange(0, cs.len() as int) =~= input@);
    let r = lowercase(out.as_str());
    assert(r@ == lower(out@));
    r
}


/// The views of a list of strings.
pub open spec fn views(v: Seq<String>) -> Seq<Seq<char>> {
    v.map_values(|w: String| w@)
}

/// The maximal runs of non-whitespace characters of `s`, in order.
pub fn split_whitespace(s: &str) -> (r: Vec<String>)
    ensures
        views(r@) == split_words(s@),
{
    let cs = chars_of(s);
    let mut words: Vec<String> = Vec::new();
    let mut cur = String::new();
    let mut i: usize = 0;
    while i < cs.len()
        invariant
            0 <= i <= cs.len(),
            cs@ == s@,
            views(words@) == split_state(cs@.subrange(0, i as int)).0,
            cur@ == split_state(cs@.subrange(0, i as int)).1,
        decreases cs.len() - i,
    {
        let c = cs[i];
        let ghost pre = cs@.subrange(0, i as int);
        assert(cs@.subrange(0, i + 1).drop_last() =~= pre);
        if c.is_whitespace() {
            if !cur.as_str().is_empty() {
                let w = cur;
                words.push(w);
                assert(views(words@) =~= split_state(pre).0.push(split_state(pre).1));
                cur = String::new();
            }
        } else {
            cur.push(c);
        }
        i = i + 1;
    }
    assert(cs@.subrange(0, cs.len() as int) =~= s@);
    if !cur.as_str().is_empty() {
        let ghost ws = views(words@);
        words.push(cur);
        assert(views(words@) =~= ws.push(split_state(s@).1));
    }
    words
}


/// No character of `s` is whitespace.
pub open spec fn spaceless(s: Seq<char>) -> bool {
    forall|i: int| 0 <= i < s.len() ==> !is_space(#[trigger] s[i])
}

/// Every character of `s` is ASCII and none is punctuation.
pub open spec fn plain_ascii(s: Seq<char>) -> bool {
    forall|i: int| 0 <= i < s.len() ==> (#[trigger] s[i] as int) < 128 && !is_punct(s[i])
}

/// Words that `join_words` can join and `split_words` can recover.
pub open spec fn good_words(ws: Seq<Seq<char>>) -> bool {
    forall|i: int| 0 <= i < ws.len() ==> (#[trigger] ws[i]).len() > 0 && spaceless(ws[i]) && plain_ascii(ws[i])
}

proof fn lemma_split_append_word(s: Seq<char>, w: Seq<char>)
    requires
        spaceless(w),
    ensures
        split_state(s + w) == (split_state(s).0, split_state(s).1 + w),
    decreases w.len(),
{
    if w.len() == 0 {
        assert(s + w =~= s);
        assert(split_state(s).1 + w =~= split_state(s).1);
    } else {
        let w0 = w.drop_last();
        lemma_split_append_word(s, w0);
        assert((s + w).drop_last() =~= s + w0);
        assert((s + w).last() == w.last());
        assert(!is_space(w[w.len() - 1]));
        assert(split_state(s).1 + w =~= (split_state(s).1 + w0).push(w.last()));
    }
}

proof fn lemma_split_join(ws: Seq<Seq<char>>)
    requires
        good_words(ws),
        ws.len() > 0,
    ensures
        split_state(join_words(ws)) == (ws.drop_last(), ws.last()),
    decreases ws.len(),
{
    if ws.len() == 1 {
        lemma_split_append_word(Seq::empty(), ws[0]);
        assert(Seq::<char>::empty() + ws[0] =~= ws[0]);
        assert(split_state(Seq::<char>::empty()) == (Seq::<Seq<char>>::empty(), Seq::<char>::empty()));
        assert(Seq::<char>::empty() + ws[0] =~= ws[0]);
        assert(ws.drop_last() =~= Seq::<Seq<char>>::empty());
    } else {
        let init = ws.drop_last();
        assert(good_words(init)) by {
            assert forall|i: int| 0 <= i < init.len() implies (#[trigger] init[i]).len() > 0
                && spaceless(init[i]) && plain_ascii(init[i]) by {
                assert(init[i] == ws[i]);
            }
        }
        lemma_split_join(init);
        let j = join_words(init);
        let js = j + seq![' '];
        assert(js.drop_last() =~= j);
        assert(js.last() == ' ');
        assert(is_space(' '));
        assert(init.last() == ws[ws.len() - 2]);
        assert(init.drop_last().push(init.last()) =~= init);
        assert(split_state(js) == (init, Seq::<char>::empty()));
        lemma_split_append_word(js, ws.last());
        assert(join_words(ws) == js + ws.last());
        assert(Seq::<char>::empty() + ws.last() =~= ws.last());
    }
}

proof fn lemma_split_join_words(ws: Seq<Seq<char>>)
    requires
        good_words(ws),
    ensures
        split_words(join_words(ws)) == ws,
{
    if ws.len() == 0 {
        assert(split_words(Seq::<char>::empty()) =~= ws);
    } else {
        lemma_split_join(ws);
        assert(ws.drop_last().push(ws.last()) =~= ws);
    }
}

proof fn lemma_state_words_good(s: Seq<char>)
    requires
        plain_ascii(s),
    ensures
        good_words(split_state(s).0),
        spaceless(split_state(s).1),
        plain_ascii(split_state(s).1),
    decreases s.len(),
{
    if s.len() > 0 {
        let p = s.drop_last();
        assert(plain_ascii(p)) by {
            assert forall|i: int| 0 <= i < p.len() implies (#[trigger] p[i] as int) < 128 && !is_punct(p[i]) by {
                assert(p[i] == s[i]);
            }
        }
        lemma_state_words_good(p);
        let (ws, cur) = split_state(p);
        let c = s.last();
        assert(c == s[s.len() - 1]);
        if is_space(c) {
            if cur.len() > 0 {
                let ws2 = ws.push(cur);
                assert forall|i: int| 0 <= i < ws2.len() implies (#[trigger] ws2[i]).len() > 0
                    && spaceless(ws2[i]) && plain_ascii(ws2[i]) by {
                    if i < ws.len() {
                        assert(ws2[i] == ws[i]);
                    }
                }
            }
        } else {
            let cur2 = cur.push(c);
            assert forall|i: int| 0 <= i < cur2.len() implies !is_space(#[trigger] cur2[i]) && (cur2[i] as int) < 128 && !is_punct(cur2[i]) by {
                if i < cur.len() {
                    assert(cur2[i] == cur[i]);
                }
            }
        }
    }
}

proof fn lemma_split_words_good(s: Seq<char>)
    requires
        plain_ascii(s),
    ensures
        good_words(split_words(s)),
{
    lemma_state_words_good(s);
    let (ws, cur) = split_state(s);
    if cur.len() > 0 {
        let ws2 = ws.push(cur);
        assert forall|i: int| 0 <= i < ws2.len() implies (#[trigger] ws2[i]).len() > 0 && spaceless(ws2[i]) && plain_ascii(ws2[i]) by {
            if i < ws.len() {
                assert(ws2[i] == ws[i]);
            }
        }
    }
}

proof fn lemma_strip_punct_plain(s: Seq<char>)
    requires
        all_ascii(s),
    ensures
        plain_ascii(strip_punct(s)),
    decreases s.len(),
{
    if s.len() > 0 {
        let p = s.drop_last();
        assert(all_ascii(p)) by {
            assert forall|i: int| 0 <= i < p.len() implies (p[i] as int) < 128 by {
                assert(p[i] == s[i]);
            }
        }
        lemma_strip_punct_plain(p);
        let r = strip_punct(p);
        if !is_punct(s.last()) {
            assert(s.last() == s[s.len() - 1]);
            let r2 = r.push(s.last());
            assert forall|i: int| 0 <= i < r2.len() implies (#[trigger] r2[i] as int) < 128 && !is_punct(r2[i]) by {
                if i < r.len() {
                    assert(r2[i] == r[i]);
                }
            }
        }
    }
}

proof fn lemma_strip_punct_id(s: Seq<char>)
    requires
        plain_ascii(s),
    ensures
        strip_punct(s) == s,
    decreases s.len(),
{
    if s.len() > 0 {
        let p = s.drop_last();
        assert(plain_ascii(p)) by {
            assert forall|i: int| 0 <= i < p.len() implies (#[trigger] p[i] as int) < 128 && !is_punct(p[i]) by {
                assert(p[i] == s[i]);
            }
        }
        lemma_strip_punct_id(p);
        assert(s.last() == s[s.len() - 1]);
        assert(p.push(s.last()) =~= s);
    }
}

proof fn lemma_join_plain(ws: Seq<Seq<char>>)
    requires
        good_words(ws),
    ensures
        plain_ascii(join_words(ws)),
    decreases ws.len(),
{
    if ws.len() == 1 {
        assert(ws[0].len() > 0);
    } else if ws.len() > 1 {
        let init = ws.drop_last();
        assert(good_words(init)) by {
            assert forall|i: int| 0 <= i < init.len() implies (#[trigger] init[i]).len() > 0
                && spaceless(init[i]) && plain_ascii(init[i]) by {
                assert(init[i] == ws[i]);
            }
        }
        lemma_join_plain(init);
        let j = join_words(init);
        let w = ws.last();
        assert(w == ws[ws.len() - 1]);
        let r = j + seq![' '] + w;
        assert forall|i: int| 0 <= i < r.len() implies (#[trigger] r[i] as int) < 128 && !is_punct(r[i]) by {
            if i < j.len() {
                assert(r[i] == j[i]);
            } else if i == j.len() {
                assert(r[i] == ' ');
            } else {
                assert(r[i] == w[i - j.len() - 1]);
            }
        }
    }
}

proof fn lemma_lower_words(ws: Seq<Seq<char>>)
    requires
        good_words(ws),
    ensures
        ascii_lower(join_words(ws)) == join_words(ws.map_values(|w: Seq<char>| ascii_lower(w))),
        good_words(ws.map_values(|w: Seq<char>| ascii_lower(w))),
    decreases ws.len(),
{
    let lw = ws.map_values(|w: Seq<char>| ascii_lower(w));
    assert forall|i: int| 0 <= i < lw.len() implies (#[trigger] lw[i]).len() > 0 && spaceless(lw[i]) && plain_ascii(lw[i]) by {
        assert(lw[i] == ascii_lower(ws[i]));
        assert forall|k: int| 0 <= k < lw[i].len() implies !is_space(#[trigger] lw[i][k]) && (lw[i][k] as int) < 128 && !is_punct(lw[i][k]) by {
            assert(lw[i][k] == ascii_lower_char(ws[i][k]));
        }
    }
    if ws.len() == 0 {
        assert(ascii_lower(Seq::<char>::empty()) =~= Seq::<char>::empty());
    } else if ws.len() == 1 {
        assert(lw.len() == 1);
    } else {
        let init = ws.drop_last();
        assert(good_words(init)) by {
            assert forall|i: int| 0 <= i < init.len() implies (#[trigger] init[i]).len() > 0
                && spaceless(init[i]) && plain_ascii(init[i]) by {
                assert(init[i] == ws[i]);
            }
        }
        lemma_lower_words(init);
        assert(lw.drop_last() =~= init.map_values(|w: Seq<char>| ascii_lower(w)));
        let j = join_words(init);
        assert(ascii_lower(j + seq![' '] + ws.last()) =~= ascii_lower(j) + seq![' '] + ascii_lower(ws.last()));
    }
}

proof fn lemma_lower_idem(s: Seq<char>)
    ensures
        ascii_lower(ascii_lower(s)) == ascii_lower(s),
        all_ascii(s) ==> all_ascii(ascii_lower(s)),
{
    assert(ascii_lower(ascii_lower(s)) =~= ascii_lower(s));
}

/// Normalizing ASCII text twice gives the same result as normalizing it once.
pub proof fn lemma_normalize_idempotent(x: Seq<char>)
    requires
        all_ascii(x),
    ensures
        normalize(normalize(x)) == normalize(x),
{
    let sp = strip_punct(x);
    lemma_strip_punct_plain(x);
    let ws = split_words(sp);
    lemma_split_words_good(sp);
    let j = join_words(ws);
    lemma_join_plain(ws);
    assert(all_ascii(j));
    let y = ascii_lower(j);
    assert(normalize(x) == y);
    lemma_lower_words(ws);
    let lw = ws.map_values(|w: Seq<char>| ascii_lower(w));
    lemma_join_plain(lw);
    assert(plain_ascii(y));
    lemma_strip_punct_id(y);
    lemma_split_join_words(lw);
    assert(collapse(strip_punct(y)) == y);
    lemma_lower_idem(j);
    assert(all_ascii(y));
}

} // verus!
