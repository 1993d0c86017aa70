//! A term dictionary kept in hash-sharded segment files: naming the segments,
//! the record format, merging term information and rewriting a segment.

use vstd::prelude::*;
use crate::ordmap::{seq_lt, sorted_keys, str_lt, OrdMap};
use crate::text::{ascii_lower, ascii_lower_char, chars_of, is_space, spaceless, views};
use crate::tokenizer::{kept_words, str_views, word_bounds_of, Tokenizer, DEFAULT_PUNCTUATION};
use crate::types::Stats;

verus! {

/// The lowercase hexadecimal digit of `n`, for `n < 16`.
pub open spec fn hex_digit(n: u8) -> char {
    if n < 10 {
        ((n as int) + 48) as char
    } else {
        ((n as int) + 87) as char
    }
}

/// Two lowercase hexadecimal digits for each byte, high nibble first.
pub open spec fn hex_of(b: Seq<u8>) -> Seq<char>
    decreases b.len(),
{
    if b.len() == 0 {
        Seq::empty()
    } else {
        hex_of(b.drop_last()) + seq![hex_digit(b.last() / 16), hex_digit(b.last() % 16)]
    }
}

/// The MD5 digest of a byte string.
pub uninterp spec fn md5_of(data: Seq<u8>) -> Seq<u8>;

/// Relies on `md5::compute` for the digest of the bytes, and on the digest's
/// `LowerHex` format, which writes each of its 16 bytes as two lowercase digits.
#[verifier::external_body]
fn md5_hex(data: &str) -> (r: String)
    ensures
        r@.len() == 32,
        r@ == hex_of(md5_of(vstd::utf8::encode_utf8(data@))),
{
    format!("{:x}", md5::compute(data))
}

/// `s` with `A`..`Z` mapped to `a`..`z` and every other character kept.
pub fn to_ascii_lowercase(s: &str) -> (r: String)
    ensures
        r@ == ascii_lower(s@),
{
    let cs = chars_of(s);
    let mut r = String::new();
    let mut i: usize = 0;
    while i < cs.len()
        invariant
            0 <= i <= cs.len(),
            cs@ == s@,
            r@ == ascii_lower(s@.subrange(0, i as int)),
        decreases cs.len() - i,
    {
        let c = cs[i];
        let l = if 'A' <= c && c <= 'Z' {
            ((c as u32) + 32) as u8 as char
        } else {
            c
        };
        assert(l == ascii_lower_char(c));
        r.push(l);
        assert(ascii_lower(s@.subrange(0, i + 1)) =~= ascii_lower(s@.subrange(0, i as int)).push(
            ascii_lower_char(c),
        ));
        i = i + 1;
    }
    assert(s@.subrange(0, cs.len() as int) =~= s@);
    r
}

/// `a` followed by `b`.
pub fn concat(a: &str, b: &str) -> (r: String)
    ensures
        r@ == a@ + b@,
{
    let mut r = String::new();
    let ca = chars_of(a);
    let cb = chars_of(b);
    let mut i: usize = 0;
    while i < ca.len()
        invariant
            0 <= i <= ca.len(),
            ca@ == a@,
            r@ == a@.subrange(0, i as int),
        decreases ca.len() - i,
    {
        r.push(ca[i]);
        assert(a@.subrange(0, i + 1) =~= a@.subrange(0, i as int).push(ca@[i as int]));
        i = i + 1;
    }
    let mut j: usize = 0;
    while j < cb.len()
        invariant
            0 <= j <= cb.len(),
            ca@ == a@,
            cb@ == b@,
            r@ == a@ + b@.subrange(0, j as int),
        decreases cb.len() - j,
    {
        r.push(cb[j]);
        assert(a@ + b@.subrange(0, j + 1) =~= (a@ + b@.subrange(0, j as int)).push(cb@[j as int]));
        j = j + 1;
    }
    assert(a@.subrange(0, ca.len() as int) =~= a@);
    assert(b@.subrange(0, cb.len() as int) =~= b@);
    r
}

/// The first `n` characters of `cs`.
pub fn prefix_chars(cs: &Vec<char>, n: usize) -> (r: String)
    requires
        n <= cs@.len(),
    ensures
        r@ == cs@.subrange(0, n as int),
{
    let mut r = String::new();
    let mut i: usize = 0;
    while i < n
        invariant
            0 <= i <= n,
            n <= cs.len(),
            r@ == cs@.subrange(0, i as int),
        decreases n - i,
    {
        r.push(cs[i]);
        assert(cs@.subrange(0, i + 1) =~= cs@.subrange(0, i as int).push(cs@[i as int]));
        i = i + 1;
    }
    r
}

/// The first `n` characters of `s`.
pub fn prefix(s: &str, n: usize) -> (r: String)
    requires
        n <= s@.len(),
    ensures
        r@ == s@.subrange(0, n as int),
{
    let cs = chars_of(s);
    let mut r = String::new();
    let mut i: usize = 0;
    while i < n
        invariant
            0 <= i <= n,
            n <= cs.len(),
            cs@ == s@,
            r@ == s@.subrange(0, i as int),
        decreases n - i,
    {
        r.push(cs[i]);
        assert(s@.subrange(0, i + 1) =~= s@.subrange(0, i as int).push(cs@[i as int]));
        i = i + 1;
    }
    r
}

/// The segment name of a term: the first `length` hexadecimal digits of the
/// MD5 digest of its ASCII-lowercased form.
pub open spec fn hash_name_of(term: Seq<char>, length: nat) -> Seq<char> {
    hex_of(md5_of(vstd::utf8::encode_utf8(ascii_lower(term)))).subrange(0, length as int)
}

/// The directories and files of a dictionary rooted at one base directory.
pub struct Rustysearch {
    pub base_directory: String,
    pub index_path: String,
    pub docs_path: String,
    pub stats_path: String,
}

impl Rustysearch {
    /// Paths under `path`: `path/index`, `path/docs` and `path/stats.json`.
    pub fn new(path: &str) -> (r: Self)
        ensures
            r.base_directory@ == path@,
            r.index_path@ == path@ + "/index"@,
            r.docs_path@ == path@ + "/docs"@,
            r.stats_path@ == path@ + "/stats.json"@,
    {
        Rustysearch {
            base_directory: path.to_owned(),
            index_path: concat(path, "/index"),
            docs_path: concat(path, "/docs"),
            stats_path: concat(path, "/stats.json"),
        }
    }

    /// The first `length` hexadecimal digits of the MD5 digest of the
    /// ASCII-lowercased term.
    pub fn hash_name(&self, term: &str, length: usize) -> (r: String)
        requires
            length <= 32,
        ensures
            r@ == hash_name_of(term@, length as nat),
            r@.len() == length,
    {
        let lower = to_ascii_lowercase(term);
        let hashed = md5_hex(lower.as_str());
        prefix(hashed.as_str(), length)
    }

    /// The path of the segment file of `term`: `index_path/<6 digits>.index`.
    pub fn make_segment_name(&self, term: &str) -> (r: String)
        ensures
            r@ == self.index_path@ + "/"@ + hash_name_of(term@, 6) + ".index"@,
    {
        let h = self.hash_name(term, 6);
        let dir = concat(self.index_path.as_str(), "/");
        let name = concat(h.as_str(), ".index");
        let r = concat(dir.as_str(), name.as_str());
        assert(r@ =~= self.index_path@ + "/"@ + hash_name_of(term@, 6) + ".index"@);
        r
    }

    /// Updates `orig_info` by `new_info`: a document id only in `new_info` is
    /// copied with its positions, one in both gets the union of its positions,
    /// each once (those of `orig_info`, then the new ones of `new_info`).
    /// Returns a copy of the result.
    pub fn update_term_info(&self, orig_info: &mut TermInfo, new_info: &TermInfo) -> (r: TermInfo)
        requires
            old(orig_info).wf(),
            new_info.wf(),
        ensures
            final(orig_info).wf(),
            info_view(*final(orig_info)) == merge_info(info_view(*old(orig_info)), info_view(*new_info)),
            forall|d: Seq<char>|
                info_view(*old(orig_info)).contains_key(d) && info_view(*new_info).contains_key(d)
                    ==> (#[trigger] info_view(*final(orig_info))[d]).no_duplicates(),
            r.wf(),
            info_view(r) == info_view(*final(orig_info)),
    {
        let ghost o0 = info_view(*orig_info);
        let ghost n0 = info_view(*new_info);
        let n = new_info.len();
        proof {
            new_info.lemma_len();
            assert(o0.dom() =~= merge_info(o0, n0.restrict(first_keys(*new_info, 0))).dom());
            assert(o0 =~= merge_info(o0, n0.restrict(first_keys(*new_info, 0))));
        }
        let mut i: usize = 0;
        while i < n
            invariant
                new_info.wf(),
                n0 == info_view(*new_info),
                n == new_info.key_seq().len(),
                0 <= i <= n,
                orig_info.wf(),
                info_view(*orig_info) == merge_info(o0, n0.restrict(first_keys(*new_info, i as int))),
            decreases n - i,
        {
            let d = new_info.key_at(i);
            let np = new_info.val_at(i);
            let ghost before = info_view(*orig_info);
            proof {
                lemma_first_keys_step(*new_info, i as int);
            }
            let (found, pos) = orig_info.find(d.as_str());
            let ghost dv = d@;
            let ghost target = merge_info(o0, n0.restrict(first_keys(*new_info, i + 1)));
            proof {
                assert(n0.contains_key(dv) && n0[dv] == views(np@));
            }
            if found {
                proof {
                    orig_info.lemma_at(pos as int);
                    assert(before.contains_key(dv));
                    assert(o0.contains_key(dv));
                    assert(before[dv] == o0[dv]);
                }
                let old_positions = orig_info.replace_at(pos, Vec::new());
                let mut v: Vec<String> = Vec::new();
                merge_into(&mut v, &old_positions);
                merge_into(&mut v, np);
                let ghost vv = views(v@);
                assert(views(Seq::<String>::empty()) =~= Seq::<Seq<char>>::empty());
                let _ = orig_info.replace_at(pos, v);
                assert(info_view(*orig_info) =~= before.insert(dv, vv));
            } else {
                let v = copy_strings(np);
                let ghost vv = views(v@);
                proof {
                    assert(!before.contains_key(dv));
                    assert(!o0.contains_key(dv));
                }
                orig_info.insert(d.clone(), v);
                assert(info_view(*orig_info) =~= before.insert(dv, vv));
            }
            assert(info_view(*orig_info) =~= merge_info(
                o0,
                n0.restrict(first_keys(*new_info, i + 1)),
            ));
            i = i + 1;
        }
        proof {
            lemma_first_keys_all(*new_info);
            assert(n0.restrict(first_keys(*new_info, n as int)) =~= n0);
            assert forall|d: Seq<char>| o0.contains_key(d) && n0.contains_key(d) implies (
            #[trigger] info_view(*orig_info)[d]).no_duplicates() by {
                lemma_merge_positions_set(o0[d], n0[d]);
            }
        }
        copy_info(orig_info)
    }

    /// The term information to write for a term: with `update` and an
    /// existing record, the existing information updated by `new_info`;
    /// otherwise `new_info` itself.
    pub fn info_to_save(&self, existing: Option<TermInfo>, new_info: &TermInfo, update: bool) -> (r:
        TermInfo)
        requires
            existing matches Some(e) ==> e.wf(),
            new_info.wf(),
        ensures
            r.wf(),
            info_view(r) == if update && existing is Some {
                merge_info(info_view(existing->0), info_view(*new_info))
            } else {
                info_view(*new_info)
            },
    {
        match existing {
            Some(e) => {
                if update {
                    let mut e = e;
                    self.update_term_info(&mut e, new_info)
                } else {
                    copy_info(new_info)
                }
            },
            None => copy_info(new_info),
        }
    }

    /// The new text of a segment after putting in the record of `term`: the
    /// record goes before the first line with a greater term, replaces the
    /// line with an equal term, or goes at the end; other lines are copied.
    /// Fails when a line holds no tab or the terms do not ascend strictly.
    pub fn rewrite_segment(&self, content: &str, term: &str, term_info: &str) -> (r: Result<
        String,
        SegmentError,
    >)
        ensures
            r is Ok <==> segment_ok(lines_of(content@)),
            r == Err::<String, SegmentError>(SegmentError::MalformedLine) <==> !lines_well_formed(
                lines_of(content@),
            ),
            r matches Ok(s) ==> s@ == join_lines(rewritten_lines(lines_of(content@), term@, term_info@)),
    {
        let ls = split_lines(content);
        let ghost lv = views(ls@);
        let ts = match segment_terms(&ls) {
            Ok(ts) => ts,
            Err(e) => {
                return Err(e);
            },
        };
        let a = concat(term, "\t");
        let rec = concat(a.as_str(), term_info);
        proof {
            assert(rec@ =~= record_text(term@, term_info@));
        }
        let term_s = term.to_owned();
        assert(views(ts@).len() == ts@.len() && lv.len() == ls@.len());
        let mut out = String::new();
        let mut written = false;
        let mut i: usize = 0;
        assert(join_lines(Seq::<Seq<char>>::empty()) =~= out@);
        while i < ls.len()
            invariant
                lv == views(ls@),
                views(ts@) == line_terms(lv),
                ts@.len() == ls@.len(),
                rec@ == record_text(term@, term_info@),
                term_s@ == term@,
                0 <= i <= ls.len(),
                out@ == join_lines(rewrite_state(lv.subrange(0, i as int), term@, term_info@).0),
                written == rewrite_state(lv.subrange(0, i as int), term@, term_info@).1,
            decreases ls.len() - i,
        {
            let ghost pre = lv.subrange(0, i as int);
            let ghost next = lv.subrange(0, i + 1);
            let ghost st = rewrite_state(pre, term@, term_info@);
            proof {
                assert(next.drop_last() =~= pre);
                assert(next.last() == ls@[i as int]@);
                assert(views(ts@)[i as int] == ts@[i as int]@);
                assert(ts@[i as int]@ == record_term(lv[i as int]));
            }
            if !written && str_lt(term, ts[i].as_str()) {
                append_line(&mut out, rec.as_str(), Ghost(st.0));
                append_line(&mut out, ls[i].as_str(), Ghost(st.0.push(rec@)));
                written = true;
            } else if ts[i] == term_s {
                append_line(&mut out, rec.as_str(), Ghost(st.0));
                written = true;
            } else {
                append_line(&mut out, ls[i].as_str(), Ghost(st.0));
            }
            i = i + 1;
        }
        assert(lv.subrange(0, ls.len() as int) =~= lv);
        if !written {
            append_line(&mut out, rec.as_str(), Ghost(rewrite_state(lv, term@, term_info@).0));
        }
        Ok(out)
    }

    /// The serialized information of the record of `term` in a segment, if
    /// it has one. Fails as `rewrite_segment` does.
    pub fn find_record(&self, content: &str, term: &str) -> (r: Result<Option<String>, SegmentError>)
        ensures
            r is Ok <==> segment_ok(lines_of(content@)),
            r == Err::<Option<String>, SegmentError>(SegmentError::MalformedLine)
                <==> !lines_well_formed(lines_of(content@)),
            r matches Ok(Some(info)) ==> exists|i: int|
                0 <= i < lines_of(content@).len() && record_term(lines_of(content@)[i]) == term@
                    && info@ == record_info(lines_of(content@)[i]),
            r matches Ok(None) ==> forall|i: int|
                0 <= i < lines_of(content@).len() ==> record_term(lines_of(content@)[i]) != term@,
    {
        let ls = split_lines(content);
        let ghost lv = views(ls@);
        let ts = match segment_terms(&ls) {
            Ok(ts) => ts,
            Err(e) => {
                return Err(e);
            },
        };
        let term_s = term.to_owned();
        assert(views(ts@).len() == ts@.len() && lv.len() == ls@.len());
        let mut i: usize = 0;
        while i < ts.len()
            invariant
                lv == views(ls@),
                views(ts@) == line_terms(lv),
                ts@.len() == ls@.len(),
                lv == lines_of(content@),
                segment_ok(lv),
                term_s@ == term@,
                0 <= i <= ts.len(),
                forall|k: int| 0 <= k < i ==> record_term(#[trigger] lv[k]) != term@,
            decreases ts.len() - i,
        {
            assert(views(ts@)[i as int] == ts@[i as int]@);
            assert(ts@[i as int]@ == record_term(lv[i as int]));
            if ts[i] == term_s {
                assert(lv[i as int] == ls@[i as int]@);
                let info = self.parse_record(ls[i].as_str()).1;
                return Ok(Some(info));
            }
            i = i + 1;
        }
        Ok(None)
    }

    /// The statistics after one more document: the count goes up by one.
    pub fn increment_total_docs(&self, stats: &mut Stats)
        requires
            old(stats).total_docs < i32::MAX,
        ensures
            final(stats).total_docs == old(stats).total_docs + 1,
            final(stats).version == old(stats).version,
    {
        stats.total_docs = stats.total_docs + 1;
    }

    /// The number of documents that the statistics record.
    pub fn get_total_docs(&self, stats: &Stats) -> (r: i32)
        ensures
            r == stats.total_docs,
    {
        stats.total_docs
    }

    /// The kept words of `blob`, with no stopwords and the default punctuation.
    pub fn make_tokens(&self, blob: &str) -> (r: Vec<String>)
        ensures
            views(r@) == kept_words(
                word_bounds_of(blob@),
                Set::empty(),
                str_views(DEFAULT_PUNCTUATION@).to_set(),
            ),
    {
        let tokenizer = Tokenizer::new(blob, Vec::new(), None);
        proof {
            assert(views(Seq::<String>::empty()).to_set() =~= Set::empty());
        }
        tokenizer.split_into_words()
    }

    /// Front grams of the tokens: each prefix of a token whose length lies
    /// between `min_gram` and `max_gram`, to the positions of the tokens that
    /// have it.
    pub fn make_ngrams(&self, tokens: Vec<String>, min_gram: usize, max_gram: usize) -> (r: OrdMap<
        Vec<usize>,
    >)
        ensures
            r.wf(),
            gram_table_view(r) == ngram_map(views(tokens@), min_gram as nat, max_gram as nat),
    {
        let ghost tv = views(tokens@);
        let ghost mn = min_gram as nat;
        let ghost mx = max_gram as nat;
        let mut terms: OrdMap<Vec<usize>> = OrdMap::new();
        let mut p: usize = 0;
        assert(gram_table_view(terms) =~= ngram_map(tv.subrange(0, 0), mn, mx));
        while p < tokens.len()
            invariant
                tv == views(tokens@),
                mn == min_gram as nat,
                mx == max_gram as nat,
                0 <= p <= tokens.len(),
                terms.wf(),
                gram_table_view(terms) == ngram_map(tv.subrange(0, p as int), mn, mx),
            decreases tokens.len() - p,
        {
            let cs = chars_of(tokens[p].as_str());
            let hi: usize = if max_gram < cs.len() {
                max_gram
            } else {
                cs.len()
            };
            let ghost tok = tv[p as int];
            let ghost pre = tv.subrange(0, p as int);
            let ghost next = tv.subrange(0, p + 1);
            proof {
                assert(next.drop_last() =~= pre);
                assert(next.last() == tok);
                assert(cs@ == tok);
                assert(ngram_partial(tv, p as int, min_gram as int, mn, mx) =~= ngram_map(pre, mn, mx));
            }
            let mut l: u128 = min_gram as u128;
            while l <= hi as u128
                invariant
                    tv == views(tokens@),
                    mn == min_gram as nat,
                    mx == max_gram as nat,
                    0 <= p < tokens.len(),
                    tok == tv[p as int],
                    cs@ == tok,
                    hi as nat <= mx,
                    hi as nat <= tok.len(),
                    hi == max_gram || hi == cs.len(),
                    min_gram <= l,
                    l <= hi + 1 || l == min_gram,
                    terms.wf(),
                    gram_table_view(terms) == ngram_partial(tv, p as int, l as int, mn, mx),
                decreases hi as u128 + 1 - l,
            {
                let lu = l as usize;
                let gram = crate::segment::prefix_chars(&cs, lu);
                let ghost g = gram@;
                let ghost before = gram_table_view(terms);
                add_gram(&mut terms, gram, p);
                proof {
                    assert(is_gram(g, tok, mn, mx));
                    assert forall|h: Seq<char>| is_gram(h, tok, mn, mx) && h.len() == l implies h
                        == g by {
                        assert(h =~= g);
                    }
                    let gp = gram_positions(tv.subrange(0, p as int), g, mn, mx);
                    if before.contains_key(g) {
                        assert(before[g] == gp);
                    } else {
                        assert(gp =~= Seq::<nat>::empty());
                    }
                    assert(gram_table_view(terms) =~= ngram_partial(tv, p as int, l + 1, mn, mx));
                }
                l = l + 1;
            }
            proof {
                assert forall|h: Seq<char>| is_gram(h, tok, mn, mx) implies h.len() < l by {}
                assert(ngram_partial(tv, p as int, l as int, mn, mx) =~= ngram_map(next, mn, mx));
            }
            p = p + 1;
        }
        assert(tv.subrange(0, tokens.len() as int) =~= tv);
        terms
    }

    /// Splits a segment line into its term and its serialized term information:
    /// after trimming, the text before the first tab and the text between the
    /// first tab and the next one (or the end).
    pub fn parse_record(&self, line: &str) -> (r: (String, String))
        requires
            has_tab(trim_spec(line@)),
        ensures
            r.0@ == record_term(line@),
            r.1@ == record_info(line@),
    {
        let t = trim(line);
        let cs = chars_of(t.as_str());
        let (term, p) = take_field(&cs, 0);
        proof {
            lemma_tab_index_bounds(cs@, 0);
        }
        let (info, _) = take_field(&cs, p + 1);
        (term, info)
    }

    /// A segment line for `term` and its serialized information: the term, a
    /// tab, the information and a newline.
    pub fn make_record(&self, term: &str, term_info: &str) -> (r: String)
        ensures
            r@ == record_line(term@, term_info@),
    {
        let a = concat(term, "\t");
        let b = concat(a.as_str(), term_info);
        let r = concat(b.as_str(), "\n");
        assert(r@ =~= record_line(term@, term_info@));
        r
    }
}

/// Term information: document id to the positions of the term in it.
pub type TermInfo = OrdMap<Vec<String>>;

/// Document id to positions, of a term information value.
pub open spec fn info_view(m: TermInfo) -> Map<Seq<char>, Seq<Seq<char>>> {
    Map::new(|d: Seq<char>| m@.contains_key(d), |d: Seq<char>| views(m@[d]@))
}

/// The positions of `o` followed by each position of `n` that is not yet
/// among them, in order.
pub open spec fn append_new(o: Seq<Seq<char>>, n: Seq<Seq<char>>) -> Seq<Seq<char>>
    decreases n.len(),
{
    if n.len() == 0 {
        o
    } else {
        let m = append_new(o, n.drop_last());
        if m.contains(n.last()) {
            m
        } else {
            m.push(n.last())
        }
    }
}

/// The union of two lists of positions: each position once, in the order of
/// its first occurrence in `o` and then `n`.
pub open spec fn merge_positions(o: Seq<Seq<char>>, n: Seq<Seq<char>>) -> Seq<Seq<char>> {
    append_new(append_new(Seq::empty(), o), n)
}

/// `o` updated by `n`: a document id of `n` alone keeps its positions, one of
/// both gets the union of its positions.
pub open spec fn merge_info(
    o: Map<Seq<char>, Seq<Seq<char>>>,
    n: Map<Seq<char>, Seq<Seq<char>>>,
) -> Map<Seq<char>, Seq<Seq<char>>> {
    Map::new(
        |d: Seq<char>| o.contains_key(d) || n.contains_key(d),
        |d: Seq<char>|
            if n.contains_key(d) {
                if o.contains_key(d) {
                    merge_positions(o[d], n[d])
                } else {
                    n[d]
                }
            } else {
                o[d]
            },
    )
}

/// `o` updated by the entries of `n` whose ids are among `ks`.
pub open spec fn merge_info_upto(
    o: Map<Seq<char>, Seq<Seq<char>>>,
    n: Map<Seq<char>, Seq<Seq<char>>>,
    ks: Seq<Seq<char>>,
) -> Map<Seq<char>, Seq<Seq<char>>> {
    merge_info(o, n.restrict(ks.to_set()))
}

/// A copy of a list of strings.
pub fn copy_strings(v: &Vec<String>) -> (r: Vec<String>)
    ensures
        views(r@) == views(v@),
{
    let mut r: Vec<String> = Vec::new();
    let mut i: usize = 0;
    while i < v.len()
        invariant
            0 <= i <= v.len(),
            views(r@) == views(v@).subrange(0, i as int),
        decreases v.len() - i,
    {
        let s = v[i].clone();
        let ghost before = r@;
        r.push(s);
        assert(views(r@) =~= views(before).push(s@));
        assert(views(v@).subrange(0, i + 1) =~= views(v@).subrange(0, i as int).push(v@[i as int]@));
        i = i + 1;
    }
    assert(views(v@).subrange(0, v.len() as int) =~= views(v@));
    r
}

/// Whether `s` is among `v`.
pub fn contains_string(v: &Vec<String>, s: &String) -> (r: bool)
    ensures
        r == views(v@).contains(s@),
{
    let mut i: usize = 0;
    while i < v.len()
        invariant
            0 <= i <= v.len(),
            forall|k: int| 0 <= k < i ==> v@[k]@ != s@,
        decreases v.len() - i,
    {
        if v[i] == *s {
            assert(views(v@)[i as int] == s@);
            return true;
        }
        i = i + 1;
    }
    proof {
        if views(v@).contains(s@) {
            let k = choose|k: int| 0 <= k < views(v@).len() && views(v@)[k] == s@;
            assert(v@[k]@ == s@);
        }
    }
    false
}

/// Appends each position of `n` that is not yet among the positions of `v`.
pub fn merge_into(v: &mut Vec<String>, n: &Vec<String>)
    ensures
        views(final(v)@) == append_new(views(old(v)@), views(n@)),
{
    let ghost o = views(v@);
    let mut i: usize = 0;
    while i < n.len()
        invariant
            0 <= i <= n.len(),
            views(v@) == append_new(o, views(n@).subrange(0, i as int)),
        decreases n.len() - i,
    {
        let ghost pre = views(n@).subrange(0, i as int);
        let ghost next = views(n@).subrange(0, i + 1);
        assert(next.drop_last() =~= pre);
        assert(next.last() == n@[i as int]@);
        if !contains_string(v, &n[i]) {
            let s = n[i].clone();
            let ghost before = v@;
            v.push(s);
            assert(views(v@) =~= views(before).push(s@));
        }
        i = i + 1;
    }
    assert(views(n@).subrange(0, n.len() as int) =~= views(n@));
}

/// The first `i` keys of a map, as a set.
pub open spec fn first_keys<V>(m: OrdMap<V>, i: int) -> Set<Seq<char>> {
    m.key_seq().subrange(0, i).to_set()
}

/// The first `i + 1` keys are the first `i` and the key at `i`, which is new.
pub proof fn lemma_first_keys_step<V>(m: OrdMap<V>, i: int)
    requires
        m.wf(),
        0 <= i < m.key_seq().len(),
    ensures
        first_keys(m, i + 1) == first_keys(m, i).insert(m.key_seq()[i]),
        !first_keys(m, i).contains(m.key_seq()[i]),
        m@.contains_key(m.key_seq()[i]),
{
    let ks = m.key_seq();
    m.lemma_len();
    m.lemma_at(i);
    let a = ks.subrange(0, i);
    let b = ks.subrange(0, i + 1);
    assert(b =~= a.push(ks[i]));
    assert forall|x: Seq<char>| b.contains(x) <==> (a.contains(x) || x == ks[i]) by {
        if b.contains(x) && x != ks[i] {
            let k = choose|k: int| 0 <= k < b.len() && b[k] == x;
            assert(a[k] == x);
        }
        if x == ks[i] {
            assert(b[i] == x);
        }
        if a.contains(x) {
            let k = choose|k: int| 0 <= k < a.len() && a[k] == x;
            assert(b[k] == x);
        }
    }
    assert(first_keys(m, i + 1) =~= first_keys(m, i).insert(ks[i]));
    if first_keys(m, i).contains(ks[i]) {
        let k = choose|k: int| 0 <= k < i && ks.subrange(0, i)[k] == ks[i];
        crate::ordmap::lemma_lt_irrefl(ks[i]);
    }
}

/// All the keys of a map are its first `len` keys.
pub proof fn lemma_first_keys_all<V>(m: OrdMap<V>)
    requires
        m.wf(),
    ensures
        first_keys(m, m.key_seq().len() as int) == m@.dom(),
{
    m.lemma_dom();
    assert(m.key_seq().subrange(0, m.key_seq().len() as int) =~= m.key_seq());
}

/// A copy of term information.
pub fn copy_info(m: &TermInfo) -> (r: TermInfo)
    requires
        m.wf(),
    ensures
        r.wf(),
        info_view(r) == info_view(*m),
{
    let mut r: TermInfo = OrdMap::new();
    let n = m.len();
    proof {
        m.lemma_len();
        assert(info_view(r) =~= info_view(*m).restrict(first_keys(*m, 0)));
    }
    let mut i: usize = 0;
    while i < n
        invariant
            m.wf(),
            n == m.key_seq().len(),
            0 <= i <= n,
            r.wf(),
            info_view(r) == info_view(*m).restrict(first_keys(*m, i as int)),
        decreases n - i,
    {
        let k = m.key_at(i).clone();
        let v = copy_strings(m.val_at(i));
        proof {
            lemma_first_keys_step(*m, i as int);
        }
        let ghost before = info_view(r);
        let ghost kv = k@;
        let ghost vv = views(v@);
        r.insert(k, v);
        assert(info_view(r) =~= before.insert(kv, vv));
        assert(info_view(r) =~= info_view(*m).restrict(first_keys(*m, i + 1)));
        i = i + 1;
    }
    proof {
        lemma_first_keys_all(*m);
        assert(info_view(r) =~= info_view(*m));
    }
    r
}

/// Scanning `s` from the left: the lines already ended by a newline, and the
/// line being read.
pub open spec fn line_state(s: Seq<char>) -> (Seq<Seq<char>>, Seq<char>)
    decreases s.len(),
{
    if s.len() == 0 {
        (Seq::empty(), Seq::empty())
    } else {
        let (ls, cur) = line_state(s.drop_last());
        if s.last() == '\n' {
            (ls.push(cur), Seq::empty())
        } else {
            (ls, cur.push(s.last()))
        }
    }
}

/// The lines of `s`: the text between newlines, without a last empty line.
pub open spec fn lines_of(s: Seq<char>) -> Seq<Seq<char>> {
    let (ls, cur) = line_state(s);
    if cur.len() > 0 {
        ls.push(cur)
    } else {
        ls
    }
}

/// The terms of segment lines.
pub open spec fn line_terms(ls: Seq<Seq<char>>) -> Seq<Seq<char>> {
    ls.map_values(|l: Seq<char>| record_term(l))
}

/// Every line holds a tab after trimming.
pub open spec fn lines_well_formed(ls: Seq<Seq<char>>) -> bool {
    forall|i: int| 0 <= i < ls.len() ==> has_tab(trim_spec(#[trigger] ls[i]))
}

/// A segment's lines are records in strictly ascending order of term.
pub open spec fn segment_ok(ls: Seq<Seq<char>>) -> bool {
    lines_well_formed(ls) && sorted_keys(line_terms(ls))
}

/// The record line for `term`, without its newline.
pub open spec fn record_text(term: Seq<char>, info: Seq<char>) -> Seq<char> {
    term + "\t"@ + info
}

/// Rewriting the lines `ls` of a segment for `term`: the lines written so far
/// and whether the record of `term` is among them.
pub open spec fn rewrite_state(ls: Seq<Seq<char>>, term: Seq<char>, info: Seq<char>) -> (
    Seq<Seq<char>>,
    bool,
)
    decreases ls.len(),
{
    if ls.len() == 0 {
        (Seq::empty(), false)
    } else {
        let (out, w) = rewrite_state(ls.drop_last(), term, info);
        let l = ls.last();
        let t = record_term(l);
        if !w && seq_lt(term, t) {
            (out.push(record_text(term, info)).push(l), true)
        } else if t == term {
            (out.push(record_text(term, info)), true)
        } else {
            (out.push(l), w)
        }
    }
}

/// The lines of a segment after the record of `term` is put in: before the
/// first greater term, in place of an equal one, or at the end.
pub open spec fn rewritten_lines(ls: Seq<Seq<char>>, term: Seq<char>, info: Seq<char>) -> Seq<
    Seq<char>,
> {
    let (out, w) = rewrite_state(ls, term, info);
    if w {
        out
    } else {
        out.push(record_text(term, info))
    }
}

/// Each line followed by a newline.
pub open spec fn join_lines(ls: Seq<Seq<char>>) -> Seq<char>
    decreases ls.len(),
{
    if ls.len() == 0 {
        Seq::empty()
    } else {
        join_lines(ls.drop_last()) + ls.last() + "\n"@
    }
}

/// Why a segment cannot be rewritten.
#[derive(Clone, Copy, Debug, PartialEq, Eq)]
pub enum SegmentError {
    /// A line holds no tab.
    MalformedLine,
    /// The terms of the lines are not in strictly ascending order.
    Unsorted,
}

/// The lines of `s`: the text between newlines, without a last empty line.
pub fn split_lines(s: &str) -> (r: Vec<String>)
    ensures
        views(r@) == lines_of(s@),
{
    let cs = chars_of(s);
    let mut ls: Vec<String> = Vec::new();
    let mut cur = String::new();
    let mut cur_len: usize = 0;
    let mut i: usize = 0;
    while i < cs.len()
        invariant
            0 <= i <= cs.len(),
            cs@ == s@,
            views(ls@) == line_state(cs@.subrange(0, i as int)).0,
            cur@ == line_state(cs@.subrange(0, i as int)).1,
            cur_len == cur@.len(),
            cur_len <= i,
        decreases cs.len() - i,
    {
        let c = cs[i];
        let ghost pre = cs@.subrange(0, i as int);
        assert(cs@.subrange(0, i + 1).drop_last() =~= pre);
        if c == '\n' {
            let l = cur;
            let ghost before = views(ls@);
            ls.push(l);
            assert(views(ls@) =~= before.push(line_state(pre).1));
            cur = String::new();
            cur_len = 0;
        } else {
            cur.push(c);
            cur_len = cur_len + 1;
        }
        i = i + 1;
    }
    assert(cs@.subrange(0, cs.len() as int) =~= s@);
    if cur_len > 0 {
        let ghost before = views(ls@);
        ls.push(cur);
        assert(views(ls@) =~= before.push(line_state(s@).1));
    }
    ls
}

/// The term of a line, if its trimmed text holds a tab.
fn line_term(line: &str) -> (r: Option<String>)
    ensures
        r is Some <==> has_tab(trim_spec(line@)),
        r matches Some(t) ==> t@ == record_term(line@),
{
    let t = trim(line);
    let cs = chars_of(t.as_str());
    let (term, p) = take_field(&cs, 0);
    proof {
        lemma_tab_index_bounds(cs@, 0);
    }
    if p < cs.len() {
        Some(term)
    } else {
        None
    }
}

/// Appends the characters of `s` to `out`.
pub fn append_str(out: &mut String, s: &str)
    ensures
        final(out)@ == old(out)@ + s@,
{
    let cs = chars_of(s);
    let mut i: usize = 0;
    while i < cs.len()
        invariant
            0 <= i <= cs.len(),
            cs@ == s@,
            out@ == old(out)@ + s@.subrange(0, i as int),
        decreases cs.len() - i,
    {
        out.push(cs[i]);
        assert(old(out)@ + s@.subrange(0, i + 1) =~= (old(out)@ + s@.subrange(0, i as int)).push(
            cs@[i as int],
        ));
        i = i + 1;
    }
    assert(s@.subrange(0, cs.len() as int) =~= s@);
}

/// Appends a line and its newline to `out`.
fn append_line(out: &mut String, line: &str, Ghost(ls): Ghost<Seq<Seq<char>>>)
    requires
        old(out)@ == join_lines(ls),
    ensures
        final(out)@ == join_lines(ls.push(line@)),
{
    append_str(out, line);
    out.push('\n');
    assert(ls.push(line@).drop_last() =~= ls);
    assert(final(out)@ =~= join_lines(ls) + line@ + "\n"@) by {
        reveal_strlit("\n");
    }
}

/// The terms of the lines of a segment, after checking that every line holds
/// a tab and that the terms ascend strictly.
pub fn segment_terms(ls: &Vec<String>) -> (r: Result<Vec<String>, SegmentError>)
    ensures
        r is Ok <==> segment_ok(views(ls@)),
        r == Err::<Vec<String>, SegmentError>(SegmentError::MalformedLine) <==> !lines_well_formed(
            views(ls@),
        ),
        r matches Ok(ts) ==> views(ts@) == line_terms(views(ls@)),
{
    let ghost lv = views(ls@);
    let mut ts: Vec<String> = Vec::new();
    let mut i: usize = 0;
    while i < ls.len()
        invariant
            lv == views(ls@),
            0 <= i <= ls.len(),
            views(ts@) == line_terms(lv).subrange(0, i as int),
            forall|k: int| 0 <= k < i ==> has_tab(trim_spec(#[trigger] lv[k])),
        decreases ls.len() - i,
    {
        assert(lv[i as int] == ls@[i as int]@);
        match line_term(ls[i].as_str()) {
            Some(t) => {
                let ghost before = views(ts@);
                ts.push(t);
                assert(line_terms(lv)[i as int] == t@);
                assert(views(ts@) =~= before.push(t@));
                assert(views(ts@) =~= line_terms(lv).subrange(0, i + 1));
            },
            None => {
                assert(!has_tab(trim_spec(lv[i as int])));
                return Err(SegmentError::MalformedLine);
            },
        }
        i = i + 1;
    }
    assert(line_terms(lv).subrange(0, ls.len() as int) =~= line_terms(lv));
    let ghost tv = line_terms(lv);
    if ts.len() == 0 {
        assert(sorted_keys(tv));
        return Ok(ts);
    }
    let mut j: usize = 0;
    assert(sorted_keys(tv.subrange(0, 1)));
    while j + 1 < ts.len()
        invariant
            lv == views(ls@),
            tv == line_terms(lv),
            views(ts@) == tv,
            lines_well_formed(lv),
            j < ts.len(),
            sorted_keys(tv.subrange(0, j + 1)),
        decreases ts.len() - j,
    {
        assert(tv[j as int] == ts@[j as int]@ && tv[j + 1] == ts@[j + 1]@);
        if !str_lt(ts[j].as_str(), ts[j + 1].as_str()) {
            assert(!sorted_keys(tv)) by {
                if sorted_keys(tv) {
                    assert(seq_lt(tv[j as int], tv[j + 1]));
                }
            }
            return Err(SegmentError::Unsorted);
        }
        proof {
            let a = tv.subrange(0, j + 1);
            let b = tv.subrange(0, j + 2);
            assert forall|x: int, y: int| 0 <= x < y < b.len() implies seq_lt(
                #[trigger] b[x],
                #[trigger] b[y],
            ) by {
                if y == j + 1 && x < j {
                    assert(seq_lt(a[x], a[j as int]));
                    crate::ordmap::lemma_lt_trans(b[x], b[j as int], b[y]);
                } else if y <= j {
                    assert(seq_lt(a[x], a[y]));
                }
            }
        }
        j = j + 1;
    }
    assert(tv.subrange(0, j + 1) =~= tv);
    Ok(ts)
}

/// Whether `g` is a front gram of `tok`: a prefix whose length lies between
/// `min` and `max`.
pub open spec fn is_gram(g: Seq<char>, tok: Seq<char>, min: nat, max: nat) -> bool {
    min <= g.len() <= max && g.len() <= tok.len() && g == tok.subrange(0, g.len() as int)
}

/// The positions of the tokens that have `g` as a front gram, ascending.
pub open spec fn gram_positions(toks: Seq<Seq<char>>, g: Seq<char>, min: nat, max: nat) -> Seq<
    nat,
>
    decreases toks.len(),
{
    if toks.len() == 0 {
        Seq::empty()
    } else {
        let prev = gram_positions(toks.drop_last(), g, min, max);
        if is_gram(g, toks.last(), min, max) {
            prev.push((toks.len() - 1) as nat)
        } else {
            prev
        }
    }
}

/// Each front gram of the tokens to the positions of the tokens that have it.
pub open spec fn ngram_map(toks: Seq<Seq<char>>, min: nat, max: nat) -> Map<Seq<char>, Seq<nat>> {
    Map::new(
        |g: Seq<char>| gram_positions(toks, g, min, max).len() > 0,
        |g: Seq<char>| gram_positions(toks, g, min, max),
    )
}

/// The positions of a gram table entry.
pub open spec fn position_views(v: Seq<usize>) -> Seq<nat> {
    v.map_values(|p: usize| p as nat)
}

/// Gram to positions, of a gram table.
pub open spec fn gram_table_view(m: OrdMap<Vec<usize>>) -> Map<Seq<char>, Seq<nat>> {
    Map::new(|g: Seq<char>| m@.contains_key(g), |g: Seq<char>| position_views(m@[g]@))
}

/// The gram table after the first `p` tokens and, of token `p`, the grams
/// shorter than `l`.
pub open spec fn ngram_partial(
    toks: Seq<Seq<char>>,
    p: int,
    l: int,
    min: nat,
    max: nat,
) -> Map<Seq<char>, Seq<nat>> {
    let f = |g: Seq<char>|
        if is_gram(g, toks[p], min, max) && g.len() < l {
            gram_positions(toks.subrange(0, p), g, min, max).push(p as nat)
        } else {
            gram_positions(toks.subrange(0, p), g, min, max)
        };
    Map::new(|g: Seq<char>| f(g).len() > 0, f)
}

/// Appends `p` to the positions of gram `g`.
fn add_gram(m: &mut OrdMap<Vec<usize>>, g: String, p: usize)
    requires
        old(m).wf(),
    ensures
        final(m).wf(),
        gram_table_view(*final(m)) == gram_table_view(*old(m)).insert(
            g@,
            (if gram_table_view(*old(m)).contains_key(g@) {
                gram_table_view(*old(m))[g@]
            } else {
                Seq::empty()
            }).push(p as nat),
        ),
{
    let ghost a0 = gram_table_view(*m);
    let (found, pos) = m.find(g.as_str());
    if found {
        proof {
            m.lemma_at(pos as int);
        }
        let mut v = m.replace_at(pos, Vec::new());
        let ghost v0 = v@;
        v.push(p);
        let ghost v1 = v@;
        let _ = m.replace_at(pos, v);
        assert(position_views(v1) =~= position_views(v0).push(p as nat));
        assert(gram_table_view(*m) =~= a0.insert(g@, position_views(v1)));
    } else {
        let mut v: Vec<usize> = Vec::new();
        v.push(p);
        let ghost v1 = v@;
        let ghost gv = g@;
        m.insert(g, v);
        assert(position_views(v1) =~= Seq::<nat>::empty().push(p as nat));
        assert(gram_table_view(*m) =~= a0.insert(gv, position_views(v1)));
    }
}

/// The line that holds a record, newline included.
pub open spec fn record_line(term: Seq<char>, info: Seq<char>) -> Seq<char> {
    term + "\t"@ + info + "\n"@
}

/// `s` without leading whitespace.
pub open spec fn trim_start_spec(s: Seq<char>) -> Seq<char>
    decreases s.len(),
{
    if s.len() > 0 && is_space(s[0]) {
        trim_start_spec(s.drop_first())
    } else {
        s
    }
}

/// `s` without trailing whitespace.
pub open spec fn trim_end_spec(s: Seq<char>) -> Seq<char>
    decreases s.len(),
{
    if s.len() > 0 && is_space(s.last()) {
        trim_end_spec(s.drop_last())
    } else {
        s
    }
}

/// `s` without leading or trailing whitespace.
pub open spec fn trim_spec(s: Seq<char>) -> Seq<char> {
    trim_end_spec(trim_start_spec(s))
}

/// `s` without leading or trailing whitespace.
pub fn trim(s: &str) -> (r: String)
    ensures
        r@ == trim_spec(s@),
{
    let cs = chars_of(s);
    let mut i: usize = 0;
    assert(s@.skip(0) =~= s@);
    while i < cs.len() && cs[i].is_whitespace()
        invariant
            0 <= i <= cs.len(),
            cs@ == s@,
            trim_start_spec(s@) == trim_start_spec(s@.skip(i as int)),
        decreases cs.len() - i,
    {
        assert(s@.skip(i as int).drop_first() =~= s@.skip(i + 1));
        i = i + 1;
    }
    assert(trim_start_spec(s@.skip(i as int)) == s@.skip(i as int));
    assert(s@.skip(i as int) =~= s@.subrange(i as int, cs.len() as int));
    let mut j: usize = cs.len();
    while j > i && cs[j - 1].is_whitespace()
        invariant
            0 <= i <= j <= cs.len(),
            cs@ == s@,
            trim_spec(s@) == trim_end_spec(s@.subrange(i as int, j as int)),
        decreases j - i,
    {
        assert(s@.subrange(i as int, j as int).drop_last() =~= s@.subrange(i as int, j - 1));
        j = j - 1;
    }
    assert(trim_end_spec(s@.subrange(i as int, j as int)) == s@.subrange(i as int, j as int));
    let mut r = String::new();
    let mut k: usize = i;
    while k < j
        invariant
            i <= k <= j <= cs.len(),
            cs@ == s@,
            r@ == s@.subrange(i as int, k as int),
        decreases j - k,
    {
        r.push(cs[k]);
        assert(s@.subrange(i as int, k + 1) =~= s@.subrange(i as int, k as int).push(cs@[k as int]));
        k = k + 1;
    }
    r
}

/// The position of the first tab of `s` at or after `from`, or the length of `s`.
pub open spec fn tab_index(s: Seq<char>, from: int) -> int
    decreases s.len() - from,
{
    if from < 0 || from >= s.len() {
        s.len() as int
    } else if s[from] == '\t' {
        from
    } else {
        tab_index(s, from + 1)
    }
}

/// Whether `s` holds a tab.
pub open spec fn has_tab(s: Seq<char>) -> bool {
    tab_index(s, 0) < s.len()
}

/// The term of a segment line: the trimmed line up to its first tab.
pub open spec fn record_term(line: Seq<char>) -> Seq<char> {
    let t = trim_spec(line);
    t.subrange(0, tab_index(t, 0))
}

/// The serialized information of a segment line: the trimmed line from after
/// its first tab up to the next tab.
pub open spec fn record_info(line: Seq<char>) -> Seq<char> {
    let t = trim_spec(line);
    let p = tab_index(t, 0);
    t.subrange(p + 1, tab_index(t, p + 1))
}

/// The first tab at or after `from` lies between `from` and the end, and none comes before it.
pub proof fn lemma_tab_index_bounds(s: Seq<char>, from: int)
    requires
        0 <= from <= s.len(),
    ensures
        from <= tab_index(s, from) <= s.len(),
        tab_index(s, from) < s.len() ==> s[tab_index(s, from)] == '\t',
        forall|k: int| from <= k < tab_index(s, from) ==> s[k] != '\t',
    decreases s.len() - from,
{
    if from < s.len() && s[from] != '\t' {
        lemma_tab_index_bounds(s, from + 1);
    }
}

/// The characters of `cs` from `start` up to the next tab (or the end), and
/// the position where they stop.
fn take_field(cs: &Vec<char>, start: usize) -> (r: (String, usize))
    requires
        start <= cs.len(),
    ensures
        r.1 == tab_index(cs@, start as int),
        r.0@ == cs@.subrange(start as int, r.1 as int),
{
    let mut out = String::new();
    let mut i: usize = start;
    while i < cs.len() && cs[i] != '\t'
        invariant
            start <= i <= cs.len(),
            tab_index(cs@, start as int) == tab_index(cs@, i as int),
            out@ == cs@.subrange(start as int, i as int),
        decreases cs.len() - i,
    {
        out.push(cs[i]);
        assert(cs@.subrange(start as int, i + 1) =~= cs@.subrange(start as int, i as int).push(
            cs@[i as int],
        ));
        i = i + 1;
    }
    (out, i)
}


proof fn lemma_append_new_set(o: Seq<Seq<char>>, n: Seq<Seq<char>>)
    ensures
        append_new(o, n).to_set() == o.to_set() + n.to_set(),
        o.no_duplicates() ==> append_new(o, n).no_duplicates(),
    decreases n.len(),
{
    if n.len() == 0 {
        assert(n.to_set() =~= Set::<Seq<char>>::empty());
        assert(o.to_set() + n.to_set() =~= o.to_set());
    } else {
        let n0 = n.drop_last();
        lemma_append_new_set(o, n0);
        let m = append_new(o, n0);
        if !m.contains(n.last()) && m.no_duplicates() {
            let m2 = m.push(n.last());
            assert forall|i: int, j: int| 0 <= i < m2.len() && 0 <= j < m2.len() && i != j implies m2[i] != m2[j] by {
                if i < m.len() && j < m.len() {
                    assert(m2[i] == m[i] && m2[j] == m[j]);
                } else if i < m.len() {
                    assert(m2[i] == m[i]);
                } else if j < m.len() {
                    assert(m2[j] == m[j]);
                }
            }
        }
        assert(n0.push(n.last()) =~= n);
        n0.lemma_push_to_set_commute(n.last());
        if m.contains(n.last()) {
            assert(m.to_set().contains(n.last()));
            assert(o.to_set() + n.to_set() =~= m.to_set());
        } else {
            m.lemma_push_to_set_commute(n.last());
            assert(m.push(n.last()).to_set() =~= o.to_set() + n.to_set());
        }
    }
}

proof fn lemma_merge_positions_set(o: Seq<Seq<char>>, n: Seq<Seq<char>>)
    ensures
        merge_positions(o, n).to_set() == o.to_set() + n.to_set(),
        merge_positions(o, n).no_duplicates(),
{
    let e = Seq::<Seq<char>>::empty();
    lemma_append_new_set(e, o);
    lemma_append_new_set(append_new(e, o), n);
    assert(e.to_set() =~= Set::<Seq<char>>::empty());
    assert(e.to_set() + o.to_set() =~= o.to_set());
}

/// The positions of `d` in term information, empty when it has none.
pub open spec fn positions_of(m: Map<Seq<char>, Seq<Seq<char>>>, d: Seq<char>) -> Set<Seq<char>> {
    if m.contains_key(d) {
        m[d].to_set()
    } else {
        Set::empty()
    }
}

/// Updating term information keeps every document id of either side, gives
/// each the union of its positions, and so does not depend, up to the order
/// of positions, on which side is updated by the other.
pub proof fn lemma_update_term_info_union(
    o: Map<Seq<char>, Seq<Seq<char>>>,
    n: Map<Seq<char>, Seq<Seq<char>>>,
)
    ensures
        forall|d: Seq<char>|
            #[trigger] merge_info(o, n).contains_key(d) <==> o.contains_key(d) || n.contains_key(d),
        forall|d: Seq<char>|
            #[trigger] positions_of(merge_info(o, n), d) == positions_of(o, d) + positions_of(n, d),
        forall|d: Seq<char>|
            o.contains_key(d) && n.contains_key(d) ==> (#[trigger] merge_info(o, n)[d]).no_duplicates(),
        merge_info(o, n).dom() == merge_info(n, o).dom(),
        forall|d: Seq<char>|
            #[trigger] positions_of(merge_info(o, n), d) == positions_of(merge_info(n, o), d),
{
    assert forall|d: Seq<char>| #[trigger] positions_of(merge_info(o, n), d) == positions_of(o, d)
        + positions_of(n, d) by {
        if o.contains_key(d) && n.contains_key(d) {
            lemma_merge_positions_set(o[d], n[d]);
        } else if o.contains_key(d) {
            assert(positions_of(o, d) + positions_of(n, d) =~= positions_of(o, d));
        } else if n.contains_key(d) {
            assert(positions_of(o, d) + positions_of(n, d) =~= positions_of(n, d));
        } else {
            assert(positions_of(o, d) + positions_of(n, d) =~= Set::<Seq<char>>::empty());
        }
    }
    assert forall|d: Seq<char>| #[trigger] positions_of(merge_info(o, n), d) == positions_of(
        merge_info(n, o),
        d,
    ) by {
        if o.contains_key(d) && n.contains_key(d) {
            lemma_merge_positions_set(o[d], n[d]);
            lemma_merge_positions_set(n[d], o[d]);
            assert(o[d].to_set() + n[d].to_set() =~= n[d].to_set() + o[d].to_set());
        }
    }
    assert forall|d: Seq<char>| o.contains_key(d) && n.contains_key(d) implies (
    #[trigger] merge_info(o, n)[d]).no_duplicates() by {
        lemma_merge_positions_set(o[d], n[d]);
    }
    assert(merge_info(o, n).dom() =~= merge_info(n, o).dom());
}

/// A record line re-read gives back its term, provided the term is not empty
/// and holds no whitespace, and the information does not end in whitespace.
pub proof fn lemma_record_term(term: Seq<char>, info: Seq<char>)
    requires
        term.len() > 0,
        spaceless(term),
        info.len() > 0,
        !is_space(info.last()),
    ensures
        has_tab(trim_spec(record_text(term, info))),
        record_term(record_text(term, info)) == term,
{
    let r = record_text(term, info);
    reveal_strlit("\t");
    assert(r[0] == term[0]);
    assert(trim_start_spec(r) == r);
    assert(r.last() == info.last());
    assert(trim_end_spec(r) == r);
    assert(r[term.len() as int] == '\t');
    assert forall|k: int| 0 <= k < term.len() implies r[k] != '\t' by {
        assert(r[k] == term[k]);
        assert(!is_space(term[k]));
    }
    lemma_tab_at(r, 0, term.len() as int);
    assert(r.subrange(0, term.len() as int) =~= term);
}

proof fn lemma_tab_at(s: Seq<char>, from: int, p: int)
    requires
        0 <= from <= p < s.len(),
        s[p] == '\t',
        forall|k: int| from <= k < p ==> s[k] != '\t',
    ensures
        tab_index(s, from) == p,
    decreases p - from,
{
    if from < p {
        lemma_tab_at(s, from + 1, p);
    }
}

/// The invariant of rewriting a sorted segment: what is written is sorted,
/// comes before every line still to read, and, while the new record is not
/// written, before the new term.
pub open spec fn rewrite_inv(
    ls: Seq<Seq<char>>,
    k: int,
    term: Seq<char>,
    out: Seq<Seq<char>>,
    w: bool,
) -> bool {
    &&& lines_well_formed(out)
    &&& sorted_keys(line_terms(out))
    &&& forall|x: int, j: int|
        0 <= x < out.len() && k <= j < ls.len() ==> seq_lt(
            #[trigger] line_terms(out)[x],
            #[trigger] line_terms(ls)[j],
        )
    &&& !w ==> forall|x: int| 0 <= x < out.len() ==> seq_lt(#[trigger] line_terms(out)[x], term)
}

proof fn lemma_push_line(out: Seq<Seq<char>>, l: Seq<char>)
    requires
        lines_well_formed(out),
        has_tab(trim_spec(l)),
        forall|x: int| 0 <= x < out.len() ==> seq_lt(#[trigger] line_terms(out)[x], record_term(l)),
        sorted_keys(line_terms(out)),
    ensures
        lines_well_formed(out.push(l)),
        sorted_keys(line_terms(out.push(l))),
        line_terms(out.push(l)) == line_terms(out).push(record_term(l)),
{
    assert(line_terms(out.push(l)) =~= line_terms(out).push(record_term(l)));
    let o2 = out.push(l);
    assert forall|i: int| 0 <= i < o2.len() implies has_tab(trim_spec(#[trigger] o2[i])) by {
        if i < out.len() {
            assert(o2[i] == out[i]);
        }
    }
}

proof fn lemma_rewrite_prefix(ls: Seq<Seq<char>>, k: int, term: Seq<char>, info: Seq<char>)
    requires
        segment_ok(ls),
        0 <= k <= ls.len(),
        term.len() > 0,
        spaceless(term),
        info.len() > 0,
        !is_space(info.last()),
    ensures
        rewrite_inv(
            ls,
            k,
            term,
            rewrite_state(ls.subrange(0, k), term, info).0,
            rewrite_state(ls.subrange(0, k), term, info).1,
        ),
    decreases k,
{
    lemma_record_term(term, info);
    let rec = record_text(term, info);
    if k == 0 {
        assert(line_terms(Seq::<Seq<char>>::empty()) =~= Seq::<Seq<char>>::empty());
    } else {
        lemma_rewrite_prefix(ls, k - 1, term, info);
        let pre = ls.subrange(0, k);
        assert(pre.drop_last() =~= ls.subrange(0, k - 1));
        let (out, w) = rewrite_state(ls.subrange(0, k - 1), term, info);
        let l = ls[k - 1];
        assert(pre.last() == l);
        let t = record_term(l);
        assert(line_terms(ls)[k - 1] == t);
        assert(has_tab(trim_spec(l)));
        assert forall|x: int| 0 <= x < out.len() implies seq_lt(#[trigger] line_terms(out)[x], t) by {
            assert(seq_lt(line_terms(out)[x], line_terms(ls)[k - 1]));
        }
        assert forall|j: int| k <= j < ls.len() implies seq_lt(t, #[trigger] line_terms(ls)[j]) by {
            assert(seq_lt(line_terms(ls)[k - 1], line_terms(ls)[j]));
        }
        crate::ordmap::lemma_lt_total(term, t);
        if !w && seq_lt(term, t) {
            lemma_push_line(out, rec);
            let o1 = out.push(rec);
            assert forall|x: int| 0 <= x < o1.len() implies seq_lt(#[trigger] line_terms(o1)[x], t) by {
                if x < out.len() {
                    assert(line_terms(o1)[x] == line_terms(out)[x]);
                }
            }
            lemma_push_line(o1, l);
            let o2 = o1.push(l);
            assert forall|x: int, j: int| 0 <= x < o2.len() && k <= j < ls.len() implies seq_lt(
                #[trigger] line_terms(o2)[x],
                #[trigger] line_terms(ls)[j],
            ) by {
                if x < o1.len() {
                    assert(line_terms(o2)[x] == line_terms(o1)[x]);
                    crate::ordmap::lemma_lt_trans(line_terms(o1)[x], t, line_terms(ls)[j]);
                }
            }
        } else if t == term {
            lemma_push_line(out, rec);
            let o1 = out.push(rec);
            assert forall|x: int, j: int| 0 <= x < o1.len() && k <= j < ls.len() implies seq_lt(
                #[trigger] line_terms(o1)[x],
                #[trigger] line_terms(ls)[j],
            ) by {
                if x < out.len() {
                    assert(line_terms(o1)[x] == line_terms(out)[x]);
                    crate::ordmap::lemma_lt_trans(line_terms(out)[x], t, line_terms(ls)[j]);
                }
            }
        } else {
            lemma_push_line(out, l);
            let o1 = out.push(l);
            assert forall|x: int, j: int| 0 <= x < o1.len() && k <= j < ls.len() implies seq_lt(
                #[trigger] line_terms(o1)[x],
                #[trigger] line_terms(ls)[j],
            ) by {
                if x < out.len() {
                    assert(line_terms(o1)[x] == line_terms(out)[x]);
                    crate::ordmap::lemma_lt_trans(line_terms(out)[x], t, line_terms(ls)[j]);
                }
            }
            if !w {
                assert forall|x: int| 0 <= x < o1.len() implies seq_lt(#[trigger] line_terms(o1)[x], term) by {
                    if x < out.len() {
                        assert(line_terms(o1)[x] == line_terms(out)[x]);
                    } else {
                        assert(line_terms(o1)[x] == t);
                    }
                }
            }
        }
    }
}

/// After putting a record into a sorted segment, the segment is still sorted
/// by term, so that it holds each term at most once, when the new term is not
/// empty and holds no whitespace and its information does not end in
/// whitespace.
pub proof fn lemma_rewrite_sorted(ls: Seq<Seq<char>>, term: Seq<char>, info: Seq<char>)
    requires
        segment_ok(ls),
        term.len() > 0,
        spaceless(term),
        info.len() > 0,
        !is_space(info.last()),
    ensures
        segment_ok(rewritten_lines(ls, term, info)),
{
    lemma_rewrite_prefix(ls, ls.len() as int, term, info);
    assert(ls.subrange(0, ls.len() as int) =~= ls);
    lemma_record_term(term, info);
    let (out, w) = rewrite_state(ls, term, info);
    if !w {
        lemma_push_line(out, record_text(term, info));
    }
}


/// No line holds a newline.
pub open spec fn no_newlines(ls: Seq<Seq<char>>) -> bool {
    forall|i: int, k: int| 0 <= i < ls.len() && 0 <= k < ls[i].len() ==> (#[trigger] ls[i][k]) != '\n'
}

proof fn lemma_line_append(s: Seq<char>, l: Seq<char>)
    requires
        forall|k: int| 0 <= k < l.len() ==> l[k] != '\n',
    ensures
        line_state(s + l) == (line_state(s).0, line_state(s).1 + l),
    decreases l.len(),
{
    if l.len() == 0 {
        assert(s + l =~= s);
        assert(line_state(s).1 + l =~= line_state(s).1);
    } else {
        let l0 = l.drop_last();
        lemma_line_append(s, l0);
        assert((s + l).drop_last() =~= s + l0);
        assert((s + l).last() == l[l.len() - 1]);
        assert(line_state(s).1 + l =~= (line_state(s).1 + l0).push(l.last()));
    }
}

proof fn lemma_lines_of_join(ls: Seq<Seq<char>>)
    requires
        no_newlines(ls),
    ensures
        line_state(join_lines(ls)) == (ls, Seq::<char>::empty()),
        lines_of(join_lines(ls)) == ls,
    decreases ls.len(),
{
    reveal_strlit("\n");
    if ls.len() == 0 {
        assert(line_state(Seq::<char>::empty()) == (Seq::<Seq<char>>::empty(), Seq::<char>::empty()));
        assert(ls =~= Seq::<Seq<char>>::empty());
    } else {
        let l0 = ls.drop_last();
        assert(no_newlines(l0)) by {
            assert forall|i: int, k: int| 0 <= i < l0.len() && 0 <= k < l0[i].len() implies (
            #[trigger] l0[i][k]) != '\n' by {
                assert(l0[i] == ls[i]);
            }
        }
        lemma_lines_of_join(l0);
        let j0 = join_lines(l0);
        let l = ls.last();
        assert forall|k: int| 0 <= k < l.len() implies l[k] != '\n' by {
            assert(ls[ls.len() - 1][k] != '\n');
        }
        lemma_line_append(j0, l);
        assert(Seq::<char>::empty() + l =~= l);
        let s = j0 + l + "\n"@;
        assert(s.drop_last() =~= j0 + l);
        assert(s.last() == '\n');
        assert(join_lines(ls) == s);
        assert(l0.push(l) =~= ls);
    }
}

proof fn lemma_lines_of_no_newlines(s: Seq<char>)
    ensures
        no_newlines(lines_of(s)),
        no_newlines(line_state(s).0),
        forall|k: int| 0 <= k < line_state(s).1.len() ==> line_state(s).1[k] != '\n',
    decreases s.len(),
{
    if s.len() > 0 {
        lemma_lines_of_no_newlines(s.drop_last());
        let (ls, cur) = line_state(s.drop_last());
        if s.last() == '\n' {
            let l2 = ls.push(cur);
            assert forall|i: int, k: int| 0 <= i < l2.len() && 0 <= k < l2[i].len() implies (
            #[trigger] l2[i][k]) != '\n' by {
                if i < ls.len() {
                    assert(l2[i] == ls[i]);
                }
            }
        } else {
            let c2 = cur.push(s.last());
            assert forall|k: int| 0 <= k < c2.len() implies c2[k] != '\n' by {
                if k < cur.len() {
                    assert(c2[k] == cur[k]);
                }
            }
        }
    }
    let (ls, cur) = line_state(s);
    if cur.len() > 0 {
        let l2 = ls.push(cur);
        assert forall|i: int, k: int| 0 <= i < l2.len() && 0 <= k < l2[i].len() implies (
        #[trigger] l2[i][k]) != '\n' by {
            if i < ls.len() {
                assert(l2[i] == ls[i]);
            }
        }
    }
}

proof fn lemma_rewrite_no_newlines(ls: Seq<Seq<char>>, term: Seq<char>, info: Seq<char>)
    requires
        no_newlines(ls),
        forall|k: int| 0 <= k < record_text(term, info).len() ==> record_text(term, info)[k] != '\n',
    ensures
        no_newlines(rewrite_state(ls, term, info).0),
        no_newlines(rewritten_lines(ls, term, info)),
    decreases ls.len(),
{
    let rec = record_text(term, info);
    if ls.len() > 0 {
        let p = ls.drop_last();
        assert(no_newlines(p)) by {
            assert forall|i: int, k: int| 0 <= i < p.len() && 0 <= k < p[i].len() implies (
            #[trigger] p[i][k]) != '\n' by {
                assert(p[i] == ls[i]);
            }
        }
        lemma_rewrite_no_newlines(p, term, info);
        let (out, w) = rewrite_state(p, term, info);
        let l = ls.last();
        assert forall|k: int| 0 <= k < l.len() implies l[k] != '\n' by {
            assert(ls[ls.len() - 1][k] != '\n');
        }
        let o1 = out.push(rec);
        let o2 = out.push(l);
        let o3 = o1.push(l);
        assert forall|i: int, k: int| 0 <= i < o1.len() && 0 <= k < o1[i].len() implies (
        #[trigger] o1[i][k]) != '\n' by {
            if i < out.len() {
                assert(o1[i] == out[i]);
            }
        }
        assert forall|i: int, k: int| 0 <= i < o2.len() && 0 <= k < o2[i].len() implies (
        #[trigger] o2[i][k]) != '\n' by {
            if i < out.len() {
                assert(o2[i] == out[i]);
            }
        }
        assert forall|i: int, k: int| 0 <= i < o3.len() && 0 <= k < o3[i].len() implies (
        #[trigger] o3[i][k]) != '\n' by {
            if i < o1.len() {
                assert(o3[i] == o1[i]);
            }
        }
    }
    let (out, w) = rewrite_state(ls, term, info);
    let o1 = out.push(rec);
    assert forall|i: int, k: int| 0 <= i < o1.len() && 0 <= k < o1[i].len() implies (
    #[trigger] o1[i][k]) != '\n' by {
        if i < out.len() {
            assert(o1[i] == out[i]);
        }
    }
}

proof fn lemma_rewrite_terms(ls: Seq<Seq<char>>, term: Seq<char>, info: Seq<char>)
    requires
        record_term(record_text(term, info)) == term,
    ensures
        line_terms(rewrite_state(ls, term, info).0).to_set() == line_terms(ls).to_set() + (if rewrite_state(
            ls,
            term,
            info,
        ).1 {
            set![term]
        } else {
            Set::<Seq<char>>::empty()
        }),
    decreases ls.len(),
{
    let rec = record_text(term, info);
    if ls.len() == 0 {
        assert(line_terms(ls).to_set() =~= Set::<Seq<char>>::empty());
        assert(line_terms(Seq::<Seq<char>>::empty()).to_set() =~= Set::<Seq<char>>::empty());
    } else {
        let p = ls.drop_last();
        lemma_rewrite_terms(p, term, info);
        let (out, w) = rewrite_state(p, term, info);
        let l = ls.last();
        let t = record_term(l);
        assert(line_terms(ls) =~= line_terms(p).push(t));
        line_terms(p).lemma_push_to_set_commute(t);
        assert(line_terms(out.push(rec)) =~= line_terms(out).push(term));
        line_terms(out).lemma_push_to_set_commute(term);
        assert(line_terms(out.push(l)) =~= line_terms(out).push(t));
        line_terms(out).lemma_push_to_set_commute(t);
        assert(line_terms(out.push(rec).push(l)) =~= line_terms(out).push(term).push(t));
        line_terms(out).push(term).lemma_push_to_set_commute(t);
        let base = line_terms(p).to_set();
        let extra = if w { set![term] } else { Set::<Seq<char>>::empty() };
        if !w && seq_lt(term, t) {
            assert(line_terms(out.push(rec).push(l)).to_set() =~= base.insert(t) + set![term]);
        } else if t == term {
            assert(line_terms(out.push(rec)).to_set() =~= base.insert(t) + set![term]);
        } else {
            assert(line_terms(out.push(l)).to_set() =~= base.insert(t) + extra);
        }
    }
}

/// A segment written by `rewrite_segment` from a sorted segment reads back as
/// a sorted segment, holding each term at most once, whose terms are the old
/// ones and the new term, when the new term is not
/// empty and holds no whitespace and its information holds no newline and
/// does not end in whitespace.
pub proof fn lemma_saved_segment_sorted(content: Seq<char>, term: Seq<char>, info: Seq<char>)
    requires
        segment_ok(lines_of(content)),
        term.len() > 0,
        spaceless(term),
        info.len() > 0,
        !is_space(info.last()),
        forall|k: int| 0 <= k < info.len() ==> info[k] != '\n',
    ensures
        lines_of(join_lines(rewritten_lines(lines_of(content), term, info))) == rewritten_lines(
            lines_of(content),
            term,
            info,
        ),
        segment_ok(lines_of(join_lines(rewritten_lines(lines_of(content), term, info)))),
        line_terms(lines_of(join_lines(rewritten_lines(lines_of(content), term, info)))).to_set()
            == line_terms(lines_of(content)).to_set().insert(term),
{
    let ls = lines_of(content);
    lemma_lines_of_no_newlines(content);
    let rec = record_text(term, info);
    assert forall|k: int| 0 <= k < rec.len() implies rec[k] != '\n' by {
        reveal_strlit("\t");
        if k < term.len() {
            assert(rec[k] == term[k]);
            assert(!is_space(term[k]));
        } else if k == term.len() {
            assert(rec[k] == '\t');
        } else {
            assert(rec[k] == info[k - term.len() - 1]);
        }
    }
    lemma_rewrite_no_newlines(ls, term, info);
    lemma_lines_of_join(rewritten_lines(ls, term, info));
    lemma_rewrite_sorted(ls, term, info);
    lemma_record_term(term, info);
    lemma_rewrite_terms(ls, term, info);
    let (out, w) = rewrite_state(ls, term, info);
    if !w {
        assert(line_terms(out.push(rec)) =~= line_terms(out).push(term));
        line_terms(out).lemma_push_to_set_commute(term);
    }
    assert(line_terms(rewritten_lines(ls, term, info)).to_set() =~= line_terms(ls).to_set().insert(
        term,
    ));
}

} // verus!
