//! The search engine: an inverted index from terms to the documents that hold
//! them, the stored documents, and the evidence that BM25 ranking needs.

use vstd::prelude::*;
use crate::ordmap::OrdMap;
use crate::segment::{first_keys, lemma_first_keys_all, lemma_first_keys_step};
use crate::text::{normalize, normalize_string, split_whitespace, split_words, views};

verus! {

/// A count increased by one, held at its largest value.
pub open spec fn bump(n: u64) -> u64 {
    if n < u64::MAX {
        (n + 1) as u64
    } else {
        n
    }
}

/// The postings of a term in an index view, empty when the term is unknown.
pub open spec fn postings_in(
    ix: Map<Seq<char>, Map<Seq<char>, u64>>,
    t: Seq<char>,
) -> Map<Seq<char>, u64> {
    if ix.contains_key(t) {
        ix[t]
    } else {
        Map::empty()
    }
}

/// One more occurrence of term `t` in document `u`.
pub open spec fn add_posting(
    ix: Map<Seq<char>, Map<Seq<char>, u64>>,
    t: Seq<char>,
    u: Seq<char>,
) -> Map<Seq<char>, Map<Seq<char>, u64>> {
    let p = postings_in(ix, t);
    let n: u64 = if p.contains_key(u) {
        p[u]
    } else {
        0
    };
    ix.insert(t, p.insert(u, bump(n)))
}

/// One more occurrence in document `u` of each word of `ws`, in order.
pub open spec fn add_words(
    ix: Map<Seq<char>, Map<Seq<char>, u64>>,
    ws: Seq<Seq<char>>,
    u: Seq<char>,
) -> Map<Seq<char>, Map<Seq<char>, u64>>
    decreases ws.len(),
{
    if ws.len() == 0 {
        ix
    } else {
        add_posting(add_words(ix, ws.drop_last(), u), ws.last(), u)
    }
}

/// The words under which a document's content is indexed.
pub open spec fn index_words(content: Seq<char>) -> Seq<Seq<char>> {
    split_words(normalize(content))
}

/// The number of bytes of the UTF-8 encoding of `s`.
pub open spec fn byte_len(s: Seq<char>) -> nat {
    vstd::utf8::encode_utf8(s).len()
}

/// What a keyword contributes to the score of one document: the number of
/// documents that hold the keyword, its number of occurrences in this
/// document, and this document's length in bytes.
#[derive(Clone, Copy, Debug, PartialEq, Eq)]
pub struct TermHit {
    pub postings: usize,
    pub freq: u64,
    pub doc_len: usize,
}

/// A contribution as numbers: postings, occurrences, document length.
pub open spec fn hit_view(h: TermHit) -> (nat, u64, nat) {
    (h.postings as nat, h.freq, h.doc_len as nat)
}

/// The contributions of a list, as numbers.
pub open spec fn hit_views(hs: Seq<TermHit>) -> Seq<(nat, u64, nat)> {
    hs.map_values(|h: TermHit| hit_view(h))
}

/// The keywords of a query.
pub open spec fn query_words(q: Seq<char>) -> Seq<Seq<char>> {
    split_words(normalize(q))
}

/// For document `u`, what each keyword of `kws` that occurs in it contributes,
/// in the order of the keywords. A keyword is looked up by its normal form.
pub open spec fn hits_for(
    ix: Map<Seq<char>, Map<Seq<char>, u64>>,
    docs: Map<Seq<char>, Seq<char>>,
    kws: Seq<Seq<char>>,
    u: Seq<char>,
) -> Seq<(nat, u64, nat)>
    decreases kws.len(),
{
    if kws.len() == 0 {
        Seq::empty()
    } else {
        let prev = hits_for(ix, docs, kws.drop_last(), u);
        let p = postings_in(ix, normalize(kws.last()));
        if p.contains_key(u) {
            prev.push((p.len(), p[u], byte_len(docs[u])))
        } else {
            prev
        }
    }
}

/// The evidence for ranking the documents that match a query: the corpus size
/// and total length, and for each matching document what each matching
/// keyword contributes.
pub struct SearchHits {
    pub n_docs: usize,
    pub total_len: u128,
    pub hits: OrdMap<Vec<TermHit>>,
}

impl SearchHits {
    pub open spec fn wf(&self) -> bool {
        self.hits.wf()
    }

    /// Document URL to the contributions of its matching keywords.
    pub open spec fn hits_map(&self) -> Map<Seq<char>, Seq<(nat, u64, nat)>> {
        Map::new(|u: Seq<char>| self.hits@.contains_key(u), |u: Seq<char>| hit_views(self.hits@[u]@))
    }

    /// The number of matching documents.
    pub fn len(&self) -> (r: usize)
        requires
            self.wf(),
        ensures
            r == self.hits@.len(),
    {
        self.hits.len()
    }
}

/// Relies on `String::len`: the length of the string in bytes.
pub assume_specification[ std::string::String::len ](s: &std::string::String) -> (r: usize)
    ensures
        r as nat == byte_len(s@),
;

/// Document URL to the contributions of the keywords `kws`, for the documents
/// that at least one of them matches.
pub open spec fn search_map(
    ix: Map<Seq<char>, Map<Seq<char>, u64>>,
    docs: Map<Seq<char>, Seq<char>>,
    kws: Seq<Seq<char>>,
) -> Map<Seq<char>, Seq<(nat, u64, nat)>> {
    Map::new(
        |u: Seq<char>| docs.contains_key(u) && hits_for(ix, docs, kws, u).len() > 0,
        |u: Seq<char>| hits_for(ix, docs, kws, u),
    )
}

/// Key to value view, of a map of strings.
pub open spec fn string_map(m: OrdMap<String>) -> Map<Seq<char>, Seq<char>> {
    Map::new(|u: Seq<char>| m@.contains_key(u), |u: Seq<char>| m@[u]@)
}

/// Term to postings view, of a map of postings.
pub open spec fn nested_map(m: OrdMap<OrdMap<u64>>) -> Map<Seq<char>, Map<Seq<char>, u64>> {
    Map::new(|t: Seq<char>| m@.contains_key(t), |t: Seq<char>| m@[t]@)
}

/// The engine's state as plain lists: each term with its postings, and each
/// document URL with its content.
pub struct SavedIndex {
    pub index_btree_map: Vec<(String, Vec<(String, u64)>)>,
    pub documents_btree_map: Vec<(String, String)>,
}

/// The documents of a list of pairs; a later pair for a URL wins.
pub open spec fn pairs_docs(ps: Seq<(String, String)>) -> Map<Seq<char>, Seq<char>>
    decreases ps.len(),
{
    if ps.len() == 0 {
        Map::empty()
    } else {
        pairs_docs(ps.drop_last()).insert(ps.last().0@, ps.last().1@)
    }
}

/// The postings of a list of pairs; a later pair for a URL wins.
pub open spec fn pairs_postings(ps: Seq<(String, u64)>) -> Map<Seq<char>, u64>
    decreases ps.len(),
{
    if ps.len() == 0 {
        Map::empty()
    } else {
        pairs_postings(ps.drop_last()).insert(ps.last().0@, ps.last().1)
    }
}

/// The index of a list of terms with postings; a later entry for a term wins.
pub open spec fn pairs_index(ps: Seq<(String, Vec<(String, u64)>)>) -> Map<
    Seq<char>,
    Map<Seq<char>, u64>,
>
    decreases ps.len(),
{
    if ps.len() == 0 {
        Map::empty()
    } else {
        pairs_index(ps.drop_last()).insert(ps.last().0@, pairs_postings(ps.last().1@))
    }
}

/// A saved term entry is sound: it has postings, each with a count of at
/// least one and a URL among the saved documents.
pub open spec fn saved_entry_ok(
    ps: Seq<(String, u64)>,
    docs: Map<Seq<char>, Seq<char>>,
) -> bool {
    ps.len() > 0 && forall|j: int|
        0 <= j < ps.len() ==> (#[trigger] ps[j]).1 >= 1 && docs.contains_key(ps[j].0@)
}

/// Every saved term entry is sound.
pub open spec fn saved_ok(s: SavedIndex) -> bool {
    forall|i: int|
        0 <= i < s.index_btree_map@.len() ==> saved_entry_ok(
            (#[trigger] s.index_btree_map@[i]).1@,
            pairs_docs(s.documents_btree_map@),
        )
}

/// An inverted index over stored documents.
pub struct SearchEngine {
    index: OrdMap<OrdMap<u64>>,
    documents: OrdMap<String>,
}

impl SearchEngine {
    /// Term to postings: each postings map takes a document URL to the number of
    /// occurrences of the term in it.
    pub closed spec fn index_map(&self) -> Map<Seq<char>, Map<Seq<char>, u64>> {
        nested_map(self.index)
    }

    /// URL to stored content.
    pub closed spec fn docs_map(&self) -> Map<Seq<char>, Seq<char>> {
        string_map(self.documents)
    }

    /// The URLs of the stored documents, in ascending order.
    pub closed spec fn urls(&self) -> Seq<Seq<char>> {
        self.documents.key_seq()
    }

    /// The terms of the index, in ascending order.
    pub closed spec fn terms(&self) -> Seq<Seq<char>> {
        self.index.key_seq()
    }

    /// Every term has at least one posting, every count is at least one, and
    /// every URL in a posting is a stored document.
    pub open spec fn postings_ok(
        ix: Map<Seq<char>, Map<Seq<char>, u64>>,
        docs: Map<Seq<char>, Seq<char>>,
    ) -> bool {
        forall|t: Seq<char>|
            #[trigger] ix.contains_key(t) ==> {
                &&& ix[t].len() > 0
                &&& ix[t].dom().finite()
                &&& forall|u: Seq<char>|
                    #[trigger] ix[t].contains_key(u) ==> ix[t][u] >= 1 && docs.contains_key(u)
            }
    }

    pub closed spec fn wf(&self) -> bool {
        &&& self.index.wf()
        &&& self.documents.wf()
        &&& forall|t: Seq<char>| #[trigger] self.index@.contains_key(t) ==> self.index@[t].wf()
        &&& Self::postings_ok(self.index_map(), self.docs_map())
    }

    /// The indexed view of the stored documents: the URLs in ascending order are
    /// those of `docs_map`.
    pub proof fn lemma_urls(&self)
        requires
            self.wf(),
        ensures
            self.urls().to_set() =~= self.docs_map().dom(),
            self.urls().len() == self.docs_map().len(),
            self.docs_map().dom().finite(),
    {
        self.documents.lemma_dom();
        assert(self.docs_map().dom() =~= self.documents@.dom());
    }

    /// An engine with no documents.
    pub fn new() -> (r: Self)
        ensures
            r.wf(),
            r.index_map() == Map::<Seq<char>, Map<Seq<char>, u64>>::empty(),
            r.docs_map() == Map::<Seq<char>, Seq<char>>::empty(),
    {
        let r = SearchEngine { index: OrdMap::new(), documents: OrdMap::new() };
        assert(r.index_map() =~= Map::<Seq<char>, Map<Seq<char>, u64>>::empty());
        assert(r.docs_map() =~= Map::<Seq<char>, Seq<char>>::empty());
        r
    }

    /// The number of stored documents.
    pub fn number_of_documents(&self) -> (r: usize)
        requires
            self.wf(),
        ensures
            r == self.docs_map().len(),
    {
        proof {
            self.lemma_urls();
        }
        self.documents.len()
    }

    /// The URLs of the stored documents, in ascending order.
    pub fn posts(&self) -> (r: Vec<String>)
        requires
            self.wf(),
        ensures
            views(r@) == self.urls(),
            r@.len() == self.docs_map().len(),
            views(r@).to_set() == self.docs_map().dom(),
            crate::ordmap::sorted_keys(views(r@)),
    {
        proof {
            self.lemma_urls();
            self.documents.lemma_len();
        }
        let mut r: Vec<String> = Vec::new();
        let n = self.documents.len();
        let mut i: usize = 0;
        while i < n
            invariant
                self.wf(),
                n == self.urls().len(),
                0 <= i <= n,
                views(r@) == self.urls().subrange(0, i as int),
            decreases n - i,
        {
            let u = self.documents.key_at(i).clone();
            let ghost before = r@;
            r.push(u);
            assert(r@ == before.push(u));
            assert(u@ == self.urls()[i as int]);
            assert(views(r@) =~= views(before).push(u@));
            assert(views(r@) =~= self.urls().subrange(0, i + 1));
            i = i + 1;
        }
        assert(self.urls().subrange(0, n as int) =~= self.urls());
        r
    }

    /// Counts one more occurrence of `term` in the stored document `url`.
    fn add_posting(&mut self, term: String, url: &str)
        requires
            old(self).wf(),
            old(self).docs_map().contains_key(url@),
        ensures
            final(self).wf(),
            final(self).index_map() == add_posting(old(self).index_map(), term@, url@),
            final(self).docs_map() == old(self).docs_map(),
            final(self).urls() == old(self).urls(),
    {
        let ghost t = term@;
        let ghost ix = old(self).index_map();
        let (found, i) = self.index.find(term.as_str());
        if found {
            proof {
                self.index.lemma_at(i as int);
            }
            let mut p = self.index.replace_at(i, OrdMap::new());
            let n: u64 = match p.get(url) {
                Some(c) => *c,
                None => 0,
            };
            let m: u64 = if n < u64::MAX {
                n + 1
            } else {
                n
            };
            p.insert(url.to_owned(), m);
            let ghost pv = p@;
            let _ = self.index.replace_at(i, p);
            proof {
                assert(ix.contains_key(t));
                assert(self.index_map() =~= ix.insert(t, pv));
                assert(pv == postings_in(ix, t).insert(url@, bump(n)));
                assert(pv.len() > 0) by {
                    assert(pv.dom().contains(url@));
                    vstd::set_lib::lemma_len_subset(set![url@], pv.dom());
                }
            }
        } else {
            let mut p: OrdMap<u64> = OrdMap::new();
            p.insert(url.to_owned(), 1);
            let ghost pv = p@;
            self.index.insert(term, p);
            proof {
                assert(!ix.contains_key(t));
                assert(self.index_map() =~= ix.insert(t, pv));
                assert(pv =~= Map::<Seq<char>, u64>::empty().insert(url@, 1));
                assert(pv.len() > 0) by {
                    assert(pv.dom().contains(url@));
                    vstd::set_lib::lemma_len_subset(set![url@], pv.dom());
                }
            }
        }
    }

    /// Stores `content` under `url`, replacing any earlier content, and counts
    /// one occurrence in `url` of each word of the normalized content.
    pub fn index(&mut self, url: &str, content: &str)
        requires
            old(self).wf(),
        ensures
            final(self).wf(),
            final(self).docs_map() == old(self).docs_map().insert(url@, content@),
            final(self).index_map() == add_words(
                old(self).index_map(),
                index_words(content@),
                url@,
            ),
    {
        let ghost ix0 = self.index_map();
        let ghost d0 = self.docs_map();
        self.documents.insert(url.to_owned(), content.to_owned());
        proof {
            assert(self.docs_map() =~= d0.insert(url@, content@));
            assert(self.index_map() =~= ix0);
        }
        let norm = normalize_string(content);
        let words = split_whitespace(norm.as_str());
        let ghost ws = views(words@);
        let mut j: usize = 0;
        while j < words.len()
            invariant
                self.wf(),
                0 <= j <= words.len(),
                ws == views(words@),
                ws == index_words(content@),
                self.docs_map() == d0.insert(url@, content@),
                self.index_map() == add_words(ix0, ws.subrange(0, j as int), url@),
            decreases words.len() - j,
        {
            let w = words[j].clone();
            self.add_posting(w, url);
            proof {
                let next = ws.subrange(0, j + 1);
                assert(next.drop_last() =~= ws.subrange(0, j as int));
                assert(next.last() == ws[j as int]);
            }
            j = j + 1;
        }
        assert(ws.subrange(0, words.len() as int) =~= ws);
    }

    /// Indexes each pair of URL and content in order, as `index` does.
    pub fn bulk_index(&mut self, documents: Vec<(&str, &str)>)
        requires
            old(self).wf(),
        ensures
            final(self).wf(),
            final(self).docs_map() == bulk_docs(old(self).docs_map(), pair_views(documents@)),
            final(self).index_map() == bulk_words(old(self).index_map(), pair_views(documents@)),
    {
        let ghost ps = pair_views(documents@);
        let ghost ix0 = self.index_map();
        let ghost d0 = self.docs_map();
        let mut i: usize = 0;
        while i < documents.len()
            invariant
                self.wf(),
                0 <= i <= documents.len(),
                ps == pair_views(documents@),
                self.docs_map() == bulk_docs(d0, ps.subrange(0, i as int)),
                self.index_map() == bulk_words(ix0, ps.subrange(0, i as int)),
            decreases documents.len() - i,
        {
            let (u, c) = documents[i];
            self.index(u, c);
            proof {
                let next = ps.subrange(0, i + 1);
                assert(next.drop_last() =~= ps.subrange(0, i as int));
            }
            i = i + 1;
        }
        assert(ps.subrange(0, documents.len() as int) =~= ps);
    }

    /// The sum of the byte lengths of the stored documents.
    pub closed spec fn total_len(&self) -> nat {
        sum_lens(self.documents.val_seq())
    }

    /// The postings of `keyword` after normalizing it, empty when it is unknown.
    pub fn get_urls(&self, keyword: &str) -> (r: OrdMap<u64>)
        requires
            self.wf(),
        ensures
            r.wf(),
            r@ == postings_in(self.index_map(), normalize(keyword@)),
    {
        let key = normalize_string(keyword);
        match self.index.get(key.as_str()) {
            Some(p) => p.duplicate(),
            None => {
                let r = OrdMap::new();
                assert(r@ =~= postings_in(self.index_map(), normalize(keyword@)));
                r
            },
        }
    }

    /// The sum of the byte lengths of the stored documents.
    pub fn total_length(&self) -> (r: u128)
        requires
            self.wf(),
        ensures
            r == self.total_len(),
    {
        let n = self.documents.len();
        proof {
            self.documents.lemma_len();
        }
        let mut total: u128 = 0;
        let mut i: usize = 0;
        while i < n
            invariant
                self.wf(),
                n == self.documents.val_seq().len(),
                n == self.documents.key_seq().len(),
                0 <= i <= n,
                total == sum_lens(self.documents.val_seq().subrange(0, i as int)),
                total <= i * (usize::MAX as nat),
            decreases n - i,
        {
            let c = self.documents.val_at(i);
            let l = c.len();
            proof {
                let vs = self.documents.val_seq();
                assert(vs.subrange(0, i + 1).drop_last() =~= vs.subrange(0, i as int));
                assert((i + 1) * (usize::MAX as nat) == i * (usize::MAX as nat) + usize::MAX)
                    by (nonlinear_arith);
                assert((i + 1) * (usize::MAX as nat) <= (usize::MAX as nat) * (usize::MAX as nat))
                    by (nonlinear_arith)
                    requires
                        i + 1 <= usize::MAX,
                ;
                assert((usize::MAX as nat) * (usize::MAX as nat) < u128::MAX) by (nonlinear_arith);
            }
            total = total + l as u128;
            i = i + 1;
        }
        proof {
            assert(self.documents.val_seq().subrange(0, n as int) =~= self.documents.val_seq());
        }
        total
    }

    /// Gathers, for each document that a keyword of the normalized query
    /// matches, what each matching keyword contributes to its BM25 score.
    pub fn search(&self, query: &str) -> (r: SearchHits)
        requires
            self.wf(),
        ensures
            r.wf(),
            r.n_docs == self.docs_map().len(),
            r.total_len == self.total_len(),
            r.hits_map() == search_map(self.index_map(), self.docs_map(), query_words(query@)),
    {
        let ghost ix = self.index_map();
        let ghost docs = self.docs_map();
        let n_docs = self.number_of_documents();
        let total_len = self.total_length();
        let mut acc: OrdMap<Vec<TermHit>> = OrdMap::new();
        let norm = normalize_string(query);
        let kws = split_whitespace(norm.as_str());
        let ghost ks = views(kws@);
        if n_docs == 0 {
            proof {
                self.lemma_urls();
                let q = query_words(query@);
                assert forall|u: Seq<char>| !docs.contains_key(u) by {
                    if docs.contains_key(u) {
                        assert(docs.dom().contains(u));
                    }
                }
                assert(search_map(ix, docs, q) =~= Map::<Seq<char>, Seq<(nat, u64, nat)>>::empty());
                assert(SearchHits { n_docs, total_len, hits: acc }.hits_map() =~= Map::<
                    Seq<char>,
                    Seq<(nat, u64, nat)>,
                >::empty());
            }
            return SearchHits { n_docs, total_len, hits: acc };
        }
        let mut j: usize = 0;
        proof {
            assert(Self::acc_map(acc) =~= search_map(ix, docs, ks.subrange(0, 0)));
        }
        while j < kws.len()
            invariant
                self.wf(),
                ix == self.index_map(),
                docs == self.docs_map(),
                ks == views(kws@),
                0 <= j <= kws.len(),
                acc.wf(),
                Self::acc_map(acc) == search_map(ix, docs, ks.subrange(0, j as int)),
            decreases kws.len() - j,
        {
            let key = normalize_string(kws[j].as_str());
            let ghost pre = ks.subrange(0, j as int);
            let ghost next = ks.subrange(0, j + 1);
            proof {
                assert(next.drop_last() =~= pre);
                assert(next.last() == ks[j as int]);
            }
            match self.index.get(key.as_str()) {
                None => {
                    proof {
                        assert forall|u: Seq<char>| #[trigger] hits_for(ix, docs, next, u) == hits_for(
                            ix,
                            docs,
                            pre,
                            u,
                        ) by {
                            assert(postings_in(ix, key@) =~= Map::<Seq<char>, u64>::empty());
                        }
                        assert(search_map(ix, docs, next) =~= search_map(ix, docs, pre));
                    }
                },
                Some(p) => {
                    let np = p.len();
                    let ghost pk = p.key_seq();
                    proof {
                        assert(p@ == ix[key@]);
                        p.lemma_len();
                        p.lemma_entries();
                    }
                    let mut i: usize = 0;
                    while i < np
                        invariant
                            self.wf(),
                            ix == self.index_map(),
                            docs == self.docs_map(),
                            p.wf(),
                            p@ == postings_in(ix, normalize(ks[j as int])),
                            np == p@.len(),
                            np == pk.len(),
                            pk == p.key_seq(),
                            pk.len() == p.val_seq().len(),
                            j < ks.len(),
                            next == ks.subrange(0, j + 1),
                            key@ == normalize(ks[j as int]),
                            crate::ordmap::sorted_keys(pk),
                            next.drop_last() == pre,
                            next.last() == ks[j as int],
                            0 <= i <= np,
                            acc.wf(),
                            Self::acc_map(acc) == Self::partial_map(ix, docs, pre, next, pk, i as int),
                        decreases np - i,
                    {
                        let u = p.key_at(i);
                        let f = *p.val_at(i);
                        proof {
                            assert(p@.contains_key(u@));
                            assert(docs.contains_key(u@));
                            assert(self.documents@.contains_key(u@));
                        }
                        let c = self.documents.get(u.as_str());
                        let dl = match c {
                            Some(c) => c.len(),
                            None => 0,
                        };
                        let hit = TermHit { postings: np, freq: f, doc_len: dl };
                        let ghost h = hit_view(hit);
                        proof {
                            assert(h == (p@.len(), p@[u@], byte_len(docs[u@])));
                            assert(postings_in(ix, normalize(next.last())) == p@);
                            assert(hits_for(ix, docs, next, u@) == hits_for(ix, docs, pre, u@).push(h));
                        }
                        let ghost before = Self::acc_map(acc);
                        Self::append_hit(&mut acc, u, hit);
                        proof {
                            Self::lemma_partial_step(ix, docs, pre, next, pk, i as int);
                            assert(u@ == pk[i as int]);
                            let prev = hits_for(ix, docs, pre, u@);
                            if !before.contains_key(u@) {
                                assert(prev.len() == 0);
                                assert(prev =~= Seq::<(nat, u64, nat)>::empty());
                            } else {
                                assert(before[u@] == prev);
                            }
                            assert(Self::acc_map(acc) =~= Self::partial_map(ix, docs, pre, next, pk, i + 1));
                        }
                        i = i + 1;
                    }
                    proof {
                        assert(Self::partial_map(ix, docs, pre, next, pk, np as int) =~= search_map(ix, docs, next)) by {
                            assert forall|u: Seq<char>| !pk.contains(u) implies #[trigger] hits_for(ix, docs, next, u) == hits_for(ix, docs, pre, u) by {
                                if p@.contains_key(u) {
                                    let k = choose|k: int| 0 <= k < pk.len() && pk[k] == u;
                                    assert(pk.contains(u));
                                }
                            }
                            assert(pk.subrange(0, np as int) =~= pk);
                        }
                    }
                },
            }
            j = j + 1;
        }
        proof {
            assert(ks.subrange(0, kws.len() as int) =~= ks);
        }
        let r = SearchHits { n_docs, total_len, hits: acc };
        assert(r.hits_map() =~= Self::acc_map(acc));
        r
    }

    /// Document URL to contributions, of an accumulator.
    pub open spec fn acc_map(acc: OrdMap<Vec<TermHit>>) -> Map<Seq<char>, Seq<(nat, u64, nat)>> {
        Map::new(|u: Seq<char>| acc@.contains_key(u), |u: Seq<char>| hit_views(acc@[u]@))
    }

    /// The accumulator after the keywords of `pre`, and then the keyword that
    /// ends `next` for the documents among the first `i` of `pk`.
    pub open spec fn partial_map(
        ix: Map<Seq<char>, Map<Seq<char>, u64>>,
        docs: Map<Seq<char>, Seq<char>>,
        pre: Seq<Seq<char>>,
        next: Seq<Seq<char>>,
        pk: Seq<Seq<char>>,
        i: int,
    ) -> Map<Seq<char>, Seq<(nat, u64, nat)>> {
        Map::new(
            |u: Seq<char>|
                docs.contains_key(u) && (if pk.subrange(0, i).contains(u) {
                    hits_for(ix, docs, next, u)
                } else {
                    hits_for(ix, docs, pre, u)
                }).len() > 0,
            |u: Seq<char>|
                if pk.subrange(0, i).contains(u) {
                    hits_for(ix, docs, next, u)
                } else {
                    hits_for(ix, docs, pre, u)
                },
        )
    }

    proof fn lemma_partial_step(
        ix: Map<Seq<char>, Map<Seq<char>, u64>>,
        docs: Map<Seq<char>, Seq<char>>,
        pre: Seq<Seq<char>>,
        next: Seq<Seq<char>>,
        pk: Seq<Seq<char>>,
        i: int,
    )
        requires
            0 <= i < pk.len(),
            crate::ordmap::sorted_keys(pk),
            docs.contains_key(pk[i]),
            hits_for(ix, docs, next, pk[i]).len() > 0,
        ensures
            Self::partial_map(ix, docs, pre, next, pk, i + 1) == Self::partial_map(
                ix,
                docs,
                pre,
                next,
                pk,
                i,
            ).insert(pk[i], hits_for(ix, docs, next, pk[i])),
            !pk.subrange(0, i).contains(pk[i]),
    {
        let a = pk.subrange(0, i);
        let b = pk.subrange(0, i + 1);
        assert(b =~= a.push(pk[i]));
        if a.contains(pk[i]) {
            let k = choose|k: int| 0 <= k < a.len() && a[k] == pk[i];
            crate::ordmap::lemma_lt_irrefl(pk[i]);
        }
        assert forall|u: Seq<char>| b.contains(u) <==> (a.contains(u) || u == pk[i]) by {
            if b.contains(u) && u != pk[i] {
                let k = choose|k: int| 0 <= k < b.len() && b[k] == u;
                assert(a[k] == u);
            }
            if u == pk[i] {
                assert(b[i] == u);
            }
            if a.contains(u) {
                let k = choose|k: int| 0 <= k < a.len() && a[k] == u;
                assert(b[k] == u);
            }
        }
        assert(Self::partial_map(ix, docs, pre, next, pk, i + 1) =~= Self::partial_map(
            ix,
            docs,
            pre,
            next,
            pk,
            i,
        ).insert(pk[i], hits_for(ix, docs, next, pk[i])));
    }

    /// Appends `hit` to the contributions of `u` in the accumulator.
    fn append_hit(acc: &mut OrdMap<Vec<TermHit>>, u: &String, hit: TermHit)
        requires
            old(acc).wf(),
        ensures
            final(acc).wf(),
            Self::acc_map(*final(acc)) == Self::acc_map(*old(acc)).insert(
                u@,
                (if Self::acc_map(*old(acc)).contains_key(u@) {
                    Self::acc_map(*old(acc))[u@]
                } else {
                    Seq::empty()
                }).push(hit_view(hit)),
            ),
    {
        let ghost a0 = Self::acc_map(*acc);
        let (found, pos) = acc.find(u.as_str());
        if found {
            proof {
                acc.lemma_at(pos as int);
            }
            let mut v = acc.replace_at(pos, Vec::new());
            let ghost v0 = v@;
            v.push(hit);
            let ghost v1 = v@;
            let _ = acc.replace_at(pos, v);
            proof {
                assert(hit_views(v1) =~= hit_views(v0).push(hit_view(hit)));
                assert(Self::acc_map(*acc) =~= a0.insert(u@, hit_views(v1)));
            }
        } else {
            let mut v: Vec<TermHit> = Vec::new();
            v.push(hit);
            let ghost v1 = v@;
            acc.insert(u.clone(), v);
            proof {
                assert(hit_views(v1) =~= Seq::<(nat, u64, nat)>::empty().push(hit_view(hit)));
                assert(Self::acc_map(*acc) =~= a0.insert(u@, hit_views(v1)));
            }
        }
    }

    /// The state as plain lists in ascending key order.
    pub fn to_saved(&self) -> (r: SavedIndex)
        requires
            self.wf(),
        ensures
            pairs_index(r.index_btree_map@) == self.index_map(),
            pairs_docs(r.documents_btree_map@) == self.docs_map(),
            saved_ok(r),
            r.index_btree_map@.map_values(|e: (String, Vec<(String, u64)>)| e.0@) == self.terms(),
            r.documents_btree_map@.map_values(|e: (String, String)| e.0@) == self.urls(),
    {
        let mut docs: Vec<(String, String)> = Vec::new();
        let nd = self.documents.len();
        proof {
            self.documents.lemma_len();
            assert(pairs_docs(docs@) =~= self.docs_map().restrict(first_keys(self.documents, 0)));
        }
        let mut i: usize = 0;
        while i < nd
            invariant
                self.wf(),
                nd == self.documents.key_seq().len(),
                0 <= i <= nd,
                pairs_docs(docs@) == self.docs_map().restrict(first_keys(self.documents, i as int)),
                docs@.map_values(|e: (String, String)| e.0@) == self.urls().subrange(0, i as int),
                docs@.len() == i,
            decreases nd - i,
        {
            let k = self.documents.key_at(i).clone();
            let v = self.documents.val_at(i).clone();
            proof {
                lemma_first_keys_step(self.documents, i as int);
            }
            let ghost before = docs@;
            docs.push((k, v));
            assert(docs@.drop_last() =~= before);
            assert(pairs_docs(docs@) =~= self.docs_map().restrict(first_keys(self.documents, i + 1)));
            assert(docs@[i as int].0@ == self.urls()[i as int]);
            assert(docs@.map_values(|e: (String, String)| e.0@) =~= before.map_values(
                |e: (String, String)| e.0@,
            ).push(self.urls()[i as int]));
            assert(docs@.map_values(|e: (String, String)| e.0@) =~= self.urls().subrange(0, i + 1));
            i = i + 1;
        }
        proof {
            lemma_first_keys_all(self.documents);
            assert(pairs_docs(docs@) =~= self.docs_map());
            assert(self.urls().subrange(0, nd as int) =~= self.urls());
        }
        let mut index: Vec<(String, Vec<(String, u64)>)> = Vec::new();
        let nt = self.index.len();
        proof {
            self.index.lemma_len();
            assert(pairs_index(index@) =~= self.index_map().restrict(first_keys(self.index, 0)));
        }
        let mut t: usize = 0;
        while t < nt
            invariant
                self.wf(),
                pairs_docs(docs@) == self.docs_map(),
                nt == self.index.key_seq().len(),
                0 <= t <= nt,
                pairs_index(index@) == self.index_map().restrict(first_keys(self.index, t as int)),
                docs@.map_values(|e: (String, String)| e.0@) == self.urls(),
                index@.map_values(|e: (String, Vec<(String, u64)>)| e.0@) == self.terms().subrange(0, t as int),
                index@.len() == t,
                forall|k: int|
                    0 <= k < index@.len() ==> saved_entry_ok(
                        (#[trigger] index@[k]).1@,
                        pairs_docs(docs@),
                    ),
            decreases nt - t,
        {
            let term = self.index.key_at(t).clone();
            let p = self.index.val_at(t);
            proof {
                lemma_first_keys_step(self.index, t as int);
                assert(p.wf());
                assert(Self::postings_ok(self.index_map(), self.docs_map()));
                assert(self.index_map().contains_key(term@));
                p.lemma_len();
                p.lemma_dom();
            }
            let np = p.len();
            let mut list: Vec<(String, u64)> = Vec::new();
            proof {
                assert(pairs_postings(list@) =~= p@.restrict(first_keys(*p, 0)));
            }
            let mut j: usize = 0;
            while j < np
                invariant
                    p.wf(),
                    np == p.key_seq().len(),
                    0 <= j <= np,
                    list@.len() == j,
                    pairs_postings(list@) == p@.restrict(first_keys(*p, j as int)),
                    forall|m: int|
                        0 <= m < j ==> (#[trigger] list@[m]).1 == p@[list@[m].0@] && p@.contains_key(
                            list@[m].0@,
                        ),
                decreases np - j,
            {
                let u = p.key_at(j).clone();
                let f = *p.val_at(j);
                proof {
                    lemma_first_keys_step(*p, j as int);
                }
                let ghost before = list@;
                list.push((u, f));
                assert(list@.drop_last() =~= before);
                assert(pairs_postings(list@) =~= p@.restrict(first_keys(*p, j + 1)));
                j = j + 1;
            }
            proof {
                lemma_first_keys_all(*p);
                assert(pairs_postings(list@) =~= p@);
                assert(saved_entry_ok(list@, pairs_docs(docs@)));
            }
            let ghost before = index@;
            let ghost pv = p@;
            index.push((term, list));
            assert(index@.drop_last() =~= before);
            assert(pairs_index(index@) =~= self.index_map().restrict(first_keys(self.index, t + 1)));
            assert(index@[t as int].0@ == self.terms()[t as int]);
            assert(index@.map_values(|e: (String, Vec<(String, u64)>)| e.0@) =~= before.map_values(
                |e: (String, Vec<(String, u64)>)| e.0@,
            ).push(self.terms()[t as int]));
            assert(index@.map_values(|e: (String, Vec<(String, u64)>)| e.0@) =~= self.terms().subrange(0, t + 1));
            t = t + 1;
        }
        proof {
            lemma_first_keys_all(self.index);
            assert(pairs_index(index@) =~= self.index_map());
            assert(self.terms().subrange(0, nt as int) =~= self.terms());
        }
        SavedIndex { index_btree_map: index, documents_btree_map: docs }
    }

    /// The engine that a saved state describes: `None` exactly when a term
    /// entry has no postings, a count below one, or a URL that is not a saved
    /// document.
    pub fn from_saved(saved: &SavedIndex) -> (r: Option<SearchEngine>)
        ensures
            r is Some <==> saved_ok(*saved),
            r matches Some(e) ==> e.wf() && e.index_map() == pairs_index(saved.index_btree_map@)
                && e.docs_map() == pairs_docs(saved.documents_btree_map@),
    {
        let ds = &saved.documents_btree_map;
        let ix = &saved.index_btree_map;
        let mut documents: OrdMap<String> = OrdMap::new();
        let mut i: usize = 0;
        assert(string_map(documents) =~= pairs_docs(ds@.subrange(0, 0)));
        while i < ds.len()
            invariant
                0 <= i <= ds.len(),
                documents.wf(),
                string_map(documents) == pairs_docs(ds@.subrange(0, i as int)),
            decreases ds.len() - i,
        {
            let k = ds[i].0.clone();
            let v = ds[i].1.clone();
            let ghost before = string_map(documents);
            let ghost kv = k@;
            let ghost vv = v@;
            documents.insert(k, v);
            assert(ds@.subrange(0, i + 1).drop_last() =~= ds@.subrange(0, i as int));
            assert(string_map(documents) =~= before.insert(kv, vv));
            i = i + 1;
        }
        assert(ds@.subrange(0, ds.len() as int) =~= ds@);
        let ghost docs = pairs_docs(ds@);
        let mut index: OrdMap<OrdMap<u64>> = OrdMap::new();
        let mut t: usize = 0;
        assert(nested_map(index) =~= pairs_index(ix@.subrange(0, 0)));
        while t < ix.len()
            invariant
                0 <= t <= ix.len(),
                ix == &saved.index_btree_map,
                ds == &saved.documents_btree_map,
                documents.wf(),
                string_map(documents) == docs,
                docs == pairs_docs(ds@),
                index.wf(),
                forall|x: Seq<char>| #[trigger] index@.contains_key(x) ==> index@[x].wf(),
                nested_map(index) == pairs_index(ix@.subrange(0, t as int)),
                Self::postings_ok(nested_map(index), docs),
                forall|k: int| 0 <= k < t ==> saved_entry_ok((#[trigger] ix@[k]).1@, docs),
            decreases ix.len() - t,
        {
            let ps = &ix[t].1;
            if ps.len() == 0 {
                assert(!saved_entry_ok(ix@[t as int].1@, docs));
                assert(!saved_ok(*saved));
                return None;
            }
            let mut p: OrdMap<u64> = OrdMap::new();
            let mut j: usize = 0;
            assert(p@ =~= pairs_postings(ps@.subrange(0, 0)));
            while j < ps.len()
                invariant
                    ix == &saved.index_btree_map,
                    ds == &saved.documents_btree_map,
                    docs == pairs_docs(ds@),
                    0 <= t < ix@.len(),
                    ps == &ix@[t as int].1,
                    0 <= j <= ps.len(),
                    documents.wf(),
                    string_map(documents) == docs,
                    p.wf(),
                    p@ == pairs_postings(ps@.subrange(0, j as int)),
                    p@.dom().finite(),
                    forall|u: Seq<char>| #[trigger] p@.contains_key(u) ==> p@[u] >= 1 && docs.contains_key(u),
                    forall|m: int| 0 <= m < j ==> (#[trigger] ps@[m]).1 >= 1 && docs.contains_key(ps@[m].0@),
                    j > 0 ==> p@.contains_key(ps@[0].0@),
                decreases ps.len() - j,
            {
                let u = &ps[j].0;
                let f = ps[j].1;
                let known = documents.get(u.as_str()).is_some();
                if f == 0 || !known {
                    assert(!saved_entry_ok(ix@[t as int].1@, docs)) by {
                        assert(ps@[j as int].0@ == u@);
                    }
                    assert(!saved_ok(*saved));
                    return None;
                }
                p.insert(u.clone(), f);
                assert(ps@.subrange(0, j + 1).drop_last() =~= ps@.subrange(0, j as int));
                j = j + 1;
            }
            proof {
                assert(ps@.subrange(0, ps.len() as int) =~= ps@);
                assert(p@.len() > 0) by {
                    vstd::set_lib::lemma_len_subset(set![ps@[0].0@], p@.dom());
                }
                assert(saved_entry_ok(ix@[t as int].1@, docs));
            }
            let term = ix[t].0.clone();
            let ghost before = nested_map(index);
            let ghost tv = term@;
            let ghost pv = p@;
            index.insert(term, p);
            assert(ix@.subrange(0, t + 1).drop_last() =~= ix@.subrange(0, t as int));
            assert(nested_map(index) =~= before.insert(tv, pv));
            t = t + 1;
        }
        assert(ix@.subrange(0, ix.len() as int) =~= ix@);
        let e = SearchEngine { index, documents };
        Some(e)
    }
}

/// After any sequence of operations, every indexed term has at least one
/// posting, every count is at least one, and every URL in a posting is a
/// stored document.
pub proof fn lemma_index_invariant(e: SearchEngine)
    requires
        e.wf(),
    ensures
        forall|t: Seq<char>|
            #[trigger] e.index_map().contains_key(t) ==> e.index_map()[t].len() > 0 && forall|
                u: Seq<char>,
            |
                #[trigger] e.index_map()[t].contains_key(u) ==> e.index_map()[t][u] >= 1
                    && e.docs_map().contains_key(u),
{
}

proof fn lemma_sum_lens_views(a: Seq<String>, b: Seq<String>)
    requires
        a.len() == b.len(),
        forall|i: int| 0 <= i < a.len() ==> (#[trigger] a[i])@ == b[i]@,
    ensures
        sum_lens(a) == sum_lens(b),
    decreases a.len(),
{
    if a.len() > 0 {
        let a0 = a.drop_last();
        let b0 = b.drop_last();
        assert forall|i: int| 0 <= i < a0.len() implies (#[trigger] a0[i])@ == b0[i]@ by {
            assert(a0[i] == a[i] && b0[i] == b[i]);
        }
        lemma_sum_lens_views(a0, b0);
        assert(a.last()@ == b.last()@) by {
            assert(a[a.len() - 1]@ == b[b.len() - 1]@);
        }
    }
}

/// Engines with the same stored documents have the same total length.
pub proof fn lemma_same_docs_same_length(e1: SearchEngine, e2: SearchEngine)
    requires
        e1.wf(),
        e2.wf(),
        e1.docs_map() == e2.docs_map(),
    ensures
        e1.total_len() == e2.total_len(),
        e1.urls() == e2.urls(),
{
    assert(e1.documents@.dom() =~= e1.docs_map().dom());
    assert(e2.documents@.dom() =~= e2.docs_map().dom());
    e1.documents.lemma_same_keys(&e2.documents);
    e1.documents.lemma_len();
    e2.documents.lemma_len();
    let ks = e1.documents.key_seq();
    assert forall|i: int| 0 <= i < e1.documents.val_seq().len() implies (
    #[trigger] e1.documents.val_seq()[i])@ == e2.documents.val_seq()[i]@ by {
        e1.documents.lemma_at(i);
        e2.documents.lemma_at(i);
        assert(e1.docs_map()[ks[i]] == e2.docs_map()[ks[i]]);
    }
    lemma_sum_lens_views(e1.documents.val_seq(), e2.documents.val_seq());
}

/// Saving an engine and restoring it gives back the same index and stored
/// documents, hence the same search results for every query.
pub proof fn lemma_snapshot_round_trip(e: SearchEngine, s: SavedIndex, e2: SearchEngine, q: Seq<char>)
    requires
        e.wf(),
        pairs_index(s.index_btree_map@) == e.index_map(),
        pairs_docs(s.documents_btree_map@) == e.docs_map(),
        e2.wf(),
        e2.index_map() == pairs_index(s.index_btree_map@),
        e2.docs_map() == pairs_docs(s.documents_btree_map@),
    ensures
        e2.index_map() == e.index_map(),
        e2.docs_map() == e.docs_map(),
        e2.docs_map().len() == e.docs_map().len(),
        e2.total_len() == e.total_len(),
        e2.urls() == e.urls(),
        search_map(e2.index_map(), e2.docs_map(), query_words(q)) == search_map(
            e.index_map(),
            e.docs_map(),
            query_words(q),
        ),
{
    lemma_same_docs_same_length(e, e2);
}

/// A term that every stored document holds has as many postings as there are
/// documents, so that its BM25 inverse document frequency is
/// `ln(1 + 0.5 / (N + 0.5))`, which is positive.
pub proof fn lemma_term_in_every_document(e: SearchEngine, t: Seq<char>)
    requires
        e.wf(),
        forall|u: Seq<char>| #[trigger] e.docs_map().contains_key(u) ==> postings_in(e.index_map(), t).contains_key(u),
    ensures
        postings_in(e.index_map(), t).len() == e.docs_map().len(),
{
    e.lemma_urls();
    let p = postings_in(e.index_map(), t);
    if e.index_map().contains_key(t) {
        assert(p.dom() =~= e.docs_map().dom());
    } else {
        assert(e.docs_map().dom() =~= Set::<Seq<char>>::empty()) by {
            assert forall|u: Seq<char>| !e.docs_map().contains_key(u) by {
                if e.docs_map().contains_key(u) {
                    assert(p.contains_key(u));
                }
            }
        }
        assert(p.dom() =~= Set::<Seq<char>>::empty());
    }
}

/// The sum of the byte lengths of `s`.
pub open spec fn sum_lens(s: Seq<String>) -> nat
    decreases s.len(),
{
    if s.len() == 0 {
        0
    } else {
        sum_lens(s.drop_last()) + byte_len(s.last()@)
    }
}

/// The views of pairs of URL and content.
pub open spec fn pair_views(ps: Seq<(&str, &str)>) -> Seq<(Seq<char>, Seq<char>)> {
    ps.map_values(|p: (&str, &str)| (p.0@, p.1@))
}

/// The stored documents after indexing each pair of `ps` in order.
pub open spec fn bulk_docs(
    d: Map<Seq<char>, Seq<char>>,
    ps: Seq<(Seq<char>, Seq<char>)>,
) -> Map<Seq<char>, Seq<char>>
    decreases ps.len(),
{
    if ps.len() == 0 {
        d
    } else {
        bulk_docs(d, ps.drop_last()).insert(ps.last().0, ps.last().1)
    }
}

/// The index after indexing each pair of `ps` in order.
pub open spec fn bulk_words(
    ix: Map<Seq<char>, Map<Seq<char>, u64>>,
    ps: Seq<(Seq<char>, Seq<char>)>,
) -> Map<Seq<char>, Map<Seq<char>, u64>>
    decreases ps.len(),
{
    if ps.len() == 0 {
        ix
    } else {
        add_words(bulk_words(ix, ps.drop_last()), index_words(ps.last().1), ps.last().0)
    }
}

} // verus!
