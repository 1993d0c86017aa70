//! Maps keyed by strings whose entries are kept in ascending key order.

use vstd::prelude::*;
use crate::text::{chars_of, views};

verus! {

/// Lexicographic order on character sequences by code point, which is also
/// the order of their UTF-8 encodings.
pub open spec fn seq_lt(a: Seq<char>, b: Seq<char>) -> bool
    decreases a.len(),
{
    if a.len() == 0 {
        b.len() > 0
    } else if b.len() == 0 {
        false
    } else if a[0] != b[0] {
        (a[0] as int) < (b[0] as int)
    } else {
        seq_lt(a.drop_first(), b.drop_first())
    }
}

/// No sequence comes before itself.
pub proof fn lemma_lt_irrefl(a: Seq<char>)
    ensures
        !seq_lt(a, a),
    decreases a.len(),
{
    if a.len() > 0 {
        lemma_lt_irrefl(a.drop_first());
    }
}

/// The order is transitive.
pub proof fn lemma_lt_trans(a: Seq<char>, b: Seq<char>, c: Seq<char>)
    requires
        seq_lt(a, b),
        seq_lt(b, c),
    ensures
        seq_lt(a, c),
    decreases a.len(),
{
    if a.len() > 0 && b.len() > 0 && c.len() > 0 && a[0] == b[0] && b[0] == c[0] {
        lemma_lt_trans(a.drop_first(), b.drop_first(), c.drop_first());
    }
}

/// Any two different sequences are ordered one way or the other.
pub proof fn lemma_lt_total(a: Seq<char>, b: Seq<char>)
    ensures
        a == b || seq_lt(a, b) || seq_lt(b, a),
    decreases a.len(),
{
    if a.len() > 0 && b.len() > 0 && a[0] == b[0] {
        lemma_lt_total(a.drop_first(), b.drop_first());
        if a.drop_first() == b.drop_first() {
            assert(a =~= seq![a[0]] + a.drop_first());
            assert(b =~= seq![b[0]] + b.drop_first());
        }
    } else if a.len() == 0 && b.len() == 0 {
        assert(a =~= b);
    } else if a.len() > 0 && b.len() > 0 {
        assert(a[0] as int != b[0] as int);
    }
}

/// The order is asymmetric.
pub proof fn lemma_lt_asym(a: Seq<char>, b: Seq<char>)
    requires
        seq_lt(a, b),
    ensures
        !seq_lt(b, a),
{
    if seq_lt(b, a) {
        lemma_lt_trans(a, b, a);
        lemma_lt_irrefl(a);
    }
}

/// Whether `a` comes strictly before `b`.
pub fn chars_lt(a: &Vec<char>, b: &Vec<char>) -> (r: bool)
    ensures
        r == seq_lt(a@, b@),
{
    let mut i: usize = 0;
    assert(a@.skip(0) =~= a@);
    assert(b@.skip(0) =~= b@);
    while i < a.len() && i < b.len() && a[i] == b[i]
        invariant
            0 <= i <= a.len(),
            i <= b.len(),
            seq_lt(a@, b@) == seq_lt(a@.skip(i as int), b@.skip(i as int)),
        decreases a.len() - i,
    {
        assert(a@.skip(i as int).drop_first() =~= a@.skip(i + 1));
        assert(b@.skip(i as int).drop_first() =~= b@.skip(i + 1));
        i = i + 1;
    }
    let ghost sa = a@.skip(i as int);
    let ghost sb = b@.skip(i as int);
    if i == a.len() {
        assert(sa.len() == 0);
        i < b.len()
    } else if i == b.len() {
        assert(sa.len() > 0 && sb.len() == 0);
        false
    } else {
        assert(sa[0] == a@[i as int] && sb[0] == b@[i as int]);
        a[i] < b[i]
    }
}

/// Whether `a` comes strictly before `b`.
pub fn str_lt(a: &str, b: &str) -> (r: bool)
    ensures
        r == seq_lt(a@, b@),
{
    let ca = chars_of(a);
    let cb = chars_of(b);
    chars_lt(&ca, &cb)
}

/// Keys in strictly ascending order.
pub open spec fn sorted_keys(ks: Seq<Seq<char>>) -> bool {
    forall|i: int, j: int| 0 <= i < j < ks.len() ==> seq_lt(#[trigger] ks[i], #[trigger] ks[j])
}

/// Two strictly ascending sequences with the same elements are equal.
pub proof fn lemma_sorted_unique(x: Seq<Seq<char>>, y: Seq<Seq<char>>)
    requires
        sorted_keys(x),
        sorted_keys(y),
        x.to_set() == y.to_set(),
    ensures
        x == y,
    decreases x.len(),
{
    if x.len() == 0 {
        if y.len() > 0 {
            assert(y.to_set().contains(y[0]));
        }
        assert(x =~= y);
    } else {
        assert(x.to_set().contains(x[0]));
        assert(y.len() > 0);
        assert(y.to_set().contains(y[0]));
        let j = choose|j: int| 0 <= j < y.len() && y[j] == x[0];
        let k = choose|k: int| 0 <= k < x.len() && x[k] == y[0];
        if j > 0 {
            assert(seq_lt(y[0], y[j]));
            if k > 0 {
                assert(seq_lt(x[0], x[k]));
                lemma_lt_asym(x[0], y[0]);
            } else {
                lemma_lt_irrefl(y[0]);
            }
        }
        assert(y[0] == x[0]);
        let x1 = x.drop_first();
        let y1 = y.drop_first();
        assert forall|e: Seq<char>| x1.to_set().contains(e) <==> y1.to_set().contains(e) by {
            if x1.to_set().contains(e) {
                let a = choose|a: int| 0 <= a < x1.len() && x1[a] == e;
                assert(x[a + 1] == e);
                assert(seq_lt(x[0], x[a + 1]));
                assert(y.to_set().contains(e));
                let b = choose|b: int| 0 <= b < y.len() && y[b] == e;
                if b == 0 {
                    lemma_lt_irrefl(e);
                }
                assert(y1[b - 1] == e);
            }
            if y1.to_set().contains(e) {
                let a = choose|a: int| 0 <= a < y1.len() && y1[a] == e;
                assert(y[a + 1] == e);
                assert(seq_lt(y[0], y[a + 1]));
                assert(x.to_set().contains(e));
                let b = choose|b: int| 0 <= b < x.len() && x[b] == e;
                if b == 0 {
                    lemma_lt_irrefl(e);
                }
                assert(x1[b - 1] == e);
            }
        }
        assert(x1.to_set() =~= y1.to_set());
        lemma_sorted_unique(x1, y1);
        assert(x =~= seq![x[0]] + x1);
        assert(y =~= seq![y[0]] + y1);
    }
}

/// A map from strings to `V`, held as two parallel vectors in ascending key order.
pub struct OrdMap<V> {
    keys: Vec<String>,
    vals: Vec<V>,
}

impl<V> OrdMap<V> {
    /// The keys, in ascending order.
    pub closed spec fn key_seq(&self) -> Seq<Seq<char>> {
        views(self.keys@)
    }

    /// The values, in the order of their keys.
    pub closed spec fn val_seq(&self) -> Seq<V> {
        self.vals@
    }

    pub closed spec fn wf(&self) -> bool {
        &&& self.keys.len() == self.vals.len()
        &&& sorted_keys(views(self.keys@))
    }

    /// The map from each key to its value.
    pub open spec fn view(&self) -> Map<Seq<char>, V> {
        Map::new(
            |k: Seq<char>| self.key_seq().contains(k),
            |k: Seq<char>| self.val_seq()[self.key_seq().index_of(k)],
        )
    }

    pub proof fn lemma_len(&self)
        requires
            self.wf(),
        ensures
            self.key_seq().len() == self.val_seq().len(),
            sorted_keys(self.key_seq()),
    {
    }

    /// The value at a position is the value of the key at that position.
    pub proof fn lemma_at(&self, i: int)
        requires
            self.wf(),
            0 <= i < self.key_seq().len(),
        ensures
            self.key_seq().index_of(self.key_seq()[i]) == i,
            self@.contains_key(self.key_seq()[i]),
            self@[self.key_seq()[i]] == self.val_seq()[i],
    {
        let ks = self.key_seq();
        assert(ks.contains(ks[i]));
        let j = ks.index_of(ks[i]);
        if j != i {
            if j < i {
                lemma_lt_irrefl(ks[i]);
            } else {
                lemma_lt_irrefl(ks[i]);
            }
        }
    }

    /// Two maps with the same keys hold them in the same order.
    pub proof fn lemma_same_keys(&self, other: &Self)
        requires
            self.wf(),
            other.wf(),
            self@.dom() == other@.dom(),
        ensures
            self.key_seq() == other.key_seq(),
    {
        self.lemma_dom();
        other.lemma_dom();
        lemma_sorted_unique(self.key_seq(), other.key_seq());
    }

    /// The keys of the view are exactly those of the key sequence.
    pub proof fn lemma_dom(&self)
        requires
            self.wf(),
        ensures
            self@.dom() =~= self.key_seq().to_set(),
            self@.dom().finite(),
            self@.len() == self.key_seq().len(),
    {
        let ks = self.key_seq();
        assert(self@.dom() =~= ks.to_set());
        assert(ks.no_duplicates()) by {
            assert forall|i: int, j: int| 0 <= i < ks.len() && 0 <= j < ks.len() && i != j
                implies ks[i] != ks[j] by {
                if ks[i] == ks[j] {
                    lemma_lt_irrefl(ks[i]);
                }
            }
        }
        ks.unique_seq_to_set();
    }

    pub fn new() -> (r: Self)
        ensures
            r.wf(),
            r.key_seq() == Seq::<Seq<char>>::empty(),
            r.val_seq() == Seq::<V>::empty(),
            r@ == Map::<Seq<char>, V>::empty(),
    {
        let r = OrdMap { keys: Vec::new(), vals: Vec::new() };
        assert(r.key_seq() =~= Seq::<Seq<char>>::empty());
        assert(r.val_seq() =~= Seq::<V>::empty());
        assert(r@ =~= Map::<Seq<char>, V>::empty());
        r
    }

    pub fn len(&self) -> (r: usize)
        requires
            self.wf(),
        ensures
            r == self.key_seq().len(),
            r == self@.len(),
    {
        proof {
            self.lemma_dom();
        }
        self.keys.len()
    }

    /// The position of `k`, or the position at which it would be inserted.
    pub fn find(&self, k: &str) -> (r: (bool, usize))
        requires
            self.wf(),
        ensures
            r.1 <= self.key_seq().len(),
            r.0 <==> self@.contains_key(k@),
            r.0 ==> r.1 < self.key_seq().len() && self.key_seq()[r.1 as int] == k@,
            !r.0 ==> forall|i: int| 0 <= i < r.1 ==> seq_lt(#[trigger] self.key_seq()[i], k@),
            !r.0 ==> forall|i: int|
                r.1 <= i < self.key_seq().len() ==> seq_lt(k@, #[trigger] self.key_seq()[i]),
    {
        let ghost ks = self.key_seq();
        let mut lo: usize = 0;
        let mut hi: usize = self.keys.len();
        while lo < hi
            invariant
                self.wf(),
                ks == self.key_seq(),
                0 <= lo <= hi <= self.keys.len(),
                forall|j: int| 0 <= j < lo ==> seq_lt(#[trigger] ks[j], k@),
                forall|j: int| hi <= j < ks.len() ==> seq_lt(k@, #[trigger] ks[j]),
            decreases hi - lo,
        {
            let mid = lo + (hi - lo) / 2;
            if str_lt(self.keys[mid].as_str(), k) {
                proof {
                    assert forall|j: int| 0 <= j < mid + 1 implies seq_lt(#[trigger] ks[j], k@) by {
                        if j < mid {
                            lemma_lt_trans(ks[j], ks[mid as int], k@);
                        }
                    }
                }
                lo = mid + 1;
            } else if str_lt(k, self.keys[mid].as_str()) {
                proof {
                    assert forall|j: int| mid <= j < ks.len() implies seq_lt(k@, #[trigger] ks[j]) by {
                        if j > mid {
                            lemma_lt_trans(k@, ks[mid as int], ks[j]);
                        }
                    }
                }
                hi = mid;
            } else {
                proof {
                    lemma_lt_total(ks[mid as int], k@);
                    self.lemma_at(mid as int);
                }
                return (true, mid);
            }
        }
        proof {
            if ks.contains(k@) {
                let j = ks.index_of(k@);
                lemma_lt_irrefl(k@);
            }
        }
        (false, lo)
    }

    /// Every entry of the view comes from a position of the two sequences.
    pub proof fn lemma_entries(&self)
        requires
            self.wf(),
        ensures
            forall|i: int|
                0 <= i < self.key_seq().len() ==> self@.contains_key(#[trigger] self.key_seq()[i])
                    && self@[self.key_seq()[i]] == self.val_seq()[i],
            forall|k: Seq<char>|
                #[trigger] self@.contains_key(k) ==> exists|i: int|
                    0 <= i < self.key_seq().len() && self.key_seq()[i] == k,
    {
        assert forall|i: int| 0 <= i < self.key_seq().len() implies self@.contains_key(
            #[trigger] self.key_seq()[i],
        ) && self@[self.key_seq()[i]] == self.val_seq()[i] by {
            self.lemma_at(i);
        }
    }

    /// The key at position `i`.
    pub fn key_at(&self, i: usize) -> (r: &String)
        requires
            self.wf(),
            i < self.key_seq().len(),
        ensures
            r@ == self.key_seq()[i as int],
    {
        &self.keys[i]
    }

    /// The value at position `i`.
    pub fn val_at(&self, i: usize) -> (r: &V)
        requires
            self.wf(),
            i < self.key_seq().len(),
        ensures
            *r == self.val_seq()[i as int],
            *r == self@[self.key_seq()[i as int]],
    {
        proof {
            self.lemma_at(i as int);
        }
        &self.vals[i]
    }

    /// The value of `k`, if it has one.
    pub fn get(&self, k: &str) -> (r: Option<&V>)
        requires
            self.wf(),
        ensures
            r == if self@.contains_key(k@) {
                Some(&self@[k@])
            } else {
                None::<&V>
            },
    {
        let (found, i) = self.find(k);
        if found {
            proof {
                self.lemma_at(i as int);
            }
            Some(&self.vals[i])
        } else {
            None
        }
    }

    /// Puts `v` in place of the value at position `i` and returns the value that was there.
    pub fn replace_at(&mut self, i: usize, v: V) -> (r: V)
        requires
            old(self).wf(),
            i < old(self).key_seq().len(),
        ensures
            final(self).wf(),
            final(self).key_seq() == old(self).key_seq(),
            final(self).val_seq() == old(self).val_seq().update(i as int, v),
            final(self)@ == old(self)@.insert(old(self).key_seq()[i as int], v),
            r == old(self).val_seq()[i as int],
    {
        let r = self.vals.remove(i);
        self.vals.insert(i, v);
        proof {
            assert(self.vals@ =~= old(self).vals@.update(i as int, v));
            assert(self.key_seq() == old(self).key_seq());
            self.lemma_entries();
            old(self).lemma_entries();
            old(self).lemma_at(i as int);
            assert(self@ =~= old(self)@.insert(old(self).key_seq()[i as int], v)) by {
                let ks = self.key_seq();
                assert forall|k: Seq<char>| #[trigger] self@.contains_key(k) implies old(
                    self,
                )@.insert(ks[i as int], v).contains_key(k) && self@[k] == old(self)@.insert(
                    ks[i as int],
                    v,
                )[k] by {
                    let j = choose|j: int| 0 <= j < ks.len() && ks[j] == k;
                    self.lemma_at(j);
                    old(self).lemma_at(j);
                }
                assert forall|k: Seq<char>| #[trigger] old(self)@.insert(
                    ks[i as int],
                    v,
                ).contains_key(k) implies self@.contains_key(k) by {
                    if k != ks[i as int] {
                        let j = choose|j: int| 0 <= j < ks.len() && ks[j] == k;
                        self.lemma_at(j);
                    }
                }
            }
        }
        r
    }

    /// Sets the value of `k` to `v`, adding the key in its place if it is new.
    pub fn insert(&mut self, k: String, v: V)
        requires
            old(self).wf(),
        ensures
            final(self).wf(),
            final(self)@ == old(self)@.insert(k@, v),
            old(self)@.contains_key(k@) ==> final(self).key_seq() == old(self).key_seq(),
            !old(self)@.contains_key(k@) ==> exists|p: int|
                0 <= p <= old(self).key_seq().len() && final(self).key_seq() == old(
                    self,
                ).key_seq().insert(p, k@),
    {
        let (found, i) = self.find(k.as_str());
        if found {
            let _ = self.replace_at(i, v);
            assert(old(self).key_seq()[i as int] == k@);
        } else {
            let ghost ks = self.key_seq();
            let ghost kk = k@;
            self.keys.insert(i, k);
            self.vals.insert(i, v);
            proof {
                let nks = self.key_seq();
                assert(nks =~= ks.insert(i as int, kk));
                assert(sorted_keys(nks)) by {
                    assert forall|a: int, b: int| 0 <= a < b < nks.len() implies seq_lt(
                        #[trigger] nks[a],
                        #[trigger] nks[b],
                    ) by {
                        if a < i && b == i {
                        } else if a < i && b > i {
                            assert(nks[b] == ks[b - 1]);
                        } else if a == i {
                            assert(nks[b] == ks[b - 1]);
                        } else if a > i {
                            assert(nks[a] == ks[a - 1] && nks[b] == ks[b - 1]);
                        }
                    }
                }
                self.lemma_entries();
                old(self).lemma_entries();
                assert forall|k2: Seq<char>| #[trigger] self@.contains_key(k2) implies old(
                    self,
                )@.insert(kk, v).contains_key(k2) && self@[k2] == old(self)@.insert(kk, v)[k2] by {
                    let j = choose|j: int| 0 <= j < nks.len() && nks[j] == k2;
                    self.lemma_at(j);
                    if j < i {
                        old(self).lemma_at(j);
                    } else if j > i {
                        old(self).lemma_at(j - 1);
                    }
                }
                assert forall|k2: Seq<char>| #[trigger] old(self)@.insert(kk, v).contains_key(
                    k2,
                ) implies self@.contains_key(k2) by {
                    if k2 == kk {
                        self.lemma_at(i as int);
                    } else {
                        let j = choose|j: int| 0 <= j < ks.len() && ks[j] == k2;
                        if j < i {
                            self.lemma_at(j);
                        } else {
                            self.lemma_at(j + 1);
                        }
                    }
                }
                assert(self@ =~= old(self)@.insert(kk, v));
            }
        }
    }
}

impl<V: Copy> OrdMap<V> {
    /// A copy of the map.
    pub fn duplicate(&self) -> (r: Self)
        requires
            self.wf(),
        ensures
            r.wf(),
            r.key_seq() == self.key_seq(),
            r.val_seq() == self.val_seq(),
            r@ == self@,
    {
        let mut keys: Vec<String> = Vec::new();
        let mut vals: Vec<V> = Vec::new();
        let mut i: usize = 0;
        while i < self.keys.len()
            invariant
                self.wf(),
                0 <= i <= self.keys.len(),
                keys.len() == i,
                vals@ == self.vals@.subrange(0, i as int),
                views(keys@) == views(self.keys@).subrange(0, i as int),
            decreases self.keys.len() - i,
        {
            let k = self.keys[i].clone();
            let ghost before = keys@;
            keys.push(k);
            assert(views(keys@) =~= views(before).push(k@));
            vals.push(self.vals[i]);
            assert(vals@ =~= self.vals@.subrange(0, i + 1));
            assert(views(keys@) =~= views(self.keys@).subrange(0, i + 1));
            i = i + 1;
        }
        assert(vals@ =~= self.vals@);
        assert(views(keys@) =~= views(self.keys@));
        let r = OrdMap { keys, vals };
        assert(r@ =~= self@);
        r
    }
}

} // verus!
