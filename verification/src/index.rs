//! The ordered in-memory index: key to position of the key's most recent
//! record, with point get/put/delete and a snapshot iterator.
//!
//! Keys are byte strings ordered lexicographically.  The storage is a
//! vector sorted strictly ascending by key: the order and uniqueness the
//! original balanced tree gave are the type's invariant here.

use vstd::prelude::*;

use crate::meta::LogPos;
use crate::Error;

verus! {

/// Strict lexicographic order on byte strings: a proper prefix comes
/// first, otherwise the first differing byte decides.
pub open spec fn lex_lt(a: Seq<u8>, b: Seq<u8>) -> bool
    decreases a.len(),
{
    if b.len() == 0 {
        false
    } else if a.len() == 0 {
        true
    } else if a[0] < b[0] {
        true
    } else if a[0] > b[0] {
        false
    } else {
        lex_lt(a.skip(1), b.skip(1))
    }
}

/// `p` is a prefix of `k`.
pub open spec fn is_prefix(p: Seq<u8>, k: Seq<u8>) -> bool {
    p.len() <= k.len() && k.subrange(0, p.len() as int) == p
}

pub proof fn lemma_lex_irrefl(a: Seq<u8>)
    ensures
        !lex_lt(a, a),
    decreases a.len(),
{
    if a.len() > 0 {
        lemma_lex_irrefl(a.skip(1));
    }
}

pub proof fn lemma_lex_asym(a: Seq<u8>, b: Seq<u8>)
    requires
        lex_lt(a, b),
    ensures
        !lex_lt(b, a),
    decreases a.len(),
{
    if a.len() > 0 && b.len() > 0 && a[0] == b[0] {
        lemma_lex_asym(a.skip(1), b.skip(1));
    }
}

pub proof fn lemma_lex_total(a: Seq<u8>, b: Seq<u8>)
    ensures
        lex_lt(a, b) || lex_lt(b, a) || a == b,
    decreases a.len(),
{
    if a.len() == 0 && b.len() == 0 {
        assert(a =~= b);
    } else if a.len() > 0 && b.len() > 0 && a[0] == b[0] {
        lemma_lex_total(a.skip(1), b.skip(1));
        if !lex_lt(a.skip(1), b.skip(1)) && !lex_lt(b.skip(1), a.skip(1)) {
            assert(a.skip(1) == b.skip(1));
            assert(a =~= b) by {
                assert(forall|i: int|
                    1 <= i < a.len() ==> a[i] == a.skip(1)[i - 1] && b[i] == b.skip(1)[i - 1]);
            }
        }
    }
}

pub proof fn lemma_lex_trans(a: Seq<u8>, b: Seq<u8>, c: Seq<u8>)
    requires
        lex_lt(a, b),
        lex_lt(b, c),
    ensures
        lex_lt(a, c),
    decreases a.len(),
{
    if a.len() > 0 && b.len() > 0 && c.len() > 0 && a[0] == b[0] && b[0] == c[0] {
        lemma_lex_trans(a.skip(1), b.skip(1), c.skip(1));
    }
}

/// Two keys that differ are ordered one way or the other; one that is
/// smaller is not the same.
pub proof fn lemma_lex_lt_ne(a: Seq<u8>, b: Seq<u8>)
    requires
        lex_lt(a, b),
    ensures
        a != b,
{
    if a == b {
        lemma_lex_irrefl(a);
    }
}

/// The three-way comparison of two byte strings.
#[derive(Clone, Copy, Debug, PartialEq, Eq, Structural)]
pub enum KeyCmp {
    Lt,
    Eq,
    Gt,
}

/// Equal prefixes do not decide the order: it is settled by the rest.
proof fn lemma_lex_skip(a: Seq<u8>, b: Seq<u8>, i: nat)
    requires
        i <= a.len(),
        i <= b.len(),
        forall|m: int| 0 <= m < i ==> a[m] == b[m],
    ensures
        lex_lt(a, b) == lex_lt(a.skip(i as int), b.skip(i as int)),
    decreases i,
{
    if i == 0 {
        assert(a.skip(0) =~= a);
        assert(b.skip(0) =~= b);
    } else {
        assert(a.len() > 0 && b.len() > 0 && a[0] == b[0]);
        assert(lex_lt(a, b) == lex_lt(a.skip(1), b.skip(1)));
        assert forall|m: int| 0 <= m < i - 1 implies a.skip(1)[m] == b.skip(1)[m] by {
            assert(a[m + 1] == b[m + 1]);
        }
        lemma_lex_skip(a.skip(1), b.skip(1), (i - 1) as nat);
        assert(a.skip(1).skip(i - 1) =~= a.skip(i as int));
        assert(b.skip(1).skip(i - 1) =~= b.skip(i as int));
    }
}

/// Compare two byte strings in lexicographic order.
pub fn bytes_cmp(a: &Vec<u8>, b: &Vec<u8>) -> (r: KeyCmp)
    ensures
        r == KeyCmp::Lt <==> lex_lt(a@, b@),
        r == KeyCmp::Eq <==> a@ == b@,
        r == KeyCmp::Gt <==> lex_lt(b@, a@),
{
    let alen = a.len();
    let blen = b.len();
    let mut i: usize = 0;
    while i < alen && i < blen && a[i] == b[i]
        invariant
            i <= alen,
            i <= blen,
            alen == a@.len(),
            blen == b@.len(),
            forall|m: int| 0 <= m < i ==> a@[m] == b@[m],
        decreases alen - i,
    {
        i = i + 1;
    }
    proof {
        lemma_lex_skip(a@, b@, i as nat);
        lemma_lex_skip(b@, a@, i as nat);
    }
    if i < alen && i < blen {
        proof {
            assert(a@.skip(i as int)[0] == a@[i as int]);
            assert(b@.skip(i as int)[0] == b@[i as int]);
        }
        if a[i] < b[i] {
            proof {
                lemma_lex_asym(a@, b@);
                lemma_lex_lt_ne(a@, b@);
            }
            KeyCmp::Lt
        } else {
            proof {
                lemma_lex_asym(b@, a@);
                lemma_lex_lt_ne(b@, a@);
            }
            KeyCmp::Gt
        }
    } else if alen == blen {
        proof {
            assert(a@ =~= b@);
            lemma_lex_irrefl(a@);
        }
        KeyCmp::Eq
    } else if alen < blen {
        proof {
            assert(a@.skip(i as int).len() == 0);
            assert(b@.skip(i as int).len() > 0);
            lemma_lex_asym(a@, b@);
            lemma_lex_lt_ne(a@, b@);
        }
        KeyCmp::Lt
    } else {
        proof {
            assert(b@.skip(i as int).len() == 0);
            assert(a@.skip(i as int).len() > 0);
            lemma_lex_asym(b@, a@);
            lemma_lex_lt_ne(b@, a@);
        }
        KeyCmp::Gt
    }
}

/// Does `k` start with `p`?
pub fn has_prefix(k: &Vec<u8>, p: &Vec<u8>) -> (r: bool)
    ensures
        r == is_prefix(p@, k@),
{
    let plen = p.len();
    if plen > k.len() {
        return false;
    }
    let mut i: usize = 0;
    while i < plen
        invariant
            i <= plen,
            plen == p@.len(),
            plen <= k@.len(),
            forall|m: int| 0 <= m < i ==> k@[m] == p@[m],
        decreases plen - i,
    {
        if k[i] != p[i] {
            assert(k@.subrange(0, plen as int)[i as int] != p@[i as int]);
            return false;
        }
        i = i + 1;
    }
    assert(k@.subrange(0, plen as int) =~= p@);
    true
}

/// A copy of a byte string.
pub fn clone_bytes(v: &Vec<u8>) -> (r: Vec<u8>)
    ensures
        r@ == v@,
{
    let r = crate::meta::copy_range(v, 0, v.len());
    assert(v@.subrange(0, v@.len() as int) =~= v@);
    r
}

} // verus!

verus! {

/// Options of a snapshot iterator: direction, and a key prefix to filter
/// by (the empty prefix matches every key).
pub struct IndexOpt {
    pub reverse: bool,
    pub prefix: Vec<u8>,
}

/// The first position mapped to `k` in a list of entries.
pub open spec fn find_in(s: Seq<(Vec<u8>, LogPos)>, k: Seq<u8>) -> Option<LogPos>
    decreases s.len(),
{
    if s.len() == 0 {
        None
    } else if s[0].0@ == k {
        Some(s[0].1)
    } else {
        find_in(s.skip(1), k)
    }
}

proof fn lemma_find_none(s: Seq<(Vec<u8>, LogPos)>, k: Seq<u8>)
    requires
        forall|i: int| 0 <= i < s.len() ==> (#[trigger] s[i]).0@ != k,
    ensures
        find_in(s, k) is None,
    decreases s.len(),
{
    if s.len() > 0 {
        lemma_find_none(s.skip(1), k);
    }
}

proof fn lemma_find_none_inv(s: Seq<(Vec<u8>, LogPos)>, k: Seq<u8>)
    requires
        find_in(s, k) is None,
    ensures
        forall|i: int| 0 <= i < s.len() ==> (#[trigger] s[i]).0@ != k,
    decreases s.len(),
{
    if s.len() > 0 {
        lemma_find_none_inv(s.skip(1), k);
        assert forall|i: int| 0 <= i < s.len() implies (#[trigger] s[i]).0@ != k by {
            if i > 0 {
                assert(s.skip(1)[i - 1].0@ != k);
            }
        }
    }
}

proof fn lemma_find_at(s: Seq<(Vec<u8>, LogPos)>, k: Seq<u8>, i: int)
    requires
        0 <= i < s.len(),
        s[i].0@ == k,
        forall|m: int| 0 <= m < i ==> (#[trigger] s[m]).0@ != k,
    ensures
        find_in(s, k) == Some(s[i].1),
    decreases i,
{
    if i > 0 {
        assert(s[0].0@ != k);
        assert forall|m: int| 0 <= m < i - 1 implies (#[trigger] s.skip(1)[m]).0@ != k by {
            assert(s[m + 1].0@ != k);
        }
        lemma_find_at(s.skip(1), k, i - 1);
    }
}

proof fn lemma_find_index(s: Seq<(Vec<u8>, LogPos)>, k: Seq<u8>)
    requires
        find_in(s, k) is Some,
    ensures
        exists|i: int|
            0 <= i < s.len() && (#[trigger] s[i]).0@ == k && s[i].1 == find_in(s, k)->Some_0,
    decreases s.len(),
{
    if s[0].0@ == k {
        assert(s[0].0@ == k && s[0].1 == find_in(s, k)->Some_0);
    } else {
        lemma_find_index(s.skip(1), k);
        let i = choose|i: int|
            0 <= i < s.skip(1).len() && (#[trigger] s.skip(1)[i]).0@ == k && s.skip(1)[i].1
                == find_in(s.skip(1), k)->Some_0;
        assert(s[i + 1].0@ == k && s[i + 1].1 == find_in(s, k)->Some_0);
    }
}

/// The ordered index: a vector of entries sorted strictly ascending by
/// key.
pub struct BTreeIndex {
    entries: Vec<(Vec<u8>, LogPos)>,
}

impl View for BTreeIndex {
    type V = Map<Seq<u8>, LogPos>;

    closed spec fn view(&self) -> Map<Seq<u8>, LogPos> {
        Map::new(
            |k: Seq<u8>| find_in(self.entries@, k) is Some,
            |k: Seq<u8>| find_in(self.entries@, k)->Some_0,
        )
    }
}

/// Entries sorted strictly ascending by key.
pub open spec fn sorted_asc(s: Seq<(Seq<u8>, LogPos)>) -> bool {
    forall|i: int, j: int| 0 <= i < j < s.len() ==> lex_lt(#[trigger] s[i].0, #[trigger] s[j].0)
}

/// Entries as plain values.
pub open spec fn entry_views(s: Seq<(Vec<u8>, LogPos)>) -> Seq<(Seq<u8>, LogPos)> {
    s.map_values(|e: (Vec<u8>, LogPos)| (e.0@, e.1))
}

/// The least position of `v` whose key is not below `key`: every entry
/// before it is smaller, every entry from it on is not.
fn lower_bound(v: &Vec<(Vec<u8>, LogPos)>, key: &Vec<u8>) -> (r: usize)
    requires
        sorted_asc(entry_views(v@)),
    ensures
        r <= v@.len(),
        forall|m: int| 0 <= m < r ==> lex_lt((#[trigger] entry_views(v@)[m]).0, key@),
        forall|m: int|
            r <= m < v@.len() ==> !lex_lt((#[trigger] entry_views(v@)[m]).0, key@),
{
    let ghost es = entry_views(v@);
    let mut lo: usize = 0;
    let mut hi: usize = v.len();
    while lo < hi
        invariant
            lo <= hi <= es.len(),
            es.len() == v@.len(),
            sorted_asc(es),
            es == entry_views(v@),
            forall|m: int| 0 <= m < lo ==> lex_lt((#[trigger] es[m]).0, key@),
            forall|m: int| hi <= m < es.len() ==> !lex_lt((#[trigger] es[m]).0, key@),
        decreases hi - lo,
    {
        let mid = lo + (hi - lo) / 2;
        let c = bytes_cmp(&v[mid].0, key);
        if c == KeyCmp::Lt {
            proof {
                assert forall|m: int| 0 <= m < mid + 1 implies lex_lt(
                    (#[trigger] es[m]).0,
                    key@,
                ) by {
                    if m < mid {
                        lemma_lex_trans(es[m].0, es[mid as int].0, key@);
                    }
                }
            }
            lo = mid + 1;
        } else {
            proof {
                assert forall|m: int| mid <= m < es.len() implies !lex_lt(
                    (#[trigger] es[m]).0,
                    key@,
                ) by {
                    if m > mid && lex_lt(es[m].0, key@) {
                        assert(lex_lt(es[mid as int].0, es[m].0));
                        lemma_lex_total(es[mid as int].0, key@);
                        if es[mid as int].0 == key@ {
                            lemma_lex_trans(key@, es[m].0, key@);
                            lemma_lex_irrefl(key@);
                        } else {
                            lemma_lex_trans(es[m].0, key@, es[mid as int].0);
                            lemma_lex_asym(es[mid as int].0, es[m].0);
                        }
                    }
                }
            }
            hi = mid;
        }
    }
    lo
}

impl BTreeIndex {
    /// The entries as plain values, in storage (ascending) order.
    pub closed spec fn entries_seq(self) -> Seq<(Seq<u8>, LogPos)> {
        entry_views(self.entries@)
    }

    /// The entries are sorted strictly ascending by key.
    pub closed spec fn wf(self) -> bool {
        sorted_asc(self.entries_seq())
    }

    /// Each entry is one key of the map with its position; together they
    /// cover the map.
    pub proof fn lemma_entries(self)
        requires
            self.wf(),
        ensures
            sorted_asc(self.entries_seq()),
            forall|i: int|
                0 <= i < self.entries_seq().len() ==> self@.contains_pair(
                    (#[trigger] self.entries_seq()[i]).0,
                    self.entries_seq()[i].1,
                ),
            forall|k: Seq<u8>|
                self@.dom().contains(k) ==> exists|i: int|
                    0 <= i < self.entries_seq().len() && (#[trigger] self.entries_seq()[i]) == (
                    k,
                    self@[k],
                ),
    {
        let es = self.entries_seq();
        assert forall|i: int| 0 <= i < es.len() implies self@.contains_pair(
            (#[trigger] es[i]).0,
            es[i].1,
        ) by {
            let k = es[i].0;
            assert forall|m: int| 0 <= m < i implies (#[trigger] self.entries@[m]).0@ != k by {
                assert(lex_lt(es[m].0, es[i].0));
                lemma_lex_lt_ne(es[m].0, es[i].0);
            }
            lemma_find_at(self.entries@, k, i);
        }
        assert forall|k: Seq<u8>| self@.dom().contains(k) implies exists|i: int|
            0 <= i < es.len() && (#[trigger] es[i]) == (k, self@[k]) by {
            lemma_find_index(self.entries@, k);
            let i = choose|i: int|
                0 <= i < self.entries@.len() && (#[trigger] self.entries@[i]).0@ == k
                    && self.entries@[i].1 == find_in(self.entries@, k)->Some_0;
            assert(es[i] == (k, self@[k]));
        }
    }

    /// A fresh, empty index.
    pub fn new() -> (r: BTreeIndex)
        ensures
            r.wf(),
            r@ == Map::<Seq<u8>, LogPos>::empty(),
            r.entries_seq() == Seq::<(Seq<u8>, LogPos)>::empty(),
    {
        let r = BTreeIndex { entries: Vec::new() };
        proof {
            assert(r.entries_seq() =~= Seq::<(Seq<u8>, LogPos)>::empty());
            assert(r@ =~= Map::<Seq<u8>, LogPos>::empty());
        }
        r
    }

    /// Insert or overwrite: afterwards the map takes `key` to `pos`.
    pub fn put(&mut self, key: Vec<u8>, pos: LogPos) -> (r: Result<(), Error>)
        requires
            old(self).wf(),
        ensures
            final(self).wf(),
            final(self)@ == old(self)@.insert(key@, pos),
            r is Ok,
    {
        let ghost olds = self.entries@;
        let ghost es = self.entries_seq();
        let j = lower_bound(&self.entries, &key);
        let replace: bool = if j < self.entries.len() {
            bytes_cmp(&self.entries[j].0, &key) == KeyCmp::Eq
        } else {
            false
        };
        if replace {
            self.entries.remove(j);
            self.entries.insert(j, (key, pos));
        } else {
            proof {
                if j < olds.len() {
                    lemma_lex_total(es[j as int].0, key@);
                }
            }
            self.entries.insert(j, (key, pos));
        }
        proof {
            let news = self.entries@;
            let nes = self.entries_seq();
            // sortedness
            assert forall|x: int, y: int| 0 <= x < y < nes.len() implies lex_lt(
                (#[trigger] nes[x].0),
                (#[trigger] nes[y].0),
            ) by {
                if replace {
                    if x == j {
                        assert(nes[y].0 == es[y].0);
                        assert(es[j as int].0 == key@);
                        assert(lex_lt(es[j as int].0, es[y].0));
                    } else if y == j {
                        assert(nes[x].0 == es[x].0);
                        assert(lex_lt(es[x].0, es[j as int].0));
                    } else {
                        assert(nes[x].0 == es[x].0 && nes[y].0 == es[y].0);
                    }
                } else {
                    if x == j {
                        assert(nes[y].0 == es[y - 1].0);
                        assert(!lex_lt(es[y - 1].0, key@));
                        lemma_lex_total(key@, es[y - 1].0);
                        if key@ == es[y - 1].0 {
                            assert(nes[x].0 == nes[y].0);
                            if j < es.len() {
                                assert(!lex_lt(es[j as int].0, key@));
                            }
                            assert(false);
                        }
                    } else if y == j {
                        assert(nes[x].0 == es[x].0);
                        assert(lex_lt(es[x].0, key@));
                    } else if x < j && y > j {
                        assert(nes[x].0 == es[x].0 && nes[y].0 == es[y - 1].0);
                        assert(lex_lt(es[x].0, key@));
                        assert(!lex_lt(es[y - 1].0, key@));
                        lemma_lex_total(key@, es[y - 1].0);
                        if key@ == es[y - 1].0 {
                            assert(lex_lt(es[x].0, es[y - 1].0));
                        } else {
                            lemma_lex_trans(es[x].0, key@, es[y - 1].0);
                        }
                    } else if y < j {
                        assert(nes[x].0 == es[x].0 && nes[y].0 == es[y].0);
                    } else {
                        assert(nes[x].0 == es[x - 1].0 && nes[y].0 == es[y - 1].0);
                    }
                }
            }
            // the map view
            assert forall|m: int| 0 <= m < j implies (#[trigger] news[m]).0@ != key@ by {
                assert(lex_lt(es[m].0, key@));
                lemma_lex_lt_ne(news[m].0@, key@);
            }
            lemma_find_at(news, key@, j as int);
            assert forall|q: Seq<u8>| q != key@ implies find_in(news, q) == find_in(olds, q) by {
                if find_in(olds, q) is Some {
                    lemma_find_index(olds, q);
                    let i = choose|i: int|
                        0 <= i < olds.len() && (#[trigger] olds[i]).0@ == q && olds[i].1 == find_in(
                            olds,
                            q,
                        )->Some_0;
                    let ni: int = if replace {
                        i
                    } else if i < j {
                        i
                    } else {
                        i + 1
                    };
                    if replace && i == j {
                        assert(olds[j as int].0@ == key@);
                        assert(false);
                    }
                    assert(news[ni].0@ == q);
                    assert(news[ni].1 == find_in(olds, q)->Some_0);
                    assert forall|m: int| 0 <= m < ni implies (#[trigger] news[m]).0@ != q by {
                        let om: int = if m == j {
                            -1
                        } else if m < j {
                            m
                        } else if replace {
                            m
                        } else {
                            m - 1
                        };
                        if om >= 0 {
                            assert(news[m].0@ == olds[om].0@);
                            if olds[om].0@ == q {
                                assert(lex_lt(es[om].0, es[i as int].0));
                                lemma_lex_irrefl(q);
                            }
                        }
                    }
                    lemma_find_at(news, q, ni);
                } else {
                    lemma_find_none_inv(olds, q);
                    assert forall|m: int| 0 <= m < news.len() implies (#[trigger] news[m]).0@
                        != q by {
                        if m != j {
                            let om: int = if m < j {
                                m
                            } else if replace {
                                m
                            } else {
                                m - 1
                            };
                            assert(news[m].0@ == olds[om].0@);
                        }
                    }
                    lemma_find_none(news, q);
                }
            }
            assert(final(self)@ =~= old(self)@.insert(key@, pos));
        }
        Ok(())
    }

    /// Copy out the position of `key`, if the key is live.
    pub fn get(&self, key: &Vec<u8>) -> (r: Option<LogPos>)
        requires
            self.wf(),
        ensures
            r == (if self@.dom().contains(key@) {
                Some(self@[key@])
            } else {
                None::<LogPos>
            }),
    {
        let j = lower_bound(&self.entries, key);
        let ghost es = self.entries_seq();
        if j < self.entries.len() && bytes_cmp(&self.entries[j].0, key) == KeyCmp::Eq {
            proof {
                assert forall|m: int| 0 <= m < j implies (#[trigger] self.entries@[m]).0@
                    != key@ by {
                    assert(lex_lt(es[m].0, key@));
                    lemma_lex_lt_ne(es[m].0, key@);
                }
                lemma_find_at(self.entries@, key@, j as int);
            }
            Some(self.entries[j].1)
        } else {
            proof {
                assert forall|m: int| 0 <= m < self.entries@.len() implies (
                #[trigger] self.entries@[m]).0@ != key@ by {
                    if m < j {
                        assert(lex_lt(es[m].0, key@));
                        lemma_lex_lt_ne(es[m].0, key@);
                    } else {
                        assert(!lex_lt(es[m].0, key@));
                        lemma_lex_total(es[m].0, key@);
                        if es[m].0 == key@ {
                            if m == j {
                            } else {
                                assert(lex_lt(es[j as int].0, es[m].0));
                            }
                        }
                    }
                }
                lemma_find_none(self.entries@, key@);
            }
            None
        }
    }

    /// Remove `key`; removing an absent key changes nothing and is no
    /// error.
    pub fn delete(&mut self, key: &Vec<u8>) -> (r: Result<(), Error>)
        requires
            old(self).wf(),
        ensures
            final(self).wf(),
            final(self)@ == old(self)@.remove(key@),
            r is Ok,
    {
        let ghost olds = self.entries@;
        let ghost es = self.entries_seq();
        let j = lower_bound(&self.entries, key);
        let found: bool = if j < self.entries.len() {
            bytes_cmp(&self.entries[j].0, key) == KeyCmp::Eq
        } else {
            false
        };
        if found {
            self.entries.remove(j);
        }
        proof {
            let news = self.entries@;
            let nes = self.entries_seq();
            if found {
                assert forall|x: int, y: int| 0 <= x < y < nes.len() implies lex_lt(
                    (#[trigger] nes[x].0),
                    (#[trigger] nes[y].0),
                ) by {
                    let ox: int = if x < j {
                        x
                    } else {
                        x + 1
                    };
                    let oy: int = if y < j {
                        y
                    } else {
                        y + 1
                    };
                    assert(nes[x].0 == es[ox].0 && nes[y].0 == es[oy].0);
                }
                assert forall|q: Seq<u8>| true implies #[trigger] find_in(news, q) == (
                if q == key@ {
                    None::<LogPos>
                } else {
                    find_in(olds, q)
                }) by {
                    if q == key@ {
                        assert forall|m: int| 0 <= m < news.len() implies (#[trigger] news[m]).0@
                            != q by {
                            let om: int = if m < j {
                                m
                            } else {
                                m + 1
                            };
                            assert(news[m].0@ == es[om].0);
                            if es[om].0 == q {
                                if om < j {
                                    assert(lex_lt(es[om].0, es[j as int].0));
                                    lemma_lex_irrefl(q);
                                } else {
                                    assert(lex_lt(es[j as int].0, es[om].0));
                                    lemma_lex_irrefl(q);
                                }
                            }
                        }
                        lemma_find_none(news, q);
                    } else if find_in(olds, q) is Some {
                        lemma_find_index(olds, q);
                        let i = choose|i: int|
                            0 <= i < olds.len() && (#[trigger] olds[i]).0@ == q && olds[i].1
                                == find_in(olds, q)->Some_0;
                        let ni: int = if i < j {
                            i
                        } else {
                            i - 1
                        };
                        assert(i != j);
                        assert(news[ni].0@ == q);
                        assert forall|m: int| 0 <= m < ni implies (#[trigger] news[m]).0@ != q by {
                            let om: int = if m < j {
                                m
                            } else {
                                m + 1
                            };
                            assert(news[m].0@ == es[om].0);
                            if es[om].0 == q {
                                assert(lex_lt(es[om].0, es[i as int].0));
                                lemma_lex_irrefl(q);
                            }
                        }
                        lemma_find_at(news, q, ni);
                    } else {
                        lemma_find_none_inv(olds, q);
                        assert forall|m: int| 0 <= m < news.len() implies (#[trigger] news[m]).0@
                            != q by {
                            let om: int = if m < j {
                                m
                            } else {
                                m + 1
                            };
                            assert(news[m].0@ == olds[om].0@);
                        }
                        lemma_find_none(news, q);
                    }
                }
                assert(final(self)@ =~= old(self)@.remove(key@));
            } else {
                assert forall|m: int| 0 <= m < olds.len() implies (#[trigger] olds[m]).0@
                    != key@ by {
                    if m < j {
                        assert(lex_lt(es[m].0, key@));
                        lemma_lex_lt_ne(es[m].0, key@);
                    } else {
                        assert(!lex_lt(es[m].0, key@));
                        lemma_lex_total(es[m].0, key@);
                        if es[m].0 == key@ && m != j {
                            assert(lex_lt(es[j as int].0, es[m].0));
                        }
                    }
                }
                lemma_find_none(olds, key@);
                assert(final(self)@ =~= old(self)@.remove(key@));
            }
        }
        Ok(())
    }
}

} // verus!

verus! {

/// Entries sorted strictly descending by key.
pub open spec fn sorted_desc(s: Seq<(Seq<u8>, LogPos)>) -> bool {
    forall|i: int, j: int| 0 <= i < j < s.len() ==> lex_lt(#[trigger] s[j].0, #[trigger] s[i].0)
}

/// The filter a prefix induces on entries: keep those whose key starts
/// with it.
pub open spec fn prefix_pred(prefix: Seq<u8>) -> spec_fn((Seq<u8>, LogPos)) -> bool {
    |e: (Seq<u8>, LogPos)| is_prefix(prefix, e.0)
}

/// A snapshot iterator over the index: the entries as they stood at
/// creation, in ascending or descending key order, walked with a prefix
/// filter.
pub struct BTreeIndexIter {
    v: Vec<(Vec<u8>, LogPos)>,
    pos: usize,
    opt: IndexOpt,
}

impl BTreeIndexIter {
    /// The snapshot, in iteration order.
    pub closed spec fn snapshot(self) -> Seq<(Seq<u8>, LogPos)> {
        entry_views(self.v@)
    }

    pub closed spec fn pos_spec(self) -> nat {
        self.pos as nat
    }

    pub closed spec fn prefix_spec(self) -> Seq<u8> {
        self.opt.prefix@
    }

    pub closed spec fn reverse_spec(self) -> bool {
        self.opt.reverse
    }

    /// What is still to be yielded: the rest of the snapshot, filtered by
    /// the prefix.
    pub open spec fn remaining(self) -> Seq<(Seq<u8>, LogPos)> {
        self.snapshot().skip(self.pos_spec() as int).filter(prefix_pred(self.prefix_spec()))
    }

    pub open spec fn wf(self) -> bool {
        &&& self.pos_spec() <= self.snapshot().len()
        &&& if self.reverse_spec() {
            sorted_desc(self.snapshot())
        } else {
            sorted_asc(self.snapshot())
        }
    }

    /// Take the snapshot: the index's entries, reversed when `opt.reverse`.
    pub fn new(idx: &BTreeIndex, opt: IndexOpt) -> (r: BTreeIndexIter)
        requires
            idx.wf(),
        ensures
            r.wf(),
            r.pos_spec() == 0,
            r.prefix_spec() == opt.prefix@,
            r.reverse_spec() == opt.reverse,
            r.snapshot().len() == idx.entries_seq().len(),
            !opt.reverse ==> r.snapshot() == idx.entries_seq(),
            opt.reverse ==> forall|i: int|
                0 <= i < idx.entries_seq().len() ==> #[trigger] r.snapshot()[i]
                    == idx.entries_seq()[idx.entries_seq().len() - 1 - i],
    {
        let ghost es = idx.entries_seq();
        let n = idx.entries.len();
        let mut v: Vec<(Vec<u8>, LogPos)> = Vec::new();
        if !opt.reverse {
            let mut i: usize = 0;
            while i < n
                invariant
                    i <= n,
                    n == idx.entries@.len(),
                    es == idx.entries_seq(),
                    idx.wf(),
                    entry_views(v@).len() == i,
                    forall|m: int| 0 <= m < i ==> #[trigger] entry_views(v@)[m] == es[m],
                decreases n - i,
            {
                let e = (clone_bytes(&idx.entries[i].0), idx.entries[i].1);
                let ghost vprev = v@;
                v.push(e);
                proof {
                    assert forall|m: int| 0 <= m < i + 1 implies #[trigger] entry_views(v@)[m]
                        == es[m] by {
                        if m < i {
                            assert(v@[m] == vprev[m]);
                            assert(entry_views(vprev)[m] == es[m]);
                        } else {
                            assert(v@[m] == e);
                            assert((e.0@, e.1) == es[i as int]);
                        }
                    }
                }
                i = i + 1;
            }
            proof {
                assert(entry_views(v@) =~= es);
            }
        } else {
            let mut i: usize = 0;
            while i < n
                invariant
                    i <= n,
                    n == idx.entries@.len(),
                    es == idx.entries_seq(),
                    idx.wf(),
                    entry_views(v@).len() == i,
                    forall|m: int|
                        0 <= m < i ==> #[trigger] entry_views(v@)[m] == es[n - 1 - m],
                decreases n - i,
            {
                let e = (clone_bytes(&idx.entries[n - 1 - i].0), idx.entries[n - 1 - i].1);
                let ghost vprev = v@;
                v.push(e);
                proof {
                    assert forall|m: int| 0 <= m < i + 1 implies #[trigger] entry_views(v@)[m]
                        == es[n - 1 - m] by {
                        if m < i {
                            assert(v@[m] == vprev[m]);
                            assert(entry_views(vprev)[m] == es[n - 1 - m]);
                        } else {
                            assert(v@[m] == e);
                            assert((e.0@, e.1) == es[n - 1 - i]);
                        }
                    }
                }
                i = i + 1;
            }
        }
        let r = BTreeIndexIter { v, pos: 0, opt };
        proof {
            if opt.reverse {
                assert forall|x: int, y: int| 0 <= x < y < r.snapshot().len() implies lex_lt(
                    (#[trigger] r.snapshot()[y].0),
                    (#[trigger] r.snapshot()[x].0),
                ) by {
                    assert(r.snapshot()[x] == es[n - 1 - x]);
                    assert(r.snapshot()[y] == es[n - 1 - y]);
                }
            }
        }
        r
    }

    /// Yield the next entry whose key starts with the prefix, or `None`
    /// when the snapshot is exhausted.
    pub fn next(&mut self) -> (r: Option<(Vec<u8>, LogPos)>)
        requires
            old(self).wf(),
        ensures
            final(self).wf(),
            final(self).snapshot() == old(self).snapshot(),
            final(self).prefix_spec() == old(self).prefix_spec(),
            final(self).reverse_spec() == old(self).reverse_spec(),
            old(self).remaining().len() == 0 ==> r is None && final(self).remaining().len() == 0,
            old(self).remaining().len() > 0 ==> (r matches Some(p) && (p.0@, p.1) == old(
                self,
            ).remaining()[0] && final(self).remaining() == old(self).remaining().skip(1)),
    {
        let ghost pred = prefix_pred(self.prefix_spec());
        let n = self.v.len();
        while self.pos < n
            invariant
                self.wf(),
                n == self.snapshot().len(),
                self.snapshot() == old(self).snapshot(),
                self.opt == old(self).opt,
                pred == prefix_pred(self.prefix_spec()),
                self.remaining() == old(self).remaining(),
            decreases n - self.pos,
        {
            let i = self.pos;
            let keep = if self.opt.prefix.len() == 0 {
                proof {
                    assert(self.snapshot()[i as int].0.subrange(0, 0) =~= self.opt.prefix@);
                }
                true
            } else {
                has_prefix(&self.v[i].0, &self.opt.prefix)
            };
            proof {
                let snap = self.snapshot();
                let rest = snap.skip(i as int);
                assert(rest =~= seq![snap[i as int]] + snap.skip(i + 1));
                broadcast use vstd::seq_lib::group_seq_properties;
                snap.skip(i + 1).lemma_filter_prepend(snap[i as int], pred);
                assert(keep == pred(snap[i as int]));
            }
            self.pos = i + 1;
            if keep {
                let out = (clone_bytes(&self.v[i].0), self.v[i].1);
                proof {
                    let snap = self.snapshot();
                    assert((out.0@, out.1) == snap[i as int]);
                    assert(old(self).remaining()[0] == snap[i as int]);
                    assert(final(self).remaining() =~= old(self).remaining().skip(1));
                }
                return Some(out);
            }
        }
        proof {
            assert(self.snapshot().skip(self.pos as int).len() == 0);
            assert(self.snapshot().skip(self.pos as int) =~= Seq::<(Seq<u8>, LogPos)>::empty());
            assert(self.remaining().len() == 0);
        }
        None
    }

    /// Position the iterator so that the next yield is the first entry not
    /// before `key` in iteration order (not after, in reverse mode).
    pub fn seek(&mut self, key: Vec<u8>)
        requires
            old(self).wf(),
        ensures
            final(self).wf(),
            final(self).snapshot() == old(self).snapshot(),
            final(self).prefix_spec() == old(self).prefix_spec(),
            final(self).reverse_spec() == old(self).reverse_spec(),
            forall|m: int|
                0 <= m < final(self).pos_spec() ==> (if final(self).reverse_spec() {
                    lex_lt(key@, (#[trigger] final(self).snapshot()[m]).0)
                } else {
                    lex_lt((#[trigger] final(self).snapshot()[m]).0, key@)
                }),
            forall|m: int|
                final(self).pos_spec() <= m < final(self).snapshot().len() ==> (if final(self).reverse_spec() {
                    !lex_lt(key@, (#[trigger] final(self).snapshot()[m]).0)
                } else {
                    !lex_lt((#[trigger] final(self).snapshot()[m]).0, key@)
                }),
    {
        let ghost es = self.snapshot();
        if !self.opt.reverse {
            let j = lower_bound(&self.v, &key);
            self.pos = j;
        } else {
            let mut lo: usize = 0;
            let mut hi: usize = self.v.len();
            while lo < hi
                invariant
                    lo <= hi <= es.len(),
                    es.len() == self.v@.len(),
                    self.wf(),
                    self.opt.reverse,
                    es == self.snapshot(),
                    forall|m: int| 0 <= m < lo ==> lex_lt(key@, (#[trigger] es[m]).0),
                    forall|m: int| hi <= m < es.len() ==> !lex_lt(key@, (#[trigger] es[m]).0),
                decreases hi - lo,
            {
                let mid = lo + (hi - lo) / 2;
                let c = bytes_cmp(&self.v[mid].0, &key);
                if c == KeyCmp::Gt {
                    proof {
                        assert forall|m: int| 0 <= m < mid + 1 implies lex_lt(
                            key@,
                            (#[trigger] es[m]).0,
                        ) by {
                            if m < mid {
                                lemma_lex_trans(key@, es[mid as int].0, es[m].0);
                            }
                        }
                    }
                    lo = mid + 1;
                } else {
                    proof {
                        assert forall|m: int| mid <= m < es.len() implies !lex_lt(
                            key@,
                            (#[trigger] es[m]).0,
                        ) by {
                            if m > mid && lex_lt(key@, es[m].0) {
                                assert(lex_lt(es[m].0, es[mid as int].0));
                                lemma_lex_trans(key@, es[m].0, es[mid as int].0);
                            }
                        }
                    }
                    hi = mid;
                }
            }
            self.pos = lo;
        }
    }

    /// Back to the start of the snapshot.
    pub fn rewind(&mut self)
        requires
            old(self).wf(),
        ensures
            final(self).wf(),
            final(self).snapshot() == old(self).snapshot(),
            final(self).prefix_spec() == old(self).prefix_spec(),
            final(self).reverse_spec() == old(self).reverse_spec(),
            final(self).pos_spec() == 0,
    {
        self.pos = 0;
    }
}

impl BTreeIndex {
    /// A snapshot iterator; later mutations of the index do not reach it.
    pub fn iter(&self, opt: IndexOpt) -> (r: BTreeIndexIter)
        requires
            self.wf(),
        ensures
            r.wf(),
            r.pos_spec() == 0,
            r.prefix_spec() == opt.prefix@,
            r.reverse_spec() == opt.reverse,
            r.snapshot().len() == self.entries_seq().len(),
            !opt.reverse ==> r.snapshot() == self.entries_seq(),
            opt.reverse ==> forall|i: int|
                0 <= i < self.entries_seq().len() ==> #[trigger] r.snapshot()[i]
                    == self.entries_seq()[self.entries_seq().len() - 1 - i],
    {
        BTreeIndexIter::new(self, opt)
    }
}

} // verus!

verus! {

/// Prefix-filtered iteration yields only keys that start with the
/// iterator's prefix, in snapshot order: everything still to be yielded
/// carries the prefix.
pub proof fn lemma_iter_prefix_only(it: BTreeIndexIter)
    ensures
        forall|i: int|
            0 <= i < it.remaining().len() ==> is_prefix(
                it.prefix_spec(),
                (#[trigger] it.remaining()[i]).0,
            ),
{
    let pred = prefix_pred(it.prefix_spec());
    let s = it.snapshot().skip(it.pos_spec() as int);
    assert forall|i: int| 0 <= i < it.remaining().len() implies is_prefix(
        it.prefix_spec(),
        (#[trigger] it.remaining()[i]).0,
    ) by {
        s.lemma_filter_pred(pred, i);
    }
}

/// Every sequence passes a filter whose test holds of each element.
proof fn lemma_filter_all<A>(s: Seq<A>, pred: spec_fn(A) -> bool)
    requires
        forall|i: int| 0 <= i < s.len() ==> pred(#[trigger] s[i]),
    ensures
        s.filter(pred) == s,
    decreases s.len(),
{
    reveal(Seq::filter);
    if s.len() > 0 {
        assert forall|i: int| 0 <= i < s.drop_last().len() implies pred(
            #[trigger] s.drop_last()[i],
        ) by {
            assert(s[i] == s.drop_last()[i]);
        }
        lemma_filter_all(s.drop_last(), pred);
        assert(pred(s.last()));
        assert(s.filter(pred) =~= s);
    }
}

/// With an empty prefix a fresh iterator yields its whole snapshot: every
/// key of the index at snapshot time, each exactly once, ascending — or
/// descending in reverse mode — as the snapshot's strict order says.
pub proof fn lemma_iter_empty_prefix_all(it: BTreeIndexIter)
    requires
        it.wf(),
        it.pos_spec() == 0,
        it.prefix_spec().len() == 0,
    ensures
        it.remaining() == it.snapshot(),
        !it.reverse_spec() ==> sorted_asc(it.remaining()),
        it.reverse_spec() ==> sorted_desc(it.remaining()),
{
    let pred = prefix_pred(it.prefix_spec());
    assert(it.snapshot().skip(0) =~= it.snapshot());
    assert forall|i: int| 0 <= i < it.snapshot().len() implies pred(
        #[trigger] it.snapshot()[i],
    ) by {
        assert(it.snapshot()[i].0.subrange(0, 0) =~= it.prefix_spec());
    }
    lemma_filter_all(it.snapshot(), pred);
}

} // verus!
