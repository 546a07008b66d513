//! Frequency tables: mappings from words to unsigned counts, with verified
//! increment and merge operations.

use vstd::prelude::*;
use vstd::string::StrSliceExecFns;

verus! {

/// The total count that a sequence of (word, count) entries assigns to `w`:
/// the sum of the counts of the entries whose word equals `w`.
spec fn entries_count(es: Seq<(Seq<char>, u64)>, w: Seq<char>) -> nat
    decreases es.len(),
{
    if es.len() == 0 {
        0
    } else {
        entries_count(es.drop_last(), w) + if es.last().0 == w {
            es.last().1 as nat
        } else {
            0nat
        }
    }
}

/// Pairwise-distinct words: no word appears in two entries.
spec fn distinct_words(es: Seq<(Seq<char>, u64)>) -> bool {
    forall|i: int, j: int| 0 <= i < j < es.len() ==> es[i].0 != es[j].0
}

proof fn lemma_count_absent(es: Seq<(Seq<char>, u64)>, w: Seq<char>)
    requires
        forall|i: int| 0 <= i < es.len() ==> es[i].0 != w,
    ensures
        entries_count(es, w) == 0,
    decreases es.len(),
{
    if es.len() > 0 {
        lemma_count_absent(es.drop_last(), w);
    }
}

proof fn lemma_count_unique(es: Seq<(Seq<char>, u64)>, w: Seq<char>, k: int)
    requires
        distinct_words(es),
        0 <= k < es.len(),
        es[k].0 == w,
    ensures
        entries_count(es, w) == es[k].1,
    decreases es.len(),
{
    if k == es.len() - 1 {
        lemma_count_absent(es.drop_last(), w);
    } else {
        lemma_count_unique(es.drop_last(), w, k);
    }
}

proof fn lemma_count_update(es: Seq<(Seq<char>, u64)>, k: int, n: u64, w: Seq<char>)
    requires
        0 <= k < es.len(),
    ensures
        entries_count(es.update(k, (es[k].0, n)), w) + (if es[k].0 == w {
            es[k].1 as nat
        } else {
            0nat
        }) == entries_count(es, w) + (if es[k].0 == w {
            n as nat
        } else {
            0nat
        }),
    decreases es.len(),
{
    let es2 = es.update(k, (es[k].0, n));
    if k == es.len() - 1 {
        assert(es2.drop_last() =~= es.drop_last());
    } else {
        lemma_count_update(es.drop_last(), k, n, w);
        assert(es2.drop_last() =~= es.drop_last().update(k, (es[k].0, n)));
        assert(es2.last() == es.last());
    }
}

proof fn lemma_count_bound(es: Seq<(Seq<char>, u64)>, w: Seq<char>)
    requires
        distinct_words(es),
    ensures
        entries_count(es, w) <= u64::MAX,
{
    if exists|k: int| 0 <= k < es.len() && es[k].0 == w {
        let k = choose|k: int| 0 <= k < es.len() && es[k].0 == w;
        lemma_count_unique(es, w, k);
    } else {
        lemma_count_absent(es, w);
    }
}

/// Character-by-character string equality, proved against the string views.
fn str_eq(a: &str, b: &str) -> (r: bool)
    ensures
        r == (a@ == b@),
{
    let na = a.unicode_len();
    let nb = b.unicode_len();
    if na != nb {
        return false;
    }
    let mut i: usize = 0;
    while i < na
        invariant
            na == a@.len(),
            na == b@.len(),
            i <= na,
            forall|j: int| 0 <= j < i ==> a@[j] == b@[j],
        decreases na - i,
    {
        if a.get_char(i) != b.get_char(i) {
            return false;
        }
        i += 1;
    }
    proof {
        assert(a@ =~= b@);
    }
    true
}

/// A frequency table: a mapping from words to unsigned counts, held as a
/// vector of (word, count) entries whose words are pairwise distinct.
pub struct FreqTable {
    entries: Vec<(String, u64)>,
}

impl FreqTable {
    /// The entries as mathematical values, in insertion order.
    pub closed spec fn entries_view(self) -> Seq<(Seq<char>, u64)> {
        self.entries@.map_values(|p: (String, u64)| (p.0@, p.1))
    }

    /// The count the table assigns to `w`: the sum of the counts of the
    /// entries whose word is `w`, hence 0 when `w` is absent.
    pub closed spec fn count_of(self, w: Seq<char>) -> nat {
        entries_count(self.entries_view(), w)
    }

    #[verifier::type_invariant]
    spec fn wf(self) -> bool {
        &&& distinct_words(self.entries_view())
        &&& forall|i: int|
            0 <= i < self.entries_view().len() ==> (#[trigger] self.entries_view()[i]).1 >= 1
    }

    /// An empty table: every word has count 0.
    pub fn new() -> (t: FreqTable)
        ensures
            forall|w: Seq<char>| t.count_of(w) == 0,
            t.entries_view() == Seq::<(Seq<char>, u64)>::empty(),
    {
        let t = FreqTable { entries: Vec::new() };
        proof {
            assert(t.entries_view() =~= Seq::<(Seq<char>, u64)>::empty());
        }
        t
    }

    /// The index of the entry holding `w`, if the table holds one.
    fn find_index(&self, w: &str) -> (r: Option<usize>)
        ensures
            match r {
                Some(k) => k < self.entries_view().len() && self.entries_view()[k as int].0
                    == w@,
                None => forall|i: int|
                    0 <= i < self.entries_view().len() ==> self.entries_view()[i].0 != w@,
            },
    {
        let n = self.entries.len();
        let mut k: usize = 0;
        while k < n
            invariant
                n == self.entries_view().len(),
                k <= n,
                forall|i: int| 0 <= i < k ==> self.entries_view()[i].0 != w@,
            decreases n - k,
        {
            if str_eq(self.entries[k].0.as_str(), w) {
                return Some(k);
            }
            k += 1;
        }
        None
    }

    /// Add `n` to the count of `word`, inserting the word with count `n` when
    /// it is absent. Every other word keeps its count.
    pub fn add_count(&mut self, word: String, n: u64)
        requires
            old(self).count_of(word@) + n <= u64::MAX,
        ensures
            final(self).count_of(word@) == old(self).count_of(word@) + n,
            forall|w: Seq<char>| w != word@ ==> final(self).count_of(w) == old(self).count_of(w),
    {
        proof {
            use_type_invariant(&*self);
        }
        let ghost old_view = self.entries_view();
        let found = self.find_index(word.as_str());
        let mut es: Vec<(String, u64)> = Vec::new();
        proof {
            assert(es@.map_values(|p: (String, u64)| (p.0@, p.1)).len() == 0);
        }
        core::mem::swap(&mut es, &mut self.entries);
        match found {
            Some(k) => {
                proof {
                    lemma_count_unique(old_view, word@, k as int);
                }
                let v = es[k].1;
                es[k].1 = v + n;
                proof {
                    let nv = es@.map_values(|p: (String, u64)| (p.0@, p.1));
                    assert(nv =~~= old_view.update(k as int, (old_view[k as int].0, (v + n) as u64)));
                    assert forall|i: int, j: int| 0 <= i < j < nv.len() implies nv[i].0
                        != nv[j].0 by {
                        assert(nv[i].0 == old_view[i].0);
                        assert(nv[j].0 == old_view[j].0);
                    }
                    assert forall|i: int| 0 <= i < nv.len() implies (#[trigger] nv[i]).1
                        >= 1 by {
                        assert(i != k ==> nv[i] == old_view[i]);
                    }
                    assert forall|w: Seq<char>|
                        entries_count(nv, w) + (if old_view[k as int].0 == w {
                            v as nat
                        } else {
                            0nat
                        }) == entries_count(old_view, w) + (if old_view[k as int].0 == w {
                            (v + n) as nat
                        } else {
                            0nat
                        }) by {
                        lemma_count_update(old_view, k as int, (v + n) as u64, w);
                    }
                }
            },
            None => {
                if n > 0 {
                    es.push((word, n));
                    proof {
                        let nv = es@.map_values(|p: (String, u64)| (p.0@, p.1));
                        assert(nv =~~= old_view.push((word@, n)));
                        assert(nv.drop_last() =~= old_view);
                        assert forall|i: int, j: int| 0 <= i < j < nv.len() implies nv[i].0
                            != nv[j].0 by {
                            assert(j < old_view.len() ==> nv[j].0 == old_view[j].0);
                            assert(nv[i].0 == old_view[i].0);
                        }
                        assert forall|i: int| 0 <= i < nv.len() implies (#[trigger] nv[i]).1
                            >= 1 by {
                            assert(i < old_view.len() ==> nv[i] == old_view[i]);
                        }
                    }
                } else {
                    proof {
                        lemma_count_absent(old_view, word@);
                        assert(es@.map_values(|p: (String, u64)| (p.0@, p.1)) =~~= old_view);
                    }
                }
            },
        }
        self.entries = es;
    }

    /// Add one to the count of `word`, the worker's step for one token.
    pub fn increment(&mut self, word: String)
        requires
            old(self).count_of(word@) < u64::MAX,
        ensures
            final(self).count_of(word@) == old(self).count_of(word@) + 1,
            forall|w: Seq<char>| w != word@ ==> final(self).count_of(w) == old(self).count_of(w),
    {
        self.add_count(word, 1);
    }

    /// The count recorded for `w`; 0 when `w` is absent.
    pub fn get(&self, w: &str) -> (r: u64)
        ensures
            r == self.count_of(w@),
    {
        proof {
            use_type_invariant(&*self);
        }
        match self.find_index(w) {
            Some(k) => {
                proof {
                    lemma_count_unique(self.entries_view(), w@, k as int);
                }
                self.entries[k].1
            },
            None => {
                proof {
                    lemma_count_absent(self.entries_view(), w@);
                }
                0
            },
        }
    }

    /// The number of distinct words the table holds.
    pub fn len(&self) -> (n: usize)
        ensures
            n == self.entries_view().len(),
    {
        self.entries.len()
    }

    /// The (word, count) entries, in first-insertion order: exactly the words
    /// with a positive count. No word appears in two entries, and each entry
    /// holds exactly the count the table assigns to its word: reporting one
    /// line per entry reports each distinct counted word once, with its count.
    pub fn entries(&self) -> (r: &Vec<(String, u64)>)
        ensures
            r@.len() == self.entries_view().len(),
            forall|i: int|
                0 <= i < r@.len() ==> (#[trigger] r@[i]).0@ == self.entries_view()[i].0 && r@[i].1
                    == self.entries_view()[i].1,
            forall|i: int|
                0 <= i < r@.len() ==> (#[trigger] r@[i]).1 == self.count_of(r@[i].0@) && r@[i].1
                    >= 1,
            forall|i: int, j: int| 0 <= i < j < r@.len() ==> (#[trigger] r@[i]).0@ != (
            #[trigger] r@[j]).0@,
            forall|w: Seq<char>|
                #[trigger] self.count_of(w) > 0 ==> exists|i: int|
                    0 <= i < r@.len() && (#[trigger] r@[i]).0@ == w,
    {
        proof {
            use_type_invariant(&*self);
            assert forall|i: int| 0 <= i < self.entries@.len() implies (
            #[trigger] self.entries@[i]).1 == self.count_of(self.entries@[i].0@)
                && self.entries@[i].1 >= 1 by {
                assert(self.entries_view()[i] == (self.entries@[i].0@, self.entries@[i].1));
                lemma_count_unique(self.entries_view(), self.entries_view()[i].0, i);
                assert(self.entries_view()[i].1 >= 1);
            }
            assert forall|i: int, j: int| 0 <= i < j < self.entries@.len() implies (
            #[trigger] self.entries@[i]).0@ != (#[trigger] self.entries@[j]).0@ by {
                assert(self.entries_view()[i] == (self.entries@[i].0@, self.entries@[i].1));
                assert(self.entries_view()[j] == (self.entries@[j].0@, self.entries@[j].1));
                assert(self.entries_view()[i].0 != self.entries_view()[j].0);
            }
            assert forall|w: Seq<char>| #[trigger] self.count_of(w) > 0 implies exists|i: int|
                0 <= i < self.entries@.len() && (#[trigger] self.entries@[i]).0@ == w by {
                if exists|i: int|
                    0 <= i < self.entries_view().len() && (#[trigger] self.entries_view()[i]).0
                        == w {
                    let vw = self.entries_view();
                    let i = choose|i: int| 0 <= i < vw.len() && (#[trigger] vw[i]).0 == w;
                    assert(self.entries_view()[i] == (self.entries@[i].0@, self.entries@[i].1));
                    assert(0 <= i < self.entries@.len() && self.entries@[i].0@ == w);
                } else {
                    assert forall|i: int|
                        0 <= i < self.entries_view().len() implies (
                    #[trigger] self.entries_view()[i]).0 != w by {}
                    lemma_count_absent(self.entries_view(), w);
                }
            }
        }
        &self.entries
    }

    /// Merge `other` into `self`: add other's count for every word to self's
    /// count for that word. When some merged count would not fit in a `u64`,
    /// return false and leave `self` unchanged.
    pub fn try_merge_from(&mut self, other: &FreqTable) -> (ok: bool)
        ensures
            ok == (forall|w: Seq<char>|
                old(self).count_of(w) + other.count_of(w) <= u64::MAX),
            ok ==> forall|w: Seq<char>|
                final(self).count_of(w) == old(self).count_of(w) + other.count_of(w),
            !ok ==> forall|w: Seq<char>| final(self).count_of(w) == old(self).count_of(w),
    {
        proof {
            use_type_invariant(&*self);
            use_type_invariant(other);
        }
        let ghost other_view = other.entries_view();
        let m = other.entries.len();
        let mut j: usize = 0;
        while j < m
            invariant
                m == other_view.len(),
                other_view == other.entries_view(),
                distinct_words(other_view),
                distinct_words(self.entries_view()),
                j <= m,
                forall|jj: int|
                    0 <= jj < j ==> self.count_of(other_view[jj].0) + other_view[jj].1
                        <= u64::MAX,
            decreases m - j,
        {
            proof {
                assert(other_view[j as int] == (other.entries@[j as int].0@,
                other.entries@[j as int].1));
            }
            let v = other.entries[j].1;
            let cur = self.get(other.entries[j].0.as_str());
            if cur > u64::MAX - v {
                proof {
                    lemma_count_unique(other_view, other_view[j as int].0, j as int);
                    assert(self.count_of(other_view[j as int].0) + other.count_of(
                        other_view[j as int].0,
                    ) > u64::MAX);
                }
                return false;
            }
            j += 1;
        }
        proof {
            assert forall|w: Seq<char>|
                self.count_of(w) + other.count_of(w) <= u64::MAX by {
                if exists|k: int| 0 <= k < other_view.len() && other_view[k].0 == w {
                    let k = choose|k: int| 0 <= k < other_view.len() && other_view[k].0 == w;
                    lemma_count_unique(other_view, w, k);
                } else {
                    lemma_count_absent(other_view, w);
                    lemma_count_bound(self.entries_view(), w);
                }
            }
        }
        let mut j: usize = 0;
        while j < m
            invariant
                m == other_view.len(),
                other_view == other.entries_view(),
                distinct_words(other_view),
                j <= m,
                forall|w: Seq<char>|
                    old(self).count_of(w) + other.count_of(w) <= u64::MAX,
                forall|w: Seq<char>|
                    self.count_of(w) == old(self).count_of(w) + entries_count(
                        other_view.take(j as int),
                        w,
                    ),
            decreases m - j,
        {
            let p = &other.entries[j];
            let key = p.0.clone();
            let v = p.1;
            proof {
                assert(other_view[j as int] == (other.entries@[j as int].0@,
                other.entries@[j as int].1));
                assert(key@ == other_view[j as int].0);
                assert forall|i: int| 0 <= i < j implies other_view.take(j as int)[i].0
                    != key@ by {
                    assert(other_view.take(j as int)[i] == other_view[i]);
                    assert(other_view[i].0 != other_view[j as int].0);
                }
                lemma_count_absent(other_view.take(j as int), key@);
                lemma_count_unique(other_view, key@, j as int);
                assert(self.count_of(key@) == old(self).count_of(key@) + entries_count(
                    other_view.take(j as int),
                    key@,
                ));
                assert(other.count_of(key@) == v);
                assert(old(self).count_of(key@) + other.count_of(key@) <= u64::MAX);
            }
            self.add_count(key, v);
            proof {
                assert(other_view.take(j as int + 1).drop_last() =~= other_view.take(j as int));
                assert(other_view.take(j as int + 1).last() == other_view[j as int]);
            }
            j += 1;
        }
        proof {
            assert(other_view.take(m as int) =~= other_view);
        }
        true
    }
}

} // verus!
