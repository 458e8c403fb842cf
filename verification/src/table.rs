//! Frequency table: occurrence counts per distinct emoji key.
//!
//! The table stores one entry per distinct key, in first-seen order, with
//! its count.  Keys are compared by exact text: two textually distinct
//! grapheme-cluster strings are distinct keys even if visually similar.
//! Every key present has count at least 1, and the stored running total
//! always equals the sum of all counts.

use vstd::pervasive::VecAdditionalExecFns;
use vstd::prelude::*;
use vstd::seq_lib::group_to_multiset_ensures;

verus! {

broadcast use group_to_multiset_ensures;

/// One ranked or counted entry: an emoji key and its occurrence count.
pub struct Entry {
    pub key: String,
    pub count: usize,
}

/// Sum of the counts of a sequence of entries.
pub open spec fn sum_counts(s: Seq<Entry>) -> int
    decreases s.len(),
{
    if s.len() == 0 {
        0
    } else {
        sum_counts(s.drop_last()) + s.last().count
    }
}

/// The views of a sequence of keys.
pub open spec fn key_views(s: Seq<String>) -> Seq<Seq<char>> {
    s.map_values(|x: String| x@)
}

/// Sum of a sequence of integers.
pub open spec fn sum_ints(s: Seq<int>) -> int
    decreases s.len(),
{
    if s.len() == 0 {
        0
    } else {
        sum_ints(s.drop_last()) + s.last()
    }
}

proof fn lemma_sum_counts_as_ints(s: Seq<Entry>)
    ensures
        sum_counts(s) == sum_ints(Seq::new(s.len(), |i: int| s[i].count as int)),
    decreases s.len(),
{
    let m = Seq::new(s.len(), |i: int| s[i].count as int);
    if s.len() > 0 {
        lemma_sum_counts_as_ints(s.drop_last());
        assert(Seq::new(s.drop_last().len(), |i: int| s.drop_last()[i].count as int)
            =~= m.drop_last());
    }
}

pub proof fn lemma_sum_counts_nonneg(s: Seq<Entry>)
    ensures
        0 <= sum_counts(s),
    decreases s.len(),
{
    if s.len() > 0 {
        lemma_sum_counts_nonneg(s.drop_last());
    }
}

pub proof fn lemma_count_le_sum(s: Seq<Entry>, i: int)
    requires
        0 <= i < s.len(),
    ensures
        s[i].count <= sum_counts(s),
    decreases s.len(),
{
    if i == s.len() - 1 {
        lemma_sum_counts_nonneg(s.drop_last());
    } else {
        lemma_count_le_sum(s.drop_last(), i);
    }
}

proof fn lemma_sum_counts_update(s: Seq<Entry>, i: int, e: Entry)
    requires
        0 <= i < s.len(),
    ensures
        sum_counts(s.update(i, e)) == sum_counts(s) - s[i].count + e.count,
    decreases s.len(),
{
    let u = s.update(i, e);
    if i == s.len() - 1 {
        assert(u.drop_last() =~= s.drop_last());
    } else {
        assert(u.drop_last() =~= s.drop_last().update(i, e));
        lemma_sum_counts_update(s.drop_last(), i, e);
    }
}

/// Accumulated counts of each distinct emoji key, in first-seen order.
pub struct FrequencyTable {
    entries: Vec<Entry>,
    total: usize,
}

impl FrequencyTable {
    /// Number of distinct keys.
    pub closed spec fn num_keys(self) -> int {
        self.entries@.len() as int
    }

    /// The key of entry `i`.
    pub closed spec fn key(self, i: int) -> Seq<char> {
        self.entries@[i].key@
    }

    /// The count of entry `i`.
    pub closed spec fn count(self, i: int) -> int {
        self.entries@[i].count as int
    }

    /// All keys, in first-seen order.
    pub open spec fn keys(self) -> Seq<Seq<char>> {
        Seq::new(self.num_keys() as nat, |i: int| self.key(i))
    }

    /// Whether key `k` is present.
    pub open spec fn contains(self, k: Seq<char>) -> bool {
        exists|i: int| 0 <= i < self.num_keys() && self.key(i) == k
    }

    /// The index of key `k`, if present.
    pub open spec fn index_of(self, k: Seq<char>) -> int {
        choose|i: int| 0 <= i < self.num_keys() && self.key(i) == k
    }

    /// The count recorded for key `k`; 0 if `k` is absent.
    pub open spec fn count_of(self, k: Seq<char>) -> int {
        if self.contains(k) {
            self.count(self.index_of(k))
        } else {
            0
        }
    }

    /// Sum of all counts.
    pub closed spec fn spec_total(self) -> int {
        self.total as int
    }

    /// The stored total equals the sum of all entry counts.
    pub closed spec fn total_is_sum(self) -> bool {
        self.total as int == sum_counts(self.entries@)
    }

    /// The counts of all entries, in first-seen order.
    pub open spec fn counts_seq(self) -> Seq<int> {
        Seq::new(self.num_keys() as nat, |i: int| self.count(i))
    }

    /// Well-formed: keys are distinct, every count is at least 1, and the
    /// stored total is the sum of the counts.
    pub open spec fn wf(self) -> bool {
        &&& forall|i: int, j: int|
            0 <= i < j < self.num_keys() ==> self.key(i) != self.key(j)
        &&& forall|i: int| 0 <= i < self.num_keys() ==> 1 <= #[trigger] self.count(i)
        &&& self.total_is_sum()
    }

    /// The total of a well-formed table is the sum of its counts.
    pub proof fn lemma_total_is_sum(self)
        requires
            self.wf(),
        ensures
            self.spec_total() == sum_ints(self.counts_seq()),
    {
        lemma_sum_counts_as_ints(self.entries@);
        assert(self.counts_seq() =~= Seq::new(
            self.entries@.len(),
            |i: int| self.entries@[i].count as int,
        ));
    }

    /// No single count exceeds the total.
    pub proof fn lemma_count_le_total(self, i: int)
        requires
            self.wf(),
            0 <= i < self.num_keys(),
        ensures
            self.count(i) <= self.spec_total(),
    {
        lemma_count_le_sum(self.entries@, i);
    }

    /// In a well-formed table the index of a present key is the only one
    /// holding that key.
    pub proof fn lemma_index_of_unique(self, k: Seq<char>, i: int)
        requires
            self.wf(),
            0 <= i < self.num_keys(),
            self.key(i) == k,
        ensures
            self.contains(k),
            self.index_of(k) == i,
            self.count_of(k) == self.count(i),
    {
        let j = self.index_of(k);
        assert(0 <= j < self.num_keys() && self.key(j) == k);
        if i < j {
            assert(self.key(i) != self.key(j));
        } else if j < i {
            assert(self.key(j) != self.key(i));
        }
    }

    /// Creates an empty table.
    pub fn new() -> (r: FrequencyTable)
        ensures
            r.wf(),
            r.num_keys() == 0,
            r.spec_total() == 0,
    {
        FrequencyTable { entries: Vec::new(), total: 0 }
    }

    /// The index of `key` in the table, if it is present.
    fn find(&self, key: &String) -> (r: Option<usize>)
        ensures
            match r {
                Some(i) => 0 <= i < self.num_keys() && self.key(i as int) == key@,
                None => !self.contains(key@),
            },
    {
        let n: usize = self.entries.len();
        let mut i: usize = 0;
        while i < n
            invariant
                i <= n,
                n == self.num_keys(),
                forall|j: int| 0 <= j < i ==> self.key(j) != key@,
            decreases n - i,
        {
            if self.entries[i].key.eq(key) {
                return Some(i);
            }
            i += 1;
        }
        None
    }

    /// Records one occurrence of `key`: its count grows by 1, with a new
    /// entry at count 1 if the key was unseen.  No other key's count moves.
    pub fn add(&mut self, key: String)
        requires
            old(self).wf(),
            old(self).spec_total() < usize::MAX as int,
        ensures
            final(self).wf(),
            final(self).spec_total() == old(self).spec_total() + 1,
            final(self).count_of(key@) == old(self).count_of(key@) + 1,
            forall|k: Seq<char>| k != key@ ==> final(self).count_of(k) == old(self).count_of(k),
            forall|k: Seq<char>|
                final(self).contains(k) <==> (old(self).contains(k) || k == key@),
            old(self).contains(key@) ==> final(self).keys() == old(self).keys(),
            !old(self).contains(key@) ==> final(self).keys() == old(self).keys().push(key@),
    {
        match self.find(&key) {
            Some(i) => {
                proof {
                    lemma_count_le_sum(self.entries@, i as int);
                    old(self).lemma_index_of_unique(key@, i as int);
                }
                let c: usize = self.entries[i].count;
                let replacement = Entry { key: self.entries[i].key.clone(), count: c + 1 };
                proof {
                    lemma_sum_counts_update(self.entries@, i as int, replacement);
                }
                self.entries.set(i, replacement);
                self.total += 1;
                proof {
                    assert(forall|j: int|
                        0 <= j < self.num_keys() ==> self.key(j) == old(self).key(j));
                    assert(forall|j: int|
                        0 <= j < self.num_keys() && j != i ==> self.count(j) == old(self).count(
                            j,
                        ));
                    assert(self.wf());
                    assert(self.keys() =~= old(self).keys());
                    assert forall|k: Seq<char>| #[trigger] self.contains(k) == old(self).contains(k) by {
                        assert(forall|j: int|
                            0 <= j < self.num_keys() ==> self.key(j) == old(self).key(j));
                    }
                    self.lemma_index_of_unique(key@, i as int);
                    assert forall|k: Seq<char>| k != key@ implies self.count_of(k) == old(
                        self,
                    ).count_of(k) by {
                        if old(self).contains(k) {
                            let j = old(self).index_of(k);
                            assert(self.key(j) == k);
                            self.lemma_index_of_unique(k, j);
                        }
                    }
                }
            },
            None => {
                proof {
                    lemma_sum_counts_nonneg(self.entries@);
                    assert(sum_counts(self.entries@.push(Entry { key, count: 1 }))
                        == sum_counts(self.entries@) + 1) by {
                        assert(self.entries@.push(Entry { key, count: 1 }).drop_last()
                            =~= self.entries@);
                    }
                }
                self.entries.push(Entry { key, count: 1 });
                self.total += 1;
                proof {
                    let n = old(self).num_keys();
                    assert(forall|j: int| 0 <= j < n ==> self.key(j) == old(self).key(j));
                    assert(forall|j: int| 0 <= j < n ==> self.count(j) == old(self).count(j));
                    assert(forall|j: int| 0 <= j < n ==> self.key(j) != key@);
                    assert(self.key(n) == key@ && self.count(n) == 1);
                    assert(self.wf());
                    assert(self.keys() =~= old(self).keys().push(key@));
                    self.lemma_index_of_unique(key@, n);
                    assert forall|k: Seq<char>| k != key@ implies self.count_of(k) == old(
                        self,
                    ).count_of(k) by {
                        if old(self).contains(k) {
                            let j = old(self).index_of(k);
                            assert(self.key(j) == k);
                            self.lemma_index_of_unique(k, j);
                        } else {
                            assert(forall|j: int|
                                0 <= j < n ==> self.key(j) == old(self).key(j));
                        }
                    }
                    assert forall|k: Seq<char>|
                        self.contains(k) <==> (old(self).contains(k) || k == key@) by {
                        assert(forall|j: int| 0 <= j < n ==> self.key(j) == old(self).key(j));
                    }
                }
            },
        }
    }

    /// Records one occurrence of every key in `keys`, left to right.  The
    /// effect on each key's count depends only on the multiset of keys:
    /// the count grows by the number of occurrences.
    pub fn add_all(&mut self, keys: &Vec<String>)
        requires
            old(self).wf(),
            old(self).spec_total() + keys@.len() <= usize::MAX as int,
        ensures
            final(self).wf(),
            final(self).spec_total() == old(self).spec_total() + keys@.len(),
            forall|k: Seq<char>|
                #[trigger] final(self).count_of(k) == old(self).count_of(k) + key_views(
                    keys@,
                ).to_multiset().count(k),
    {
        let n: usize = keys.len();
        let mut i: usize = 0;
        while i < n
            invariant
                i <= n,
                n == keys@.len(),
                self.wf(),
                old(self).spec_total() + n <= usize::MAX as int,
                self.spec_total() == old(self).spec_total() + i,
                forall|k: Seq<char>|
                    #[trigger] self.count_of(k) == old(self).count_of(k) + key_views(
                        keys@.subrange(0, i as int),
                    ).to_multiset().count(k),
            decreases n - i,
        {
            let ghost prev = *self;
            self.add(keys[i].clone());
            proof {
                let sub = keys@.subrange(0, i as int);
                let sub1 = keys@.subrange(0, i + 1 as int);
                assert(key_views(sub1) =~= key_views(sub).push(keys@[i as int]@));
                assert(key_views(sub).push(keys@[i as int]@).to_multiset() =~= key_views(
                    sub,
                ).to_multiset().insert(keys@[i as int]@));
            }
            i += 1;
        }
        proof {
            assert(keys@.subrange(0, n as int) =~= keys@);
        }
    }

    /// Number of distinct keys seen.
    pub fn len(&self) -> (r: usize)
        ensures
            r == self.num_keys(),
    {
        self.entries.len()
    }

    /// Whether no emoji was seen at all.
    pub fn is_empty(&self) -> (r: bool)
        ensures
            r == (self.num_keys() == 0),
    {
        self.entries.is_empty()
    }

    /// Sum of all counts: the number of occurrences recorded.
    pub fn total_count(&self) -> (r: usize)
        ensures
            r == self.spec_total(),
    {
        self.total
    }

    /// The key of entry `i`.
    pub fn key_at(&self, i: usize) -> (r: &String)
        requires
            0 <= i < self.num_keys(),
        ensures
            r@ == self.key(i as int),
    {
        &self.entries[i].key
    }

    /// The count of entry `i`.
    pub fn count_at(&self, i: usize) -> (r: usize)
        requires
            0 <= i < self.num_keys(),
        ensures
            r == self.count(i as int),
    {
        self.entries[i].count
    }

    /// The largest count in the table.
    pub fn max_count(&self) -> (r: usize)
        requires
            1 <= self.num_keys(),
        ensures
            exists|i: int| 0 <= i < self.num_keys() && self.count(i) == r,
            forall|i: int| 0 <= i < self.num_keys() ==> #[trigger] self.count(i) <= r,
            r == self.counts_seq().max(),
    {
        let n: usize = self.entries.len();
        let mut best: usize = self.entries[0].count;
        let mut i: usize = 1;
        proof {
            assert(self.count(0) == best);
        }
        while i < n
            invariant
                1 <= i <= n,
                n == self.num_keys(),
                exists|j: int| 0 <= j < i && self.count(j) == best,
                forall|j: int| 0 <= j < i ==> #[trigger] self.count(j) <= best,
            decreases n - i,
        {
            if self.entries[i].count > best {
                best = self.entries[i].count;
                proof {
                    assert(self.count(i as int) == best);
                }
            }
            i += 1;
        }
        proof {
            let cs = self.counts_seq();
            cs.max_ensures();
            let w = choose|w: int| 0 <= w < self.num_keys() && self.count(w) == best;
            assert(cs[w] == best);
            assert(best <= cs.max());
            let v = choose|v: int| 0 <= v < cs.len() && cs[v] == cs.max();
            assert(self.count(v) == cs.max());
        }
        best
    }
}

/// Counting is order-independent: two runs over key sequences that form
/// the same multiset leave every key, in any starting table, with the same
/// final count.
pub proof fn lemma_counting_order_independent(
    t: FrequencyTable,
    s1: Seq<String>,
    s2: Seq<String>,
)
    requires
        key_views(s1).to_multiset() == key_views(s2).to_multiset(),
    ensures
        forall|k: Seq<char>|
            t.count_of(k) + key_views(s1).to_multiset().count(k) == t.count_of(k) + key_views(
                s2,
            ).to_multiset().count(k),
{
}

} // verus!
