//! Per-key extremes of one partition, and their merge into the global result.

use vstd::prelude::*;

verus! {

/// What is known of one key: its least and its greatest value, in tenths.
pub type Extremes = (int, int);

pub open spec fn min_int(a: int, b: int) -> int {
    if a <= b {
        a
    } else {
        b
    }
}

pub open spec fn max_int(a: int, b: int) -> int {
    if a >= b {
        a
    } else {
        b
    }
}

/// The aggregate after one more reading `v` of key `k`.
pub open spec fn add_reading(m: Map<Seq<u8>, Extremes>, k: Seq<u8>, v: int) -> Map<
    Seq<u8>,
    Extremes,
> {
    if m.contains_key(k) {
        m.insert(k, (min_int(m[k].0, v), max_int(m[k].1, v)))
    } else {
        m.insert(k, (v, v))
    }
}

/// Two aggregates combined: every key of either, with the least minimum and
/// the greatest maximum.
pub open spec fn merge_maps(a: Map<Seq<u8>, Extremes>, b: Map<Seq<u8>, Extremes>) -> Map<
    Seq<u8>,
    Extremes,
> {
    Map::new(
        |k: Seq<u8>| a.contains_key(k) || b.contains_key(k),
        |k: Seq<u8>|
            if a.contains_key(k) && b.contains_key(k) {
                (min_int(a[k].0, b[k].0), max_int(a[k].1, b[k].1))
            } else if a.contains_key(k) {
                a[k]
            } else {
                b[k]
            },
    )
}

/// The midpoint that is reported as the mean: half the sum of minimum and
/// maximum, rounded down.
pub open spec fn midpoint(min: int, max: int) -> int {
    (min + max) / 2
}

/// Least and greatest value of one key, in tenths.
#[derive(Debug)]
pub struct KeyStats {
    pub key: Vec<u8>,
    pub min: i16,
    pub max: i16,
}

/// The extremes of each key seen in one partition, in order of first sight.
pub struct PartitionAggregate {
    entries: Vec<KeyStats>,
    model: Ghost<Map<Seq<u8>, Extremes>>,
}

impl View for PartitionAggregate {
    type V = Map<Seq<u8>, Extremes>;

    closed spec fn view(&self) -> Map<Seq<u8>, Extremes> {
        self.model@
    }
}

/// Whether `key` holds the same bytes as `s[lo..hi)`.
fn key_matches(key: &Vec<u8>, s: &[u8], lo: usize, hi: usize) -> (r: bool)
    requires
        lo <= hi <= s@.len(),
    ensures
        r == (key@ == s@.subrange(lo as int, hi as int)),
{
    if key.len() != hi - lo {
        return false;
    }
    let mut j: usize = 0;
    while j < key.len()
        invariant
            key@.len() == hi - lo,
            lo <= hi <= s@.len(),
            j <= key@.len(),
            forall|q: int| 0 <= q < j ==> key@[q] == s@[lo + q],
        decreases key@.len() - j,
    {
        if key[j] != s[lo + j] {
            assert(key@[j as int] != s@.subrange(lo as int, hi as int)[j as int]);
            return false;
        }
        j = j + 1;
    }
    assert(key@ =~= s@.subrange(lo as int, hi as int));
    true
}

/// A new vector holding `s[lo..hi)`.
fn copy_range(s: &[u8], lo: usize, hi: usize) -> (r: Vec<u8>)
    requires
        lo <= hi <= s@.len(),
    ensures
        r@ == s@.subrange(lo as int, hi as int),
{
    let mut r: Vec<u8> = Vec::new();
    let mut j: usize = lo;
    while j < hi
        invariant
            lo <= j <= hi <= s@.len(),
            r@ == s@.subrange(lo as int, j as int),
        decreases hi - j,
    {
        r.push(s[j]);
        j = j + 1;
        assert(r@ =~= s@.subrange(lo as int, j as int));
    }
    r
}

impl PartitionAggregate {
    /// The entries describe the model exactly, each key once, minimum not above maximum.
    pub closed spec fn wf(&self) -> bool {
        &&& forall|i: int, j: int|
            0 <= i < j < self.entries@.len() ==> #[trigger] self.entries@[i].key@
                != #[trigger] self.entries@[j].key@
        &&& forall|i: int|
            0 <= i < self.entries@.len() ==> {
                let e = #[trigger] self.entries@[i];
                &&& self@.contains_key(e.key@)
                &&& self@[e.key@] == (e.min as int, e.max as int)
            }
        &&& forall|k: Seq<u8>|
            #[trigger] self@.contains_key(k) ==> exists|i: int|
                0 <= i < self.entries@.len() && (#[trigger] self.entries@[i]).key@ == k
        &&& forall|k: Seq<u8>| #[trigger] self@.contains_key(k) ==> self@[k].0 <= self@[k].1
    }

    /// The entries, in order of first sight.
    pub closed spec fn entries_view(&self) -> Seq<KeyStats> {
        self.entries@
    }

    pub fn new() -> (r: Self)
        ensures
            r.wf(),
            r@ == Map::<Seq<u8>, Extremes>::empty(),
            r.entries_view().len() == 0,
    {
        PartitionAggregate { entries: Vec::new(), model: Ghost(Map::empty()) }
    }

    /// Number of distinct keys.
    pub fn len(&self) -> (r: usize)
        requires
            self.wf(),
        ensures
            r == self@.dom().len(),
    {
        proof { self.lemma_dom_is_keys(); }
        self.entries.len()
    }

    /// The key set has as many members as there are entries.
    proof fn lemma_dom_is_keys(&self)
        requires
            self.wf(),
        ensures
            self@.dom().finite(),
            self@.dom().len() == self.entries@.len(),
    {
        let keys = self.entries@.map_values(|e: KeyStats| e.key@);
        assert(keys.no_duplicates()) by {
            assert forall|i: int, j: int| 0 <= i < keys.len() && 0 <= j < keys.len() && i != j implies keys[i] != keys[j] by {
                if i < j {
                    assert(self.entries@[i].key@ != self.entries@[j].key@);
                } else {
                    assert(self.entries@[j].key@ != self.entries@[i].key@);
                }
            }
        }
        assert(keys.to_set() =~= self@.dom()) by {
            assert forall|k: Seq<u8>| self@.dom().contains(k) implies keys.to_set().contains(k) by {
                let i = choose|i: int| 0 <= i < self.entries@.len() && (#[trigger] self.entries@[i]).key@ == k;
                assert(keys[i] == k);
            }
            assert forall|k: Seq<u8>| keys.to_set().contains(k) implies self@.dom().contains(k) by {
                let i = choose|i: int| 0 <= i < keys.len() && keys[i] == k;
                assert(self.entries@[i].key@ == k);
            }
        }
        keys.unique_seq_to_set();
    }

    /// The entry with the key `s[lo..hi)`, if there is one.
    pub fn find(&self, s: &[u8], lo: usize, hi: usize) -> (r: Option<usize>)
        requires
            self.wf(),
            lo <= hi <= s@.len(),
        ensures
            match r {
                Some(i) => i < self.entries_view().len() && self.entries_view()[i as int].key@
                    == s@.subrange(lo as int, hi as int),
                None => !self@.contains_key(s@.subrange(lo as int, hi as int)),
            },
    {
        let mut i: usize = 0;
        while i < self.entries.len()
            invariant
                self.wf(),
                lo <= hi <= s@.len(),
                i <= self.entries@.len(),
                forall|j: int| 0 <= j < i ==> (#[trigger] self.entries@[j]).key@ != s@.subrange(lo as int, hi as int),
            decreases self.entries@.len() - i,
        {
            if key_matches(&self.entries[i].key, s, lo, hi) {
                return Some(i);
            }
            i = i + 1;
        }
        None
    }

    /// The extremes of `key`, if it was seen.
    pub fn get(&self, key: &[u8]) -> (r: Option<(i16, i16)>)
        requires
            self.wf(),
        ensures
            match r {
                Some((min, max)) => self@.contains_key(key@) && self@[key@] == (min as int, max as int),
                None => !self@.contains_key(key@),
            },
    {
        proof {
            assert(key@.subrange(0, key@.len() as int) =~= key@);
        }
        match self.find(key, 0, key.len()) {
            Some(i) => Some((self.entries[i].min, self.entries[i].max)),
            None => None,
        }
    }

    /// Adds the reading `v` of the key `s[lo..hi)`.
    pub fn add(&mut self, s: &[u8], lo: usize, hi: usize, v: i16)
        requires
            old(self).wf(),
            lo <= hi <= s@.len(),
        ensures
            final(self).wf(),
            final(self)@ == add_reading(old(self)@, s@.subrange(lo as int, hi as int), v as int),
    {
        let ghost k = s@.subrange(lo as int, hi as int);
        match self.find(s, lo, hi) {
            Some(i) => {
                let old_min = self.entries[i].min;
                let old_max = self.entries[i].max;
                let new_min = if v < old_min { v } else { old_min };
                let new_max = if v > old_max { v } else { old_max };
                self.set_extremes(i, new_min, new_max);
            },
            None => {
                let key = copy_range(s, lo, hi);
                self.push_new(key, v, v);
            },
        }
    }

    /// Sets the extremes of entry `i`.
    fn set_extremes(&mut self, i: usize, min: i16, max: i16)
        requires
            old(self).wf(),
            i < old(self).entries@.len(),
            min <= max,
        ensures
            final(self).wf(),
            final(self).entries@.len() == old(self).entries@.len(),
            final(self).entries@[i as int].key@ == old(self).entries@[i as int].key@,
            final(self).entries@[i as int].min == min,
            final(self).entries@[i as int].max == max,
            forall|j: int|
                0 <= j < old(self).entries@.len() && j != i ==> #[trigger] final(self).entries@[j]
                    == old(self).entries@[j],
            final(self)@ == old(self)@.insert(old(self).entries@[i as int].key@, (min as int, max as int)),
    {
        let ghost k = self.entries@[i as int].key@;
        self.entries[i].min = min;
        self.entries[i].max = max;
        self.model = Ghost(self.model@.insert(k, (min as int, max as int)));
        proof {
            assert forall|j: int| 0 <= j < self.entries@.len() && j != i implies #[trigger] self.entries@[j]
                == old(self).entries@[j] by {}
            assert forall|q: Seq<u8>| #[trigger] self@.contains_key(q) implies exists|j: int|
                0 <= j < self.entries@.len() && (#[trigger] self.entries@[j]).key@ == q by {
                let j = choose|j: int| 0 <= j < old(self).entries@.len() && (#[trigger] old(self).entries@[j]).key@ == q;
                assert(self.entries@[j].key@ == q);
            }
        }
    }

    /// Appends an entry for a key that is not present yet.
    fn push_new(&mut self, key: Vec<u8>, min: i16, max: i16)
        requires
            old(self).wf(),
            !old(self)@.contains_key(key@),
            min <= max,
        ensures
            final(self).wf(),
            final(self).entries@ == old(self).entries@.push(KeyStats { key, min, max }),
            final(self)@ == old(self)@.insert(key@, (min as int, max as int)),
    {
        let ghost k = key@;
        let ghost n = self.entries@.len();
        self.entries.push(KeyStats { key, min, max });
        self.model = Ghost(self.model@.insert(k, (min as int, max as int)));
        proof {
            assert forall|q: Seq<u8>| #[trigger] self@.contains_key(q) implies exists|i: int|
                0 <= i < self.entries@.len() && (#[trigger] self.entries@[i]).key@ == q by {
                if q == k {
                    assert(self.entries@[n as int].key@ == q);
                } else {
                    assert(old(self)@.contains_key(q));
                    let i = choose|i: int| 0 <= i < old(self).entries@.len() && (#[trigger] old(self).entries@[i]).key@ == q;
                    assert(self.entries@[i] == old(self).entries@[i]);
                }
            }
        }
    }
}

/// The mean that is reported for a key: the midpoint of its extremes, rounded down.
fn mean_of(min: i16, max: i16) -> (r: i16)
    ensures
        r == midpoint(min as int, max as int),
{
    let sum: i32 = min as i32 + max as i32;
    if sum >= 0 {
        (sum / 2) as i16
    } else {
        let m: i32 = -((1 - sum) / 2);
        assert(m == (sum as int) / 2) by (nonlinear_arith)
            requires
                sum < 0,
                m == -((1 - sum) / 2),
        ;
        m as i16
    }
}

/// The extremes of `m` with the extremes `x` of key `k` folded in.
pub open spec fn merge_entry(m: Map<Seq<u8>, Extremes>, k: Seq<u8>, x: Extremes) -> Map<
    Seq<u8>,
    Extremes,
> {
    if m.contains_key(k) {
        m.insert(k, (min_int(m[k].0, x.0), max_int(m[k].1, x.1)))
    } else {
        m.insert(k, x)
    }
}

/// The extremes of each key over all partitions merged so far, in order of
/// first sight, with the mean of each kept beside them.
pub struct GlobalAggregate {
    extremes: PartitionAggregate,
    means: Vec<i16>,
}

impl View for GlobalAggregate {
    type V = Map<Seq<u8>, Extremes>;

    closed spec fn view(&self) -> Map<Seq<u8>, Extremes> {
        self.extremes@
    }
}

impl GlobalAggregate {
    pub closed spec fn wf(&self) -> bool {
        &&& self.extremes.wf()
        &&& self.means@.len() == self.extremes.entries@.len()
        &&& forall|i: int|
            0 <= i < self.means@.len() ==> self.means@[i] as int == midpoint(
                self.extremes.entries@[i].min as int,
                self.extremes.entries@[i].max as int,
            )
    }

    /// The keys in order of first sight, each with its minimum, mean and maximum.
    pub closed spec fn summaries(&self) -> Seq<(Seq<u8>, int, int, int)> {
        Seq::new(
            self.means@.len(),
            |i: int|
                (
                    self.extremes.entries@[i].key@,
                    self.extremes.entries@[i].min as int,
                    self.means@[i] as int,
                    self.extremes.entries@[i].max as int,
                ),
        )
    }

    /// The summaries list each key of the aggregate once, with its extremes
    /// and their midpoint.
    pub proof fn lemma_summaries(&self)
        requires
            self.wf(),
        ensures
            self.summaries().len() == self@.dom().len(),
            forall|i: int, j: int|
                0 <= i < j < self.summaries().len() ==> #[trigger] self.summaries()[i].0
                    != #[trigger] self.summaries()[j].0,
            forall|i: int|
                0 <= i < self.summaries().len() ==> {
                    let e = #[trigger] self.summaries()[i];
                    &&& self@.contains_key(e.0)
                    &&& self@[e.0] == (e.1, e.3)
                    &&& e.2 == midpoint(e.1, e.3)
                },
            forall|k: Seq<u8>|
                #[trigger] self@.contains_key(k) ==> exists|i: int|
                    0 <= i < self.summaries().len() && (#[trigger] self.summaries()[i]).0 == k,
    {
        self.extremes.lemma_dom_is_keys();
        assert forall|i: int, j: int| 0 <= i < j < self.summaries().len() implies #[trigger] self.summaries()[i].0
            != #[trigger] self.summaries()[j].0 by {
            assert(self.extremes.entries@[i].key@ != self.extremes.entries@[j].key@);
        }
        assert forall|i: int| 0 <= i < self.summaries().len() implies {
            let e = #[trigger] self.summaries()[i];
            &&& self@.contains_key(e.0)
            &&& self@[e.0] == (e.1, e.3)
            &&& e.2 == midpoint(e.1, e.3)
        } by {
            let e = self.extremes.entries@[i];
            assert(self@.contains_key(e.key@));
        }
        assert forall|k: Seq<u8>| #[trigger] self@.contains_key(k) implies exists|i: int|
            0 <= i < self.summaries().len() && (#[trigger] self.summaries()[i]).0 == k by {
            let i = choose|i: int| 0 <= i < self.extremes.entries@.len() && (#[trigger] self.extremes.entries@[i]).key@ == k;
            assert(self.summaries()[i].0 == k);
        }
    }

    pub fn new() -> (r: Self)
        ensures
            r.wf(),
            r@ == Map::<Seq<u8>, Extremes>::empty(),
    {
        GlobalAggregate { extremes: PartitionAggregate::new(), means: Vec::new() }
    }

    /// Number of distinct keys.
    pub fn len(&self) -> (r: usize)
        requires
            self.wf(),
        ensures
            r == self@.dom().len(),
    {
        self.extremes.len()
    }

    /// Minimum, mean and maximum of the `i`-th key in order of first sight.
    pub fn summary(&self, i: usize) -> (r: (&[u8], i16, i16, i16))
        requires
            self.wf(),
            i < self.summaries().len(),
        ensures
            (r.0@, r.1 as int, r.2 as int, r.3 as int) == self.summaries()[i as int],
    {
        let e = &self.extremes.entries[i];
        (e.key.as_slice(), e.min, self.means[i], e.max)
    }

    /// Minimum, mean and maximum of `key`, if it was seen.
    pub fn get(&self, key: &[u8]) -> (r: Option<(i16, i16, i16)>)
        requires
            self.wf(),
        ensures
            match r {
                Some((min, mean, max)) => self@.contains_key(key@) && self@[key@] == (
                    min as int,
                    max as int,
                ) && mean == midpoint(min as int, max as int),
                None => !self@.contains_key(key@),
            },
    {
        proof {
            assert(key@.subrange(0, key@.len() as int) =~= key@);
        }
        match self.extremes.find(key, 0, key.len()) {
            Some(i) => Some((self.extremes.entries[i].min, self.means[i], self.extremes.entries[i].max)),
            None => None,
        }
    }

    /// Folds the extremes `(min, max)` of the key `key` into the aggregate.
    fn merge_key(&mut self, key: &Vec<u8>, min: i16, max: i16)
        requires
            old(self).wf(),
            min <= max,
        ensures
            final(self).wf(),
            final(self)@ == merge_entry(old(self)@, key@, (min as int, max as int)),
    {
        let n = key.len();
        proof {
            assert(key@.subrange(0, n as int) =~= key@);
        }
        match self.extremes.find(key.as_slice(), 0, n) {
            Some(i) => {
                let o_min = self.extremes.entries[i].min;
                let o_max = self.extremes.entries[i].max;
                let mut new_min = o_min;
                let mut new_max = o_max;
                let mut updated = false;
                if min < o_min {
                    new_min = min;
                    updated = true;
                }
                if max > o_max {
                    new_max = max;
                    updated = true;
                }
                self.extremes.set_extremes(i, new_min, new_max);
                if updated {
                    self.means.set(i, mean_of(new_min, new_max));
                }
                proof {
                    assert forall|j: int| 0 <= j < self.means@.len() implies self.means@[j] as int == midpoint(
                        self.extremes.entries@[j].min as int,
                        self.extremes.entries@[j].max as int,
                    ) by {
                        if j != i {
                            assert(self.extremes.entries@[j] == old(self).extremes.entries@[j]);
                        }
                    }
                }
            },
            None => {
                let mut copy: Vec<u8> = Vec::new();
                let mut j: usize = 0;
                while j < n
                    invariant
                        n == key@.len(),
                        j <= n,
                        copy@ == key@.subrange(0, j as int),
                    decreases n - j,
                {
                    copy.push(key[j]);
                    j = j + 1;
                    assert(copy@ =~= key@.subrange(0, j as int));
                }
                self.extremes.push_new(copy, min, max);
                self.means.push(mean_of(min, max));
            },
        }
    }

    /// Folds a partition's aggregate into this one.
    pub fn merge(&mut self, part: &PartitionAggregate)
        requires
            old(self).wf(),
            part.wf(),
        ensures
            final(self).wf(),
            final(self)@ == merge_maps(old(self)@, part@),
    {
        let ghost start = self@;
        let mut i: usize = 0;
        while i < part.entries.len()
            invariant
                self.wf(),
                part.wf(),
                i <= part.entries@.len(),
                self@ == merge_maps(start, part.prefix_map(i as int)),
            decreases part.entries@.len() - i,
        {
            let e = &part.entries[i];
            proof {
                part.lemma_prefix_step(i as int);
                lemma_merge_insert_new(start, part.prefix_map(i as int), e.key@, (e.min as int, e.max as int));
            }
            self.merge_key(&e.key, e.min, e.max);
            i = i + 1;
        }
        proof {
            part.lemma_prefix_all();
        }
    }
}

impl PartitionAggregate {
    /// The part of the model that the first `i` entries describe.
    pub closed spec fn prefix_map(&self, i: int) -> Map<Seq<u8>, Extremes> {
        self@.restrict(Set::new(|k: Seq<u8>| exists|j: int| 0 <= j < i && (#[trigger] self.entries@[j]).key@ == k))
    }

    proof fn lemma_prefix_step(&self, i: int)
        requires
            self.wf(),
            0 <= i < self.entries@.len(),
        ensures
            !self.prefix_map(i).contains_key(self.entries@[i].key@),
            self.prefix_map(i + 1) == self.prefix_map(i).insert(
                self.entries@[i].key@,
                (self.entries@[i].min as int, self.entries@[i].max as int),
            ),
            self.entries@[i].min <= self.entries@[i].max,
    {
        let k = self.entries@[i].key@;
        if self.prefix_map(i).contains_key(k) {
            let j = choose|j: int| 0 <= j < i && (#[trigger] self.entries@[j]).key@ == k;
            assert(self.entries@[j].key@ != self.entries@[i].key@);
        }
        assert(self.entries@[i].key@ == k);
        assert(self.prefix_map(i + 1) =~= self.prefix_map(i).insert(k, (self.entries@[i].min as int, self.entries@[i].max as int)));
    }

    proof fn lemma_prefix_all(&self)
        requires
            self.wf(),
        ensures
            self.prefix_map(self.entries@.len() as int) == self@,
    {
        assert(self.prefix_map(self.entries@.len() as int) =~= self@);
    }
}

proof fn lemma_merge_insert_new(
    a: Map<Seq<u8>, Extremes>,
    p: Map<Seq<u8>, Extremes>,
    k: Seq<u8>,
    x: Extremes,
)
    requires
        !p.contains_key(k),
    ensures
        merge_maps(a, p.insert(k, x)) == merge_entry(merge_maps(a, p), k, x),
{
    assert(merge_maps(a, p.insert(k, x)) =~= merge_entry(merge_maps(a, p), k, x));
}

} // verus!
