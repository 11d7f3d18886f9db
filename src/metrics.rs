use vstd::prelude::*;

verus! {

/// One named series of observations, each the IEEE-754 bit pattern of a double.
pub struct MetricSeries {
    pub name: String,
    pub values: Vec<u64>,
}

/// No two series share a name.
pub open spec fn names_unique(s: Seq<MetricSeries>) -> bool {
    forall|i: int, j: int| 0 <= i < j < s.len() ==> (#[trigger] s[i]).name@ != (#[trigger] s[j]).name@
}

/// Some series in `s` is named `n`.
pub open spec fn has_series(s: Seq<MetricSeries>, n: Seq<char>) -> bool {
    exists|i: int| 0 <= i < s.len() && (#[trigger] s[i]).name@ == n
}

/// The observations recorded under `n`; empty where no series bears that name.
pub open spec fn series_values(s: Seq<MetricSeries>, n: Seq<char>) -> Seq<u64> {
    if has_series(s, n) {
        s[choose|i: int| 0 <= i < s.len() && (#[trigger] s[i]).name@ == n].values@
    } else {
        Seq::<u64>::empty()
    }
}

/// With unique names, the series found under a name is the one at any index bearing it.
pub proof fn lemma_series_at(s: Seq<MetricSeries>, i: int)
    requires
        names_unique(s),
        0 <= i < s.len(),
    ensures
        has_series(s, s[i].name@),
        series_values(s, s[i].name@) == s[i].values@,
{
    let n = s[i].name@;
    assert(has_series(s, n));
    let j = choose|j: int| 0 <= j < s.len() && (#[trigger] s[j]).name@ == n;
    if j < i {
        assert(s[j].name@ != s[i].name@);
    } else if j > i {
        assert(s[i].name@ != s[j].name@);
    }
}

/// Reading a uniquely named sequence one series at a time: the first `k + 1` series hold
/// under each name what the first `k` hold, plus series `k` under its own name.
pub proof fn lemma_series_prefix(s: Seq<MetricSeries>, k: int, n: Seq<char>)
    requires
        names_unique(s),
        0 <= k < s.len(),
    ensures
        series_values(s.take(k + 1), n) == series_values(s.take(k), n) + (if n == s[k].name@ {
            s[k].values@
        } else {
            Seq::<u64>::empty()
        }),
{
    let a = s.take(k);
    let b = s.take(k + 1);
    assert(names_unique(a));
    assert(names_unique(b));
    if n == s[k].name@ {
        assert(b[k] == s[k]);
        lemma_series_at(b, k);
        assert(!has_series(a, n)) by {
            if has_series(a, n) {
                let j = choose|j: int| 0 <= j < a.len() && (#[trigger] a[j]).name@ == n;
                assert(s[j].name@ != s[k].name@);
            }
        }
        assert(series_values(a, n) + s[k].values@ =~= s[k].values@);
    } else {
        if has_series(a, n) {
            let j = choose|j: int| 0 <= j < a.len() && (#[trigger] a[j]).name@ == n;
            lemma_series_at(a, j);
            assert(b[j] == a[j]);
            lemma_series_at(b, j);
        } else {
            assert(!has_series(b, n)) by {
                if has_series(b, n) {
                    let j = choose|j: int| 0 <= j < b.len() && (#[trigger] b[j]).name@ == n;
                    assert(j != k);
                    assert(a[j] == b[j]);
                }
            }
        }
        assert(series_values(a, n) + Seq::<u64>::empty() =~= series_values(a, n));
    }
}

/// A metric store: each metric name maps to an append-only sequence of observations.
pub struct MetricStore {
    series: Vec<MetricSeries>,
}

impl MetricStore {
    /// The series in the order their names were first recorded.
    pub closed spec fn series(&self) -> Seq<MetricSeries> {
        self.series@
    }

    pub closed spec fn wf(&self) -> bool {
        names_unique(self.series@)
    }

    /// The observations recorded under `n`, oldest first.
    pub open spec fn values_of(&self, n: Seq<char>) -> Seq<u64> {
        series_values(self.series(), n)
    }

    /// A series named `n` exists.
    pub open spec fn contains(&self, n: Seq<char>) -> bool {
        has_series(self.series(), n)
    }

    pub fn new() -> (r: MetricStore)
        ensures
            r.wf(),
            r.series().len() == 0,
            forall|n: Seq<char>| !r.contains(n) && r.values_of(n) == Seq::<u64>::empty(),
    {
        MetricStore { series: Vec::new() }
    }

    /// Appends one observation to the series named `name`.
    pub fn record(&mut self, name: &String, value: u64)
        requires
            old(self).wf(),
        ensures
            final(self).wf(),
            forall|n: Seq<char>| #[trigger] final(self).values_of(n) == if n == name@ {
                old(self).values_of(n).push(value)
            } else {
                old(self).values_of(n)
            },
            forall|n: Seq<char>| #[trigger] final(self).contains(n) == (old(self).contains(n) || n == name@),
    {
        let one = vec![value];
        self.append(name, &one);
        assert forall|n: Seq<char>| n == name@ implies #[trigger] final(self).values_of(n) == old(self).values_of(n).push(value) by {
            assert(old(self).values_of(n) + one@ =~= old(self).values_of(n).push(value));
        }
    }

    fn position(&self, name: &String) -> (r: Option<usize>)
        ensures
            match r {
                Some(i) => i < self.series@.len() && self.series@[i as int].name@ == name@,
                None => !has_series(self.series@, name@),
            },
    {
        let mut i: usize = 0;
        while i < self.series.len()
            invariant
                i <= self.series@.len(),
                forall|k: int| 0 <= k < i ==> (#[trigger] self.series@[k]).name@ != name@,
            decreases self.series@.len() - i,
        {
            if self.series[i].name == *name {
                return Some(i);
            }
            i = i + 1;
        }
        None
    }

    /// Appends `values`, in order, to the series named `name`, creating it if needed.
    pub fn append(&mut self, name: &String, values: &Vec<u64>)
        requires
            old(self).wf(),
        ensures
            final(self).wf(),
            forall|n: Seq<char>| #[trigger] final(self).values_of(n) == if n == name@ {
                old(self).values_of(n) + values@
            } else {
                old(self).values_of(n)
            },
            forall|n: Seq<char>| #[trigger] final(self).contains(n) == (old(self).contains(n) || n == name@),
    {
        let ghost s = self.series@;
        match self.position(name) {
            Some(i) => {
                let mut entry = self.series.remove(i);
                let ghost before = entry.values@;
                let mut j: usize = 0;
                while j < values.len()
                    invariant
                        j <= values@.len(),
                        entry.values@ == before + values@.take(j as int),
                        entry.name == s[i as int].name,
                    decreases values@.len() - j,
                {
                    entry.values.push(values[j]);
                    j = j + 1;
                    proof {
                        assert(before + values@.take(j as int) =~= (before + values@.take(j - 1)).push(values@[j - 1]));
                    }
                }
                assert(values@.take(values@.len() as int) =~= values@);
                let ghost updated = entry;
                self.series.insert(i, entry);
                proof {
                    let t = self.series@;
                    assert(t =~= s.update(i as int, updated));
                    assert(names_unique(t)) by {
                        assert forall|a: int, b: int| 0 <= a < b < t.len() implies (#[trigger] t[a]).name@ != (#[trigger] t[b]).name@ by {
                            assert(s[a].name@ != s[b].name@);
                        }
                    }
                    assert forall|n: Seq<char>| #[trigger] series_values(t, n) == if n == name@ {
                        series_values(s, n) + values@
                    } else {
                        series_values(s, n)
                    } by {
                        lemma_series_at(s, i as int);
                        lemma_series_at(t, i as int);
                        if n != name@ && has_series(s, n) {
                            let k = choose|k: int| 0 <= k < s.len() && (#[trigger] s[k]).name@ == n;
                            lemma_series_at(s, k);
                            lemma_series_at(t, k);
                        }
                        if n != name@ && has_series(t, n) {
                            let k = choose|k: int| 0 <= k < t.len() && (#[trigger] t[k]).name@ == n;
                            assert(s[k].name@ == n);
                        }
                    }
                    assert forall|n: Seq<char>| #[trigger] has_series(t, n) == (has_series(s, n) || n == name@) by {
                        lemma_series_at(t, i as int);
                        if has_series(s, n) {
                            let k = choose|k: int| 0 <= k < s.len() && (#[trigger] s[k]).name@ == n;
                            assert(t[k].name@ == n);
                        }
                        if has_series(t, n) {
                            let k = choose|k: int| 0 <= k < t.len() && (#[trigger] t[k]).name@ == n;
                            assert(s[k].name@ == n);
                        }
                    }
                }
            },
            None => {
                let mut copied: Vec<u64> = Vec::new();
                let mut j: usize = 0;
                while j < values.len()
                    invariant
                        j <= values@.len(),
                        copied@ == values@.take(j as int),
                    decreases values@.len() - j,
                {
                    copied.push(values[j]);
                    j = j + 1;
                    proof {
                        assert(values@.take(j as int) =~= values@.take(j - 1).push(values@[j - 1]));
                    }
                }
                assert(values@.take(values@.len() as int) =~= values@);
                let entry = MetricSeries { name: name.clone(), values: copied };
                let ghost added = entry;
                self.series.push(entry);
                proof {
                    let t = self.series@;
                    let last = s.len() as int;
                    assert(t =~= s.push(added));
                    assert(names_unique(t)) by {
                        assert forall|a: int, b: int| 0 <= a < b < t.len() implies (#[trigger] t[a]).name@ != (#[trigger] t[b]).name@ by {
                            if b == last {
                                assert(t[a] == s[a]);
                            } else {
                                assert(s[a].name@ != s[b].name@);
                            }
                        }
                    }
                    assert forall|n: Seq<char>| #[trigger] series_values(t, n) == if n == name@ {
                        series_values(s, n) + values@
                    } else {
                        series_values(s, n)
                    } by {
                        lemma_series_at(t, last);
                        if n == name@ {
                            assert(Seq::<u64>::empty() + values@ =~= values@);
                        } else {
                            if has_series(s, n) {
                                let k = choose|k: int| 0 <= k < s.len() && (#[trigger] s[k]).name@ == n;
                                lemma_series_at(s, k);
                                assert(t[k] == s[k]);
                                lemma_series_at(t, k);
                            }
                            if has_series(t, n) {
                                let k = choose|k: int| 0 <= k < t.len() && (#[trigger] t[k]).name@ == n;
                                assert(k != last);
                                assert(s[k] == t[k]);
                            }
                        }
                    }
                    assert forall|n: Seq<char>| #[trigger] has_series(t, n) == (has_series(s, n) || n == name@) by {
                        lemma_series_at(t, last);
                        if has_series(s, n) {
                            let k = choose|k: int| 0 <= k < s.len() && (#[trigger] s[k]).name@ == n;
                            assert(t[k] == s[k]);
                        }
                        if has_series(t, n) && n != name@ {
                            let k = choose|k: int| 0 <= k < t.len() && (#[trigger] t[k]).name@ == n;
                            assert(s[k] == t[k]);
                        }
                    }
                }
            },
        }
    }

    /// Number of distinct metric names.
    pub fn len(&self) -> (r: usize)
        ensures
            r == self.series().len(),
    {
        self.series.len()
    }

    /// The series at position `k`, in the order names were first recorded.
    pub fn series_at(&self, k: usize) -> (r: &MetricSeries)
        requires
            k < self.series().len(),
        ensures
            *r == self.series()[k as int],
    {
        &self.series[k]
    }

    /// The names of all series, in the order they were first recorded.
    pub fn names(&self) -> (r: Vec<String>)
        ensures
            r@.len() == self.series().len(),
            forall|k: int| 0 <= k < r@.len() ==> (#[trigger] r@[k])@ == self.series()[k].name@,
    {
        let mut out: Vec<String> = Vec::new();
        let mut k: usize = 0;
        while k < self.series.len()
            invariant
                k <= self.series@.len(),
                out@.len() == k,
                forall|j: int| 0 <= j < k ==> (#[trigger] out@[j])@ == self.series@[j].name@,
            decreases self.series@.len() - k,
        {
            out.push(self.series[k].name.clone());
            k = k + 1;
        }
        out
    }

    /// A copy of the observations recorded under `name`, or `None` where there is no such series.
    pub fn get(&self, name: &String) -> (r: Option<Vec<u64>>)
        requires
            self.wf(),
        ensures
            r is Some <==> self.contains(name@),
            r matches Some(v) ==> v@ == self.values_of(name@),
    {
        match self.position(name) {
            None => None,
            Some(i) => {
                proof { lemma_series_at(self.series@, i as int); }
                let src = &self.series[i].values;
                let mut out: Vec<u64> = Vec::new();
                let mut j: usize = 0;
                while j < src.len()
                    invariant
                        j <= src@.len(),
                        out@ == src@.take(j as int),
                    decreases src@.len() - j,
                {
                    out.push(src[j]);
                    j = j + 1;
                    proof {
                        assert(src@.take(j as int) =~= src@.take(j - 1).push(src@[j - 1]));
                    }
                }
                assert(src@.take(src@.len() as int) =~= src@);
                Some(out)
            },
        }
    }

    /// Appends every series of `other` to this store, name by name.
    pub fn absorb(&mut self, other: &MetricStore)
        requires
            old(self).wf(),
            other.wf(),
        ensures
            final(self).wf(),
            forall|n: Seq<char>| #[trigger] final(self).values_of(n) == old(self).values_of(n) + other.values_of(n),
            forall|n: Seq<char>| #[trigger] final(self).contains(n) == (old(self).contains(n) || other.contains(n)),
    {
        let ghost src = other.series@;
        let mut k: usize = 0;
        while k < other.series.len()
            invariant
                self.wf(),
                other.wf(),
                src == other.series@,
                k <= src.len(),
                forall|n: Seq<char>| #[trigger] self.values_of(n) == old(self).values_of(n) + series_values(src.take(k as int), n),
                forall|n: Seq<char>| #[trigger] self.contains(n) == (old(self).contains(n) || has_series(src.take(k as int), n)),
            decreases src.len() - k,
        {
            let ghost mid = *self;
            self.append(&other.series[k].name, &other.series[k].values);
            proof {
                assert forall|n: Seq<char>| #[trigger] self.values_of(n) == old(self).values_of(n) + series_values(src.take(k + 1), n) by {
                    lemma_series_prefix(src, k as int, n);
                    if n == src[k as int].name@ {
                        assert(old(self).values_of(n) + series_values(src.take(k as int), n) + src[k as int].values@
                            =~= old(self).values_of(n) + (series_values(src.take(k as int), n) + src[k as int].values@));
                    } else {
                        assert(series_values(src.take(k as int), n) + Seq::<u64>::empty() =~= series_values(src.take(k as int), n));
                    }
                }
                assert forall|n: Seq<char>| #[trigger] self.contains(n) == (old(self).contains(n) || has_series(src.take(k + 1), n)) by {
                    let a = src.take(k as int);
                    let b = src.take(k + 1);
                    assert(b[k as int] == src[k as int]);
                    if has_series(a, n) {
                        let j = choose|j: int| 0 <= j < a.len() && (#[trigger] a[j]).name@ == n;
                        assert(b[j] == a[j]);
                    }
                    if has_series(b, n) && n != src[k as int].name@ {
                        let j = choose|j: int| 0 <= j < b.len() && (#[trigger] b[j]).name@ == n;
                        assert(a[j] == b[j]);
                    }
                }
            }
            k = k + 1;
        }
        assert(src.take(src.len() as int) =~= src);
    }
}

} // verus!
