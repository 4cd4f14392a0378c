//! Series aggregation: collect observations into a timestamp-keyed series,
//! last write winning on a duplicate timestamp, and keep the entries sorted
//! ascending by timestamp throughout.

use vstd::prelude::*;

use crate::bytes::{
    all_digits, bytes_eq, lemma_lex_lt_irrefl, lemma_lex_lt_trans, lemma_lex_lt_trichotomy,
    lex_lt, lex_lt_bytes,
};
use crate::extract::{cutoff, extract, obs_of_line, Observation};

verus! {

/// One series entry in the model: a timestamp key and a midpoint given as
/// mantissa and power-of-ten scale.
pub type Entry = (Seq<u8>, (int, nat));

/// The timestamp keys are strictly ascending.
pub open spec fn sorted_strict(s: Seq<Entry>) -> bool {
    forall|i: int, j: int| 0 <= i < j < s.len() ==> lex_lt(#[trigger] s[i].0, #[trigger] s[j].0)
}

/// A well-formed series key: exactly 12 digit bytes, strictly after the cutoff.
pub open spec fn entry_ok(e: Entry) -> bool {
    e.0.len() == 12 && all_digits(e.0) && lex_lt(cutoff(), e.0)
}

/// Insert a keyed value into an ascending series: an equal key is overwritten
/// (last write wins), otherwise the entry enters at its ordered position.
pub open spec fn insert_entry(s: Seq<Entry>, k: Seq<u8>, v: (int, nat)) -> Seq<Entry>
    decreases s.len(),
{
    if s.len() == 0 {
        seq![(k, v)]
    } else if lex_lt(k, s[0].0) {
        seq![(k, v)] + s
    } else if k == s[0].0 {
        seq![(k, v)] + s.drop_first()
    } else {
        seq![s[0]] + insert_entry(s.drop_first(), k, v)
    }
}

/// The series of a sequence of routed-record lines: each line's observation,
/// if any, inserted in line order.
pub open spec fn series_spec(lines: Seq<Seq<u8>>) -> Seq<Entry>
    decreases lines.len(),
{
    if lines.len() == 0 {
        Seq::empty()
    } else {
        let prev = series_spec(lines.drop_last());
        match obs_of_line(lines.last()) {
            Some(o) => insert_entry(prev, o.0, o.1),
            None => prev,
        }
    }
}

/// `lex_lt` is asymmetric.
pub proof fn lemma_lex_lt_asym(a: Seq<u8>, b: Seq<u8>)
    requires
        lex_lt(a, b),
    ensures
        !lex_lt(b, a),
{
    if lex_lt(b, a) {
        lemma_lex_lt_trans(a, b, a);
        lemma_lex_lt_irrefl(a);
    }
}

/// Every entry of an insertion is the inserted pair or one of the old entries.
pub proof fn lemma_insert_entry_elems(s: Seq<Entry>, k: Seq<u8>, v: (int, nat))
    ensures
        forall|i: int|
            0 <= i < insert_entry(s, k, v).len() ==> (#[trigger] insert_entry(s, k, v)[i] == (k, v)
                || s.contains(insert_entry(s, k, v)[i])),
    decreases s.len(),
{
    let r = insert_entry(s, k, v);
    if s.len() == 0 {
    } else if lex_lt(k, s[0].0) {
        assert forall|i: int| 0 <= i < r.len() implies (#[trigger] r[i] == (k, v) || s.contains(
            r[i],
        )) by {
            if i > 0 {
                assert(r[i] == s[i - 1]);
            }
        }
    } else if k == s[0].0 {
        assert forall|i: int| 0 <= i < r.len() implies (#[trigger] r[i] == (k, v) || s.contains(
            r[i],
        )) by {
            if i > 0 {
                assert(r[i] == s.drop_first()[i - 1]);
                assert(s.drop_first()[i - 1] == s[i]);
            }
        }
    } else {
        lemma_insert_entry_elems(s.drop_first(), k, v);
        let d = insert_entry(s.drop_first(), k, v);
        assert forall|i: int| 0 <= i < r.len() implies (#[trigger] r[i] == (k, v) || s.contains(
            r[i],
        )) by {
            if i == 0 {
                assert(r[0] == s[0]);
            } else {
                assert(r[i] == d[i - 1]);
                if d[i - 1] != (k, v) {
                    let j = choose|j: int|
                        0 <= j < s.drop_first().len() && s.drop_first()[j] == d[i - 1];
                    assert(s[j + 1] == d[i - 1]);
                }
            }
        }
    }
}

/// The last write wins: after an insertion the inserted pair itself is
/// present, so with keys unique the key now maps to the new value.
pub proof fn lemma_insert_entry_present(s: Seq<Entry>, k: Seq<u8>, v: (int, nat))
    ensures
        insert_entry(s, k, v).contains((k, v)),
    decreases s.len(),
{
    let r = insert_entry(s, k, v);
    if s.len() == 0 {
        assert(r[0] == (k, v));
    } else if lex_lt(k, s[0].0) {
        assert(r[0] == (k, v));
    } else if k == s[0].0 {
        assert(r[0] == (k, v));
    } else {
        lemma_insert_entry_present(s.drop_first(), k, v);
        let d = insert_entry(s.drop_first(), k, v);
        let i = choose|i: int| 0 <= i < d.len() && d[i] == (k, v);
        assert(r[i + 1] == (k, v));
    }
}

/// Insertion keeps the series strictly sorted.
pub proof fn lemma_insert_entry_sorted(s: Seq<Entry>, k: Seq<u8>, v: (int, nat))
    requires
        sorted_strict(s),
    ensures
        sorted_strict(insert_entry(s, k, v)),
    decreases s.len(),
{
    let r = insert_entry(s, k, v);
    if s.len() == 0 {
    } else if lex_lt(k, s[0].0) {
        assert forall|i: int, j: int| 0 <= i < j < r.len() implies lex_lt(
            #[trigger] r[i].0,
            #[trigger] r[j].0,
        ) by {
            if i == 0 {
                assert(r[j] == s[j - 1]);
                if j > 1 {
                    lemma_lex_lt_trans(k, s[0].0, s[j - 1].0);
                }
            } else {
                assert(r[i] == s[i - 1]);
                assert(r[j] == s[j - 1]);
            }
        }
    } else if k == s[0].0 {
        assert forall|i: int, j: int| 0 <= i < j < r.len() implies lex_lt(
            #[trigger] r[i].0,
            #[trigger] r[j].0,
        ) by {
            if i == 0 {
                assert(r[j] == s.drop_first()[j - 1]);
                assert(s.drop_first()[j - 1] == s[j]);
            } else {
                assert(r[i] == s[i]);
                assert(r[j] == s[j]);
            }
        }
    } else {
        lemma_lex_lt_trichotomy(k, s[0].0);
        assert(lex_lt(s[0].0, k));
        assert(sorted_strict(s.drop_first())) by {
            assert forall|i: int, j: int| 0 <= i < j < s.drop_first().len() implies lex_lt(
                #[trigger] s.drop_first()[i].0,
                #[trigger] s.drop_first()[j].0,
            ) by {
                assert(s.drop_first()[i] == s[i + 1]);
                assert(s.drop_first()[j] == s[j + 1]);
            }
        }
        lemma_insert_entry_sorted(s.drop_first(), k, v);
        lemma_insert_entry_elems(s.drop_first(), k, v);
        let d = insert_entry(s.drop_first(), k, v);
        assert forall|i: int, j: int| 0 <= i < j < r.len() implies lex_lt(
            #[trigger] r[i].0,
            #[trigger] r[j].0,
        ) by {
            if i == 0 {
                assert(r[j] == d[j - 1]);
                if d[j - 1] == (k, v) {
                    assert(lex_lt(s[0].0, k));
                } else {
                    let m = choose|m: int|
                        0 <= m < s.drop_first().len() && s.drop_first()[m] == d[j - 1];
                    assert(s[m + 1] == d[j - 1]);
                    assert(lex_lt(s[0].0, s[m + 1].0));
                }
            } else {
                assert(r[i] == d[i - 1]);
                assert(r[j] == d[j - 1]);
            }
        }
    }
}

/// Where the first `p` keys lie below `k` and the key at `p` (if any) does
/// not, the insertion happens exactly at index `p`.
pub proof fn lemma_insert_entry_at(s: Seq<Entry>, k: Seq<u8>, v: (int, nat), p: int)
    requires
        0 <= p <= s.len(),
        forall|i: int| 0 <= i < p ==> lex_lt(#[trigger] s[i].0, k),
        p == s.len() || !lex_lt(s[p].0, k),
    ensures
        insert_entry(s, k, v) == (if p < s.len() && s[p].0 == k {
            s.take(p) + seq![(k, v)] + s.skip(p + 1)
        } else {
            s.take(p) + seq![(k, v)] + s.skip(p)
        }),
    decreases p,
{
    if p == 0 {
        if s.len() == 0 {
            assert(insert_entry(s, k, v) =~= s.take(0) + seq![(k, v)] + s.skip(0));
        } else if lex_lt(k, s[0].0) {
            lemma_lex_lt_irrefl(k);
            assert(s[0].0 != k);
            assert(seq![(k, v)] + s =~= s.take(0) + seq![(k, v)] + s.skip(0));
        } else if k == s[0].0 {
            assert(seq![(k, v)] + s.drop_first() =~= s.take(0) + seq![(k, v)] + s.skip(1));
        } else {
            lemma_lex_lt_trichotomy(k, s[0].0);
            assert(false);
        }
    } else {
        assert(lex_lt(s[0].0, k));
        lemma_lex_lt_asym(s[0].0, k);
        lemma_lex_lt_irrefl(k);
        assert(!lex_lt(k, s[0].0) && k != s[0].0);
        let d = s.drop_first();
        assert forall|i: int| 0 <= i < p - 1 implies lex_lt(#[trigger] d[i].0, k) by {
            assert(d[i] == s[i + 1]);
        }
        if p - 1 < d.len() {
            assert(d[p - 1] == s[p]);
        }
        lemma_insert_entry_at(d, k, v, p - 1);
        if p < s.len() && s[p].0 == k {
            assert(seq![s[0]] + (d.take(p - 1) + seq![(k, v)] + d.skip(p)) =~= s.take(p) + seq![
                (k, v),
            ] + s.skip(p + 1));
        } else {
            assert(seq![s[0]] + (d.take(p - 1) + seq![(k, v)] + d.skip(p - 1)) =~= s.take(p)
                + seq![(k, v)] + s.skip(p));
        }
    }
}

/// A strictly sorted series has no duplicate keys.
pub proof fn lemma_sorted_unique(s: Seq<Entry>)
    requires
        sorted_strict(s),
    ensures
        forall|i: int, j: int| 0 <= i < j < s.len() ==> (#[trigger] s[i].0) != (#[trigger] s[j].0),
{
    assert forall|i: int, j: int| 0 <= i < j < s.len() implies (#[trigger] s[i].0)
        != (#[trigger] s[j].0) by {
        lemma_lex_lt_irrefl(s[i].0);
    }
}

/// The aggregated series is strictly sorted by timestamp.
pub proof fn lemma_series_sorted(lines: Seq<Seq<u8>>)
    ensures
        sorted_strict(series_spec(lines)),
    decreases lines.len(),
{
    if lines.len() > 0 {
        lemma_series_sorted(lines.drop_last());
        match obs_of_line(lines.last()) {
            Some(o) => {
                lemma_insert_entry_sorted(series_spec(lines.drop_last()), o.0, o.1);
            },
            None => {},
        }
    }
}

/// Every key of the aggregated series is a 12-digit timestamp strictly after
/// the pre-market cutoff.
pub proof fn lemma_series_entries_ok(lines: Seq<Seq<u8>>)
    ensures
        forall|i: int|
            0 <= i < series_spec(lines).len() ==> entry_ok(#[trigger] series_spec(lines)[i]),
    decreases lines.len(),
{
    if lines.len() > 0 {
        lemma_series_entries_ok(lines.drop_last());
        let prev = series_spec(lines.drop_last());
        match obs_of_line(lines.last()) {
            Some(o) => {
                lemma_insert_entry_elems(prev, o.0, o.1);
                assert(entry_ok((o.0, o.1)));
                assert forall|i: int|
                    0 <= i < series_spec(lines).len() implies entry_ok(
                    #[trigger] series_spec(lines)[i],
                ) by {
                    if series_spec(lines)[i] != (o.0, o.1) {
                        let j = choose|j: int|
                            0 <= j < prev.len() && prev[j] == series_spec(lines)[i];
                    }
                }
            },
            None => {},
        }
    }
}

/// The series is a function of the record lines alone: processing the same
/// intermediate artifact twice yields the same series.
pub proof fn lemma_series_deterministic(l1: Seq<Seq<u8>>, l2: Seq<Seq<u8>>)
    requires
        l1 == l2,
    ensures
        series_spec(l1) == series_spec(l2),
{
}

/// Collects observations, keyed by timestamp, entries kept strictly sorted.
pub struct SeriesAggregator {
    entries: Vec<Observation>,
}

impl View for SeriesAggregator {
    type V = Seq<Entry>;

    closed spec fn view(&self) -> Seq<Entry> {
        self.entries@.map_values(|o: Observation| o@)
    }
}

impl SeriesAggregator {
    /// The aggregator's invariant: entries strictly ascending by timestamp.
    pub open spec fn wf(&self) -> bool {
        sorted_strict(self@)
    }

    /// An empty series.
    pub fn new() -> (r: Self)
        ensures
            r@ == Seq::<Entry>::empty(),
            r.wf(),
    {
        let r = SeriesAggregator { entries: Vec::new() };
        proof {
            assert(r@ =~= Seq::<Entry>::empty());
        }
        r
    }

    /// Insert one observation; an entry with the same timestamp is
    /// overwritten (last write wins).
    #[verifier::loop_isolation(false)]
    #[verifier::rlimit(60)]
    pub fn insert(&mut self, o: Observation)
        requires
            old(self).wf(),
        ensures
            final(self)@ == insert_entry(old(self)@, o@.0, o@.1),
            final(self).wf(),
    {
        let ghost s = self@;
        let mut p: usize = 0;
        while p < self.entries.len() && lex_lt_bytes(
            self.entries[p].timestamp.as_slice(),
            o.timestamp.as_slice(),
        )
            invariant
                0 <= p <= self.entries@.len(),
                forall|i: int| 0 <= i < p ==> lex_lt(#[trigger] s[i].0, o@.0),
            decreases self.entries@.len() - p,
        {
            proof {
                assert(s[p as int].0 == self.entries@[p as int].timestamp@);
            }
            p += 1;
        }
        proof {
            if p < self.entries.len() {
                assert(s[p as int].0 == self.entries@[p as int].timestamp@);
            }
            lemma_insert_entry_at(s, o@.0, o@.1, p as int);
            lemma_insert_entry_sorted(s, o@.0, o@.1);
        }
        if p < self.entries.len() && bytes_eq(
            self.entries[p].timestamp.as_slice(),
            o.timestamp.as_slice(),
        ) {
            self.entries.remove(p);
            self.entries.insert(p, o);
            proof {
                assert(self@ =~= s.take(p as int) + seq![(o@.0, o@.1)] + s.skip(p as int + 1));
            }
        } else {
            self.entries.insert(p, o);
            proof {
                assert(self@ =~= s.take(p as int) + seq![(o@.0, o@.1)] + s.skip(p as int));
            }
        }
    }

    /// The count of distinct timestamps currently held.
    pub fn len(&self) -> (n: usize)
        ensures
            n == self@.len(),
    {
        self.entries.len()
    }

    /// Hand the finished series out, sorted ascending by timestamp.
    pub fn finalize(self) -> (r: Vec<Observation>)
        ensures
            r@.map_values(|o: Observation| o@) == self@,
    {
        self.entries
    }
}

/// Build the series of a whole intermediate artifact: extract an observation
/// from each line in order and aggregate, last write winning on a duplicate
/// timestamp. The result is strictly sorted, free of duplicate timestamps,
/// every timestamp 12 digit bytes strictly after the cutoff.
#[verifier::loop_isolation(false)]
pub fn build_series(lines: &Vec<Vec<u8>>) -> (r: Vec<Observation>)
    ensures
        r@.map_values(|o: Observation| o@) == series_spec(
            lines@.map_values(|l: Vec<u8>| l@),
        ),
        sorted_strict(r@.map_values(|o: Observation| o@)),
        forall|i: int| 0 <= i < r@.len() ==> entry_ok(#[trigger] r@[i]@),
        forall|i: int, j: int|
            0 <= i < j < r@.len() ==> r@[i].timestamp@ != r@[j].timestamp@,
{
    let ghost lmodel = lines@.map_values(|l: Vec<u8>| l@);
    let mut agg = SeriesAggregator::new();
    let mut i: usize = 0;
    while i < lines.len()
        invariant
            0 <= i <= lines@.len(),
            agg.wf(),
            agg@ == series_spec(lmodel.take(i as int)),
        decreases lines@.len() - i,
    {
        proof {
            assert(lmodel.take(i + 1).drop_last() =~= lmodel.take(i as int));
            assert(lmodel.take(i + 1).last() == lmodel[i as int]);
            assert(lmodel[i as int] == lines@[i as int]@);
        }
        match extract(lines[i].as_slice()) {
            Some(o) => {
                agg.insert(o);
            },
            None => {},
        }
        i += 1;
    }
    proof {
        assert(lmodel.take(lines@.len() as int) =~= lmodel);
        lemma_series_sorted(lmodel);
        lemma_series_entries_ok(lmodel);
    }
    let r = agg.finalize();
    proof {
        lemma_sorted_unique(r@.map_values(|o: Observation| o@));
        assert forall|i: int| 0 <= i < r@.len() implies entry_ok(#[trigger] r@[i]@) by {
            assert(r@.map_values(|o: Observation| o@)[i] == r@[i]@);
        }
        assert forall|i: int, j: int|
            0 <= i < j < r@.len() implies r@[i].timestamp@ != r@[j].timestamp@ by {
            assert(r@.map_values(|o: Observation| o@)[i] == r@[i]@);
            assert(r@.map_values(|o: Observation| o@)[j] == r@[j]@);
        }
    }
    r
}

} // verus!
