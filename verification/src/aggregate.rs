//! The byte tally at the heart of the scan: a mapping from content-type
//! label to cumulative byte count, keyed uniquely and kept in first-insertion
//! order.

use vstd::prelude::*;

verus! {

/// A running tally of bytes per content-type label.
///
/// Each label occurs in exactly one row; rows stand in the order their labels
/// were first recorded, and the sum of all counts always fits in a `u64`
/// (see [`Aggregate::wf`]).
pub struct Aggregate {
    rows: Vec<(String, u64)>,
}

/// The model of a row sequence: each label as a sequence of characters,
/// paired with its byte count.
pub open spec fn rows_view(rows: Seq<(String, u64)>) -> Seq<(Seq<char>, nat)> {
    rows.map_values(|p: (String, u64)| (p.0@, p.1 as nat))
}

/// Total number of bytes over all rows.
pub open spec fn sum_bytes(v: Seq<(Seq<char>, nat)>) -> nat
    decreases v.len(),
{
    if v.len() == 0 {
        0
    } else {
        v.last().1 + sum_bytes(v.drop_last())
    }
}

/// Index of the first row carrying `label`, or -1 if no row does.
pub open spec fn find_label(v: Seq<(Seq<char>, nat)>, label: Seq<char>) -> int
    decreases v.len(),
{
    if v.len() == 0 {
        -1
    } else if v[0].0 == label {
        0
    } else {
        let rest = find_label(v.drop_first(), label);
        if rest == -1 {
            -1
        } else {
            rest + 1
        }
    }
}

/// Whether every label occurs in at most one row.
pub open spec fn labels_unique(v: Seq<(Seq<char>, nat)>) -> bool {
    forall|i: int, j: int| 0 <= i < j < v.len() ==> v[i].0 != v[j].0
}

/// What recording `bytes` under `label` does to the model: the count of the
/// row already carrying `label` grows by `bytes`; if no row does, a new row
/// is appended at the end.
pub open spec fn spec_add(v: Seq<(Seq<char>, nat)>, label: Seq<char>, bytes: nat) -> Seq<
    (Seq<char>, nat),
> {
    let i = find_label(v, label);
    if i == -1 {
        v.push((label, bytes))
    } else {
        v.update(i, (label, (v[i].1 + bytes) as nat))
    }
}

pub proof fn lemma_find_label(v: Seq<(Seq<char>, nat)>, label: Seq<char>)
    ensures
        find_label(v, label) == -1 ==> (forall|i: int|
            0 <= i < v.len() ==> (#[trigger] v[i]).0 != label),
        find_label(v, label) != -1 ==> {
            let i = find_label(v, label);
            &&& 0 <= i < v.len()
            &&& v[i].0 == label
            &&& forall|j: int| 0 <= j < i ==> (#[trigger] v[j]).0 != label
        },
    decreases v.len(),
{
    if v.len() > 0 && v[0].0 != label {
        lemma_find_label(v.drop_first(), label);
        let rest = find_label(v.drop_first(), label);
        if rest == -1 {
            assert forall|i: int| 0 <= i < v.len() implies (#[trigger] v[i]).0 != label by {
                if i > 0 {
                    assert(v.drop_first()[i - 1] == v[i]);
                }
            }
        } else {
            assert(v.drop_first()[rest] == v[rest + 1]);
            assert forall|j: int| 0 <= j < rest + 1 implies (#[trigger] v[j]).0 != label by {
                if j > 0 {
                    assert(v.drop_first()[j - 1] == v[j]);
                }
            }
        }
    }
}

/// Summation distributes over concatenation of row sequences.
pub proof fn lemma_sum_concat(a: Seq<(Seq<char>, nat)>, b: Seq<(Seq<char>, nat)>)
    ensures
        sum_bytes(a + b) == sum_bytes(a) + sum_bytes(b),
    decreases b.len(),
{
    if b.len() == 0 {
        assert(a + b =~= a);
    } else {
        assert((a + b).drop_last() =~= a + b.drop_last());
        assert((a + b).last() == b.last());
        lemma_sum_concat(a, b.drop_last());
    }
}

proof fn lemma_sum_update_add(v: Seq<(Seq<char>, nat)>, i: int, label: Seq<char>, bytes: nat)
    requires
        0 <= i < v.len(),
        v[i].0 == label,
    ensures
        sum_bytes(v.update(i, (label, (v[i].1 + bytes) as nat))) == sum_bytes(v) + bytes,
    decreases v.len(),
{
    let w = v.update(i, (label, (v[i].1 + bytes) as nat));
    if i == v.len() - 1 {
        assert(w.drop_last() =~= v.drop_last());
    } else {
        assert(w.drop_last() =~= v.drop_last().update(i, (label, (v[i].1 + bytes) as nat)));
        assert(v.drop_last()[i] == v[i]);
        lemma_sum_update_add(v.drop_last(), i, label, bytes);
        assert(w.last() == v.last());
    }
}

/// Recording bytes under a label raises the total by exactly that amount,
/// whether the label was already present or not.
pub proof fn lemma_spec_add_total(v: Seq<(Seq<char>, nat)>, label: Seq<char>, bytes: nat)
    ensures
        sum_bytes(spec_add(v, label, bytes)) == sum_bytes(v) + bytes,
{
    let i = find_label(v, label);
    if i == -1 {
        assert(v.push((label, bytes)).drop_last() =~= v);
    } else {
        lemma_find_label(v, label);
        lemma_sum_update_add(v, i, label, bytes);
    }
}

/// No single row exceeds the total.
pub proof fn lemma_sum_row_le(v: Seq<(Seq<char>, nat)>, i: int)
    requires
        0 <= i < v.len(),
    ensures
        v[i].1 <= sum_bytes(v),
    decreases v.len(),
{
    if i < v.len() - 1 {
        assert(v.drop_last()[i] == v[i]);
        lemma_sum_row_le(v.drop_last(), i);
    }
}

/// A prefix never sums to more than the whole sequence.
pub proof fn lemma_sum_prefix_le(v: Seq<(Seq<char>, nat)>, i: int)
    requires
        0 <= i <= v.len(),
    ensures
        sum_bytes(v.take(i)) <= sum_bytes(v),
    decreases v.len(),
{
    if i == v.len() {
        assert(v.take(i) =~= v);
    } else {
        assert(v.drop_last().take(i) =~= v.take(i));
        lemma_sum_prefix_le(v.drop_last(), i);
    }
}

impl View for Aggregate {
    type V = Seq<(Seq<char>, nat)>;

    closed spec fn view(&self) -> Seq<(Seq<char>, nat)> {
        rows_view(self.rows@)
    }
}

impl Aggregate {
    /// The internal invariant: labels are unique and the grand total fits in
    /// a `u64`.
    pub open spec fn wf(&self) -> bool {
        labels_unique(self@) && sum_bytes(self@) <= u64::MAX
    }

    /// Creates an empty tally.
    pub fn new() -> (agg: Aggregate)
        ensures
            agg@ == Seq::<(Seq<char>, nat)>::empty(),
            agg.wf(),
    {
        let agg = Aggregate { rows: Vec::new() };
        proof {
            assert(agg@ =~= Seq::<(Seq<char>, nat)>::empty());
        }
        agg
    }

    /// Number of distinct labels recorded so far.
    pub fn len(&self) -> (n: usize)
        ensures
            n == self@.len(),
    {
        self.rows.len()
    }

    /// Whether nothing has been recorded yet.
    pub fn is_empty(&self) -> (b: bool)
        ensures
            b == (self@.len() == 0),
    {
        self.rows.len() == 0
    }

    fn find(&self, label: &String) -> (r: Option<usize>)
        ensures
            r is None ==> find_label(self@, label@) == -1,
            r is Some ==> find_label(self@, label@) == r.unwrap() as int,
    {
        let ghost v = self@;
        let n = self.rows.len();
        let mut i: usize = 0;
        while i < n
            invariant
                v == self@,
                n == self.rows.len(),
                i <= n,
                forall|j: int| 0 <= j < i ==> (#[trigger] v[j]).0 != label@,
            decreases n - i,
        {
            if self.rows[i].0 == *label {
                proof {
                    assert(v[i as int].0 == label@);
                    lemma_find_label(v, label@);
                    let f = find_label(v, label@);
                    assert(f != -1) by {
                        if f == -1 {
                            assert(v[i as int].0 != label@);
                        }
                    }
                    assert(f == i as int) by {
                        if f < i as int {
                            assert(v[f].0 != label@);
                        }
                        if f > i as int {
                            assert(v[i as int].0 != label@);
                        }
                    }
                }
                return Some(i);
            }
            i += 1;
        }
        proof {
            lemma_find_label(v, label@);
        }
        None
    }

    /// Records `bytes` under `label`: adds `bytes` to the row already carrying
    /// `label`, or appends a new row for it. All-or-nothing: the tally changes
    /// in no other way.
    pub fn add(&mut self, label: String, bytes: u64)
        requires
            old(self).wf(),
            sum_bytes(old(self)@) + bytes <= u64::MAX,
        ensures
            final(self).wf(),
            final(self)@ == spec_add(old(self)@, label@, bytes as nat),
            sum_bytes(final(self)@) == sum_bytes(old(self)@) + bytes,
    {
        let ghost v0 = self@;
        let ghost rows0 = self.rows@;
        match self.find(&label) {
            Some(i) => {
                proof {
                    lemma_find_label(v0, label@);
                    lemma_sum_row_le(v0, i as int);
                }
                let pair = self.rows.remove(i);
                let updated = (pair.0, pair.1 + bytes);
                self.rows.insert(i, updated);
                proof {
                    assert(self.rows@ =~= rows0.update(i as int, updated));
                    assert(self@ =~= v0.update(i as int, (label@, (v0[i as int].1 + bytes) as nat)));
                    lemma_sum_update_add(v0, i as int, label@, bytes as nat);
                    assert forall|p: int, q: int|
                        0 <= p < q < self@.len() implies self@[p].0 != self@[q].0 by {
                        assert(self@[p].0 == v0[p].0);
                        assert(self@[q].0 == v0[q].0);
                    }
                }
            },
            None => {
                proof {
                    lemma_find_label(v0, label@);
                }
                self.rows.push((label, bytes));
                proof {
                    assert(self@ =~= v0.push((label@, bytes as nat)));
                    assert(self@.drop_last() =~= v0);
                }
            },
        }
    }

    /// The grand total: the sum of the counts of all rows.
    pub fn total(&self) -> (t: u64)
        requires
            self.wf(),
        ensures
            t as nat == sum_bytes(self@),
    {
        let ghost v = self@;
        let n = self.rows.len();
        let mut t: u64 = 0;
        let mut i: usize = 0;
        while i < n
            invariant
                self.wf(),
                v == self@,
                n == self.rows.len(),
                i <= n,
                t as nat == sum_bytes(v.take(i as int)),
            decreases n - i,
        {
            proof {
                assert(v.take(i as int + 1).drop_last() =~= v.take(i as int));
                assert(v.take(i as int + 1).last() == v[i as int]);
                lemma_sum_prefix_le(v, i as int + 1);
            }
            t = t + self.rows[i].1;
            i += 1;
        }
        proof {
            assert(v.take(n as int) =~= v);
        }
        t
    }

    /// The row at position `i`: its label and byte count.
    pub fn row_at(&self, i: usize) -> (r: (String, u64))
        requires
            i < self@.len(),
        ensures
            (r.0@, r.1 as nat) == self@[i as int],
    {
        let p = &self.rows[i];
        (p.0.clone(), p.1)
    }

    /// The byte count recorded for `label`, if that label has been seen.
    pub fn size_for(&self, label: &String) -> (r: Option<u64>)
        ensures
            find_label(self@, label@) == -1 ==> r is None,
            find_label(self@, label@) != -1 ==> r == Some(
                self@[find_label(self@, label@)].1 as u64,
            ),
    {
        match self.find(label) {
            None => None,
            Some(i) => {
                proof {
                    lemma_find_label(self@, label@);
                }
                Some(self.rows[i].1)
            },
        }
    }
}

} // verus!
