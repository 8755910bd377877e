use crate::model::TaskMode;
use vstd::prelude::*;

verus! {

/// The `Memory` part of an agent's answer: a histogram of measured
/// bitstrings, or the list of sampled bitstrings in the order they came out.
#[derive(Clone, Debug, PartialEq, Eq)]
pub enum Memory {
    Counts(Vec<(String, u64)>),
    Samples(Vec<String>),
}

/// Mathematical form of [`Memory`].
pub enum MemoryView {
    Counts(Seq<(Seq<char>, nat)>),
    Samples(Seq<Seq<char>>),
}

pub open spec fn counts_view(c: Seq<(String, u64)>) -> Seq<(Seq<char>, nat)> {
    c.map_values(|e: (String, u64)| (e.0@, e.1 as nat))
}

pub open spec fn samples_view(s: Seq<String>) -> Seq<Seq<char>> {
    s.map_values(|x: String| x@)
}

impl View for Memory {
    type V = MemoryView;

    open spec fn view(&self) -> MemoryView {
        match self {
            Memory::Counts(c) => MemoryView::Counts(counts_view(c@)),
            Memory::Samples(s) => MemoryView::Samples(samples_view(s@)),
        }
    }
}

/// How two counts for the same bitstring are combined.
#[derive(PartialEq, Eq, Structural, Clone, Copy, Debug)]
pub enum Reduce {
    Add,
    Max,
    Min,
}

pub open spec fn combine(op: Reduce, a: nat, b: nat) -> nat {
    match op {
        Reduce::Add => a + b,
        Reduce::Max => if a >= b { a } else { b },
        Reduce::Min => if a <= b { a } else { b },
    }
}

/// `i` is the first position of bitstring `k` in `c`.
pub open spec fn is_first_key(c: Seq<(Seq<char>, nat)>, k: Seq<char>, i: int) -> bool {
    &&& 0 <= i < c.len()
    &&& c[i].0 == k
    &&& forall|j: int| 0 <= j < i ==> c[j].0 != k
}

pub open spec fn has_key(c: Seq<(Seq<char>, nat)>, k: Seq<char>) -> bool {
    exists|i: int| is_first_key(c, k, i)
}

pub open spec fn key_index(c: Seq<(Seq<char>, nat)>, k: Seq<char>) -> int {
    choose|i: int| is_first_key(c, k, i)
}

/// The count recorded for `k`, zero when there is none.
pub open spec fn count_of(c: Seq<(Seq<char>, nat)>, k: Seq<char>) -> nat {
    if has_key(c, k) {
        c[key_index(c, k)].1
    } else {
        0
    }
}

/// Folds one incoming bucket into a histogram: combined with the bucket of
/// the same bitstring when there is one, appended otherwise.
pub open spec fn put(c: Seq<(Seq<char>, nat)>, k: Seq<char>, v: nat, op: Reduce) -> Seq<
    (Seq<char>, nat),
> {
    if has_key(c, k) {
        let i = key_index(c, k);
        c.update(i, (k, combine(op, c[i].1, v)))
    } else {
        c.push((k, v))
    }
}

/// Folds every incoming bucket, in order, into a histogram.
pub open spec fn fold_counts(c: Seq<(Seq<char>, nat)>, inc: Seq<(Seq<char>, nat)>, op: Reduce) -> Seq<
    (Seq<char>, nat),
>
    decreases inc.len(),
{
    if inc.len() == 0 {
        c
    } else {
        put(fold_counts(c, inc.drop_last(), op), inc.last().0, inc.last().1, op)
    }
}

pub open spec fn fits_u64(c: Seq<(Seq<char>, nat)>) -> bool {
    forall|i: int| 0 <= i < c.len() ==> c[i].1 <= u64::MAX
}

/// No bitstring occurs twice, as in a JSON object.
pub open spec fn distinct_keys(c: Seq<(Seq<char>, nat)>) -> bool {
    forall|i: int, j: int| 0 <= i < j < c.len() ==> c[i].0 != c[j].0
}

/// Sum of all counts of a histogram.
pub open spec fn total(c: Seq<(Seq<char>, nat)>) -> nat
    decreases c.len(),
{
    if c.len() == 0 {
        0
    } else {
        total(c.drop_last()) + c.last().1
    }
}

/// The reduction that a job's mode selects for two histograms.
pub open spec fn reduce_for(mode: Option<TaskMode>) -> Reduce {
    match mode {
        Some(TaskMode::Max) => Reduce::Max,
        Some(TaskMode::Min) => Reduce::Min,
        _ => Reduce::Add,
    }
}

/// Result of merging an incoming `Memory` into the running one; `None` when
/// the shapes disagree or a count leaves the range of `u64`.
pub open spec fn merged(mode: Option<TaskMode>, prev: MemoryView, inc: MemoryView) -> Option<
    MemoryView,
> {
    match (prev, inc) {
        (MemoryView::Counts(a), MemoryView::Counts(b)) => {
            let r = fold_counts(a, b, reduce_for(mode));
            if fits_u64(r) {
                Some(MemoryView::Counts(r))
            } else {
                None
            }
        },
        (MemoryView::Samples(a), MemoryView::Samples(b)) => Some(MemoryView::Samples(a + b)),
        _ => None,
    }
}

pub proof fn lemma_first_unique(c: Seq<(Seq<char>, nat)>, k: Seq<char>, i: int)
    requires
        is_first_key(c, k, i),
    ensures
        has_key(c, k),
        key_index(c, k) == i,
{
    let j = key_index(c, k);
    assert(is_first_key(c, k, j));
    if j < i {
        assert(c[j].0 != k);
    } else if i < j {
        assert(c[i].0 != k);
    }
}

/// Positions and keys of a histogram are unchanged by `put`, apart from a
/// bucket appended at the end.
proof fn lemma_put_keeps_keys(c: Seq<(Seq<char>, nat)>, k: Seq<char>, v: nat, op: Reduce)
    ensures
        put(c, k, v, op).len() >= c.len(),
        forall|j: int| 0 <= j < c.len() ==> #[trigger] put(c, k, v, op)[j].0 == c[j].0,
{
    if has_key(c, k) {
        let i = key_index(c, k);
        assert(is_first_key(c, k, i));
    }
}

/// Adding counts never removes a bitstring nor lowers its count.
proof fn lemma_put_add_grows(c: Seq<(Seq<char>, nat)>, k: Seq<char>, v: nat, k2: Seq<char>)
    requires
        has_key(c, k2),
    ensures
        has_key(put(c, k, v, Reduce::Add), k2),
        count_of(put(c, k, v, Reduce::Add), k2) >= count_of(c, k2),
{
    let d = put(c, k, v, Reduce::Add);
    let i2 = key_index(c, k2);
    assert(is_first_key(c, k2, i2));
    lemma_put_keeps_keys(c, k, v, Reduce::Add);
    assert(is_first_key(d, k2, i2)) by {
        assert(d[i2].0 == c[i2].0);
        assert forall|j: int| 0 <= j < i2 implies d[j].0 != k2 by {
            assert(d[j].0 == c[j].0);
        }
    }
    lemma_first_unique(d, k2, i2);
    if has_key(c, k) {
        let i = key_index(c, k);
        assert(is_first_key(c, k, i));
    }
}

proof fn lemma_fold_add_grows(
    c: Seq<(Seq<char>, nat)>,
    inc: Seq<(Seq<char>, nat)>,
    j: int,
    k: Seq<char>,
)
    requires
        0 <= j <= inc.len(),
        has_key(fold_counts(c, inc.take(j), Reduce::Add), k),
    ensures
        has_key(fold_counts(c, inc, Reduce::Add), k),
        count_of(fold_counts(c, inc, Reduce::Add), k) >= count_of(
            fold_counts(c, inc.take(j), Reduce::Add),
            k,
        ),
    decreases inc.len(),
{
    if j == inc.len() {
        assert(inc.take(j) == inc);
    } else {
        let front = inc.drop_last();
        assert(front.take(j) == inc.take(j));
        lemma_fold_add_grows(c, front, j, k);
        lemma_put_add_grows(fold_counts(c, front, Reduce::Add), inc.last().0, inc.last().1, k);
    }
}

/// Folds the buckets of `inc` into `prev`, in order.
pub fn reduce_counts(prev: &Vec<(String, u64)>, inc: &Vec<(String, u64)>, op: Reduce) -> (r:
    Option<Vec<(String, u64)>>)
    ensures
        r.is_some() <==> fits_u64(fold_counts(counts_view(prev@), counts_view(inc@), op)),
        r matches Some(v) ==> counts_view(v@) == fold_counts(
            counts_view(prev@),
            counts_view(inc@),
            op,
        ),
{
    let ghost c = counts_view(prev@);
    let ghost b = counts_view(inc@);
    let mut acc: Vec<(String, u64)> = Vec::new();
    let mut n: usize = 0;
    while n < prev.len()
        invariant
            n <= prev.len(),
            acc@ == prev@.take(n as int),
        decreases prev.len() - n,
    {
        let key = prev[n].0.clone();
        acc.push((key, prev[n].1));
        proof {
            assert(acc@ =~= prev@.take(n + 1));
        }
        n = n + 1;
    }
    assert(acc@ =~= prev@);
    assert(b.take(0) =~= Seq::<(Seq<char>, nat)>::empty());
    let mut j: usize = 0;
    while j < inc.len()
        invariant
            j <= inc.len(),
            b == counts_view(inc@),
            c == counts_view(prev@),
            counts_view(acc@) == fold_counts(c, b.take(j as int), op),
        decreases inc.len() - j,
    {
        let ghost before = counts_view(acc@);
        let k = &inc[j].0;
        let v = inc[j].1;
        assert(b.take(j + 1).drop_last() == b.take(j as int));
        assert(b.take(j + 1).last() == b[j as int]);
        let mut i: usize = 0;
        let mut found = false;
        while !found && i < acc.len()
            invariant
                i <= acc.len(),
                before == counts_view(acc@),
                !found ==> forall|t: int| 0 <= t < i ==> before[t].0 != k@,
                found ==> i < acc.len() && is_first_key(before, k@, i as int),
            decreases acc.len() - i + (if found { 0int } else { 1int }),
        {
            if acc[i].0 == *k {
                found = true;
            } else {
                i = i + 1;
            }
        }
        if found {
            proof {
                lemma_first_unique(before, k@, i as int);
            }
            let old_v = acc[i].1;
            let nv: u64 = match op {
                Reduce::Add => {
                    if old_v > u64::MAX - v {
                        proof {
                            assert(fold_counts(c, b.take(j + 1), op)[i as int].1 > u64::MAX);
                            assert(count_of(fold_counts(c, b.take(j + 1), op), k@) > u64::MAX) by {
                                lemma_put_keeps_keys(before, k@, v as nat, op);
                                let d = fold_counts(c, b.take(j + 1), op);
                                assert(is_first_key(d, k@, i as int)) by {
                                    assert forall|t: int| 0 <= t < i implies d[t].0 != k@ by {
                                        assert(d[t].0 == before[t].0);
                                    }
                                }
                                lemma_first_unique(d, k@, i as int);
                            }
                            lemma_fold_add_grows(c, b, j + 1, k@);
                            let f = fold_counts(c, b, op);
                            assert(is_first_key(f, k@, key_index(f, k@)));
                        }
                        return None;
                    }
                    old_v + v
                },
                Reduce::Max => if old_v >= v { old_v } else { v },
                Reduce::Min => if old_v <= v { old_v } else { v },
            };
            let key = k.clone();
            acc.set(i, (key, nv));
            proof {
                assert(counts_view(acc@) =~= put(before, k@, v as nat, op));
            }
        } else {
            proof {
                assert(!has_key(before, k@)) by {
                    if has_key(before, k@) {
                        let t = key_index(before, k@);
                        assert(is_first_key(before, k@, t));
                    }
                }
            }
            let key = k.clone();
            acc.push((key, v));
            proof {
                assert(counts_view(acc@) =~= put(before, k@, v as nat, op));
            }
        }
        j = j + 1;
    }
    assert(b.take(j as int) == b);
    proof {
        let r = counts_view(acc@);
        assert(fits_u64(r));
    }
    Some(acc)
}

fn copy_samples(v: &Vec<String>) -> (r: Vec<String>)
    ensures
        r@ == v@,
{
    let mut out: Vec<String> = Vec::new();
    let mut i: usize = 0;
    while i < v.len()
        invariant
            i <= v.len(),
            out@ == v@.take(i as int),
        decreases v.len() - i,
    {
        out.push(v[i].clone());
        proof {
            assert(out@ =~= v@.take(i + 1));
        }
        i = i + 1;
    }
    assert(out@ =~= v@);
    out
}

/// Merges the `Memory` of a new slice into a job's running `Memory`:
/// histograms by the job's mode (sum by default, or per-bitstring maximum or
/// minimum), sample lists by concatenation in arrival order. `None` when one
/// side is a histogram and the other a list, or when a sum leaves `u64`.
pub fn merge_memory(mode: Option<TaskMode>, prev: &Memory, inc: &Memory) -> (r: Option<Memory>)
    ensures
        r.is_some() <==> merged(mode, prev@, inc@).is_some(),
        r matches Some(m) ==> merged(mode, prev@, inc@) == Some(m@),
{
    match (prev, inc) {
        (Memory::Counts(a), Memory::Counts(b)) => {
            let op = match mode {
                Some(TaskMode::Max) => Reduce::Max,
                Some(TaskMode::Min) => Reduce::Min,
                _ => Reduce::Add,
            };
            match reduce_counts(a, b, op) {
                Some(c) => Some(Memory::Counts(c)),
                None => None,
            }
        },
        (Memory::Samples(a), Memory::Samples(b)) => {
            let mut out = copy_samples(a);
            let mut tail = copy_samples(b);
            out.append(&mut tail);
            proof {
                assert(samples_view(out@) =~= samples_view(a@) + samples_view(b@));
            }
            Some(Memory::Samples(out))
        },
        _ => None,
    }
}

/// Summing histograms adds their totals: whatever the buckets, the total of
/// the merged histogram is the running total plus the incoming total.
pub proof fn lemma_add_total(c: Seq<(Seq<char>, nat)>, inc: Seq<(Seq<char>, nat)>)
    ensures
        total(fold_counts(c, inc, Reduce::Add)) == total(c) + total(inc),
    decreases inc.len(),
{
    if inc.len() > 0 {
        let front = inc.drop_last();
        lemma_add_total(c, front);
        lemma_put_add_total(fold_counts(c, front, Reduce::Add), inc.last().0, inc.last().1);
    }
}

proof fn lemma_total_update(c: Seq<(Seq<char>, nat)>, i: int, e: (Seq<char>, nat))
    requires
        0 <= i < c.len(),
    ensures
        total(c.update(i, e)) + c[i].1 == total(c) + e.1,
    decreases c.len(),
{
    let d = c.update(i, e);
    if i < c.len() - 1 {
        assert(d.drop_last() =~= c.drop_last().update(i, e));
        lemma_total_update(c.drop_last(), i, e);
    } else {
        assert(d.drop_last() =~= c.drop_last());
    }
}

proof fn lemma_put_add_total(c: Seq<(Seq<char>, nat)>, k: Seq<char>, v: nat)
    ensures
        total(put(c, k, v, Reduce::Add)) == total(c) + v,
{
    if has_key(c, k) {
        let i = key_index(c, k);
        assert(is_first_key(c, k, i));
        lemma_total_update(c, i, (k, c[i].1 + v));
    } else {
        assert(c.push((k, v)).drop_last() =~= c);
    }
}

/// Sum of the incoming counts for bitstring `k`.
pub open spec fn sum_for(inc: Seq<(Seq<char>, nat)>, k: Seq<char>) -> nat
    decreases inc.len(),
{
    if inc.len() == 0 {
        0
    } else {
        sum_for(inc.drop_last(), k) + if inc.last().0 == k {
            inc.last().1
        } else {
            0
        }
    }
}

/// Some bucket of `c` is for bitstring `k`.
pub open spec fn mentions(c: Seq<(Seq<char>, nat)>, k: Seq<char>) -> bool {
    exists|j: int| 0 <= j < c.len() && c[j].0 == k
}

/// A bitstring that occurs has a first occurrence.
pub proof fn lemma_mention_has_first(c: Seq<(Seq<char>, nat)>, k: Seq<char>, j: int)
    requires
        0 <= j < c.len(),
        c[j].0 == k,
    ensures
        has_key(c, k),
    decreases c.len(),
{
    let f = c.drop_last();
    assert forall|t: int| 0 <= t < f.len() implies f[t] == #[trigger] c[t] by {}
    if exists|t: int| 0 <= t < f.len() && f[t].0 == k {
        let t = choose|t: int| 0 <= t < f.len() && f[t].0 == k;
        lemma_mention_has_first(f, k, t);
        let i = key_index(f, k);
        assert(is_first_key(f, k, i));
        assert(is_first_key(c, k, i));
    } else {
        if j < f.len() {
            assert(f[j].0 == k);
        }
        assert(j == c.len() - 1);
        assert forall|t: int| 0 <= t < j implies c[t].0 != k by {
            assert(f[t] == c[t]);
        }
        assert(is_first_key(c, k, j));
    }
}

proof fn lemma_put_add_count(c: Seq<(Seq<char>, nat)>, k1: Seq<char>, v: nat, k: Seq<char>)
    ensures
        count_of(put(c, k1, v, Reduce::Add), k) == count_of(c, k) + if k1 == k {
            v
        } else {
            0
        },
        has_key(put(c, k1, v, Reduce::Add), k) <==> has_key(c, k) || k1 == k,
{
    let d = put(c, k1, v, Reduce::Add);
    lemma_put_keeps_keys(c, k1, v, Reduce::Add);
    if has_key(c, k1) {
        let i1 = key_index(c, k1);
        assert(is_first_key(c, k1, i1));
        assert(d.len() == c.len());
        if has_key(c, k) {
            let idx = key_index(c, k);
            assert(is_first_key(c, k, idx));
            assert(is_first_key(d, k, idx)) by {
                assert forall|t: int| 0 <= t < idx implies d[t].0 != k by {
                    assert(d[t].0 == c[t].0);
                }
                assert(d[idx].0 == c[idx].0);
            }
            lemma_first_unique(d, k, idx);
            if k == k1 {
                lemma_first_unique(c, k, i1);
            }
        } else {
            if has_key(d, k) {
                let t = key_index(d, k);
                assert(is_first_key(d, k, t));
                assert(d[t].0 == c[t].0);
                lemma_mention_has_first(c, k, t);
            }
        }
    } else {
        assert(d == c.push((k1, v)));
        if k == k1 {
            assert forall|t: int| 0 <= t < c.len() implies d[t].0 != k by {
                if c[t].0 == k {
                    lemma_mention_has_first(c, k, t);
                }
            }
            assert(is_first_key(d, k, c.len() as int));
            lemma_first_unique(d, k, c.len() as int);
        } else if has_key(c, k) {
            let idx = key_index(c, k);
            assert(is_first_key(c, k, idx));
            assert(is_first_key(d, k, idx)) by {
                assert forall|t: int| 0 <= t < idx implies d[t].0 != k by {
                    assert(d[t].0 == c[t].0);
                }
            }
            lemma_first_unique(d, k, idx);
        } else {
            if has_key(d, k) {
                let t = key_index(d, k);
                assert(is_first_key(d, k, t));
                if t < c.len() {
                    assert(d[t].0 == c[t].0);
                    lemma_mention_has_first(c, k, t);
                }
            }
        }
    }
}

/// Summing histograms, bitstring by bitstring: the merged count of every
/// bitstring is its running count plus all incoming counts for it, and the
/// merged histogram has exactly the bitstrings of both sides.
pub proof fn lemma_add_per_key(c: Seq<(Seq<char>, nat)>, inc: Seq<(Seq<char>, nat)>, k: Seq<char>)
    ensures
        count_of(fold_counts(c, inc, Reduce::Add), k) == count_of(c, k) + sum_for(inc, k),
        has_key(fold_counts(c, inc, Reduce::Add), k) <==> has_key(c, k) || mentions(inc, k),
    decreases inc.len(),
{
    if inc.len() > 0 {
        let f = inc.drop_last();
        lemma_add_per_key(c, f, k);
        lemma_put_add_count(fold_counts(c, f, Reduce::Add), inc.last().0, inc.last().1, k);
        if mentions(inc, k) && !mentions(f, k) {
            let j = choose|j: int| 0 <= j < inc.len() && inc[j].0 == k;
            if j < f.len() {
                assert(f[j] == inc[j]);
            }
        }
        if mentions(f, k) {
            let j = choose|j: int| 0 <= j < f.len() && f[j].0 == k;
            assert(inc[j] == f[j]);
        }
    }
}

/// Merging the same slice twice counts it twice: every count becomes the
/// running count plus twice the incoming one, so a second merge of a slice
/// with any nonzero count changes the result.
pub proof fn lemma_merge_same_slice_twice(a: Seq<(Seq<char>, nat)>, b: Seq<(Seq<char>, nat)>, k: Seq<char>)
    ensures
        count_of(fold_counts(fold_counts(a, b, Reduce::Add), b, Reduce::Add), k) == count_of(a, k) + 2
            * sum_for(b, k),
{
    lemma_add_per_key(a, b, k);
    lemma_add_per_key(fold_counts(a, b, Reduce::Add), b, k);
}

/// A histogram whose first `j` counts are doubled.
pub open spec fn doubled_prefix(b: Seq<(Seq<char>, nat)>, j: int) -> Seq<(Seq<char>, nat)> {
    Seq::new(b.len(), |i: int| (b[i].0, if i < j { 2 * b[i].1 } else { b[i].1 }))
}

proof fn lemma_fold_self_prefix(b: Seq<(Seq<char>, nat)>, j: int)
    requires
        distinct_keys(b),
        0 <= j <= b.len(),
    ensures
        fold_counts(b, b.take(j), Reduce::Add) == doubled_prefix(b, j),
    decreases j,
{
    if j == 0 {
        assert(b.take(0).len() == 0);
        assert(doubled_prefix(b, 0) =~= b);
    } else {
        let p = j - 1;
        lemma_fold_self_prefix(b, p);
        assert(b.take(j).drop_last() =~= b.take(p));
        let d = doubled_prefix(b, p);
        assert(is_first_key(d, b[p].0, p));
        lemma_first_unique(d, b[p].0, p);
        assert(put(d, b[p].0, b[p].1, Reduce::Add) =~= doubled_prefix(b, j));
    }
}

/// Merging one histogram into itself doubles every count: the merge keeps no
/// memory of what it has already seen.
pub proof fn lemma_merge_twice_doubles(b: Seq<(Seq<char>, nat)>)
    requires
        distinct_keys(b),
    ensures
        fold_counts(b, b, Reduce::Add) == Seq::new(b.len(), |i: int| (b[i].0, 2 * b[i].1)),
{
    lemma_fold_self_prefix(b, b.len() as int);
    assert(b.take(b.len() as int) =~= b);
    assert(doubled_prefix(b, b.len() as int) =~= Seq::new(b.len(), |i: int| (b[i].0, 2 * b[i].1)));
}

} // verus!
