use vstd::prelude::*;

verus! {

/// One amount, in hundredths of an hour, filed under a key (a day number or
/// a month index).
#[derive(Clone, Copy, Debug, PartialEq, Eq)]
pub struct Tally {
    pub key: i64,
    pub amount: i32,
}

/// The summed amount of every tally filed under one key.
#[derive(Clone, Copy, Debug, PartialEq, Eq)]
pub struct Total {
    pub key: i64,
    pub sum: i128,
}

/// The distinct keys of `ts`, in the order in which each first occurs.
pub open spec fn keys_in_order(ts: Seq<Tally>) -> Seq<i64>
    decreases ts.len(),
{
    if ts.len() == 0 {
        Seq::empty()
    } else {
        let prev = keys_in_order(ts.drop_last());
        if prev.contains(ts.last().key) {
            prev
        } else {
            prev.push(ts.last().key)
        }
    }
}

/// The sum of the amounts filed under key `k`.
pub open spec fn sum_for(ts: Seq<Tally>, k: int) -> int
    decreases ts.len(),
{
    if ts.len() == 0 {
        0
    } else {
        sum_for(ts.drop_last(), k) + if ts.last().key == k {
            ts.last().amount as int
        } else {
            0
        }
    }
}

/// The sum of all amounts.
pub open spec fn sum_all(ts: Seq<Tally>) -> int
    decreases ts.len(),
{
    if ts.len() == 0 {
        0
    } else {
        sum_all(ts.drop_last()) + ts.last().amount
    }
}

/// Whether some tally is filed under `k`.
pub open spec fn has_key(ts: Seq<Tally>, k: int) -> bool {
    exists|i: int| 0 <= i < ts.len() && ts[i].key == k
}

/// `r` lists, for each distinct key of `ts` in order of first occurrence,
/// that key with the sum of its amounts.
pub open spec fn are_totals_of(r: Seq<Total>, ts: Seq<Tally>) -> bool {
    &&& r.len() == keys_in_order(ts).len()
    &&& forall|i: int|
        0 <= i < r.len() ==> (#[trigger] r[i]).key == keys_in_order(ts)[i] && r[i].sum == sum_for(
            ts,
            r[i].key as int,
        )
}

/// The greatest of the sums in `r`, and 0 when none is greater.
pub open spec fn max_sum(r: Seq<Total>) -> int
    decreases r.len(),
{
    if r.len() == 0 {
        0
    } else {
        let m = max_sum(r.drop_last());
        if r.last().sum > m {
            r.last().sum as int
        } else {
            m
        }
    }
}

/// Bound on the size of any sum of `n` amounts.
pub open spec fn sum_bound(n: int) -> int {
    n * 0x8000_0000
}

pub proof fn lemma_sum_for_bounded(ts: Seq<Tally>, k: int)
    ensures
        -sum_bound(ts.len() as int) <= sum_for(ts, k) <= sum_bound(ts.len() as int),
    decreases ts.len(),
{
    if ts.len() > 0 {
        lemma_sum_for_bounded(ts.drop_last(), k);
    }
}

pub proof fn lemma_sum_all_bounded(ts: Seq<Tally>)
    ensures
        -sum_bound(ts.len() as int) <= sum_all(ts) <= sum_bound(ts.len() as int),
    decreases ts.len(),
{
    if ts.len() > 0 {
        lemma_sum_all_bounded(ts.drop_last());
    }
}

/// A key is among the distinct keys exactly when some tally has it, and its
/// sum is zero otherwise.
pub proof fn lemma_keys_in_order(ts: Seq<Tally>, k: i64)
    ensures
        keys_in_order(ts).contains(k) <==> has_key(ts, k as int),
        !has_key(ts, k as int) ==> sum_for(ts, k as int) == 0,
        keys_in_order(ts).no_duplicates(),
    decreases ts.len(),
{
    if ts.len() > 0 {
        let p = ts.drop_last();
        lemma_keys_in_order(p, k);
        lemma_keys_in_order(p, ts.last().key);
        if has_key(p, k as int) {
            let i = choose|i: int| 0 <= i < p.len() && p[i].key == k;
            assert(ts[i].key == k);
        }
        if has_key(ts, k as int) && ts.last().key != k {
            let i = choose|i: int| 0 <= i < ts.len() && ts[i].key == k;
            assert(p[i].key == k);
        }
        assert(has_key(ts, ts.last().key as int)) by {
            assert(ts[ts.len() - 1].key == ts.last().key);
        }
        let kp = keys_in_order(p);
        if !kp.contains(ts.last().key) {
            assert(kp.push(ts.last().key).last() == ts.last().key);
            if kp.contains(k) {
                let i = choose|i: int| 0 <= i < kp.len() && kp[i] == k;
                assert(kp.push(ts.last().key)[i] == k);
            }
            if kp.push(ts.last().key).contains(k) && k != ts.last().key {
                let i = choose|i: int| 0 <= i < kp.len() + 1 && kp.push(ts.last().key)[i] == k;
                assert(kp[i] == k);
            }
        }
    }
}

/// Bucketing is a function of the tallies alone: any two results that meet
/// the contract of `totals` on the same tallies are equal.
pub proof fn lemma_totals_unique(r1: Seq<Total>, r2: Seq<Total>, ts: Seq<Tally>)
    requires
        are_totals_of(r1, ts),
        are_totals_of(r2, ts),
    ensures
        r1 == r2,
{
    assert forall|i: int| 0 <= i < r1.len() implies r1[i] == r2[i] by {
        assert(r1[i].key == r2[i].key);
    }
    assert(r1 =~= r2);
}

/// Sums the amounts of `ts` key by key.
pub fn totals(ts: &Vec<Tally>) -> (r: Vec<Total>)
    ensures
        are_totals_of(r@, ts@),
{
    let mut r: Vec<Total> = Vec::new();
    let mut i: usize = 0;
    while i < ts.len()
        invariant
            i <= ts.len(),
            are_totals_of(r@, ts@.take(i as int)),
        decreases ts.len() - i,
    {
        let t = ts[i];
        let ghost prev = ts@.take(i as int);
        let ghost next = ts@.take(i as int + 1);
        assert(next.drop_last() == prev);
        assert(next.last() == t);
        proof {
            lemma_keys_in_order(prev, t.key);
        }
        let mut j: usize = 0;
        while j < r.len() && r[j].key != t.key
            invariant
                j <= r.len(),
                forall|k: int| 0 <= k < j ==> r@[k].key != t.key,
            decreases r.len() - j,
        {
            j = j + 1;
        }
        if j < r.len() {
            proof {
                lemma_sum_for_bounded(next, t.key as int);
                assert(keys_in_order(prev)[j as int] == t.key);
                assert(keys_in_order(next) == keys_in_order(prev));
            }
            let ghost old_r = r@;
            let s = r[j].sum + t.amount as i128;
            r.set(j, Total { key: t.key, sum: s });
            assert forall|k: int| 0 <= k < r.len() implies r@[k].key == keys_in_order(next)[k]
                && r@[k].sum == sum_for(next, r@[k].key as int) by {
                assert(sum_for(next, r@[k].key as int) == sum_for(prev, r@[k].key as int) + if t.key
                    == r@[k].key {
                    t.amount as int
                } else {
                    0
                });
                if k != j {
                    assert(r@[k] == old_r[k]);
                    lemma_keys_in_order(prev, r@[k].key);
                    assert(keys_in_order(prev).no_duplicates());
                    assert(keys_in_order(prev)[k] != keys_in_order(prev)[j as int]);
                } else {
                    assert(old_r[k].key == t.key);
                    assert(old_r[k].sum == sum_for(prev, t.key as int));
                }
            }
        } else {
            proof {
                if keys_in_order(prev).contains(t.key) {
                    let x = choose|x: int|
                        0 <= x < keys_in_order(prev).len() && keys_in_order(prev)[x] == t.key;
                    assert(r@[x].key == t.key);
                }
                assert(!keys_in_order(prev).contains(t.key));
                assert(keys_in_order(next) == keys_in_order(prev).push(t.key));
            }
            let ghost old_r = r@;
            r.push(Total { key: t.key, sum: t.amount as i128 });
            assert forall|k: int| 0 <= k < r.len() implies r@[k].key == keys_in_order(next)[k]
                && r@[k].sum == sum_for(next, r@[k].key as int) by {
                assert(sum_for(next, r@[k].key as int) == sum_for(prev, r@[k].key as int) + if t.key
                    == r@[k].key {
                    t.amount as int
                } else {
                    0
                });
                if k < old_r.len() {
                    assert(r@[k] == old_r[k]);
                    assert(keys_in_order(prev).contains(keys_in_order(prev)[k]));
                } else {
                    assert(!has_key(prev, t.key as int));
                }
            }
        }
        i = i + 1;
    }
    assert(ts@.take(ts.len() as int) == ts@);
    r
}

pub proof fn lemma_max_sum(r: Seq<Total>)
    ensures
        0 <= max_sum(r),
        forall|i: int| 0 <= i < r.len() ==> r[i].sum <= max_sum(r),
        max_sum(r) == 0 || exists|i: int| 0 <= i < r.len() && r[i].sum == max_sum(r),
    decreases r.len(),
{
    if r.len() > 0 {
        let p = r.drop_last();
        lemma_max_sum(p);
        assert forall|i: int| 0 <= i < r.len() implies r[i].sum <= max_sum(r) by {
            if i < r.len() - 1 {
                assert(r[i] == p[i]);
            }
        }
        if max_sum(r) != 0 && max_sum(r) == max_sum(p) {
            let i = choose|i: int| 0 <= i < p.len() && p[i].sum == max_sum(p);
            assert(r[i] == p[i]);
        }
    }
}

/// The greatest sum of `r`, and 0 when none is greater.
pub fn max_of(r: &Vec<Total>) -> (m: i128)
    ensures
        m == max_sum(r@),
{
    let mut m: i128 = 0;
    let mut i: usize = 0;
    while i < r.len()
        invariant
            i <= r.len(),
            m == max_sum(r@.take(i as int)),
        decreases r.len() - i,
    {
        assert(r@.take(i as int + 1).drop_last() == r@.take(i as int));
        if r[i].sum > m {
            m = r[i].sum;
        }
        i = i + 1;
    }
    assert(r@.take(r.len() as int) == r@);
    m
}

/// The sum of all amounts of `ts`.
pub fn sum_amounts(ts: &Vec<Tally>) -> (s: i128)
    ensures
        s == sum_all(ts@),
{
    let mut s: i128 = 0;
    let mut i: usize = 0;
    while i < ts.len()
        invariant
            i <= ts.len(),
            s == sum_all(ts@.take(i as int)),
        decreases ts.len() - i,
    {
        assert(ts@.take(i as int + 1).drop_last() == ts@.take(i as int));
        proof {
            lemma_sum_all_bounded(ts@.take(i as int + 1));
        }
        s = s + ts[i].amount as i128;
        i = i + 1;
    }
    assert(ts@.take(ts.len() as int) == ts@);
    s
}

/// Whether some tally of `ts` is filed under `k`.
pub fn contains_key(ts: &Vec<Tally>, k: i128) -> (b: bool)
    ensures
        b == has_key(ts@, k as int),
{
    let mut i: usize = 0;
    while i < ts.len()
        invariant
            i <= ts.len(),
            forall|j: int| 0 <= j < i ==> ts@[j].key != k,
        decreases ts.len() - i,
    {
        if ts[i].key as i128 == k {
            return true;
        }
        i = i + 1;
    }
    false
}

/// No two totals of `r` share a key.
pub open spec fn keys_distinct(r: Seq<Total>) -> bool {
    forall|i: int, j: int| 0 <= i < j < r.len() ==> r[i].key != r[j].key
}

/// `out` holds the totals of `r` with the greatest keys, at most `n` of them,
/// from the greatest key down: any total left out has a smaller key than every
/// one kept, and only when `n` were kept.
pub open spec fn is_top(out: Seq<Total>, r: Seq<Total>, n: int) -> bool {
    &&& out.len() <= n
    &&& forall|i: int, j: int| 0 <= i < j < out.len() ==> out[i].key > out[j].key
    &&& forall|i: int| 0 <= i < out.len() ==> r.contains(#[trigger] out[i])
    &&& forall|j: int|
        0 <= j < r.len() && !out.contains(#[trigger] r[j]) ==> out.len() == n && (n > 0 ==> r[j].key
            < out.last().key)
}

/// The totals of `r` with the `n` greatest keys, greatest first.
pub fn top_by_key(r: &Vec<Total>, n: usize) -> (out: Vec<Total>)
    requires
        keys_distinct(r@),
    ensures
        is_top(out@, r@, n as int),
{
    let mut out: Vec<Total> = Vec::new();
    let mut done = false;
    while !done && out.len() < n
        invariant
            keys_distinct(r@),
            out.len() <= n,
            forall|i: int, j: int| 0 <= i < j < out.len() ==> out@[i].key > out@[j].key,
            forall|i: int| 0 <= i < out.len() ==> r@.contains(#[trigger] out@[i]),
            out.len() > 0 ==> forall|j: int|
                0 <= j < r.len() && r@[j].key >= out@.last().key ==> out@.contains(#[trigger] r@[j]),
            done ==> forall|j: int| 0 <= j < r.len() ==> out@.contains(#[trigger] r@[j]),
        decreases n - out.len() + if done { 0int } else { 1int },
    {
        let mut best: Option<usize> = None;
        let mut k: usize = 0;
        while k < r.len()
            invariant
                k <= r.len(),
                out.len() > 0 ==> (best matches Some(b) ==> r@[b as int].key < out@.last().key),
                best matches Some(b) ==> b < k,
                forall|m: int|
                    0 <= m < k && (out.len() == 0 || (#[trigger] r@[m]).key < out@.last().key) ==> (best matches Some(
                        b,
                    ) && r@[m].key <= r@[b as int].key),
            decreases r.len() - k,
        {
            let eligible = out.len() == 0 || r[k].key < out[out.len() - 1].key;
            if eligible {
                match best {
                    Some(b) => {
                        if r[k].key > r[b].key {
                            best = Some(k);
                        }
                    },
                    None => {
                        best = Some(k);
                    },
                }
            }
            k = k + 1;
        }
        match best {
            Some(b) => {
                let ghost old_out = out@;
                let t = r[b];
                out.push(t);
                assert(out@.last() == t);
                assert(r@.contains(r@[b as int]));
                assert forall|i: int| 0 <= i < out.len() implies r@.contains(#[trigger] out@[i]) by {
                    if i < old_out.len() {
                        assert(out@[i] == old_out[i]);
                    }
                }
                assert forall|j: int|
                    0 <= j < r.len() && r@[j].key >= out@.last().key implies out@.contains(
                    #[trigger] r@[j],
                ) by {
                    if old_out.len() > 0 && r@[j].key >= old_out.last().key {
                        let i = choose|i: int| 0 <= i < old_out.len() && old_out[i] == r@[j];
                        assert(out@[i] == r@[j]);
                    } else {
                        assert(r@[j].key <= t.key);
                        if j < b {
                            assert(r@[j].key != r@[b as int].key);
                        } else if j > b {
                            assert(r@[b as int].key != r@[j].key);
                        }
                        assert(j == b);
                        assert(out@[old_out.len() as int] == r@[j]);
                    }
                }
            },
            None => {
                assert forall|j: int| 0 <= j < r.len() implies out@.contains(#[trigger] r@[j]) by {
                    assert(k == r.len());
                    let x = r@[j];
                    if out.len() == 0 || x.key < out@.last().key {
                        assert(0 <= j < k);
                        assert(best matches Some(b) && r@[j].key <= r@[b as int].key);
                    }
                }
                done = true;
            },
        }
    }
    out
}

} // verus!
