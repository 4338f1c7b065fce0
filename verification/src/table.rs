//! An in-memory table of rows keyed by a (service id, timestamp) pair.
//!
//! Both persisted record kinds share this shape: per-minute health checks
//! carry a `bool` payload, per-day history records a `u64` uptime. The
//! table's mathematical model is the map from keys to payloads; every
//! operation is specified against that map.

use vstd::prelude::*;

verus! {

/// One row: the (service id, timestamp) primary key and a payload.
pub struct Row<T> {
    pub id: u64,
    pub timestamp: u64,
    pub value: T,
}

/// The primary key of a row.
pub open spec fn row_key<T>(r: Row<T>) -> (u64, u64) {
    (r.id, r.timestamp)
}

/// The association of keys to payloads described by a sequence of rows.
pub open spec fn rows_map<T>(s: Seq<Row<T>>) -> Map<(u64, u64), T>
    decreases s.len(),
{
    if s.len() == 0 {
        Map::<(u64, u64), T>::empty()
    } else {
        rows_map(s.drop_last()).insert(row_key(s.last()), s.last().value)
    }
}

/// No two rows share a primary key.
pub open spec fn distinct_keys<T>(s: Seq<Row<T>>) -> bool {
    forall|i: int, j: int| 0 <= i < j < s.len() ==> row_key(s[i]) != row_key(s[j])
}

pub proof fn lemma_rows_map_finite<T>(s: Seq<Row<T>>)
    ensures
        rows_map(s).dom().finite(),
    decreases s.len(),
{
    if s.len() != 0 {
        lemma_rows_map_finite(s.drop_last());
    }
}

pub proof fn lemma_rows_map_contains<T>(s: Seq<Row<T>>, k: (u64, u64))
    ensures
        rows_map(s).contains_key(k) <==> exists|i: int| 0 <= i < s.len() && row_key(s[i]) == k,
    decreases s.len(),
{
    if s.len() != 0 {
        lemma_rows_map_contains(s.drop_last(), k);
        if rows_map(s).contains_key(k) {
            if row_key(s.last()) == k {
                assert(row_key(s[s.len() - 1]) == k);
            } else {
                let i = choose|i: int|
                    0 <= i < s.drop_last().len() && row_key(s.drop_last()[i]) == k;
                assert(row_key(s[i]) == k);
            }
        }
        if exists|i: int| 0 <= i < s.len() && row_key(s[i]) == k {
            let i = choose|i: int| 0 <= i < s.len() && row_key(s[i]) == k;
            if i < s.len() - 1 {
                assert(row_key(s.drop_last()[i]) == k);
            }
        }
    }
}

pub proof fn lemma_rows_map_index<T>(s: Seq<Row<T>>, i: int)
    requires
        distinct_keys(s),
        0 <= i < s.len(),
    ensures
        rows_map(s).contains_key(row_key(s[i])),
        rows_map(s)[row_key(s[i])] == s[i].value,
    decreases s.len(),
{
    if i < s.len() - 1 {
        assert forall|a: int, b: int| 0 <= a < b < s.drop_last().len() implies row_key(
            s.drop_last()[a],
        ) != row_key(s.drop_last()[b]) by {
            assert(s.drop_last()[a] == s[a]);
            assert(s.drop_last()[b] == s[b]);
        }
        lemma_rows_map_index(s.drop_last(), i);
        assert(s.drop_last()[i] == s[i]);
        assert(row_key(s[i]) != row_key(s[s.len() - 1]));
    }
}

/// A keyed table with pairwise-distinct keys, modelled by its key-to-payload
/// map.
pub struct Table<T> {
    rows: Vec<Row<T>>,
}

impl<T> View for Table<T> {
    type V = Map<(u64, u64), T>;

    closed spec fn view(&self) -> Map<(u64, u64), T> {
        rows_map(self.rows@)
    }
}

impl<T: Copy> Table<T> {
    /// Key distinctness, established by `new` and preserved by `insert`.
    pub closed spec fn wf(&self) -> bool {
        distinct_keys(self.rows@)
    }

    pub fn new() -> (t: Self)
        ensures
            t@ == Map::<(u64, u64), T>::empty(),
            t.wf(),
    {
        Table { rows: Vec::new() }
    }

    /// A table holds finitely many rows.
    pub proof fn lemma_view_finite(&self)
        ensures
            self@.dom().finite(),
    {
        lemma_rows_map_finite(self.rows@);
    }

    /// Whether a row with this key is present.
    pub fn contains(&self, id: u64, timestamp: u64) -> (r: bool)
        ensures
            r == self@.contains_key((id, timestamp)),
    {
        let mut i: usize = 0;
        while i < self.rows.len()
            invariant
                0 <= i <= self.rows.len(),
                forall|j: int| 0 <= j < i ==> row_key(self.rows@[j]) != (id, timestamp),
            decreases self.rows.len() - i,
        {
            if self.rows[i].id == id && self.rows[i].timestamp == timestamp {
                proof {
                    lemma_rows_map_contains(self.rows@, (id, timestamp));
                }
                return true;
            }
            i += 1;
        }
        proof {
            lemma_rows_map_contains(self.rows@, (id, timestamp));
        }
        false
    }

    /// Append a row unless its key is already taken; reports whether the row
    /// was inserted. A rejected insert leaves the table untouched.
    pub fn insert(&mut self, id: u64, timestamp: u64, value: T) -> (r: bool)
        requires
            old(self).wf(),
        ensures
            final(self).wf(),
            r == !old(self)@.contains_key((id, timestamp)),
            r ==> final(self)@ == old(self)@.insert((id, timestamp), value),
            !r ==> *final(self) == *old(self),
    {
        if self.contains(id, timestamp) {
            return false;
        }
        proof {
            lemma_rows_map_contains(self.rows@, (id, timestamp));
        }
        self.rows.push(Row { id, timestamp, value });
        proof {
            let s = self.rows@;
            let prev = old(self).rows@;
            assert(s.drop_last() =~= prev);
            assert forall|a: int, b: int| 0 <= a < b < s.len() implies row_key(s[a]) != row_key(
                s[b],
            ) by {
                if b < s.len() - 1 {
                    assert(row_key(prev[a]) != row_key(prev[b]));
                } else {
                    assert(s[b] == Row { id, timestamp, value });
                    if row_key(s[a]) == (id, timestamp) {
                        assert(row_key(prev[a]) == (id, timestamp));
                    }
                }
            }
        }
        true
    }

    /// Look up the payload stored under a key.
    pub fn get(&self, id: u64, timestamp: u64) -> (r: Option<T>)
        requires
            self.wf(),
        ensures
            r == if self@.contains_key((id, timestamp)) {
                Some(self@[(id, timestamp)])
            } else {
                None::<T>
            },
    {
        let mut i: usize = 0;
        while i < self.rows.len()
            invariant
                0 <= i <= self.rows.len(),
                self.wf(),
                forall|j: int| 0 <= j < i ==> row_key(self.rows@[j]) != (id, timestamp),
            decreases self.rows.len() - i,
        {
            if self.rows[i].id == id && self.rows[i].timestamp == timestamp {
                proof {
                    lemma_rows_map_index(self.rows@, i as int);
                }
                return Some(self.rows[i].value);
            }
            i += 1;
        }
        proof {
            lemma_rows_map_contains(self.rows@, (id, timestamp));
        }
        None
    }

    /// The payload of the row with the greatest timestamp among those with
    /// this service id, if any such row exists.
    pub fn latest(&self, id: u64) -> (r: Option<T>)
        requires
            self.wf(),
        ensures
            r == latest_of(self@, id),
            r.is_some() <==> has_entry(self@, id),
    {
        let mut best: Option<(u64, T)> = None;
        let mut i: usize = 0;
        while i < self.rows.len()
            invariant
                0 <= i <= self.rows.len(),
                self.wf(),
                (best matches None ==> forall|j: int| 0 <= j < i ==> self.rows@[j].id != id),
                (best matches Some(p) ==> exists|j: int|
                    0 <= j < i && row_key(#[trigger] self.rows@[j]) == (id, p.0)
                        && self.rows@[j].value == p.1),
                (best matches Some(p) ==> forall|j: int|
                    0 <= j < i && (#[trigger] self.rows@[j]).id == id ==> self.rows@[j].timestamp
                        <= p.0),
            decreases self.rows.len() - i,
        {
            if self.rows[i].id == id {
                let ts = self.rows[i].timestamp;
                let v = self.rows[i].value;
                match best {
                    None => {
                        best = Some((ts, v));
                    },
                    Some(p) => {
                        if ts > p.0 {
                            best = Some((ts, v));
                        }
                    },
                }
                proof {
                    let bp = best.unwrap();
                    assert(row_key(self.rows@[i as int]) == (id, ts));
                }
            }
            i += 1;
        }
        proof {
            let m = self@;
            match best {
                None => {
                    assert forall|ts: u64| !m.contains_key((id, ts)) by {
                        lemma_rows_map_contains(self.rows@, (id, ts));
                    }
                    assert(!has_entry(m, id));
                    assert forall|ts: u64| !is_latest(m, id, ts) by {}
                },
                Some(p) => {
                    let j = choose|j: int|
                        0 <= j < self.rows@.len() && row_key(#[trigger] self.rows@[j]) == (
                        id,
                        p.0,
                    ) && self.rows@[j].value == p.1;
                    lemma_rows_map_index(self.rows@, j);
                    assert(m.contains_key((id, p.0)));
                    assert(m[(id, p.0)] == p.1);
                    assert forall|t2: u64| m.contains_key((id, t2)) implies t2 <= p.0 by {
                        lemma_rows_map_contains(self.rows@, (id, t2));
                        let j2 = choose|j2: int|
                            0 <= j2 < self.rows@.len() && row_key(self.rows@[j2]) == (id, t2);
                        assert(self.rows@[j2].id == id);
                    }
                    assert(is_latest(m, id, p.0));
                    let w = choose|ts: u64| is_latest(m, id, ts);
                    assert(w <= p.0 && p.0 <= w);
                    assert(latest_of(m, id) == Some(p.1));
                },
            }
        }
        match best {
            None => None,
            Some(p) => Some(p.1),
        }
    }
}

impl Table<bool> {
    /// Count the rows of one service id whose timestamp lies in `[lo, hi)`
    /// and whose payload is `true`.
    pub fn count_window(&self, id: u64, lo: u64, hi: u64) -> (n: u64)
        requires
            self.wf(),
        ensures
            n == window_true_count(self@, id, lo as int, hi as int),
    {
        let mut cnt: usize = 0;
        let mut i: usize = 0;
        proof {
            assert(self.rows@.take(0) =~= Seq::<Row<bool>>::empty());
            assert(window_true_keys(rows_map(self.rows@.take(0)), id, lo as int, hi as int)
                =~= Set::<(u64, u64)>::empty());
        }
        while i < self.rows.len()
            invariant
                0 <= i <= self.rows.len(),
                self.wf(),
                cnt <= i,
                cnt == window_true_count(
                    rows_map(self.rows@.take(i as int)),
                    id,
                    lo as int,
                    hi as int,
                ),
            decreases self.rows.len() - i,
        {
            let row_id = self.rows[i].id;
            let row_ts = self.rows[i].timestamp;
            let row_v = self.rows[i].value;
            proof {
                let s = self.rows@;
                let pre = s.take(i as int);
                let pre1 = s.take(i as int + 1);
                assert(pre1.drop_last() =~= pre);
                assert(pre1.last() == s[i as int]);
                lemma_rows_map_contains(pre, row_key(s[i as int]));
                if rows_map(pre).contains_key(row_key(s[i as int])) {
                    let j = choose|j: int|
                        0 <= j < pre.len() && row_key(pre[j]) == row_key(s[i as int]);
                    assert(row_key(s[j]) == row_key(s[i as int]));
                    assert(false);
                }
                lemma_rows_map_finite(pre);
                lemma_window_count_insert(
                    rows_map(pre),
                    id,
                    lo as int,
                    hi as int,
                    row_key(s[i as int]),
                    s[i as int].value,
                );
                assert(rows_map(pre1) == rows_map(pre).insert(
                    row_key(s[i as int]),
                    s[i as int].value,
                ));
            }
            if row_id == id && lo <= row_ts && row_ts < hi && row_v {
                cnt += 1;
            }
            i += 1;
        }
        proof {
            assert(self.rows@.take(self.rows@.len() as int) =~= self.rows@);
        }
        cnt as u64
    }
}

/// The keys of the successful checks of one service id whose timestamp lies
/// in `[lo, hi)`.
pub open spec fn window_true_keys(m: Map<(u64, u64), bool>, id: u64, lo: int, hi: int) -> Set<
    (u64, u64),
> {
    m.dom().filter(|k: (u64, u64)| k.0 == id && lo <= k.1 < hi && m[k])
}

/// How many successful checks one service id has in the timestamp window
/// `[lo, hi)`.
pub open spec fn window_true_count(m: Map<(u64, u64), bool>, id: u64, lo: int, hi: int) -> nat {
    window_true_keys(m, id, lo, hi).len()
}

/// Adding one record changes a window count by exactly one when the record
/// is a success of the counted service inside the window, and by nothing
/// otherwise — whatever was inserted before or after it, and whatever other
/// services' records sit in the same map.
pub proof fn lemma_window_count_insert(
    m: Map<(u64, u64), bool>,
    id: u64,
    lo: int,
    hi: int,
    k: (u64, u64),
    v: bool,
)
    requires
        m.dom().finite(),
        !m.contains_key(k),
    ensures
        window_true_count(m.insert(k, v), id, lo, hi) == window_true_count(m, id, lo, hi) + (
        if k.0 == id && lo <= k.1 < hi && v {
            1int
        } else {
            0int
        }),
{
    let mn = m.insert(k, v);
    let wo = window_true_keys(m, id, lo, hi);
    let wn = window_true_keys(mn, id, lo, hi);
    m.dom().lemma_len_filter(|kk: (u64, u64)| kk.0 == id && lo <= kk.1 < hi && m[kk]);
    assert(mn.dom() =~= m.dom().insert(k));
    if k.0 == id && lo <= k.1 < hi && v {
        assert forall|kk: (u64, u64)| wn.contains(kk) implies wo.insert(k).contains(kk) by {
            if kk != k {
                assert(m[kk] == mn[kk]);
            }
        }
        assert forall|kk: (u64, u64)| wo.insert(k).contains(kk) implies wn.contains(kk) by {
            if kk != k {
                assert(m[kk] == mn[kk]);
            }
        }
        assert(wn =~= wo.insert(k));
        assert(!wo.contains(k));
        vstd::set::axiom_set_insert_len(wo, k);
    } else {
        assert forall|kk: (u64, u64)| wn.contains(kk) implies wo.contains(kk) by {
            if kk != k {
                assert(m[kk] == mn[kk]);
            }
        }
        assert forall|kk: (u64, u64)| wo.contains(kk) implies wn.contains(kk) by {
            assert(kk != k);
            assert(m[kk] == mn[kk]);
        }
        assert(wn =~= wo);
    }
}

/// Whether any row of the map belongs to this service id.
pub open spec fn has_entry<T>(m: Map<(u64, u64), T>, id: u64) -> bool {
    exists|ts: u64| m.contains_key((id, ts))
}

/// `ts` is the greatest timestamp recorded for this service id.
pub open spec fn is_latest<T>(m: Map<(u64, u64), T>, id: u64, ts: u64) -> bool {
    m.contains_key((id, ts)) && forall|t2: u64| m.contains_key((id, t2)) ==> t2 <= ts
}

/// The payload under the greatest timestamp recorded for this service id.
pub open spec fn latest_of<T>(m: Map<(u64, u64), T>, id: u64) -> Option<T> {
    if exists|ts: u64| is_latest(m, id, ts) {
        Some(m[(id, choose|ts: u64| is_latest(m, id, ts))])
    } else {
        None
    }
}

} // verus!
