//! The aggregation table: a mapping from byte-string keys to running
//! aggregates, with unique keys, modelled as a `Map` in specifications.

use vstd::prelude::*;
use crate::entry::AggregateEntry;
use crate::entry::EntryModel;
use crate::entry::VAL_LIMIT;
use crate::entry::combine_entries;
use crate::entry::entry_add;
use crate::entry::entry_of;
use crate::entry::entry_wf;

verus! {

/// Model of a table: keys are byte sequences, values are entry models.
pub open spec fn map_of(s: Seq<(Vec<u8>, AggregateEntry)>) -> Map<Seq<u8>, EntryModel>
    decreases s.len(),
{
    if s.len() == 0 {
        Map::empty()
    } else {
        map_of(s.drop_last()).insert(s.last().0@, s.last().1@)
    }
}

/// Every entry of a well-formed table model is itself well-formed.
pub open spec fn table_wf(m: Map<Seq<u8>, EntryModel>) -> bool {
    forall|k: Seq<u8>| m.contains_key(k) ==> entry_wf(#[trigger] m[k])
}

/// Recording one value for one key: a fresh entry on first sight,
/// otherwise the entry folded with the value.
pub open spec fn table_insert(m: Map<Seq<u8>, EntryModel>, k: Seq<u8>, v: int) -> Map<
    Seq<u8>,
    EntryModel,
> {
    if m.contains_key(k) {
        m.insert(k, entry_add(m[k], v))
    } else {
        m.insert(k, entry_of(v))
    }
}

/// The associative, commutative merge of two table models: entries for
/// shared keys are combined pointwise, all other entries pass through.
pub open spec fn spec_merge(a: Map<Seq<u8>, EntryModel>, b: Map<Seq<u8>, EntryModel>) -> Map<
    Seq<u8>,
    EntryModel,
> {
    Map::new(
        |k: Seq<u8>| a.contains_key(k) || b.contains_key(k),
        |k: Seq<u8>|
            if a.contains_key(k) && b.contains_key(k) {
                combine_entries(a[k], b[k])
            } else if a.contains_key(k) {
                a[k]
            } else {
                b[k]
            },
    )
}

/// Merging may combine counts past the counter's range only for keys in
/// both tables; this says every shared key stays within it.
pub open spec fn merge_fits(a: Map<Seq<u8>, EntryModel>, b: Map<Seq<u8>, EntryModel>) -> bool {
    forall|k: Seq<u8>| a.contains_key(k) && b.contains_key(k) ==> (#[trigger] a[k]).count + (
    #[trigger] b[k]).count <= u64::MAX
}

/// Per-key aggregation table; keys are unique byte strings.
#[derive(Debug)]
pub struct AggregationTable {
    pub items: Vec<(Vec<u8>, AggregateEntry)>,
}

impl View for AggregationTable {
    type V = Map<Seq<u8>, EntryModel>;

    open spec fn view(&self) -> Map<Seq<u8>, EntryModel> {
        map_of(self.items@)
    }
}

/// No two slots of the vector hold the same key.
pub open spec fn keys_unique(s: Seq<(Vec<u8>, AggregateEntry)>) -> bool {
    forall|i: int, j: int| 0 <= i < j < s.len() ==> s[i].0@ != s[j].0@
}

pub proof fn lemma_map_of_mem(s: Seq<(Vec<u8>, AggregateEntry)>, k: Seq<u8>)
    ensures
        map_of(s).contains_key(k) <==> exists|i: int| 0 <= i < s.len() && (#[trigger] s[i].0@)
            == k,
    decreases s.len(),
{
    if s.len() > 0 {
        lemma_map_of_mem(s.drop_last(), k);
        if map_of(s).contains_key(k) && s.last().0@ != k {
            let i = choose|i: int| 0 <= i < s.len() - 1 && (#[trigger] s.drop_last()[i].0@) == k;
            assert(s[i].0@ == k);
        }
        if exists|i: int| 0 <= i < s.len() && (#[trigger] s[i].0@) == k {
            let i = choose|i: int| 0 <= i < s.len() && (#[trigger] s[i].0@) == k;
            if i < s.len() - 1 {
                assert(s.drop_last()[i].0@ == k);
            }
        }
    }
}

pub proof fn lemma_map_of_index(s: Seq<(Vec<u8>, AggregateEntry)>, i: int)
    requires
        keys_unique(s),
        0 <= i < s.len(),
    ensures
        map_of(s).contains_key(s[i].0@),
        map_of(s)[s[i].0@] == s[i].1@,
    decreases s.len(),
{
    if i == s.len() - 1 {
        assert(map_of(s) == map_of(s.drop_last()).insert(s.last().0@, s.last().1@));
    } else {
        assert(keys_unique(s.drop_last())) by {
            assert(forall|p: int, q: int|
                0 <= p < q < s.len() - 1 ==> s.drop_last()[p].0@ == s[p].0@ && s.drop_last()[q].0@
                    == s[q].0@);
        }
        assert(s.drop_last()[i].0@ == s[i].0@);
        lemma_map_of_index(s.drop_last(), i);
        assert(s[i].0@ != s.last().0@);
    }
}

pub proof fn lemma_map_of_update(s: Seq<(Vec<u8>, AggregateEntry)>, i: int, p: (
    Vec<u8>,
    AggregateEntry,
))
    requires
        keys_unique(s),
        0 <= i < s.len(),
        p.0@ == s[i].0@,
    ensures
        map_of(s.update(i, p)) == map_of(s).insert(p.0@, p.1@),
        keys_unique(s.update(i, p)),
    decreases s.len(),
{
    let t = s.update(i, p);
    assert(forall|m: int| 0 <= m < s.len() && m != i ==> t[m] == s[m]);
    if i == s.len() - 1 {
        assert(t.drop_last() =~= s.drop_last());
        assert(map_of(t) == map_of(s.drop_last()).insert(p.0@, p.1@));
        assert(map_of(s).insert(p.0@, p.1@) == map_of(s.drop_last()).insert(
            s.last().0@,
            s.last().1@,
        ).insert(p.0@, p.1@));
        assert(map_of(s.drop_last()).insert(p.0@, p.1@) =~= map_of(s.drop_last()).insert(
            s.last().0@,
            s.last().1@,
        ).insert(p.0@, p.1@));
    } else {
        assert(keys_unique(s.drop_last())) by {
            assert(forall|m: int, q: int|
                0 <= m < q < s.len() - 1 ==> s.drop_last()[m].0@ == s[m].0@ && s.drop_last()[q].0@
                    == s[q].0@);
        }
        assert(s.drop_last()[i].0@ == s[i].0@);
        lemma_map_of_update(s.drop_last(), i, p);
        assert(t.drop_last() =~= s.drop_last().update(i, p));
        assert(t.last() == s.last());
        assert(map_of(t) == map_of(s.drop_last()).insert(p.0@, p.1@).insert(
            s.last().0@,
            s.last().1@,
        ));
        assert(p.0@ != s.last().0@);
        assert(map_of(s.drop_last()).insert(p.0@, p.1@).insert(s.last().0@, s.last().1@)
            =~= map_of(s.drop_last()).insert(s.last().0@, s.last().1@).insert(p.0@, p.1@));
    }
}

/// With unique keys, the vector's length is the model's size, so `len`
/// counts the distinct keys.
pub proof fn lemma_table_size(s: Seq<(Vec<u8>, AggregateEntry)>)
    requires
        keys_unique(s),
    ensures
        map_of(s).dom().finite(),
        map_of(s).dom().len() == s.len(),
    decreases s.len(),
{
    if s.len() > 0 {
        assert(keys_unique(s.drop_last())) by {
            assert(forall|p: int, q: int|
                0 <= p < q < s.len() - 1 ==> s.drop_last()[p].0@ == s[p].0@ && s.drop_last()[q].0@
                    == s[q].0@);
        }
        lemma_table_size(s.drop_last());
        lemma_map_of_mem(s.drop_last(), s.last().0@);
        assert(forall|i: int|
            0 <= i < s.len() - 1 ==> (#[trigger] s.drop_last()[i].0@) == s[i].0@ && s[i].0@
                != s.last().0@);
        assert(!map_of(s.drop_last()).contains_key(s.last().0@));
    }
}

/// Byte-string equality, proved against the sequence views.
fn bytes_eq(a: &[u8], b: &[u8]) -> (r: bool)
    ensures
        r <==> a@ == b@,
{
    if a.len() != b.len() {
        return false;
    }
    let n = a.len();
    let mut i: usize = 0;
    while i < n
        invariant
            0 <= i <= n,
            n == a@.len() == b@.len(),
            forall|m: int| 0 <= m < i ==> a@[m] == b@[m],
        decreases n - i,
    {
        if a[i] != b[i] {
            return false;
        }
        i += 1;
    }
    proof {
        assert(a@ =~= b@);
    }
    true
}

impl AggregationTable {
    /// Unique keys; the table model then indexes every slot faithfully.
    pub open spec fn wf(&self) -> bool {
        keys_unique(self.items@)
    }

    /// The empty table.
    pub fn new() -> (r: AggregationTable)
        ensures
            r.wf(),
            r@ == Map::<Seq<u8>, EntryModel>::empty(),
            r.items@.len() == 0,
    {
        AggregationTable { items: Vec::new() }
    }

    /// Number of distinct keys.
    pub fn len(&self) -> (r: usize)
        requires
            self.wf(),
        ensures
            r == self.items@.len(),
            self@.dom().finite(),
            r == self@.dom().len(),
    {
        proof {
            lemma_table_size(self.items@);
        }
        self.items.len()
    }

    /// The slot at `i`, for iteration by index.
    pub fn slot(&self, i: usize) -> (r: &(Vec<u8>, AggregateEntry))
        requires
            self.wf(),
            i < self.items@.len(),
        ensures
            r == self.items@[i as int],
            self@.contains_key(r.0@),
            self@[r.0@] == r.1@,
    {
        proof {
            lemma_map_of_index(self.items@, i as int);
        }
        &self.items[i]
    }

    fn find(&self, key: &[u8]) -> (r: Option<usize>)
        requires
            self.wf(),
        ensures
            r matches Some(i) ==> i < self.items@.len() && self.items@[i as int].0@ == key@
                && self@.contains_key(key@) && self@[key@] == self.items@[i as int].1@,
            r is None ==> !self@.contains_key(key@),
    {
        let n = self.items.len();
        let mut i: usize = 0;
        while i < n
            invariant
                0 <= i <= n,
                n == self.items@.len(),
                self.wf(),
                forall|m: int| 0 <= m < i ==> (#[trigger] self.items@[m].0@) != key@,
            decreases n - i,
        {
            if bytes_eq(self.items[i].0.as_slice(), key) {
                proof {
                    lemma_map_of_index(self.items@, i as int);
                }
                return Some(i);
            }
            i += 1;
        }
        proof {
            lemma_map_of_mem(self.items@, key@);
        }
        None
    }

    /// Looks a key up.
    pub fn get(&self, key: &[u8]) -> (r: Option<&AggregateEntry>)
        requires
            self.wf(),
        ensures
            r matches Some(e) ==> self@.contains_key(key@) && self@[key@] == e@,
            r is None ==> !self@.contains_key(key@),
    {
        match self.find(key) {
            Some(i) => Some(&self.items[i].1),
            None => None,
        }
    }

    /// Records one observed value for `key`.
    pub fn add_record(&mut self, key: &[u8], value: i64)
        requires
            old(self).wf(),
            table_wf(old(self)@),
            -VAL_LIMIT <= value <= VAL_LIMIT,
            forall|k: Seq<u8>| old(self)@.contains_key(k) ==> (#[trigger] old(self)@[k]).count
                < u64::MAX,
        ensures
            final(self).wf(),
            final(self)@ == table_insert(old(self)@, key@, value as int),
            table_wf(final(self)@),
    {
        let ghost m = self@;
        match self.find(key) {
            Some(i) => {
                let ghost s = self.items@;
                let mut pair = self.items.remove(i);
                let e = pair.1;
                proof {
                    assert(m.contains_key(key@) && entry_wf(m[key@]));
                    assert(e@ == m[key@]);
                    assert(e.sum <= VAL_LIMIT * e.count && -(VAL_LIMIT * e.count) <= e.sum);
                    assert((VAL_LIMIT * e.count) + VAL_LIMIT == VAL_LIMIT * ((e.count + 1) as int))
                        by (nonlinear_arith);
                    assert(VAL_LIMIT * ((e.count + 1) as int) <= VAL_LIMIT * (u64::MAX as int))
                        by (nonlinear_arith)
                        requires
                            e.count + 1 <= u64::MAX as int,
                    ;
                }
                let updated = AggregateEntry {
                    min: if value < e.min {
                        value
                    } else {
                        e.min
                    },
                    max: if value > e.max {
                        value
                    } else {
                        e.max
                    },
                    sum: e.sum + value as i128,
                    count: e.count + 1,
                };
                pair.1 = updated;
                let ghost pv = pair;
                self.items.insert(i, pair);
                proof {
                    assert(self.items@ =~= s.update(i as int, pv));
                    lemma_map_of_update(s, i as int, pv);
                    assert(updated@ == entry_add(m[key@], value as int));
                    assert(self@ =~= table_insert(m, key@, value as int));
                    assert(entry_wf(updated@));
                    assert forall|k: Seq<u8>| self@.contains_key(k) implies entry_wf(
                        #[trigger] self@[k],
                    ) by {
                        if k != key@ {
                            assert(self@[k] == m[k]);
                        }
                    }
                }
            },
            None => {
                let ghost s = self.items@;
                let fresh = AggregateEntry { min: value, max: value, sum: value as i128, count: 1 };
                let kv: Vec<u8> = vstd::slice::slice_to_vec(key);
                let p = (kv, fresh);
                let ghost pv = p;
                self.items.push(p);
                proof {
                    assert(self.items@.drop_last() =~= s);
                    assert(self.items@.last() == pv);
                    assert(self@ == map_of(s).insert(key@, fresh@));
                    assert(fresh@ == entry_of(value as int));
                    lemma_map_of_mem(s, key@);
                    assert(forall|m2: int| 0 <= m2 < s.len() ==> (#[trigger] s[m2].0@) != key@);
                    assert(forall|m2: int|
                        0 <= m2 < s.len() ==> #[trigger] self.items@[m2] == s[m2]);
                    assert(keys_unique(self.items@));
                    assert(self@ =~= table_insert(m, key@, value as int));
                    assert forall|k: Seq<u8>| self@.contains_key(k) implies entry_wf(
                        #[trigger] self@[k],
                    ) by {
                        if k != key@ {
                            assert(self@[k] == m[k]);
                        }
                    }
                }
            },
        }
    }
}

/// Merges two tables, combining shared keys pointwise; `None` exactly when
/// some shared key's combined count would not fit the counter.
pub fn checked_merge(a: AggregationTable, b: AggregationTable) -> (r: Option<AggregationTable>)
    requires
        a.wf(),
        b.wf(),
        table_wf(a@),
        table_wf(b@),
    ensures
        r matches Some(t) ==> t.wf() && table_wf(t@) && t@ == spec_merge(a@, b@) && merge_fits(
            a@,
            b@,
        ),
        r is None ==> !merge_fits(a@, b@),
{
    let ghost ag = a@;
    let ghost bs = b.items@;
    let ghost bg = b@;
    let mut res = a;
    let mut rest = b;
    let n = rest.items.len();
    let mut j: usize = 0;
    proof {
        assert(bs.take(0) =~= Seq::<(Vec<u8>, AggregateEntry)>::empty());
        assert(spec_merge(ag, map_of(bs.take(0))) =~= ag);
    }
    while j < n
        invariant
            ag == a@,
            bg == b@,
            0 <= j <= n,
            n == bs.len(),
            rest.items@ =~= bs.subrange(j as int, n as int),
            keys_unique(bs),
            table_wf(bg),
            bg == map_of(bs),
            res.wf(),
            table_wf(res@),
            table_wf(ag),
            res@ == spec_merge(ag, map_of(bs.take(j as int))),
            merge_fits(ag, map_of(bs.take(j as int))),
        decreases n - j,
    {
        let pair = rest.items.remove(0);
        proof {
            assert(bs.subrange(j as int, n as int)[0] == bs[j as int]);
            assert(pair == bs[j as int]);
            assert(rest.items@ =~= bs.subrange(j as int + 1, n as int));
            lemma_map_of_index(bs, j as int);
            lemma_map_of_mem(bs.take(j as int), pair.0@);
            assert(forall|m: int|
                0 <= m < j ==> (#[trigger] bs.take(j as int)[m]) == bs[m]);
            assert(!map_of(bs.take(j as int)).contains_key(pair.0@));
            assert(bs.take(j as int + 1).drop_last() =~= bs.take(j as int));
            assert(map_of(bs.take(j as int + 1)) == map_of(bs.take(j as int)).insert(
                pair.0@,
                pair.1@,
            ));
        }
        let ghost pm = map_of(bs.take(j as int));
        let ghost pm2 = map_of(bs.take(j as int + 1));
        let e = pair.1;
        proof {
            assert(bg.contains_key(pair.0@) && bg[pair.0@] == e@);
            assert(entry_wf(e@));
        }
        match res.find(pair.0.as_slice()) {
            Some(i) => {
                proof {
                    assert(res@[pair.0@] == ag[pair.0@]);
                    assert(ag.contains_key(pair.0@)) by {
                        if !ag.contains_key(pair.0@) {
                            assert(res@.contains_key(pair.0@));
                        }
                    }
                }
                let ghost s = res.items@;
                let mut cur = res.items.remove(i);
                let c = cur.1;
                proof {
                    assert(c@ == ag[pair.0@] && entry_wf(c@));
                }
                if c.count > u64::MAX - e.count {
                    proof {
                        assert(ag[pair.0@].count + bg[pair.0@].count > u64::MAX);
                        assert(!merge_fits(ag, bg));
                    }
                    return None;
                }
                proof {
                    assert(c.sum <= VAL_LIMIT * c.count && -(VAL_LIMIT * c.count) <= c.sum);
                    assert(e.sum <= VAL_LIMIT * e.count && -(VAL_LIMIT * e.count) <= e.sum);
                    assert((VAL_LIMIT * c.count) + (VAL_LIMIT * e.count) == VAL_LIMIT * ((c.count
                        + e.count) as int)) by (nonlinear_arith);
                    assert(VAL_LIMIT * ((c.count + e.count) as int) <= VAL_LIMIT * (
                    u64::MAX as int)) by (nonlinear_arith)
                        requires
                            c.count + e.count <= u64::MAX as int,
                    ;
                }
                let combined = AggregateEntry {
                    min: if e.min < c.min {
                        e.min
                    } else {
                        c.min
                    },
                    max: if e.max > c.max {
                        e.max
                    } else {
                        c.max
                    },
                    sum: c.sum + e.sum,
                    count: c.count + e.count,
                };
                cur.1 = combined;
                let ghost pv = cur;
                res.items.insert(i, cur);
                proof {
                    assert(res.items@ =~= s.update(i as int, pv));
                    lemma_map_of_update(s, i as int, pv);
                    assert(combined@ == combine_entries(ag[pair.0@], e@));
                    assert(res@ =~= spec_merge(ag, pm2));
                    assert(merge_fits(ag, pm2)) by {
                        assert forall|k: Seq<u8>|
                            ag.contains_key(k) && pm2.contains_key(k) implies (
                        #[trigger] ag[k]).count + (#[trigger] pm2[k]).count <= u64::MAX by {
                            if k != pair.0@ {
                                assert(pm2[k] == pm[k]);
                            }
                        }
                    }
                    assert forall|k: Seq<u8>| res@.contains_key(k) implies entry_wf(
                        #[trigger] res@[k],
                    ) by {
                        if k != pair.0@ {
                            assert(res@[k] == spec_merge(ag, pm)[k]);
                        }
                    }
                }
            },
            None => {
                proof {
                    assert(!ag.contains_key(pair.0@));
                    lemma_map_of_mem(res.items@, pair.0@);
                }
                let ghost s = res.items@;
                let ghost pv = pair;
                res.items.push(pair);
                proof {
                    assert(res.items@.drop_last() =~= s);
                    assert(res.items@.last() == pv);
                    assert(forall|m: int|
                        0 <= m < s.len() ==> #[trigger] res.items@[m] == s[m]);
                    assert(forall|m: int| 0 <= m < s.len() ==> (#[trigger] s[m].0@) != pv.0@);
                    assert(keys_unique(res.items@));
                    assert(res@ == spec_merge(ag, pm).insert(pv.0@, e@));
                    assert(res@ =~= spec_merge(ag, pm2));
                    assert(merge_fits(ag, pm2)) by {
                        assert forall|k: Seq<u8>|
                            ag.contains_key(k) && pm2.contains_key(k) implies (
                        #[trigger] ag[k]).count + (#[trigger] pm2[k]).count <= u64::MAX by {
                            if k != pv.0@ {
                                assert(pm2[k] == pm[k]);
                            }
                        }
                    }
                    assert forall|k: Seq<u8>| res@.contains_key(k) implies entry_wf(
                        #[trigger] res@[k],
                    ) by {
                        if k != pv.0@ {
                            assert(res@[k] == spec_merge(ag, pm)[k]);
                        }
                    }
                }
            },
        }
        j += 1;
    }
    proof {
        assert(bs.take(n as int) =~= bs);
    }
    Some(res)
}

/// Merges two tables whose shared counts are known to fit.
pub fn merge_maps(a: AggregationTable, b: AggregationTable) -> (r: AggregationTable)
    requires
        a.wf(),
        b.wf(),
        table_wf(a@),
        table_wf(b@),
        merge_fits(a@, b@),
    ensures
        r.wf(),
        table_wf(r@),
        r@ == spec_merge(a@, b@),
{
    let m = checked_merge(a, b);
    m.unwrap()
}

} // verus!
