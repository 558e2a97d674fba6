//! Splitting a chunk into lines, parsing each `key;value` record, and
//! aggregating the records of a chunk into a fresh table.

use vstd::prelude::*;
use crate::entry::EntryModel;
use crate::parse::first_occ;
use crate::parse::lemma_first_occ;
use crate::parse::lemma_first_occ_is;
use crate::parse::lemma_parse_value_bounds;
use crate::parse::parse_value;
use crate::parse::spec_parse_value;
use crate::table::AggregationTable;
use crate::table::table_insert;
use crate::table::table_wf;

verus! {

/// Whether a byte string is well-formed UTF-8.
pub uninterp spec fn valid_utf8(s: Seq<u8>) -> bool;

/// Relies on core::str::from_utf8, which returns `Ok` exactly when the
/// bytes are valid UTF-8; bytes below 128 (ASCII) are always valid.
#[verifier::external_body]
fn utf8_ok(s: &[u8]) -> (r: bool)
    ensures
        r == valid_utf8(s@),
        (forall|i: int| 0 <= i < s@.len() ==> s@[i] < 128) ==> r,
{
    core::str::from_utf8(s).is_ok()
}

/// One record: the key before the first `;`, the value after it, kept
/// only when the line decodes as text and the value parses.
pub open spec fn parse_line(line: Seq<u8>) -> Option<(Seq<u8>, int)> {
    if !valid_utf8(line) {
        None
    } else {
        let si = first_occ(line, 59);
        if si < 0 {
            None
        } else {
            match spec_parse_value(line.subrange(si + 1, line.len() as int)) {
                Some(v) => Some((line.take(si), v)),
                None => None,
            }
        }
    }
}

/// Folding one line into a table model; malformed lines change nothing.
pub open spec fn add_line(m: Map<Seq<u8>, EntryModel>, line: Seq<u8>) -> Map<Seq<u8>, EntryModel> {
    match parse_line(line) {
        Some((k, v)) => table_insert(m, k, v),
        None => m,
    }
}

/// Folding a sequence of lines into a table model, left to right.
pub open spec fn table_of_from(m: Map<Seq<u8>, EntryModel>, ls: Seq<Seq<u8>>) -> Map<
    Seq<u8>,
    EntryModel,
>
    decreases ls.len(),
{
    if ls.len() == 0 {
        m
    } else {
        table_of_from(add_line(m, ls[0]), ls.subrange(1, ls.len() as int))
    }
}

/// The table a sequence of lines aggregates to, starting from nothing.
pub open spec fn table_of(ls: Seq<Seq<u8>>) -> Map<Seq<u8>, EntryModel> {
    table_of_from(Map::empty(), ls)
}

/// The lines of a byte string: segments between newline bytes, with a
/// final unterminated segment kept only when it is non-empty.
pub open spec fn lines(s: Seq<u8>) -> Seq<Seq<u8>>
    decreases s.len(),
    via lines_decreases
{
    if s.len() == 0 {
        Seq::empty()
    } else {
        let nl = first_occ(s, 10);
        if nl < 0 {
            seq![s]
        } else {
            seq![s.take(nl)] + lines(s.subrange(nl + 1, s.len() as int))
        }
    }
}

#[via_fn]
proof fn lines_decreases(s: Seq<u8>) {
    if s.len() > 0 {
        lemma_first_occ(s, 10);
    }
}

pub proof fn lemma_table_of_from_app(m: Map<Seq<u8>, EntryModel>, a: Seq<Seq<u8>>, b: Seq<
    Seq<u8>,
>)
    ensures
        table_of_from(m, a + b) == table_of_from(table_of_from(m, a), b),
    decreases a.len(),
{
    if a.len() == 0 {
        assert(a + b =~= b);
    } else {
        assert((a + b)[0] == a[0]);
        assert((a + b).subrange(1, (a + b).len() as int) =~= a.subrange(1, a.len() as int) + b);
        lemma_table_of_from_app(add_line(m, a[0]), a.subrange(1, a.len() as int), b);
    }
}

/// Folding one more line at the end.
pub proof fn lemma_table_of_from_snoc(m: Map<Seq<u8>, EntryModel>, ls: Seq<Seq<u8>>, l: Seq<u8>)
    ensures
        table_of_from(m, ls.push(l)) == add_line(table_of_from(m, ls), l),
{
    lemma_table_of_from_app(m, ls, seq![l]);
    assert(ls + seq![l] =~= ls.push(l));
    assert(table_of_from(table_of_from(m, ls), seq![l]) == add_line(table_of_from(m, ls), l)) by {
        let t = table_of_from(m, ls);
        assert(seq![l].subrange(1, 1) =~= Seq::<Seq<u8>>::empty());
        assert(table_of_from(add_line(t, l), seq![l].subrange(1, 1)) == add_line(t, l));
    }
}

/// Counts only grow by one per line, starting from the base table.
pub proof fn lemma_table_of_counts(m: Map<Seq<u8>, EntryModel>, ls: Seq<Seq<u8>>)
    ensures
        forall|k: Seq<u8>| #[trigger] table_of_from(m, ls).contains_key(k) ==> table_of_from(
            m,
            ls,
        )[k].count <= (if m.contains_key(k) {
            m[k].count
        } else {
            0
        }) + ls.len(),
    decreases ls.len(),
{
    if ls.len() > 0 {
        let m2 = add_line(m, ls[0]);
        let rest = ls.subrange(1, ls.len() as int);
        lemma_table_of_counts(m2, rest);
        assert(table_of_from(m, ls) == table_of_from(m2, rest));
        assert forall|k: Seq<u8>| #[trigger] table_of_from(m, ls).contains_key(k) implies
            table_of_from(m, ls)[k].count <= (if m.contains_key(k) {
            m[k].count
        } else {
            0
        }) + ls.len() by {
            assert(table_of_from(m2, rest).contains_key(k));
            match parse_line(ls[0]) {
                Some((kk, v)) => {
                    if k == kk {
                        if m.contains_key(k) {
                            assert(m2[k].count == m[k].count + 1);
                        } else {
                            assert(m2[k].count == 1);
                        }
                    } else {
                        assert(m2.contains_key(k) ==> m2[k] == m[k]);
                        assert(m.contains_key(k) ==> m2.contains_key(k));
                    }
                },
                None => {
                    assert(m2 == m);
                },
            }
        }
    }
}

/// A line-aligned prefix followed by the rest splits the line sequence.
pub proof fn lemma_lines_append(a: Seq<u8>, b: Seq<u8>)
    requires
        a.len() == 0 || a[a.len() - 1] == 10,
    ensures
        lines(a + b) == lines(a) + lines(b),
    decreases a.len(),
{
    if a.len() == 0 {
        assert(a + b =~= b);
        assert(lines(a) + lines(b) =~= lines(b));
    } else {
        lemma_first_occ(a, 10);
        let f = first_occ(a, 10);
        if f < 0 {
            assert(a[a.len() - 1] == 10);
            assert(false);
        }
        assert((a + b)[f] == a[f]);
        assert(forall|j: int| 0 <= j < f ==> (a + b)[j] == a[j]);
        lemma_first_occ_is(a + b, 10, f);
        let a2 = a.subrange(f + 1, a.len() as int);
        assert((a + b).take(f) =~= a.take(f));
        assert((a + b).subrange(f + 1, (a + b).len() as int) =~= a2 + b);
        if a2.len() > 0 {
            assert(a2[a2.len() - 1] == a[a.len() - 1]);
        }
        lemma_lines_append(a2, b);
        assert(lines(a + b) == seq![a.take(f)] + (lines(a2) + lines(b)));
        assert(lines(a) + lines(b) =~= seq![a.take(f)] + (lines(a2) + lines(b)));
    }
}

/// A non-empty string without newlines is a single line.
pub proof fn lemma_lines_single(s: Seq<u8>)
    requires
        s.len() > 0,
        forall|j: int| 0 <= j < s.len() ==> s[j] != 10,
    ensures
        lines(s) == seq![s],
{
    lemma_first_occ(s, 10);
    if first_occ(s, 10) >= 0 {
        assert(s[first_occ(s, 10)] == 10);
        assert(false);
    }
}

/// A newline-terminated string without inner newlines is a single line.
pub proof fn lemma_lines_terminated(s: Seq<u8>)
    requires
        s.len() > 0,
        s[s.len() - 1] == 10,
        forall|j: int| 0 <= j < s.len() - 1 ==> s[j] != 10,
    ensures
        lines(s) == seq![s.take(s.len() - 1)],
{
    lemma_first_occ_is(s, 10, s.len() - 1);
    let rest = s.subrange(s.len() as int, s.len() as int);
    assert(rest =~= Seq::<u8>::empty());
    assert(lines(rest) == Seq::<Seq<u8>>::empty());
    assert(lines(s) == seq![s.take(s.len() - 1)] + lines(rest));
    assert(lines(s) =~= seq![s.take(s.len() - 1)]);
}

/// There are never more lines than bytes.
pub proof fn lemma_lines_len(s: Seq<u8>)
    ensures
        lines(s).len() <= s.len(),
    decreases s.len(),
{
    if s.len() > 0 {
        let nl = first_occ(s, 10);
        lemma_first_occ(s, 10);
        if nl >= 0 {
            lemma_lines_len(s.subrange(nl + 1, s.len() as int));
        }
    }
}

/// Folds one line into a worker's table; lines that do not decode, have
/// no delimiter, or carry an unparsable value are dropped.
pub fn add_entry_to_hash(line: &[u8], stats: &mut AggregationTable)
    requires
        old(stats).wf(),
        table_wf(old(stats)@),
        forall|k: Seq<u8>| old(stats)@.contains_key(k) ==> (#[trigger] old(stats)@[k]).count
            < u64::MAX,
    ensures
        final(stats).wf(),
        table_wf(final(stats)@),
        final(stats)@ == add_line(old(stats)@, line@),
{
    if !utf8_ok(line) {
        return ;
    }
    let n = line.len();
    let mut i: usize = 0;
    while i < n && line[i] != 59
        invariant
            0 <= i <= n,
            n == line@.len(),
            forall|j: int| 0 <= j < i ==> line@[j] != 59,
        decreases n - i,
    {
        i += 1;
    }
    if i == n {
        proof {
            lemma_first_occ(line@, 59);
            if first_occ(line@, 59) >= 0 {
                assert(line@[first_occ(line@, 59)] == 59);
                assert(false);
            }
        }
        return ;
    }
    proof {
        lemma_first_occ_is(line@, 59, i as int);
    }
    let vtext = vstd::slice::slice_subrange(line, i + 1, n);
    match parse_value(vtext) {
        None => {
            return ;
        },
        Some(v) => {
            proof {
                lemma_parse_value_bounds(vtext@);
            }
            let key = vstd::slice::slice_subrange(line, 0, i);
            stats.add_record(key, v);
            proof {
                assert(key@ == line@.take(i as int));
                assert(stats@ == table_insert(old(stats)@, line@.take(i as int), v as int));
            }
        },
    }
}

/// Aggregates one chunk into a fresh table: lines are delimited by
/// newline bytes, and a trailing unterminated segment is a whole line.
pub fn process_chunk(buffer: Vec<u8>) -> (r: AggregationTable)
    ensures
        r.wf(),
        table_wf(r@),
        r@ == table_of(lines(buffer@)),
{
    let ghost bs = buffer@;
    let mut stats = AggregationTable::new();
    let n = buffer.len();
    let mut start: usize = 0;
    let mut i: usize = 0;
    proof {
        assert(bs.take(0) =~= Seq::<u8>::empty());
        assert(lines(bs.take(0)) =~= Seq::<Seq<u8>>::empty());
    }
    while i < n
        invariant
            0 <= start <= i <= n,
            n == bs.len(),
            buffer@ == bs,
            start == 0 || bs[start - 1] == 10,
            forall|j: int| start <= j < i ==> bs[j] != 10,
            stats.wf(),
            table_wf(stats@),
            stats@ == table_of(lines(bs.take(start as int))),
        decreases n - i,
    {
        if buffer[i] == 10 {
            let line = vstd::slice::slice_subrange(buffer.as_slice(), start, i);
            proof {
                let pre = bs.take(start as int);
                let seg = bs.subrange(start as int, i as int + 1);
                assert(bs.take(i as int + 1) =~= pre + seg);
                lemma_lines_append(pre, seg);
                assert(seg[seg.len() - 1] == 10);
                assert(forall|j: int| 0 <= j < seg.len() - 1 ==> seg[j] == bs[start + j]);
                lemma_lines_terminated(seg);
                assert(seg.take(seg.len() - 1) =~= line@);
                assert(lines(bs.take(i as int + 1)) =~= lines(pre).push(line@));
                lemma_table_of_from_snoc(Map::empty(), lines(pre), line@);
                lemma_table_of_counts(Map::empty(), lines(pre));
                lemma_lines_len(pre);
                assert(forall|k: Seq<u8>| stats@.contains_key(k) ==> (#[trigger] stats@[k]).count
                    < u64::MAX);
            }
            add_entry_to_hash(line, &mut stats);
            start = i + 1;
        }
        i += 1;
    }
    if start < n {
        let line = vstd::slice::slice_subrange(buffer.as_slice(), start, n);
        proof {
            let pre = bs.take(start as int);
            let seg = bs.subrange(start as int, n as int);
            assert(bs =~= pre + seg);
            lemma_lines_append(pre, seg);
            assert(forall|j: int| 0 <= j < seg.len() ==> seg[j] == bs[start + j]);
            lemma_lines_single(seg);
            assert(seg =~= line@);
            assert(lines(bs) =~= lines(pre).push(line@));
            lemma_table_of_from_snoc(Map::empty(), lines(pre), line@);
            lemma_table_of_counts(Map::empty(), lines(pre));
            lemma_lines_len(pre);
            assert(forall|k: Seq<u8>| stats@.contains_key(k) ==> (#[trigger] stats@[k]).count
                < u64::MAX);
        }
        add_entry_to_hash(line, &mut stats);
    } else {
        proof {
            assert(bs.take(start as int) =~= bs);
        }
    }
    stats
}

} // verus!
