//! The algebraic laws of the pipeline: the merge is associative and
//! commutative, merging independently aggregated tables equals
//! aggregating all their lines at once, and distributing line-aligned
//! chunks over any number of workers leaves the final table unchanged.

use vstd::prelude::*;
use crate::entry::EntryModel;
use crate::process::add_line;
use crate::process::lines;
use crate::process::lemma_lines_append;
use crate::process::lemma_table_of_from_app;
use crate::process::lemma_table_of_from_snoc;
use crate::process::parse_line;
use crate::process::table_of;
use crate::process::table_of_from;
use crate::splitter::concat;
use crate::splitter::emitted;
use crate::splitter::lemma_chunks_end_newline;
use crate::splitter::lemma_round_trip;
use crate::splitter::splitter_run;
use crate::table::spec_merge;
use crate::table::table_insert;

verus! {

/// The merge is commutative.
pub proof fn lemma_merge_commutative(a: Map<Seq<u8>, EntryModel>, b: Map<Seq<u8>, EntryModel>)
    ensures
        spec_merge(a, b) == spec_merge(b, a),
{
    assert(spec_merge(a, b) =~= spec_merge(b, a));
}

/// The merge is associative.
pub proof fn lemma_merge_associative(
    a: Map<Seq<u8>, EntryModel>,
    b: Map<Seq<u8>, EntryModel>,
    c: Map<Seq<u8>, EntryModel>,
)
    ensures
        spec_merge(a, spec_merge(b, c)) == spec_merge(spec_merge(a, b), c),
{
    assert(spec_merge(a, spec_merge(b, c)) =~= spec_merge(spec_merge(a, b), c));
}

/// The empty table is the merge's neutral element.
pub proof fn lemma_merge_empty(a: Map<Seq<u8>, EntryModel>)
    ensures
        spec_merge(Map::<Seq<u8>, EntryModel>::empty(), a) == a,
        spec_merge(a, Map::<Seq<u8>, EntryModel>::empty()) == a,
{
    assert(spec_merge(Map::<Seq<u8>, EntryModel>::empty(), a) =~= a);
    assert(spec_merge(a, Map::<Seq<u8>, EntryModel>::empty()) =~= a);
}

/// A line folded into the right operand may instead be folded into the
/// merged table.
pub proof fn lemma_merge_add_line(
    a: Map<Seq<u8>, EntryModel>,
    b: Map<Seq<u8>, EntryModel>,
    l: Seq<u8>,
)
    ensures
        spec_merge(a, add_line(b, l)) == add_line(spec_merge(a, b), l),
{
    match parse_line(l) {
        None => {},
        Some((k, v)) => {
            assert(spec_merge(a, table_insert(b, k, v)) =~= table_insert(spec_merge(a, b), k, v));
        },
    }
}

/// Merging a table with the aggregate of some lines equals folding those
/// lines into the table.
pub proof fn lemma_merge_from(t: Map<Seq<u8>, EntryModel>, ls: Seq<Seq<u8>>)
    ensures
        spec_merge(t, table_of(ls)) == table_of_from(t, ls),
    decreases ls.len(),
{
    if ls.len() == 0 {
        lemma_merge_empty(t);
    } else {
        let init = ls.drop_last();
        let l = ls.last();
        assert(ls =~= init.push(l));
        lemma_table_of_from_snoc(Map::empty(), init, l);
        lemma_table_of_from_snoc(t, init, l);
        lemma_merge_add_line(t, table_of(init), l);
        lemma_merge_from(t, init);
    }
}

/// Aggregating two line sequences separately and merging equals
/// aggregating their concatenation.
pub proof fn lemma_merge_tables(ls1: Seq<Seq<u8>>, ls2: Seq<Seq<u8>>)
    ensures
        spec_merge(table_of(ls1), table_of(ls2)) == table_of(ls1 + ls2),
{
    lemma_table_of_from_app(Map::empty(), ls1, ls2);
    lemma_merge_from(table_of(ls1), ls2);
}

/// The lines of every chunk, in chunk order.
pub open spec fn all_lines(chunks: Seq<Seq<u8>>) -> Seq<Seq<u8>>
    decreases chunks.len(),
{
    if chunks.len() == 0 {
        Seq::empty()
    } else {
        all_lines(chunks.drop_last()) + lines(chunks.last())
    }
}

/// The lines of the chunks a worker receives, in receive order.
pub open spec fn worker_lines(chunks: Seq<Seq<u8>>, owner: Seq<int>, w: int) -> Seq<Seq<u8>>
    decreases chunks.len(),
{
    if chunks.len() == 0 {
        Seq::empty()
    } else {
        let pre = worker_lines(chunks.drop_last(), owner.drop_last(), w);
        if owner.last() == w {
            pre + lines(chunks.last())
        } else {
            pre
        }
    }
}

/// The merge, worker by worker, of the tables the first `n` workers
/// aggregate from their own chunks.
pub open spec fn merged_workers(chunks: Seq<Seq<u8>>, owner: Seq<int>, n: int) -> Map<
    Seq<u8>,
    EntryModel,
>
    decreases n,
{
    if n <= 0 {
        Map::empty()
    } else {
        spec_merge(
            merged_workers(chunks, owner, n - 1),
            table_of(worker_lines(chunks, owner, n - 1)),
        )
    }
}

proof fn lemma_merged_no_chunks(owner: Seq<int>, n: int)
    requires
        owner.len() == 0,
    ensures
        merged_workers(Seq::empty(), owner, n) == Map::<Seq<u8>, EntryModel>::empty(),
    decreases n,
{
    if n > 0 {
        lemma_merged_no_chunks(owner, n - 1);
        lemma_merge_empty(Map::<Seq<u8>, EntryModel>::empty());
        assert(table_of(worker_lines(Seq::empty(), owner, n - 1)) =~= table_of(Seq::empty()));
        assert(table_of(Seq::<Seq<u8>>::empty()) == Map::<Seq<u8>, EntryModel>::empty());
    }
}

/// Removing the last chunk pulls its table out of the workers' merge.
proof fn lemma_merged_snoc(chunks: Seq<Seq<u8>>, owner: Seq<int>, m: int)
    requires
        owner.len() == chunks.len(),
        chunks.len() > 0,
        m >= 0,
        owner.last() >= 0,
    ensures
        merged_workers(chunks, owner, m) == if owner.last() < m {
            spec_merge(
                merged_workers(chunks.drop_last(), owner.drop_last(), m),
                table_of(lines(chunks.last())),
            )
        } else {
            merged_workers(chunks.drop_last(), owner.drop_last(), m)
        },
    decreases m,
{
    let w0 = owner.last();
    let x = table_of(lines(chunks.last()));
    if m == 0 {
    } else {
        lemma_merged_snoc(chunks, owner, m - 1);
        let fp = merged_workers(chunks.drop_last(), owner.drop_last(), m - 1);
        let tm = table_of(worker_lines(chunks, owner, m - 1));
        let tmp = table_of(worker_lines(chunks.drop_last(), owner.drop_last(), m - 1));
        if w0 == m - 1 {
            lemma_merge_tables(
                worker_lines(chunks.drop_last(), owner.drop_last(), m - 1),
                lines(chunks.last()),
            );
            assert(worker_lines(chunks, owner, m - 1) == worker_lines(
                chunks.drop_last(),
                owner.drop_last(),
                m - 1,
            ) + lines(chunks.last()));
            assert(tm == spec_merge(tmp, x));
            assert(merged_workers(chunks, owner, m - 1) == fp);
            lemma_merge_associative(fp, tmp, x);
            assert(merged_workers(chunks, owner, m) == spec_merge(fp, tm));
            assert(spec_merge(fp, tm) == spec_merge(spec_merge(fp, tmp), x));
            assert(merged_workers(chunks.drop_last(), owner.drop_last(), m) == spec_merge(
                fp,
                tmp,
            ));
        } else {
            assert(worker_lines(chunks, owner, m - 1) == worker_lines(
                chunks.drop_last(),
                owner.drop_last(),
                m - 1,
            ));
            if w0 < m - 1 {
                let f = merged_workers(chunks.drop_last(), owner.drop_last(), m - 1);
                assert(merged_workers(chunks, owner, m - 1) == spec_merge(f, x));
                lemma_merge_associative(f, x, tmp);
                lemma_merge_commutative(x, tmp);
                lemma_merge_associative(f, tmp, x);
            }
        }
    }
}

/// However line-aligned chunks are distributed over however many
/// workers, merging the workers' tables aggregates exactly the lines of
/// all chunks: worker count and chunk ownership do not matter.
pub proof fn lemma_parallel_invariance(chunks: Seq<Seq<u8>>, owner: Seq<int>, n: int)
    requires
        owner.len() == chunks.len(),
        n >= 1,
        forall|i: int| 0 <= i < owner.len() ==> 0 <= #[trigger] owner[i] < n,
    ensures
        merged_workers(chunks, owner, n) == table_of(all_lines(chunks)),
    decreases chunks.len(),
{
    if chunks.len() == 0 {
        assert(chunks =~= Seq::<Seq<u8>>::empty());
        lemma_merged_no_chunks(owner, n);
        assert(table_of(all_lines(chunks)) == Map::<Seq<u8>, EntryModel>::empty());
    } else {
        assert(owner.last() == owner[owner.len() - 1]);
        assert(0 <= owner.last() < n);
        lemma_merged_snoc(chunks, owner, n);
        assert(merged_workers(chunks, owner, n) == spec_merge(
            merged_workers(chunks.drop_last(), owner.drop_last(), n),
            table_of(lines(chunks.last())),
        ));
        assert(forall|i: int|
            0 <= i < owner.len() - 1 ==> #[trigger] owner.drop_last()[i] == owner[i]);
        lemma_parallel_invariance(chunks.drop_last(), owner.drop_last(), n);
        lemma_merge_tables(all_lines(chunks.drop_last()), lines(chunks.last()));
        assert(merged_workers(chunks, owner, n) == table_of(
            all_lines(chunks.drop_last()) + lines(chunks.last()),
        ));
        assert(all_lines(chunks) == all_lines(chunks.drop_last()) + lines(chunks.last()));
    }
}

/// The concatenation of non-empty, newline-terminated strings is empty
/// or newline-terminated.
proof fn lemma_concat_terminated(ss: Seq<Seq<u8>>)
    requires
        forall|i: int| 0 <= i < ss.len() ==> (#[trigger] ss[i]).len() > 0 && ss[i][ss[i].len()
            - 1] == 10,
    ensures
        concat(ss).len() == 0 || concat(ss)[concat(ss).len() - 1] == 10,
    decreases ss.len(),
{
    if ss.len() > 0 {
        assert(ss.last().len() > 0);
        assert(concat(ss)[concat(ss).len() - 1] == ss.last()[ss.last().len() - 1]);
    }
}

/// For chunks that are line-aligned — every chunk except possibly the
/// last ends with a newline — the lines of the chunks are the lines of
/// the reassembled stream.
pub proof fn lemma_concat_lines(chunks: Seq<Seq<u8>>)
    requires
        forall|i: int| 0 <= i < chunks.len() - 1 ==> (#[trigger] chunks[i]).len() > 0
            && chunks[i][chunks[i].len() - 1] == 10,
    ensures
        all_lines(chunks) == lines(concat(chunks)),
    decreases chunks.len(),
{
    if chunks.len() == 0 {
        assert(lines(concat(chunks)) =~= Seq::<Seq<u8>>::empty());
    } else {
        let init = chunks.drop_last();
        assert(forall|i: int|
            0 <= i < init.len() ==> #[trigger] init[i] == chunks[i]);
        lemma_concat_lines(init);
        lemma_concat_terminated(init);
        lemma_lines_append(concat(init), chunks.last());
    }
}

/// End to end: cut any block stream into chunks, hand each chunk to any
/// of `n` workers, aggregate per worker and merge — the result is
/// exactly the table of the lines of the whole byte stream, whatever
/// the block size, the worker count, and the distribution of chunks.
pub proof fn lemma_pipeline_invariance(blocks: Seq<Seq<u8>>, owner: Seq<int>, n: int)
    requires
        owner.len() == emitted(blocks).len(),
        n >= 1,
        forall|i: int| 0 <= i < owner.len() ==> 0 <= #[trigger] owner[i] < n,
    ensures
        merged_workers(emitted(blocks), owner, n) == table_of(lines(concat(blocks))),
{
    let chunks = emitted(blocks);
    let r = splitter_run(blocks);
    lemma_chunks_end_newline(blocks);
    lemma_round_trip(blocks);
    assert forall|i: int|
        0 <= i < chunks.len() - 1 implies (#[trigger] chunks[i]).len() > 0
        && chunks[i][chunks[i].len() - 1] == 10 by {
        if r.1.len() > 0 {
            assert(chunks[i] == r.0[i]);
        }
    }
    lemma_concat_lines(chunks);
    lemma_parallel_invariance(chunks, owner, n);
}

} // verus!
