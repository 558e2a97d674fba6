//! The chunk splitter: blocks of bytes go in, line-aligned chunks come
//! out. Bytes after the last newline of a block are carried over until a
//! later block completes their line, or until the stream ends.

use vstd::prelude::*;

verus! {

/// Index of the last newline byte of `s`, or `-1` if there is none.
pub open spec fn last_nl(s: Seq<u8>) -> int
    decreases s.len(),
{
    if s.len() == 0 {
        -1
    } else if s[s.len() - 1] == 10 {
        s.len() - 1
    } else {
        last_nl(s.drop_last())
    }
}

pub proof fn lemma_last_nl(s: Seq<u8>)
    ensures
        last_nl(s) >= 0 ==> 0 <= last_nl(s) < s.len() && s[last_nl(s)] == 10 && (forall|j: int|
            last_nl(s) < j < s.len() ==> s[j] != 10),
        last_nl(s) < 0 ==> (forall|j: int| 0 <= j < s.len() ==> s[j] != 10),
    decreases s.len(),
{
    if s.len() > 0 && s[s.len() - 1] != 10 {
        lemma_last_nl(s.drop_last());
        assert(forall|j: int| 0 <= j < s.len() - 1 ==> s.drop_last()[j] == s[j]);
    }
}

pub proof fn lemma_last_nl_is(s: Seq<u8>, i: int)
    requires
        0 <= i < s.len(),
        s[i] == 10,
        forall|j: int| i < j < s.len() ==> s[j] != 10,
    ensures
        last_nl(s) == i,
    decreases s.len(),
{
    if s[s.len() - 1] == 10 {
        assert(i == s.len() - 1);
    } else {
        assert(forall|j: int| 0 <= j < s.len() - 1 ==> s.drop_last()[j] == s[j]);
        lemma_last_nl_is(s.drop_last(), i);
    }
}

/// One splitter step: what a block does to the carried-over bytes, and
/// the chunk it emits, if any.
pub open spec fn split_block(leftover: Seq<u8>, block: Seq<u8>) -> (Option<Seq<u8>>, Seq<u8>) {
    let i = last_nl(block);
    if i < 0 {
        (None, leftover + block)
    } else {
        (Some(leftover + block.take(i + 1)), block.subrange(i + 1, block.len() as int))
    }
}

/// The chunks emitted and the bytes still carried after a sequence of
/// blocks has been pushed through the splitter.
pub open spec fn splitter_run(blocks: Seq<Seq<u8>>) -> (Seq<Seq<u8>>, Seq<u8>)
    decreases blocks.len(),
{
    if blocks.len() == 0 {
        (Seq::empty(), Seq::empty())
    } else {
        let prev = splitter_run(blocks.drop_last());
        let st = split_block(prev.1, blocks.last());
        match st.0 {
            Some(c) => (prev.0.push(c), st.1),
            None => (prev.0, st.1),
        }
    }
}

/// All chunks of a run, the final carried-over bytes included when they
/// are non-empty.
pub open spec fn emitted(blocks: Seq<Seq<u8>>) -> Seq<Seq<u8>> {
    let r = splitter_run(blocks);
    if r.1.len() == 0 {
        r.0
    } else {
        r.0.push(r.1)
    }
}

/// Concatenation of a sequence of byte strings.
pub open spec fn concat(ss: Seq<Seq<u8>>) -> Seq<u8>
    decreases ss.len(),
{
    if ss.len() == 0 {
        Seq::empty()
    } else {
        concat(ss.drop_last()) + ss.last()
    }
}

/// Streams a byte source into line-aligned chunks: blocks are pushed in,
/// whole chunks come back out, and a final `finish` yields what remains.
pub struct Splitter {
    pub leftover: Vec<u8>,
}

impl View for Splitter {
    type V = Seq<u8>;

    open spec fn view(&self) -> Seq<u8> {
        self.leftover@
    }
}

/// Appends `src[from..to]` to `dst`.
fn push_range(dst: &mut Vec<u8>, src: &[u8], from: usize, to: usize)
    requires
        from <= to <= src@.len(),
    ensures
        final(dst)@ == old(dst)@ + src@.subrange(from as int, to as int),
{
    let ghost d0 = dst@;
    let mut i: usize = from;
    proof {
        assert(dst@ =~= d0 + src@.subrange(from as int, from as int));
    }
    while i < to
        invariant
            from <= i <= to <= src@.len(),
            dst@ == d0 + src@.subrange(from as int, i as int),
        decreases to - i,
    {
        dst.push(src[i]);
        proof {
            assert(d0 + src@.subrange(from as int, i as int + 1) =~= (d0 + src@.subrange(
                from as int,
                i as int,
            )).push(src@[i as int]));
        }
        i += 1;
    }
}

impl Splitter {
    /// A splitter with nothing carried over.
    pub fn new() -> (r: Splitter)
        ensures
            r@ == Seq::<u8>::empty(),
    {
        Splitter { leftover: Vec::new() }
    }

    /// Pushes one block through; mirrors `split_block` on the carried
    /// bytes. An emitted chunk always ends with a newline byte.
    pub fn push_block(&mut self, block: &[u8]) -> (r: Option<Vec<u8>>)
        ensures
            final(self)@ == split_block(old(self)@, block@).1,
            (r is Some) == (split_block(old(self)@, block@).0 is Some),
            r matches Some(c) ==> split_block(old(self)@, block@).0 == Some(c@) && c@.len() > 0
                && c@[c@.len() - 1] == 10,
    {
        let n = block.len();
        let mut j: usize = n;
        let mut found = false;
        while j > 0 && !found
            invariant
                0 <= j <= n,
                n == block@.len(),
                !found ==> forall|m: int| j <= m < n ==> block@[m] != 10,
                found ==> j < n && block@[j as int] == 10 && (forall|m: int|
                    j < m < n ==> block@[m] != 10),
            decreases j + (if found {
                0int
            } else {
                1int
            }),
        {
            if block[j - 1] == 10 {
                found = true;
                j -= 1;
            } else {
                j -= 1;
            }
        }
        if found {
            proof {
                lemma_last_nl_is(block@, j as int);
            }
            let mut chunk: Vec<u8> = Vec::new();
            chunk.append(&mut self.leftover);
            push_range(&mut chunk, block, 0, j + 1);
            push_range(&mut self.leftover, block, j + 1, n);
            proof {
                assert(chunk@ == old(self)@ + block@.subrange(0, j as int + 1));
                assert(block@.take(j as int + 1) =~= block@.subrange(0, j as int + 1));
                assert(self@ =~= Seq::<u8>::empty() + block@.subrange(j as int + 1, n as int));
                assert(self@ =~= block@.subrange(j as int + 1, n as int));
                assert(chunk@[chunk@.len() - 1] == block@[j as int]);
            }
            Some(chunk)
        } else {
            proof {
                lemma_last_nl(block@);
                if last_nl(block@) >= 0 {
                    assert(block@[last_nl(block@)] == 10);
                    assert(false);
                }
            }
            push_range(&mut self.leftover, block, 0, n);
            proof {
                assert(block@.subrange(0, n as int) =~= block@);
                assert(self@ =~= old(self)@ + block@);
            }
            None
        }
    }

    /// Ends the stream: the carried-over bytes become the final chunk,
    /// or nothing when none are held.
    pub fn finish(self) -> (r: Option<Vec<u8>>)
        ensures
            (r is Some) == (self@.len() > 0),
            r matches Some(c) ==> c@ == self@,
    {
        if self.leftover.len() == 0 {
            None
        } else {
            Some(self.leftover)
        }
    }
}

/// Putting every chunk back together, carried bytes last, restores the
/// very bytes that went in.
pub proof fn lemma_round_trip(blocks: Seq<Seq<u8>>)
    ensures
        concat(splitter_run(blocks).0) + splitter_run(blocks).1 == concat(blocks),
        concat(emitted(blocks)) == concat(blocks),
    decreases blocks.len(),
{
    if blocks.len() == 0 {
        assert(concat(splitter_run(blocks).0) + splitter_run(blocks).1 =~= concat(blocks));
    } else {
        lemma_round_trip(blocks.drop_last());
        let prev = splitter_run(blocks.drop_last());
        let b = blocks.last();
        let st = split_block(prev.1, b);
        lemma_last_nl(b);
        let i = last_nl(b);
        if i < 0 {
            assert(concat(splitter_run(blocks).0) + splitter_run(blocks).1 =~= (concat(prev.0)
                + prev.1) + b);
            assert(concat(blocks) == concat(blocks.drop_last()) + b);
        } else {
            let c = prev.1 + b.take(i + 1);
            assert(splitter_run(blocks).0 == prev.0.push(c));
            assert(concat(prev.0.push(c)) == concat(prev.0.push(c).drop_last()) + c);
            assert(prev.0.push(c).drop_last() =~= prev.0);
            assert(concat(splitter_run(blocks).0) + splitter_run(blocks).1 =~= (concat(prev.0)
                + prev.1) + b) by {
                assert(b.take(i + 1) + b.subrange(i + 1, b.len() as int) =~= b);
            }
            assert(concat(blocks) == concat(blocks.drop_last()) + b);
        }
    }
    let r = splitter_run(blocks);
    if r.1.len() == 0 {
        assert(concat(r.0) + r.1 =~= concat(r.0));
    } else {
        assert(concat(r.0.push(r.1)) == concat(r.0.push(r.1).drop_last()) + r.1);
        assert(r.0.push(r.1).drop_last() =~= r.0);
    }
}

/// Every chunk a run emits before the stream ends is newline-terminated.
pub proof fn lemma_chunks_end_newline(blocks: Seq<Seq<u8>>)
    ensures
        forall|i: int|
            0 <= i < splitter_run(blocks).0.len() ==> (#[trigger] splitter_run(
                blocks,
            ).0[i]).len() > 0 && splitter_run(blocks).0[i][splitter_run(blocks).0[i].len() - 1]
                == 10,
    decreases blocks.len(),
{
    if blocks.len() > 0 {
        lemma_chunks_end_newline(blocks.drop_last());
        let prev = splitter_run(blocks.drop_last());
        let b = blocks.last();
        lemma_last_nl(b);
        let i = last_nl(b);
        if i >= 0 {
            let c = prev.1 + b.take(i + 1);
            assert(c[c.len() - 1] == b[i]);
            assert(forall|m: int|
                0 <= m < prev.0.len() ==> #[trigger] splitter_run(blocks).0[m] == prev.0[m]);
        }
    }
}

} // verus!
