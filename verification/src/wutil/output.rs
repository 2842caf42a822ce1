//! Writing text out: how the bytes are grouped into writes, and what follows each write.

use vstd::prelude::*;
use vstd::slice::{slice_subrange, slice_to_vec};

verus! {

/// The number of bytes that are gathered before they are written.
pub const CAPACITY: usize = 512;

/// The contents of a list of byte strings.
pub open spec fn byte_strings(v: Seq<Vec<u8>>) -> Seq<Seq<u8>> {
    Seq::new(v.len(), |i: int| v[i]@)
}

/// Byte strings one after the other.
pub open spec fn concat(parts: Seq<Seq<u8>>) -> Seq<u8>
    decreases parts.len(),
{
    if parts.len() == 0 {
        Seq::empty()
    } else {
        concat(parts.drop_last()) + parts.last()
    }
}

/// What is written when gathered bytes are flushed: nothing, if there are none.
pub open spec fn flushed(done: Seq<Seq<u8>>, gathered: Seq<u8>) -> Seq<Seq<u8>> {
    if gathered.len() == 0 {
        done
    } else {
        done.push(gathered)
    }
}

/// The writes that are due and the bytes that are gathered after some chunks of output: a
/// chunk that does not fit has the gathered bytes written first, and one that is too large to
/// be gathered at all is written at once.
pub open spec fn gathered_after(chunks: Seq<Seq<u8>>) -> (Seq<Seq<u8>>, Seq<u8>)
    decreases chunks.len(),
{
    if chunks.len() == 0 {
        (Seq::empty(), Seq::empty())
    } else {
        let (done, gathered) = gathered_after(chunks.drop_last());
        let chunk = chunks.last();
        if gathered.len() + chunk.len() <= CAPACITY {
            (done, gathered + chunk)
        } else if chunk.len() <= CAPACITY {
            (flushed(done, gathered), chunk)
        } else {
            (flushed(done, gathered).push(chunk), Seq::empty())
        }
    }
}

/// The writes that put chunks of output out.
pub open spec fn blocks_of(chunks: Seq<Seq<u8>>) -> Seq<Seq<u8>> {
    let (done, gathered) = gathered_after(chunks);
    flushed(done, gathered)
}

/// What came of a write.
#[derive(Clone, Copy, Debug, PartialEq, Eq, Structural)]
pub enum WriteResult {
    /// So many bytes were written.
    Wrote(usize),
    /// A signal came; `cancelled` tells whether it asks for the end.
    Interrupted { cancelled: bool },
    /// Nobody reads any more.
    BrokenPipe,
    /// Any other error.
    Failed,
}

/// What to do after a write.
#[derive(Clone, Copy, Debug, PartialEq, Eq, Structural)]
pub enum Progress {
    /// Write what is pending.
    More,
    /// All is written.
    Done,
    /// Give up without a word.
    Aborted,
    /// Report the error and give up.
    Report,
}

/// Output on its way to a file descriptor.
pub struct Output {
    /// The bytes of each write.
    pub blocks: Vec<Vec<u8>>,
    /// The write that is under way.
    pub index: usize,
    /// How many of its bytes are out.
    pub at: usize,
    /// How many bytes are out in all.
    pub total: usize,
    /// Whether writing was given up.
    pub failed: bool,
}

impl Output {
    /// All that is to be written.
    pub open spec fn data(&self) -> Seq<u8> {
        concat(byte_strings(self.blocks@))
    }

    /// The counts agree, and a write that is under way has bytes left.
    pub open spec fn well_formed(&self) -> bool {
        &&& self.index <= self.blocks@.len()
        &&& self.index < self.blocks@.len() ==> self.at < self.blocks@[self.index as int]@.len()
        &&& self.index == self.blocks@.len() ==> self.at == 0
        &&& forall|i: int| 0 <= i < self.blocks@.len() ==> (#[trigger] self.blocks@[i])@.len() > 0
        &&& self.total == concat(byte_strings(self.blocks@).take(self.index as int)).len() + self.at
        &&& self.data().len() <= usize::MAX
    }

    /// What the next write is given.
    pub open spec fn next_write(&self) -> Seq<u8> {
        if self.failed || self.index >= self.blocks@.len() {
            Seq::empty()
        } else {
            self.blocks@[self.index as int]@.skip(self.at as int)
        }
    }

    /// What the next write is given; nothing, once all is written or writing was given up.
    pub fn pending(&self) -> (r: &[u8])
        requires
            self.well_formed(),
        ensures
            r@ == self.next_write(),
            r@.len() == 0 <==> self.failed || self.total == self.data().len(),
            r@.len() > 0 ==> r@ == self.data().subrange(self.total as int, self.total + r@.len()),
    {
        proof {
            lemma_next_write(*self);
        }
        if self.failed || self.index >= self.blocks.len() {
            let none: &'static [u8] = &[];
            assert(none@ =~= Seq::<u8>::empty());
            return none;
        }
        let block = self.blocks[self.index].as_slice();
        assert(block@.subrange(self.at as int, block@.len() as int) =~= block@.skip(self.at as int));
        slice_subrange(block, self.at, block.len())
    }

    /// Takes note of the result of writing what is pending. A signal that does not ask for the
    /// end has the write repeated; after any other error nothing more is written.
    pub fn accept(&mut self, result: WriteResult) -> (r: Progress)
        requires
            old(self).well_formed(),
            old(self).next_write().len() > 0,
            result matches WriteResult::Wrote(n) ==> n <= old(self).next_write().len(),
        ensures
            accepted(*old(self), result, *final(self)),
            r == (match result {
                WriteResult::Wrote(n) => if final(self).total == final(self).data().len() {
                    Progress::Done
                } else {
                    Progress::More
                },
                WriteResult::Interrupted { cancelled: false } => Progress::More,
                WriteResult::Interrupted { cancelled: true } => Progress::Aborted,
                WriteResult::BrokenPipe => Progress::Aborted,
                WriteResult::Failed => Progress::Report,
            }),
    {
        match result {
            WriteResult::Wrote(n) => {
                let ghost all = byte_strings(self.blocks@);
                proof {
                    lemma_next_write(*self);
                    lemma_concat_step(all, self.index as int);
                    lemma_concat_take(all, self.index as int + 1);
                }
                let count: usize = self.blocks.len();
                let len: usize = self.blocks[self.index].len();
                self.total = self.total + n;
                if n == len - self.at {
                    self.index = self.index + 1;
                    self.at = 0;
                } else {
                    self.at = self.at + n;
                }
                proof {
                    lemma_next_write(*self);
                }
                if self.index == count {
                    Progress::Done
                } else {
                    Progress::More
                }
            },
            WriteResult::Interrupted { cancelled } => {
                if cancelled {
                    self.failed = true;
                    Progress::Aborted
                } else {
                    Progress::More
                }
            },
            WriteResult::BrokenPipe => {
                self.failed = true;
                Progress::Aborted
            },
            WriteResult::Failed => {
                self.failed = true;
                Progress::Report
            },
        }
    }

    /// The number of bytes written, if all of them were.
    pub fn outcome(&self) -> (r: Option<usize>)
        requires
            self.well_formed(),
        ensures
            r == if !self.failed && self.total == self.data().len() {
                Some(self.total)
            } else {
                None
            },
    {
        proof {
            lemma_next_write(*self);
        }
        if !self.failed && self.index == self.blocks.len() {
            Some(self.total)
        } else {
            None
        }
    }
}

/// What the result of a write changes. A signal that does not ask for the end changes nothing;
/// after any other error nothing more is written.
pub open spec fn accepted(before: Output, result: WriteResult, after: Output) -> bool {
    &&& after.well_formed()
    &&& after.blocks@ == before.blocks@
    &&& match result {
        WriteResult::Wrote(n) => after.total == before.total + n && !after.failed,
        WriteResult::Interrupted { cancelled: false } => after == before,
        _ => after.total == before.total && after.failed,
    }
}

/// The bytes that have gone out when the writes in a series of states had some results.
pub open spec fn gone_out(states: Seq<Output>, results: Seq<WriteResult>) -> Seq<u8>
    decreases results.len(),
{
    if results.len() == 0 {
        Seq::empty()
    } else {
        let before = gone_out(states, results.drop_last());
        match results.last() {
            WriteResult::Wrote(n) => before + states[results.len() - 1].next_write().take(n as int),
            _ => before,
        }
    }
}

/// Whether the writes in a series of states can have had some results, one after the other: there
/// is something to write in each state but the last.
pub open spec fn is_run(states: Seq<Output>, results: Seq<WriteResult>) -> bool {
    &&& states.len() == results.len() + 1
    &&& states[0].well_formed()
    &&& forall|i: int|
        0 <= i < results.len() ==> states[i].next_write().len() > 0 && accepted(
            states[i],
            #[trigger] results[i],
            states[i + 1],
        ) && (results[i] matches WriteResult::Wrote(n) ==> n <= states[i].next_write().len())
}

/// Appends bytes.
fn push_bytes(out: &mut Vec<u8>, more: &[u8])
    ensures
        final(out)@ == old(out)@ + more@,
{
    let ghost before = out@;
    let mut i: usize = 0;
    assert(before + more@.take(0) =~= before);
    while i < more.len()
        invariant
            i <= more@.len(),
            out@ == before + more@.take(i as int),
        decreases more@.len() - i,
    {
        out.push(more[i]);
        i += 1;
        assert(out@ =~= before + more@.take(i as int));
    }
    assert(more@.take(i as int) =~= more@);
}

/// Groups chunks of output into writes.
pub fn write_blocks(chunks: &[Vec<u8>]) -> (r: Vec<Vec<u8>>)
    ensures
        byte_strings(r@) == blocks_of(byte_strings(chunks@)),
{
    let ghost all = byte_strings(chunks@);
    let mut done: Vec<Vec<u8>> = Vec::new();
    let mut accum: Vec<u8> = Vec::new();
    let mut i: usize = 0;
    assert(byte_strings(done@) =~= gathered_after(all.take(0)).0);
    assert(accum@ =~= gathered_after(all.take(0)).1);
    while i < chunks.len()
        invariant
            i <= chunks@.len(),
            all == byte_strings(chunks@),
            (byte_strings(done@), accum@) == gathered_after(all.take(i as int)),
            accum@.len() <= CAPACITY,
        decreases chunks@.len() - i,
    {
        let chunk = chunks[i].as_slice();
        let ghost next = all.take(i as int + 1);
        assert(next.drop_last() =~= all.take(i as int));
        assert(next.last() == chunk@);
        let ghost before = byte_strings(done@);
        let ghost kept = accum@;
        if chunk.len() > CAPACITY || accum.len() + chunk.len() > CAPACITY {
            // We have to flush.
            if accum.len() > 0 {
                done.push(accum);
                accum = Vec::new();
                assert(byte_strings(done@) =~= before.push(kept));
            }
            assert(accum@ =~= Seq::<u8>::empty());
        }
        let ghost after_flush = byte_strings(done@);
        if chunk.len() <= CAPACITY && accum.len() + chunk.len() <= CAPACITY {
            // Accumulate more.
            let ghost held = accum@;
            push_bytes(&mut accum, chunk);
            assert(held.len() == 0 ==> held + chunk@ =~= chunk@);
        } else {
            // Too much data to even fit, just write it immediately.
            done.push(slice_to_vec(chunk));
            assert(byte_strings(done@) =~= after_flush.push(chunk@));
        }
        i += 1;
    }
    assert(all.take(i as int) =~= all);
    // Flush any remaining.
    let ghost before = byte_strings(done@);
    let ghost kept = accum@;
    if accum.len() > 0 {
        done.push(accum);
        assert(byte_strings(done@) =~= before.push(kept));
    }
    done
}

/// Prepares text for writing to a file descriptor. The text is given in chunks: the bytes that
/// each character stands for.
pub fn unescape_bytes_and_write_to_fd(chunks: &[Vec<u8>]) -> (r: Output)
    requires
        concat(byte_strings(chunks@)).len() <= usize::MAX,
    ensures
        r.well_formed(),
        byte_strings(r.blocks@) == blocks_of(byte_strings(chunks@)),
        r.data() == concat(byte_strings(chunks@)),
        r.total == 0,
        !r.failed,
{
    let blocks = write_blocks(chunks);
    let ghost all = byte_strings(blocks@);
    proof {
        law_blocks_hold_the_chunks(byte_strings(chunks@));
        law_blocks_are_bounded(byte_strings(chunks@));
        assert(all.take(0) =~= Seq::<Seq<u8>>::empty());
        assert forall|i: int| 0 <= i < blocks@.len() implies (#[trigger] blocks@[i])@.len() > 0 by {
            assert(all[i].len() > 0);
        }
    }
    Output { blocks, index: 0, at: 0, total: 0, failed: false }
}

proof fn lemma_concat_push(parts: Seq<Seq<u8>>, part: Seq<u8>)
    ensures
        concat(parts.push(part)) == concat(parts) + part,
{
    assert(parts.push(part).drop_last() =~= parts);
}

/// Taking one part more appends it.
proof fn lemma_concat_step(parts: Seq<Seq<u8>>, i: int)
    requires
        0 <= i < parts.len(),
    ensures
        concat(parts.take(i + 1)) == concat(parts.take(i)) + parts[i],
{
    assert(parts.take(i + 1).drop_last() =~= parts.take(i));
}

/// The first parts make an initial stretch of the whole.
proof fn lemma_concat_take(parts: Seq<Seq<u8>>, i: int)
    requires
        0 <= i <= parts.len(),
    ensures
        concat(parts.take(i)).len() <= concat(parts).len(),
        concat(parts.take(i)) == concat(parts).take(concat(parts.take(i)).len() as int),
    decreases parts.len() - i,
{
    if i == parts.len() {
        assert(parts.take(i) =~= parts);
        assert(concat(parts).take(concat(parts).len() as int) =~= concat(parts));
    } else {
        lemma_concat_step(parts, i);
        lemma_concat_take(parts, i + 1);
        let short = concat(parts.take(i));
        let long = concat(parts.take(i + 1));
        assert(long.take(short.len() as int) =~= short);
        assert(long.take(short.len() as int) =~= concat(parts).take(short.len() as int));
    }
}

/// Nothing of nothing but non-empty parts is left exactly if no part is left.
proof fn lemma_concat_short(parts: Seq<Seq<u8>>, i: int)
    requires
        0 <= i < parts.len(),
        forall|k: int| 0 <= k < parts.len() ==> (#[trigger] parts[k]).len() > 0,
    ensures
        concat(parts.take(i)).len() + parts[i].len() <= concat(parts).len(),
{
    lemma_concat_step(parts, i);
    lemma_concat_take(parts, i + 1);
}

/// The next write continues what was written.
proof fn lemma_next_write(o: Output)
    requires
        o.well_formed(),
    ensures
        o.total <= o.data().len(),
        o.index == o.blocks@.len() <==> o.total == o.data().len(),
        o.next_write().len() == 0 <==> o.failed || o.total == o.data().len(),
        o.next_write().len() > 0 ==> o.total + o.next_write().len() <= o.data().len()
            && o.next_write() == o.data().subrange(
            o.total as int,
            o.total + o.next_write().len(),
        ),
{
    let all = byte_strings(o.blocks@);
    let i = o.index as int;
    if i == all.len() {
        assert(all.take(i) =~= all);
    } else {
        assert forall|k: int| 0 <= k < all.len() implies (#[trigger] all[k]).len() > 0 by {
            assert(o.blocks@[k]@.len() > 0);
        }
        lemma_concat_short(all, i);
        lemma_concat_step(all, i);
        lemma_concat_take(all, i + 1);
        let before = concat(all.take(i));
        let upto = concat(all.take(i + 1));
        let rest = all[i].skip(o.at as int);
        assert(rest =~= upto.subrange(o.total as int, o.total + rest.len()));
        assert(upto.subrange(o.total as int, o.total + rest.len()) =~= o.data().subrange(
            o.total as int,
            o.total + rest.len(),
        ));
    }
}

/// The writes, one after the other, are the output: no byte is lost, doubled or moved.
pub proof fn law_blocks_hold_the_chunks(chunks: Seq<Seq<u8>>)
    ensures
        concat(blocks_of(chunks)) == concat(chunks),
{
    lemma_gathered(chunks);
    let (done, gathered) = gathered_after(chunks);
    lemma_concat_push(done, gathered);
    assert(concat(blocks_of(chunks)) =~= concat(chunks));
}

proof fn lemma_gathered(chunks: Seq<Seq<u8>>)
    ensures
        concat(gathered_after(chunks).0) + gathered_after(chunks).1 == concat(chunks),
    decreases chunks.len(),
{
    if chunks.len() == 0 {
        assert(concat(gathered_after(chunks).0) + gathered_after(chunks).1 =~= concat(chunks));
    } else {
        lemma_gathered(chunks.drop_last());
        let (done, gathered) = gathered_after(chunks.drop_last());
        let chunk = chunks.last();
        lemma_concat_push(done, gathered);
        lemma_concat_push(flushed(done, gathered), chunk);
        assert(concat(gathered_after(chunks).0) + gathered_after(chunks).1 =~= concat(chunks));
    }
}

/// No write is empty, and one that is longer than what can be gathered is a single chunk.
pub proof fn law_blocks_are_bounded(chunks: Seq<Seq<u8>>)
    ensures
        forall|i: int|
            0 <= i < blocks_of(chunks).len() ==> {
                let block = #[trigger] blocks_of(chunks)[i];
                block.len() > 0 && (block.len() <= CAPACITY || chunks.contains(block))
            },
{
    lemma_gathered_bounded(chunks);
}

proof fn lemma_gathered_bounded(chunks: Seq<Seq<u8>>)
    ensures
        gathered_after(chunks).1.len() <= CAPACITY,
        forall|i: int|
            0 <= i < gathered_after(chunks).0.len() ==> {
                let block = #[trigger] gathered_after(chunks).0[i];
                block.len() > 0 && (block.len() <= CAPACITY || chunks.contains(block))
            },
    decreases chunks.len(),
{
    if chunks.len() > 0 {
        let front = chunks.drop_last();
        lemma_gathered_bounded(front);
        let before = gathered_after(front).0;
        let after = gathered_after(chunks).0;
        assert(chunks.contains(chunks[chunks.len() - 1]));
        assert forall|i: int| 0 <= i < after.len() implies {
            let block = #[trigger] after[i];
            block.len() > 0 && (block.len() <= CAPACITY || chunks.contains(block))
        } by {
            if i < before.len() {
                assert(after[i] == before[i]);
                if before[i].len() > CAPACITY {
                    let k = choose|k: int| 0 <= k < front.len() && front[k] == before[i];
                    assert(chunks[k] == before[i]);
                }
            }
        }
    }
}

/// If what went out so far is the beginning of the output, then it still is once the first `n`
/// bytes of the next write have gone out.
pub proof fn law_written_is_the_beginning(o: Output, out: Seq<u8>, n: int)
    requires
        o.well_formed(),
        out == o.data().take(o.total as int),
        0 <= n <= o.next_write().len(),
    ensures
        out + o.next_write().take(n) == o.data().take(o.total + n),
{
    lemma_next_write(o);
    if o.next_write().len() == 0 {
        assert(out + o.next_write().take(n) =~= o.data().take(o.total + n));
    } else {
        assert(o.next_write().take(n) =~= o.data().subrange(o.total as int, o.total + n));
        assert(out + o.next_write().take(n) =~= o.data().take(o.total + n));
    }
}

/// Whatever results the writes have, what has gone out is the beginning of the output; once as
/// many bytes have gone out as there are, it is the output.
pub proof fn law_output_arrives(
    chunks: Seq<Seq<u8>>,
    states: Seq<Output>,
    results: Seq<WriteResult>,
)
    requires
        is_run(states, results),
        states[0].total == 0,
        states[0].data() == concat(chunks),
    ensures
        gone_out(states, results) == concat(chunks).take(states.last().total as int),
        states.last().total == concat(chunks).len() ==> gone_out(states, results) == concat(chunks),
{
    lemma_run(states, results, results.len() as int);
    assert(results.take(results.len() as int) =~= results);
    lemma_next_write(states.last());
    assert(concat(chunks).take(concat(chunks).len() as int) =~= concat(chunks));
}

proof fn lemma_run(states: Seq<Output>, results: Seq<WriteResult>, n: int)
    requires
        is_run(states, results),
        states[0].total == 0,
        0 <= n <= results.len(),
    ensures
        states[n].well_formed(),
        states[n].data() == states[0].data(),
        gone_out(states, results.take(n)) == states[0].data().take(states[n].total as int),
    decreases n,
{
    if n == 0 {
        assert(gone_out(states, results.take(0)) =~= states[0].data().take(0));
    } else {
        lemma_run(states, results, n - 1);
        assert(results.take(n).drop_last() =~= results.take(n - 1));
        assert(results.take(n).last() == results[n - 1]);
        assert(accepted(states[n - 1], results[n - 1], states[n]));
        if let WriteResult::Wrote(k) = results[n - 1] {
            law_written_is_the_beginning(
                states[n - 1],
                gone_out(states, results.take(n - 1)),
                k as int,
            );
        }
    }
}

/// Chunks are gathered as far as the buffer allows: no two blocks that follow each other would
/// fit into it together.
pub proof fn law_blocks_are_full(chunks: Seq<Seq<u8>>, i: int)
    requires
        0 <= i,
        i + 1 < blocks_of(chunks).len(),
    ensures
        blocks_of(chunks)[i].len() + blocks_of(chunks)[i + 1].len() > 512,
{
    lemma_gathered_full(chunks);
    let (done, gathered) = gathered_after(chunks);
    if i + 1 < done.len() {
        assert(done[i].len() + done[i + 1].len() > 512);
    }
}

proof fn lemma_gathered_full(chunks: Seq<Seq<u8>>)
    ensures
        ({
            let (done, gathered) = gathered_after(chunks);
            &&& forall|i: int, j: int|
                0 <= i && j == i + 1 && j < done.len() ==> (#[trigger] done[i]).len() + (
                #[trigger] done[j]).len() > 512
            &&& done.len() > 0 ==> done.last().len() + gathered.len() > 512
        }),
    decreases chunks.len(),
{
    if chunks.len() > 0 {
        lemma_gathered_full(chunks.drop_last());
        let (before, kept) = gathered_after(chunks.drop_last());
        let (done, gathered) = gathered_after(chunks);
        assert forall|i: int, j: int| 0 <= i && j == i + 1 && j < done.len() implies (
        #[trigger] done[i]).len() + (#[trigger] done[j]).len() > 512 by {
            if j < before.len() {
                assert(done[i] == before[i] && done[j] == before[j]);
            } else if i < before.len() {
                assert(done[i] == before[i]);
                assert(before[i] == before.last());
            }
        }
    }
}

/// What a result of a write leads to: what was written is counted and nothing else is; an
/// interruption that asks for nothing changes nothing; every other result ends the output where
/// it is.
pub proof fn law_results(before: Output, result: WriteResult, after: Output)
    requires
        accepted(before, result, after),
    ensures
        result matches WriteResult::Wrote(n) ==> after.total - before.total == n && !after.failed,
        result == (WriteResult::Interrupted { cancelled: false }) ==> after == before,
        result == (WriteResult::Interrupted { cancelled: true }) || result
            == WriteResult::BrokenPipe || result == WriteResult::Failed ==> after.failed
            && after.next_write().len() == 0 && after.total == before.total,
        after.data() == before.data(),
{
}

} // verus!
