//! The graph: blocks, the streams between them, and the scheduler that
//! makes them work.
//!
//! A graph owns its blocks and its streams. Blocks and streams are known
//! by their handles, which are their places in the order in which they
//! were added. An edge leads from an output port of one block, through a
//! stream of its own, to an input port of a block.
use vstd::prelude::*;
use std::collections::HashMap;
use crate::block::{Block, BlockRet};
use crate::stream::{
    all_conserved, kept_to_ports, leads_to, lemma_appended_twice, lemma_conserved_twice,
    lemma_consumed_twice, lemma_kept_is_conserved, lemma_untouched, Edges, Ports, StreamType,
};
use crate::Error;

verus! {

broadcast use vstd::std_specs::hash::group_hash_axioms;

/// Every stream handle of `edges` is below `nstreams`.
pub open spec fn edges_valid(edges: Edges, nstreams: nat) -> bool {
    forall|i: int| 0 <= i < edges.len() ==> (#[trigger] edges[i]).1 < nstreams
}

/// Some edge of `edges` is at port `port`.
pub open spec fn port_wired(edges: Edges, port: usize) -> bool {
    exists|i: int| 0 <= i < edges.len() && (#[trigger] edges[i]).0 == port
}

/// The edges that `map` holds for block `b`: none where it has no entry.
pub open spec fn edges_of(map: Map<usize, Vec<(usize, usize)>>, b: usize) -> Edges {
    if map.contains_key(b) {
        map[b]@
    } else {
        Seq::empty()
    }
}

/// What the blocks said of their work in one sweep: how many of them
/// made progress, how many did nothing, and how many are at their end.
#[derive(Clone, Copy, Debug, PartialEq, Eq, Structural)]
pub struct Sweep {
    /// The number of blocks that produced output.
    pub progress: usize,
    /// The number of blocks that produced nothing.
    pub noop: usize,
    /// The number of blocks that will never produce anything again.
    pub eof: usize,
}

impl Sweep {
    /// The count of a sweep in which no block has returned yet.
    pub fn new() -> (tally: Self)
        ensures
            tally == (Sweep { progress: 0, noop: 0, eof: 0 }),
    {
        Sweep { progress: 0, noop: 0, eof: 0 }
    }

    /// The number of blocks counted.
    pub open spec fn total(&self) -> nat {
        (self.progress + self.noop + self.eof) as nat
    }

    /// The count with one more block, which returned `ret`.
    pub open spec fn recorded(self, ret: BlockRet) -> Sweep {
        match ret {
            BlockRet::Progress => (Sweep { progress: (self.progress + 1) as usize, ..self }),
            BlockRet::Noop => (Sweep { noop: (self.noop + 1) as usize, ..self }),
            BlockRet::EOF => (Sweep { eof: (self.eof + 1) as usize, ..self }),
        }
    }

    /// The count with one more block, which returned `ret`.
    pub fn record(self, ret: BlockRet) -> (tally: Self)
        requires
            self.total() < usize::MAX,
        ensures
            tally == self.recorded(ret),
            tally.total() == self.total() + 1,
    {
        match ret {
            BlockRet::Progress => Sweep { progress: self.progress + 1, ..self },
            BlockRet::Noop => Sweep { noop: self.noop + 1, ..self },
            BlockRet::EOF => Sweep { eof: self.eof + 1, ..self },
        }
    }
}

/// The count of the blocks that returned the results `rets` without
/// failing.
pub open spec fn tally_of(rets: Seq<Result<BlockRet, Error>>) -> Sweep
    decreases rets.len(),
{
    if rets.len() == 0 {
        Sweep { progress: 0, noop: 0, eof: 0 }
    } else {
        match rets.last() {
            Ok(said) => tally_of(rets.drop_last()).recorded(said),
            Err(_) => tally_of(rets.drop_last()),
        }
    }
}

/// The sweep did not fail, and some block made progress in it.
pub open spec fn made_progress(r: Result<Sweep, Error>) -> bool {
    r matches Ok(tally) && tally.progress > 0
}

/// The sweep did not fail, and no block made progress in it.
pub open spec fn came_to_rest(r: Result<Sweep, Error>) -> bool {
    r matches Ok(tally) && tally.progress == 0
}

/// The error of a call that failed, and none of one that did not.
pub open spec fn failure<T>(r: Result<T, Error>) -> Option<Error> {
    match r {
        Ok(_) => None,
        Err(e) => Some(e),
    }
}

/// Blocks of the type `B`, the streams between them, and the ports that
/// the streams are wired to.
///
/// A graph of blocks of different types holds them boxed, as
/// `Box<dyn Block>`, or as an enum of its own.
#[verifier::reject_recursive_types(B)]
pub struct Graph<B: Block> {
    blocks: Vec<B>,
    streams: Vec<StreamType>,
    outputs: HashMap<usize, Vec<(usize, usize)>>,
    inputs: HashMap<usize, Vec<(usize, usize)>>,
}

/// Whether some edge of `edges` is at port `port`.
fn has_port(edges: &Vec<(usize, usize)>, port: usize) -> (found: bool)
    ensures
        found == port_wired(edges@, port),
{
    let mut i: usize = 0;
    while i < edges.len()
        invariant
            i <= edges@.len(),
            forall|j: int| 0 <= j < i ==> (#[trigger] edges@[j]).0 != port,
        decreases edges@.len() - i,
    {
        if edges[i].0 == port {
            return true;
        }
        i = i + 1;
    }
    false
}

/// Whether `map` holds an edge at port `port` of block `b`.
fn wired(map: &HashMap<usize, Vec<(usize, usize)>>, b: usize, port: usize) -> (found: bool)
    ensures
        found == port_wired(edges_of(map@, b), port),
{
    match map.get(&b) {
        Some(edges) => has_port(edges, port),
        None => false,
    }
}

/// Adds the edge `(port, stream)` behind the edges that `map` holds for
/// block `b`.
fn wire(map: &mut HashMap<usize, Vec<(usize, usize)>>, b: usize, port: usize, stream: usize)
    ensures
        edges_of(final(map)@, b) == edges_of(old(map)@, b).push((port, stream)),
        forall|other: usize|
            other != b ==> #[trigger] edges_of(final(map)@, other) == edges_of(old(map)@, other),
{
    let mut edges = match map.remove(&b) {
        Some(edges) => edges,
        None => Vec::new(),
    };
    edges.push((port, stream));
    let ghost list = edges@;
    map.insert(b, edges);
    proof {
        assert(edges_of(map@, b) == list);
        assert forall|other: usize| other != b implies #[trigger] edges_of(map@, other)
            == edges_of(old(map)@, other) by {}
    }
}

impl<B: Block> Graph<B> {
    /// The blocks, each at its handle and in the state it is in.
    pub closed spec fn blocks(&self) -> Seq<B> {
        self.blocks@
    }

    /// The number of blocks.
    pub open spec fn nblocks(&self) -> nat {
        self.blocks().len()
    }

    /// The streams, each at its handle.
    pub closed spec fn streams(&self) -> Seq<StreamType> {
        self.streams@
    }

    /// The edges at the input ports of block `b`, in the order in which
    /// they were connected.
    pub closed spec fn inputs_of(&self, b: usize) -> Edges {
        edges_of(self.inputs@, b)
    }

    /// The edges at the output ports of block `b`, in the order in which
    /// they were connected.
    pub closed spec fn outputs_of(&self, b: usize) -> Edges {
        edges_of(self.outputs@, b)
    }

    /// What one work step of block `i`, in the state it is in, may make
    /// of the streams `before` and return: the block's own
    /// [`Block::may_step`].
    pub open spec fn block_may(
        &self,
        i: int,
        ins: Edges,
        outs: Edges,
        before: Seq<StreamType>,
        after: Seq<StreamType>,
        ret: Result<BlockRet, Error>,
    ) -> bool {
        self.blocks()[i].may_step(ins, outs, before, after, ret)
    }

    /// The graph is well formed: every edge leads to a stream of the
    /// graph.
    pub closed spec fn wf(&self) -> bool {
        &&& forall|b: usize| edges_valid(#[trigger] self.inputs_of(b), self.streams@.len())
        &&& forall|b: usize| edges_valid(#[trigger] self.outputs_of(b), self.streams@.len())
    }

    /// One work step of block `i` on the streams `before`: the block had
    /// the edges that the graph holds for it, did what it may do, and
    /// kept to its ports.
    pub open spec fn stepped(
        &self,
        i: int,
        before: Seq<StreamType>,
        after: Seq<StreamType>,
        ret: Result<BlockRet, Error>,
    ) -> bool {
        &&& self.block_may(
            i,
            self.inputs_of(i as usize),
            self.outputs_of(i as usize),
            before,
            after,
            ret,
        )
        &&& kept_to_ports(before, after, self.inputs_of(i as usize), self.outputs_of(i as usize))
    }

    /// The first blocks of the graph worked once each, in the order of
    /// their handles: block `i` took the streams from `chain[i]` to
    /// `chain[i + 1]` and returned `rets[i]`. The first step found the
    /// streams as the graph holds them, and no step but the last failed.
    pub open spec fn traced(
        &self,
        chain: Seq<Seq<StreamType>>,
        rets: Seq<Result<BlockRet, Error>>,
    ) -> bool {
        &&& chain.len() == rets.len() + 1
        &&& rets.len() <= self.nblocks()
        &&& chain[0] == self.streams()
        &&& forall|i: int|
            0 <= i < rets.len() ==> #[trigger] self.stepped(i, chain[i], chain[i + 1], rets[i])
        &&& forall|i: int| 0 <= i < rets.len() - 1 ==> (#[trigger] rets[i]) is Ok
    }

    /// One sweep took the graph to `after`, and failed with `failed` or
    /// did not fail. The blocks worked as `chain` and `rets` trace it:
    /// all of them where no block failed, else those up to the first
    /// that failed, whose error is `failed`. The blocks behind that one
    /// did not work: they are as they were.
    pub open spec fn swept(
        &self,
        after: &Graph<B>,
        failed: Option<Error>,
        chain: Seq<Seq<StreamType>>,
        rets: Seq<Result<BlockRet, Error>>,
    ) -> bool {
        &&& self.traced(chain, rets)
        &&& chain.last() == after.streams()
        &&& after.nblocks() == self.nblocks()
        &&& forall|i: int|
            rets.len() <= i < self.nblocks() ==> #[trigger] after.blocks()[i] == self.blocks()[i]
        &&& match failed {
            None => rets.len() == self.nblocks() && (rets.len() > 0 ==> rets.last() is Ok),
            Some(e) => rets.len() > 0 && rets.last() == Err::<BlockRet, Error>(e),
        }
    }

    /// What one sweep may make of the graph: `after` is the graph after
    /// the sweep, and `r` what the sweep returned.
    pub open spec fn sweeps_to(&self, after: &Graph<B>, r: Result<Sweep, Error>) -> bool {
        &&& after.wf()
        &&& after.nblocks() == self.nblocks()
        &&& forall|b: usize| #[trigger] after.inputs_of(b) == self.inputs_of(b)
        &&& forall|b: usize| #[trigger] after.outputs_of(b) == self.outputs_of(b)
        &&& all_conserved(self.streams(), after.streams())
        &&& exists|chain: Seq<Seq<StreamType>>, rets: Seq<Result<BlockRet, Error>>| #[trigger]
            self.swept_and_counted(after, r, chain, rets)
    }

    /// One sweep took the graph to `after` and returned `r`, with the
    /// blocks working as `chain` and `rets` trace it: the count of a
    /// sweep that did not fail is the count of what they returned.
    pub open spec fn swept_and_counted(
        &self,
        after: &Graph<B>,
        r: Result<Sweep, Error>,
        chain: Seq<Seq<StreamType>>,
        rets: Seq<Result<BlockRet, Error>>,
    ) -> bool {
        &&& self.swept(after, failure(r), chain, rets)
        &&& r matches Ok(tally) ==> tally == tally_of(rets)
    }

    /// Sweeps in a row took the graph to `last` and returned `r` from
    /// the drive. Each sweep took `graphs[k]` to `graphs[k + 1]` and
    /// returned `results[k]`. Every sweep but the last made progress.
    /// The last one made none where the drive gives the number of
    /// sweeps, failed where the drive gives an error, and was the
    /// `max`th, making progress like the others, where the drive gives
    /// `None`.
    pub open spec fn driven(
        &self,
        last: &Graph<B>,
        max: nat,
        r: Result<Option<usize>, Error>,
        graphs: Seq<Graph<B>>,
        results: Seq<Result<Sweep, Error>>,
    ) -> bool {
        &&& graphs.len() == results.len() + 1
        &&& results.len() <= max
        &&& graphs[0] == *self
        &&& graphs.last() == *last
        &&& forall|k: int|
            0 <= k < results.len() ==> #[trigger] graphs[k].sweeps_to(&graphs[k + 1], results[k])
        &&& forall|k: int| 0 <= k < results.len() - 1 ==> made_progress(#[trigger] results[k])
        &&& match r {
            Ok(Some(sweeps)) => {
                &&& sweeps == results.len()
                &&& sweeps >= 1
                &&& came_to_rest(results.last())
            },
            Ok(None) => results.len() == max && (max > 0 ==> made_progress(results.last())),
            Err(e) => results.len() >= 1 && results.last() == Err::<Sweep, Error>(e),
        }
    }

    /// No input port of the first `n` blocks is wired to the stream `h`.
    pub open spec fn none_reads(&self, n: nat, h: int) -> bool {
        forall|b: usize| b < n ==> !leads_to(#[trigger] self.inputs_of(b), h)
    }

    /// No output port of the first `n` blocks is wired to the stream `h`.
    pub open spec fn none_writes(&self, n: nat, h: int) -> bool {
        forall|b: usize| b < n ==> !leads_to(#[trigger] self.outputs_of(b), h)
    }

    /// What the blocks that worked in a sweep leave of one stream. A
    /// stream that none of them is wired to stays as it was. One that
    /// none of them writes to is only consumed from, and one that none
    /// of them reads is only written to.
    pub proof fn lemma_traced_stream(
        &self,
        chain: Seq<Seq<StreamType>>,
        rets: Seq<Result<BlockRet, Error>>,
        h: int,
    )
        requires
            self.traced(chain, rets),
            0 <= h < self.streams().len(),
        ensures
            chain.last().len() == self.streams().len(),
            self.none_reads(rets.len(), h) && self.none_writes(rets.len(), h) ==> chain.last()[h]
                == self.streams()[h],
            self.none_writes(rets.len(), h) ==> chain.last()[h].consumed_from(&self.streams()[h]),
            self.none_reads(rets.len(), h) ==> chain.last()[h].appended_to(&self.streams()[h]),
    {
        self.lemma_traced_prefix(chain, rets, h, rets.len());
    }

    /// What the first `k` blocks that worked in a sweep leave of one
    /// stream.
    proof fn lemma_traced_prefix(
        &self,
        chain: Seq<Seq<StreamType>>,
        rets: Seq<Result<BlockRet, Error>>,
        h: int,
        k: nat,
    )
        requires
            self.traced(chain, rets),
            0 <= h < self.streams().len(),
            k <= rets.len(),
        ensures
            chain[k as int].len() == self.streams().len(),
            self.none_reads(k, h) && self.none_writes(k, h) ==> chain[k as int][h]
                == self.streams()[h],
            self.none_writes(k, h) ==> chain[k as int][h].consumed_from(&self.streams()[h]),
            self.none_reads(k, h) ==> chain[k as int][h].appended_to(&self.streams()[h]),
        decreases k,
    {
        let first = self.streams()[h];
        if k == 0 {
            lemma_untouched(first);
        } else {
            let j = (k - 1) as nat;
            self.lemma_traced_prefix(chain, rets, h, j);
            assert(self.stepped(j as int, chain[j as int], chain[k as int], rets[j as int]));
            let mid = chain[j as int][h];
            let now = chain[k as int][h];
            assert(now == chain[j as int + 1][h]);
            lemma_untouched(mid);
            if self.none_writes(k, h) {
                assert(self.none_writes(j, h));
                assert(!leads_to(self.outputs_of(j as usize), h));
                assert(now.consumed_from(&mid));
                lemma_consumed_twice(first, mid, now);
            }
            if self.none_reads(k, h) {
                assert(self.none_reads(j, h));
                assert(!leads_to(self.inputs_of(j as usize), h));
                assert(now.appended_to(&mid));
                lemma_appended_twice(first, mid, now);
            }
        }
    }

    /// A sweep that `chain` and `rets` trace is a sweep.
    proof fn lemma_sweeps_to(
        &self,
        after: &Graph<B>,
        r: Result<Sweep, Error>,
        chain: Seq<Seq<StreamType>>,
        rets: Seq<Result<BlockRet, Error>>,
    )
        requires
            after.wf(),
            after.blocks@.len() == self.blocks@.len(),
            after.inputs@ == self.inputs@,
            after.outputs@ == self.outputs@,
            all_conserved(self.streams@, after.streams@),
            self.swept_and_counted(after, r, chain, rets),
        ensures
            self.sweeps_to(after, r),
    {
        assert(forall|b: usize| #[trigger] after.inputs_of(b) == self.inputs_of(b));
        assert(forall|b: usize| #[trigger] after.outputs_of(b) == self.outputs_of(b));
        assert(all_conserved(self.streams(), after.streams()));
    }

    /// A well-formed graph stays well formed where its edges stay and it
    /// loses no stream.
    proof fn lemma_wf_kept(&self, after: &Graph<B>)
        requires
            self.wf(),
            after.inputs@ == self.inputs@,
            after.outputs@ == self.outputs@,
            self.streams@.len() <= after.streams@.len(),
        ensures
            after.wf(),
    {
        assert forall|b: usize| edges_valid(
            #[trigger] after.inputs_of(b),
            after.streams@.len(),
        ) by {
            assert(edges_valid(self.inputs_of(b), self.streams@.len()));
        }
        assert forall|b: usize| edges_valid(
            #[trigger] after.outputs_of(b),
            after.streams@.len(),
        ) by {
            assert(edges_valid(self.outputs_of(b), self.streams@.len()));
        }
    }

    /// A graph without blocks and without streams.
    pub fn new() -> (g: Self)
        ensures
            g.wf(),
            g.nblocks() == 0,
            g.streams() == Seq::<StreamType>::empty(),
            forall|b: usize| #[trigger] g.inputs_of(b) == Seq::<(usize, usize)>::empty(),
            forall|b: usize| #[trigger] g.outputs_of(b) == Seq::<(usize, usize)>::empty(),
    {
        Self {
            blocks: Vec::new(),
            outputs: HashMap::new(),
            inputs: HashMap::new(),
            streams: Vec::new(),
        }
    }

    /// Adds a block. Its handle is the number of blocks added before it.
    pub fn add(&mut self, b: B) -> (handle: usize)
        requires
            old(self).wf(),
        ensures
            final(self).wf(),
            handle == old(self).nblocks(),
            final(self).nblocks() == old(self).nblocks() + 1,
            final(self).blocks() == old(self).blocks().push(b),
            final(self).streams() == old(self).streams(),
            forall|b: usize| #[trigger] final(self).inputs_of(b) == old(self).inputs_of(b),
            forall|b: usize| #[trigger] final(self).outputs_of(b) == old(self).outputs_of(b),
    {
        let handle = self.blocks.len();
        self.blocks.push(b);
        proof {
            old(self).lemma_wf_kept(&*self);
        }
        handle
    }

    /// Connects output port `p1` of block `b1` to input port `p2` of
    /// block `b2` by the stream `stream`, and gives the stream's handle:
    /// the number of streams connected before it.
    ///
    /// Fails, and leaves the graph as it is, where one of the two ports
    /// is wired already.
    pub fn connect(&mut self, stream: StreamType, b1: usize, p1: usize, b2: usize, p2: usize) -> (r:
        Result<usize, Error>)
        requires
            old(self).wf(),
        ensures
            final(self).wf(),
            final(self).blocks() == old(self).blocks(),
            final(self).nblocks() == old(self).nblocks(),
            match r {
                Ok(handle) => {
                    &&& !port_wired(old(self).outputs_of(b1), p1)
                    &&& !port_wired(old(self).inputs_of(b2), p2)
                    &&& handle == old(self).streams().len()
                    &&& final(self).streams() == old(self).streams().push(stream)
                    &&& final(self).outputs_of(b1) == old(self).outputs_of(b1).push((p1, handle))
                    &&& final(self).inputs_of(b2) == old(self).inputs_of(b2).push((p2, handle))
                    &&& forall|b: usize|
                        b != b1 ==> #[trigger] final(self).outputs_of(b) == old(self).outputs_of(b)
                    &&& forall|b: usize|
                        b != b2 ==> #[trigger] final(self).inputs_of(b) == old(self).inputs_of(b)
                },
                Err(e) => {
                    &&& e == Error::Configuration
                    &&& port_wired(old(self).outputs_of(b1), p1) || port_wired(
                        old(self).inputs_of(b2),
                        p2,
                    )
                    &&& final(self).streams() == old(self).streams()
                    &&& forall|b: usize|
                        #[trigger] final(self).inputs_of(b) == old(self).inputs_of(b)
                    &&& forall|b: usize|
                        #[trigger] final(self).outputs_of(b) == old(self).outputs_of(b)
                },
            },
    {
        if wired(&self.outputs, b1, p1) || wired(&self.inputs, b2, p2) {
            return Err(Error::Configuration);
        }
        let s = self.streams.len();
        self.streams.push(stream);
        wire(&mut self.outputs, b1, p1, s);
        wire(&mut self.inputs, b2, p2, s);
        proof {
            assert forall|b: usize| edges_valid(
                #[trigger] self.inputs_of(b),
                self.streams@.len(),
            ) by {
                assert(edges_valid(old(self).inputs_of(b), old(self).streams@.len()));
            }
            assert forall|b: usize| edges_valid(
                #[trigger] self.outputs_of(b),
                self.streams@.len(),
            ) by {
                assert(edges_valid(old(self).outputs_of(b), old(self).streams@.len()));
            }
        }
        Ok(s)
    }

    /// The stream with the handle `handle`, where the graph has one.
    pub fn stream(&self, handle: usize) -> (s: Option<&StreamType>)
        ensures
            match s {
                Some(e) => handle < self.streams().len() && *e == self.streams()[handle as int],
                None => handle >= self.streams().len(),
            },
    {
        if handle < self.streams.len() {
            Some(&self.streams[handle])
        } else {
            None
        }
    }

    /// The stream with the handle `handle`, to feed or to drain from
    /// outside the graph, where the graph has one.
    pub fn stream_mut(&mut self, handle: usize) -> (s: Option<&mut StreamType>)
        requires
            old(self).wf(),
        ensures
            final(self).wf(),
            final(self).blocks() == old(self).blocks(),
            final(self).nblocks() == old(self).nblocks(),
            forall|b: usize| #[trigger] final(self).inputs_of(b) == old(self).inputs_of(b),
            forall|b: usize| #[trigger] final(self).outputs_of(b) == old(self).outputs_of(b),
            match s {
                Some(e) => {
                    &&& handle < old(self).streams().len()
                    &&& *e == old(self).streams()[handle as int]
                    &&& final(self).streams() == old(self).streams().update(
                        handle as int,
                        *final(e),
                    )
                },
                None => {
                    &&& handle >= old(self).streams().len()
                    &&& final(self).streams() == old(self).streams()
                },
            },
    {
        if handle < self.streams.len() {
            proof {
                let before = *self;
                assert forall|after: Graph<B>|
                    after.inputs@ == before.inputs@ && after.outputs@ == before.outputs@
                        && after.streams@.len() == before.streams@.len() implies #[trigger]
                    after.wf() by {
                    before.lemma_wf_kept(&after);
                }
            }
            Some(&mut self.streams[handle])
        } else {
            None
        }
    }

    /// One sweep: every block works once, in the order in which the
    /// blocks were added, on the streams wired to it.
    ///
    /// The sweep ends with the first block that fails, and gives that
    /// block's error; the blocks behind it do not work.
    pub fn run(&mut self) -> (r: Result<(), Error>)
        requires
            old(self).wf(),
        ensures
            final(self).wf(),
            final(self).nblocks() == old(self).nblocks(),
            forall|b: usize| #[trigger] final(self).inputs_of(b) == old(self).inputs_of(b),
            forall|b: usize| #[trigger] final(self).outputs_of(b) == old(self).outputs_of(b),
            all_conserved(old(self).streams(), final(self).streams()),
            exists|chain: Seq<Seq<StreamType>>, rets: Seq<Result<BlockRet, Error>>| #[trigger]
                old(self).swept(final(self), failure(r), chain, rets),
    {
        match self.sweep() {
            Ok(_) => Ok(()),
            Err(e) => Err(e),
        }
    }

    /// One sweep, as [`Graph::run`] does it, with a count of what the
    /// blocks returned.
    pub fn sweep(&mut self) -> (r: Result<Sweep, Error>)
        requires
            old(self).wf(),
        ensures
            old(self).sweeps_to(final(self), r),
    {
        let n = self.blocks.len();
        let none: Vec<(usize, usize)> = Vec::new();
        let mut tally = Sweep::new();
        let ghost mut chain: Seq<Seq<StreamType>> = seq![self.streams@];
        let ghost mut rets: Seq<Result<BlockRet, Error>> = Seq::empty();
        let mut i: usize = 0;
        proof {
            assert forall|h: int| 0 <= h < self.streams@.len() implies (
            #[trigger] self.streams@[h]).conserved_from(&self.streams@[h]) by {
                lemma_untouched(self.streams@[h]);
            }
        }
        while i < n
            invariant
                i <= n,
                n == self.blocks@.len(),
                n == old(self).blocks@.len(),
                none@.len() == 0,
                self.inputs@ == old(self).inputs@,
                self.outputs@ == old(self).outputs@,
                self.wf(),
                all_conserved(old(self).streams@, self.streams@),
                forall|k: int| i <= k < n ==> self.blocks@[k] == old(self).blocks@[k],
                chain.len() == i + 1,
                rets.len() == i,
                chain[0] == old(self).streams@,
                chain[i as int] == self.streams@,
                forall|k: int|
                    0 <= k < i ==> #[trigger] old(self).stepped(k, chain[k], chain[k + 1], rets[k]),
                forall|k: int| 0 <= k < i ==> (#[trigger] rets[k]) is Ok,
                tally == tally_of(rets),
                tally.total() == i,
            decreases n - i,
        {
            let ins: &Vec<(usize, usize)> = match self.inputs.get(&i) {
                Some(edges) => edges,
                None => &none,
            };
            let outs: &Vec<(usize, usize)> = match self.outputs.get(&i) {
                Some(edges) => edges,
                None => &none,
            };
            proof {
                assert(ins@ == old(self).inputs_of(i));
                assert(outs@ == old(self).outputs_of(i));
            }
            let ghost before = self.streams@;
            let ghost start = *self;
            let mut lent: Vec<StreamType> = Vec::new();
            std::mem::swap(&mut self.streams, &mut lent);
            let mut ports = Ports::new(lent, ins, outs);
            let ret = self.blocks[i].work(&mut ports);
            let mut back = ports.into_streams();
            std::mem::swap(&mut self.streams, &mut back);
            proof {
                let first = old(self).streams@;
                lemma_kept_is_conserved(before, self.streams@, ins@, outs@);
                assert forall|h: int| 0 <= h < self.streams@.len() implies (
                #[trigger] self.streams@[h]).conserved_from(&first[h]) by {
                    assert(before[h].conserved_from(&first[h]));
                    lemma_conserved_twice(first[h], before[h], self.streams@[h]);
                }
                start.lemma_wf_kept(&*self);
                let c0 = chain;
                let r0 = rets;
                chain = chain.push(self.streams@);
                rets = rets.push(ret);
                assert(old(self).stepped(i as int, before, self.streams@, ret));
                assert forall|k: int| 0 <= k < i + 1 implies #[trigger] old(self).stepped(
                    k,
                    chain[k],
                    chain[k + 1],
                    rets[k],
                ) by {
                    if k < i {
                        assert(old(self).stepped(k, c0[k], c0[k + 1], r0[k]));
                    }
                }
                assert forall|k: int| 0 <= k < rets.len() - 1 implies (
                #[trigger] rets[k]) is Ok by {
                    assert(r0[k] is Ok);
                }
                assert(rets.drop_last() =~= r0);
            }
            match ret {
                Ok(said) => {
                    tally = tally.record(said);
                },
                Err(e) => {
                    proof {
                        let r = Err::<Sweep, Error>(e);
                        assert(old(self).swept_and_counted(&*self, r, chain, rets));
                        old(self).lemma_sweeps_to(&*self, r, chain, rets);
                    }
                    return Err(e);
                },
            }
            i = i + 1;
        }
        proof {
            let r = Ok::<Sweep, Error>(tally);
            assert(old(self).swept_and_counted(&*self, r, chain, rets));
            old(self).lemma_sweeps_to(&*self, r, chain, rets);
        }
        Ok(tally)
    }

    /// Sweeps until a sweep passes in which no block makes progress, or
    /// until `max_sweeps` sweeps are done, and gives the number of sweeps
    /// done where the graph came to rest, `None` where it did not.
    ///
    /// Ends with the first sweep that fails, and gives its error.
    pub fn run_to_completion(&mut self, max_sweeps: usize) -> (r: Result<Option<usize>, Error>)
        requires
            old(self).wf(),
        ensures
            final(self).wf(),
            final(self).nblocks() == old(self).nblocks(),
            forall|b: usize| #[trigger] final(self).inputs_of(b) == old(self).inputs_of(b),
            forall|b: usize| #[trigger] final(self).outputs_of(b) == old(self).outputs_of(b),
            all_conserved(old(self).streams(), final(self).streams()),
            exists|graphs: Seq<Graph<B>>, results: Seq<Result<Sweep, Error>>| #[trigger]
                old(self).driven(final(self), max_sweeps as nat, r, graphs, results),
    {
        let mut done: usize = 0;
        let ghost mut graphs: Seq<Graph<B>> = seq![*self];
        let ghost mut results: Seq<Result<Sweep, Error>> = Seq::empty();
        proof {
            assert forall|h: int| 0 <= h < self.streams@.len() implies (
            #[trigger] self.streams@[h]).conserved_from(&self.streams@[h]) by {
                lemma_untouched(self.streams@[h]);
            }
        }
        while done < max_sweeps
            invariant
                done <= max_sweeps,
                self.wf(),
                self.nblocks() == old(self).nblocks(),
                all_conserved(old(self).streams(), self.streams()),
                forall|b: usize| #[trigger] self.inputs_of(b) == old(self).inputs_of(b),
                forall|b: usize| #[trigger] self.outputs_of(b) == old(self).outputs_of(b),
                graphs.len() == done + 1,
                results.len() == done,
                graphs[0] == *old(self),
                graphs[done as int] == *self,
                forall|k: int|
                    0 <= k < done ==> #[trigger] graphs[k].sweeps_to(&graphs[k + 1], results[k]),
                forall|k: int| 0 <= k < done ==> made_progress(#[trigger] results[k]),
            decreases max_sweeps - done,
        {
            let ghost before = *self;
            let swept = self.sweep();
            proof {
                let first = old(self).streams();
                assert forall|h: int| 0 <= h < self.streams().len() implies (
                #[trigger] self.streams()[h]).conserved_from(&first[h]) by {
                    assert(before.streams()[h].conserved_from(&first[h]));
                    lemma_conserved_twice(first[h], before.streams()[h], self.streams()[h]);
                }
                let g0 = graphs;
                let r0 = results;
                graphs = graphs.push(*self);
                results = results.push(swept);
                assert forall|k: int| 0 <= k < done + 1 implies #[trigger] graphs[k].sweeps_to(
                    &graphs[k + 1],
                    results[k],
                ) by {
                    if k < done {
                        assert(g0[k].sweeps_to(&g0[k + 1], r0[k]));
                    }
                }
                assert forall|k: int| 0 <= k < results.len() - 1 implies made_progress(
                    #[trigger] results[k],
                ) by {
                    assert(made_progress(r0[k]));
                }
            }
            done = done + 1;
            match swept {
                Ok(tally) => {
                    if tally.progress == 0 {
                        proof {
                            let r = Ok::<Option<usize>, Error>(Some(done));
                            assert(old(self).driven(&*self, max_sweeps as nat, r, graphs, results));
                        }
                        return Ok(Some(done));
                    }
                },
                Err(e) => {
                    proof {
                        let r = Err::<Option<usize>, Error>(e);
                        assert(old(self).driven(&*self, max_sweeps as nat, r, graphs, results));
                    }
                    return Err(e);
                },
            }
        }
        proof {
            let r = Ok::<Option<usize>, Error>(None);
            assert(old(self).driven(&*self, max_sweeps as nat, r, graphs, results));
        }
        Ok(None)
    }
}

impl<B: Block> Default for Graph<B> {
    fn default() -> (g: Self)
        ensures
            g.wf(),
            g.nblocks() == 0,
            g.streams() == Seq::<StreamType>::empty(),
    {
        Self::new()
    }
}

} // verus!
