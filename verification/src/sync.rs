//! Sync orchestration: fetch a batch of headers, check that it continues the
//! chain, fetch each body and hand each block to execution, in order.

use std::collections::BTreeMap;
use vstd::prelude::*;

use crate::keys::{be_byte, be_byte_of};
use crate::peer::{PeerId, PeerInfo, PeerManager, PeerManagerError, connect_result, disconnect_result};
use crate::text::{digits_of, push_digits};

verus! {

/// A header as sync sees it.
#[derive(Debug, Clone, Copy, PartialEq, Eq)]
pub struct HeaderRef {
    pub number: u64,
    pub hash: [u8; 32],
}

/// A block body as sync sees it.
#[derive(Debug, Clone, Copy, PartialEq, Eq)]
pub struct BlockBodyRef {
    pub tx_count: usize,
}

/// Where headers and bodies come from.
pub trait SyncSource {
    /// Whether `headers` is an answer the source may give to a request from
    /// `start` of at most `limit` headers. A source that says nothing of its
    /// answers admits every answer.
    open spec fn answers_headers(&self, start: u64, limit: usize, headers: Seq<HeaderRef>) -> bool {
        true
    }

    /// Whether `body` is an answer the source may give for `header`.
    open spec fn answers_body(&self, header: HeaderRef, body: BlockBodyRef) -> bool {
        true
    }

    /// The headers numbered from `start` on, at most `limit` of them.
    fn fetch_headers(&self, start: u64, limit: usize) -> (r: Vec<HeaderRef>)
        ensures
            self.answers_headers(start, limit, r@),
    ;

    /// The body of `header`.
    fn fetch_body(&self, header: &HeaderRef) -> (r: BlockBodyRef)
        ensures
            self.answers_body(*header, r),
    ;
}

/// Where synced blocks are executed.
pub trait ExecutionSink: Sized {
    /// Whether executing the block `header` with `body` may take the sink
    /// from `self` to `next` with answer `answer`. A sink that says nothing
    /// of its steps admits every step.
    open spec fn step(
        &self,
        header: HeaderRef,
        body: BlockBodyRef,
        next: Self,
        answer: Result<(), Seq<char>>,
    ) -> bool {
        true
    }

    /// Executes one block; an error carries the reason.
    fn execute_synced_block(&mut self, header: &HeaderRef, body: &BlockBodyRef) -> (r: Result<
        (),
        String,
    >)
        ensures
            old(self).step(*header, *body, *final(self), outcome_view(r)),
    ;
}

/// One executed block of a sync pass.
#[derive(Debug, Clone, Copy, PartialEq, Eq)]
pub struct SyncStepReport {
    pub header_number: u64,
    pub tx_count: usize,
}

/// The blocks executed by a sync pass, in order.
#[derive(Debug, Clone, PartialEq, Eq)]
pub struct SyncReport {
    pub steps: Vec<SyncStepReport>,
}

/// Why a sync pass stopped.
#[derive(Debug, Clone, PartialEq, Eq)]
pub enum SyncError {
    HeaderBatchTooLarge { limit: usize, received: usize },
    InvalidHeaderSequence { expected: u64, got: u64 },
    HeaderSequenceOverflow { last_header: u64 },
    ExecutionFailed { header_number: u64, reason: String },
}

/// The abstract content of a `SyncError`.
pub enum SyncErrorView {
    HeaderBatchTooLarge { limit: usize, received: usize },
    InvalidHeaderSequence { expected: u64, got: u64 },
    HeaderSequenceOverflow { last_header: u64 },
    ExecutionFailed { header_number: u64, reason: Seq<char> },
}

impl View for SyncError {
    type V = SyncErrorView;

    open spec fn view(&self) -> SyncErrorView {
        match self {
            SyncError::HeaderBatchTooLarge { limit, received } => SyncErrorView::HeaderBatchTooLarge {
                limit: *limit,
                received: *received,
            },
            SyncError::InvalidHeaderSequence { expected, got } => SyncErrorView::InvalidHeaderSequence {
                expected: *expected,
                got: *got,
            },
            SyncError::HeaderSequenceOverflow { last_header } => SyncErrorView::HeaderSequenceOverflow {
                last_header: *last_header,
            },
            SyncError::ExecutionFailed { header_number, reason } => SyncErrorView::ExecutionFailed {
                header_number: *header_number,
                reason: reason@,
            },
        }
    }
}

/// The message of a sync error.
pub open spec fn sync_error_text(e: SyncErrorView) -> Seq<char> {
    match e {
        SyncErrorView::HeaderBatchTooLarge { limit, received } => "sync source returned "@
            + digits_of(received as nat, 10) + " headers, exceeding limit "@ + digits_of(
            limit as nat,
            10,
        ),
        SyncErrorView::InvalidHeaderSequence { expected, got } =>
            "sync source returned out-of-sequence header: expected "@ + digits_of(
            expected as nat,
            10,
        ) + ", got "@ + digits_of(got as nat, 10),
        SyncErrorView::HeaderSequenceOverflow { last_header } =>
            "sync header sequence overflowed after header "@ + digits_of(last_header as nat, 10),
        SyncErrorView::ExecutionFailed { header_number, reason } => "execution failed for header "@
            + digits_of(header_number as nat, 10) + ": "@ + reason,
    }
}

impl SyncError {
    /// The error's message.
    pub fn message(&self) -> (r: String)
        ensures
            r@ == sync_error_text(self@),
    {
        match self {
            SyncError::HeaderBatchTooLarge { limit, received } => {
                let mut out = String::from_str("sync source returned ");
                push_digits(&mut out, *received as u128, 10);
                out.append(" headers, exceeding limit ");
                push_digits(&mut out, *limit as u128, 10);
                out
            },
            SyncError::InvalidHeaderSequence { expected, got } => {
                let mut out = String::from_str("sync source returned out-of-sequence header: expected ");
                push_digits(&mut out, *expected as u128, 10);
                out.append(", got ");
                push_digits(&mut out, *got as u128, 10);
                out
            },
            SyncError::HeaderSequenceOverflow { last_header } => {
                let mut out = String::from_str("sync header sequence overflowed after header ");
                push_digits(&mut out, *last_header as u128, 10);
                out
            },
            SyncError::ExecutionFailed { header_number, reason } => {
                let mut out = String::from_str("execution failed for header ");
                push_digits(&mut out, *header_number as u128, 10);
                out.append(": ");
                out.append(reason.as_str());
                out
            },
        }
    }
}

/// The check of a header batch from position `i`, where `expected` is the
/// number the header at `i` must carry: the first header out of sequence is
/// reported, and so is a successor number past `u64::MAX`.
pub open spec fn header_sequence_check(hs: Seq<HeaderRef>, i: int, expected: u64) -> Result<
    (),
    SyncErrorView,
>
    decreases hs.len() - i,
{
    if i < 0 || i >= hs.len() {
        Ok(())
    } else if hs[i].number != expected {
        Err(SyncErrorView::InvalidHeaderSequence { expected, got: hs[i].number })
    } else if i + 1 < hs.len() {
        if expected == u64::MAX {
            Err(SyncErrorView::HeaderSequenceOverflow { last_header: hs[i].number })
        } else {
            header_sequence_check(hs, i + 1, (expected + 1) as u64)
        }
    } else {
        Ok(())
    }
}

/// The check of a header batch answered for a request from `start` of at
/// most `limit` headers: not more than `limit` headers, numbered `start`,
/// `start + 1`, ... in order.
pub open spec fn header_batch_check(start: u64, limit: usize, hs: Seq<HeaderRef>) -> Result<
    (),
    SyncErrorView,
> {
    if hs.len() > limit {
        Err(SyncErrorView::HeaderBatchTooLarge { limit, received: hs.len() as usize })
    } else {
        header_sequence_check(hs, 0, start)
    }
}

/// Checks a header batch as `header_batch_check` states.
pub fn validate_header_batch(start: u64, limit: usize, headers: &[HeaderRef]) -> (r: Result<
    (),
    SyncError,
>)
    ensures
        match r {
            Ok(_) => header_batch_check(start, limit, headers@) is Ok,
            Err(e) => header_batch_check(start, limit, headers@) == Err::<(), SyncErrorView>(e@),
        },
{
    if headers.len() > limit {
        return Err(SyncError::HeaderBatchTooLarge { limit, received: headers.len() });
    }
    let n = headers.len();
    let mut expected = start;
    let mut index: usize = 0;
    while index < n
        invariant
            index <= n,
            n == headers@.len(),
            n <= limit,
            header_batch_check(start, limit, headers@) == header_sequence_check(
                headers@,
                index as int,
                expected,
            ),
        decreases n - index,
    {
        let header = headers[index];
        if header.number != expected {
            return Err(SyncError::InvalidHeaderSequence { expected, got: header.number });
        }
        if index < n - 1 {
            expected = match expected.checked_add(1) {
                Some(next) => next,
                None => {
                    return Err(SyncError::HeaderSequenceOverflow { last_header: header.number });
                },
            };
        }
        index = index + 1;
    }
    Ok(())
}

/// The report of executing `header` with `body`.
pub open spec fn step_of(header: HeaderRef, body: BlockBodyRef) -> SyncStepReport {
    SyncStepReport { header_number: header.number, tx_count: body.tx_count }
}

/// The outcome of handing the blocks of `hs`, with `bodies`, to execution
/// in order, where `outcomes` are the answers of execution: each block
/// executed is reported, and a refused block ends the pass with the reason.
pub open spec fn execution_outcome(
    hs: Seq<HeaderRef>,
    bodies: Seq<BlockBodyRef>,
    outcomes: Seq<Result<(), Seq<char>>>,
) -> Result<Seq<SyncStepReport>, SyncErrorView>
    decreases outcomes.len(),
{
    if outcomes.len() == 0 {
        Ok(Seq::empty())
    } else {
        let n = outcomes.len() - 1;
        match execution_outcome(hs, bodies.drop_last(), outcomes.drop_last()) {
            Err(e) => Err(e),
            Ok(steps) => match outcomes.last() {
                Err(reason) => Err(
                    SyncErrorView::ExecutionFailed { header_number: hs[n].number, reason },
                ),
                Ok(_) => Ok(steps.push(step_of(hs[n], bodies.last()))),
            },
        }
    }
}

/// Whether a sync pass from `start` of at most `limit` blocks, whose source
/// answered the headers `hs` and the `bodies`, and whose execution answered
/// `outcomes`, ends with `r`. Nothing is fetched for `limit == 0`. Otherwise
/// the batch is checked; if it passes, the blocks are fetched and executed in
/// order until the first refusal or the end of the batch.
pub open spec fn pass_accounts_for(
    start: u64,
    limit: usize,
    hs: Seq<HeaderRef>,
    bodies: Seq<BlockBodyRef>,
    outcomes: Seq<Result<(), Seq<char>>>,
    r: Result<Seq<SyncStepReport>, SyncErrorView>,
) -> bool {
    if limit == 0 {
        &&& hs.len() == 0
        &&& bodies.len() == 0
        &&& outcomes.len() == 0
        &&& r == Ok::<Seq<SyncStepReport>, SyncErrorView>(Seq::empty())
    } else {
        match header_batch_check(start, limit, hs) {
            Err(e) => {
                &&& bodies.len() == 0
                &&& outcomes.len() == 0
                &&& r == Err::<Seq<SyncStepReport>, SyncErrorView>(e)
            },
            Ok(_) => {
                &&& bodies.len() == outcomes.len()
                &&& outcomes.len() <= hs.len()
                &&& forall|i: int| 0 <= i < outcomes.len() - 1 ==> #[trigger] outcomes[i] is Ok
                &&& outcomes.len() < hs.len() ==> outcomes.len() > 0 && outcomes.last() is Err
                &&& r == execution_outcome(hs, bodies, outcomes)
            },
        }
    }
}

/// Whether a sync pass from `start` of at most `limit` blocks, run against
/// `source` and taking the sink from `e0` to `e1`, ended with `r` because the
/// source answered the header batch `hs` and the `bodies` (one per block
/// handed to execution, in order) and the sink went through the states
/// `sinks` answering `outcomes`: the batch is requested once (unless
/// `limit == 0`), each block's body is requested and the block executed
/// once, in batch order, and `pass_accounts_for` gives the result.
pub open spec fn pass_explained<S: SyncSource, E: ExecutionSink>(
    source: S,
    e0: E,
    e1: E,
    start: u64,
    limit: usize,
    hs: Seq<HeaderRef>,
    bodies: Seq<BlockBodyRef>,
    outcomes: Seq<Result<(), Seq<char>>>,
    sinks: Seq<E>,
    r: Result<Seq<SyncStepReport>, SyncErrorView>,
) -> bool {
    &&& pass_accounts_for(start, limit, hs, bodies, outcomes, r)
    &&& limit > 0 ==> source.answers_headers(start, limit, hs)
    &&& forall|i: int| 0 <= i < bodies.len() ==> source.answers_body(hs[i], #[trigger] bodies[i])
    &&& sinks.len() == outcomes.len() + 1
    &&& sinks[0] == e0
    &&& sinks.last() == e1
    &&& forall|i: int|
        0 <= i < outcomes.len() ==> #[trigger] sinks[i].step(
            hs[i],
            bodies[i],
            sinks[i + 1],
            outcomes[i],
        )
}

/// The abstract content of the result of a sync pass.
pub open spec fn pass_view(r: Result<SyncReport, SyncError>) -> Result<
    Seq<SyncStepReport>,
    SyncErrorView,
> {
    match r {
        Ok(report) => Ok(report.steps@),
        Err(e) => Err(e@),
    }
}

/// The view of the error of a step, if any.
pub open spec fn step_error(r: Result<(), SyncError>) -> Option<SyncErrorView> {
    match r {
        Ok(_) => None,
        Err(e) => Some(e@),
    }
}

/// The view of an execution answer.
pub open spec fn outcome_view(o: Result<(), String>) -> Result<(), Seq<char>> {
    match o {
        Ok(_) => Ok(()),
        Err(reason) => Err(reason@),
    }
}

/// Records the execution answer for one block of a sync pass: an acceptance
/// adds the block's step, a refusal becomes the pass's error.
pub fn record_step(
    steps: &mut Vec<SyncStepReport>,
    header: &HeaderRef,
    body: &BlockBodyRef,
    answer: Result<(), String>,
) -> (r: Result<(), SyncError>)
    ensures
        match outcome_view(answer) {
            Ok(_) => r is Ok && final(steps)@ == old(steps)@.push(step_of(*header, *body)),
            Err(reason) => {
                &&& final(steps)@ == old(steps)@
                &&& step_error(r) == Some(
                    SyncErrorView::ExecutionFailed { header_number: header.number, reason },
                )
            },
        },
{
    match answer {
        Ok(_) => {
            steps.push(SyncStepReport { header_number: header.number, tx_count: body.tx_count });
            Ok(())
        },
        Err(reason) => Err(SyncError::ExecutionFailed { header_number: header.number, reason }),
    }
}

/// Coordinates peers and sync passes.
#[derive(Debug)]
pub struct SyncOrchestrator {
    pub peer_manager: PeerManager,
}

impl SyncOrchestrator {
    /// An orchestrator whose peer manager allows `max_peers` sessions.
    pub fn new(max_peers: usize) -> (r: SyncOrchestrator)
        ensures
            r.peer_manager@.max_peers == max_peers,
            r.peer_manager@.sessions == Map::<u128, crate::peer::PeerSessionView>::empty(),
            r.peer_manager@.next_session_id == 1,
            r.peer_manager@.events == Seq::<crate::peer::PeerEvent>::empty(),
    {
        SyncOrchestrator { peer_manager: PeerManager::new(max_peers) }
    }

    /// Connects `peer` through the peer manager.
    pub fn connect_peer(&mut self, peer: PeerInfo) -> (r: Result<(), PeerManagerError>)
        ensures
            final(self).peer_manager@ == connect_result(old(self).peer_manager@, peer@).0,
            r == connect_result(old(self).peer_manager@, peer@).1,
    {
        self.peer_manager.connect(peer)
    }

    /// Disconnects `peer_id` through the peer manager.
    pub fn disconnect_peer(&mut self, peer_id: &PeerId) -> (r: bool)
        ensures
            final(self).peer_manager@ == disconnect_result(old(self).peer_manager@, *peer_id).0,
            r == disconnect_result(old(self).peer_manager@, *peer_id).1,
    {
        self.peer_manager.disconnect(peer_id)
    }

    /// Runs one sync pass from `start` of at most `limit` blocks: fetches
    /// the header batch, checks it, then fetches each body and hands each
    /// block to `execution` in order, stopping at the first refusal. The
    /// answers of the source and of the execution, each an answer they may
    /// give to exactly those requests, account for the result and for the
    /// sink's final state (`pass_explained`).
    pub fn run_once<S: SyncSource, E: ExecutionSink>(
        &mut self,
        source: &S,
        execution: &mut E,
        start: u64,
        limit: usize,
    ) -> (r: Result<SyncReport, SyncError>)
        ensures
            final(self).peer_manager@ == old(self).peer_manager@,
            exists|
                hs: Seq<HeaderRef>,
                bodies: Seq<BlockBodyRef>,
                outcomes: Seq<Result<(), Seq<char>>>,
                sinks: Seq<E>,
            |
                #[trigger] pass_explained(
                    *source,
                    *old(execution),
                    *final(execution),
                    start,
                    limit,
                    hs,
                    bodies,
                    outcomes,
                    sinks,
                    pass_view(r),
                ),
    {
        let ghost e0 = *execution;
        if limit == 0 {
            let r = Ok(SyncReport { steps: Vec::new() });
            proof {
                let hs = Seq::<HeaderRef>::empty();
                let bodies = Seq::<BlockBodyRef>::empty();
                let outcomes = Seq::<Result<(), Seq<char>>>::empty();
                let sinks = seq![e0];
                assert(pass_view(r) =~= Ok::<Seq<SyncStepReport>, SyncErrorView>(Seq::empty()));
                assert(pass_explained(*source, e0, *execution, start, limit, hs, bodies, outcomes, sinks, pass_view(r)));
            }
            return r;
        }
        let headers = source.fetch_headers(start, limit);
        match validate_header_batch(start, limit, headers.as_slice()) {
            Ok(_) => {},
            Err(e) => {
                let r = Err(e);
                proof {
                    let bodies = Seq::<BlockBodyRef>::empty();
                    let outcomes = Seq::<Result<(), Seq<char>>>::empty();
                    let sinks = seq![e0];
                    assert(pass_explained(*source, e0, *execution, start, limit, headers@, bodies, outcomes, sinks, pass_view(r)));
                }
                return r;
            },
        }
        let ghost hs = headers@;
        let ghost mut bodies: Seq<BlockBodyRef> = Seq::empty();
        let ghost mut outcomes: Seq<Result<(), Seq<char>>> = Seq::empty();
        let ghost mut sinks: Seq<E> = seq![e0];
        let n = headers.len();
        let mut steps: Vec<SyncStepReport> = Vec::new();
        let mut index: usize = 0;
        while index < n
            invariant
                index <= n,
                n == hs.len(),
                hs == headers@,
                limit > 0,
                header_batch_check(start, limit, hs) is Ok,
                source.answers_headers(start, limit, hs),
                bodies.len() == index,
                outcomes.len() == index,
                sinks.len() == index + 1,
                sinks[0] == e0,
                e0 == *old(execution),
                sinks.last() == *execution,
                forall|i: int| 0 <= i < bodies.len() ==> source.answers_body(hs[i], #[trigger] bodies[i]),
                forall|i: int|
                    0 <= i < outcomes.len() ==> #[trigger] sinks[i].step(
                        hs[i],
                        bodies[i],
                        sinks[i + 1],
                        outcomes[i],
                    ),
                forall|i: int| 0 <= i < outcomes.len() ==> #[trigger] outcomes[i] is Ok,
                execution_outcome(hs, bodies, outcomes) == Ok::<
                    Seq<SyncStepReport>,
                    SyncErrorView,
                >(steps@),
            decreases n - index,
        {
            let header = headers[index];
            let body = source.fetch_body(&header);
            let ghost before = *execution;
            let answer = execution.execute_synced_block(&header, &body);
            proof {
                let prev_bodies = bodies;
                let prev_outcomes = outcomes;
                let prev_sinks = sinks;
                bodies = bodies.push(body);
                outcomes = outcomes.push(outcome_view(answer));
                sinks = sinks.push(*execution);
                assert(bodies.drop_last() =~= prev_bodies);
                assert(outcomes.drop_last() =~= prev_outcomes);
                assert forall|i: int| 0 <= i < bodies.len() implies source.answers_body(
                    hs[i],
                    #[trigger] bodies[i],
                ) by {
                    if i < index {
                        assert(bodies[i] == prev_bodies[i]);
                    }
                }
                assert forall|i: int| 0 <= i < outcomes.len() implies #[trigger] sinks[i].step(
                    hs[i],
                    bodies[i],
                    sinks[i + 1],
                    outcomes[i],
                ) by {
                    if i < index {
                        assert(sinks[i] == prev_sinks[i] && sinks[i + 1] == prev_sinks[i + 1]);
                        assert(bodies[i] == prev_bodies[i] && outcomes[i] == prev_outcomes[i]);
                    } else {
                        assert(sinks[i] == before);
                    }
                }
            }
            match record_step(&mut steps, &header, &body, answer) {
                Ok(_) => {},
                Err(e) => {
                    let r = Err(e);
                    proof {
                        assert(outcomes.drop_last().len() == index);
                        assert(bodies.drop_last().len() == index);
                        assert(pass_explained(*source, e0, *execution, start, limit, hs, bodies, outcomes, sinks, pass_view(r)));
                    }
                    return r;
                },
            }
            index = index + 1;
        }
        let r = Ok(SyncReport { steps });
        proof {
            assert(pass_explained(*source, e0, *execution, start, limit, hs, bodies, outcomes, sinks, pass_view(r)));
        }
        r
    }
}


/// `x * factor` modulo 2^64.
pub open spec fn wrapping_mul_u64(x: u64, factor: u64) -> u64 {
    ((x as int * factor as int) % 0x1_0000_0000_0000_0000) as u64
}

/// The mock hash of header `number`: the big-endian encodings of `number`,
/// `number * 31`, `number * 131` and `number * 1313` (each modulo 2^64).
pub open spec fn mock_hash_of(number: u64) -> Seq<u8> {
    Seq::new(
        32,
        |i: int|
            if i < 8 {
                be_byte(number, i)
            } else if i < 16 {
                be_byte(wrapping_mul_u64(number, 31), i - 8)
            } else if i < 24 {
                be_byte(wrapping_mul_u64(number, 131), i - 16)
            } else {
                be_byte(wrapping_mul_u64(number, 1313), i - 24)
            },
    )
}

fn wrapping_mul(x: u64, factor: u64) -> (r: u64)
    requires
        factor < 0x1_0000,
    ensures
        r == wrapping_mul_u64(x, factor),
{
    assert((x as int) * (factor as int) <= 0xffff_ffff_ffff_ffff * 0x1_0000) by (nonlinear_arith)
        requires
            x <= 0xffff_ffff_ffff_ffffu64,
            factor < 0x1_0000,
    ;
    let wide: u128 = (x as u128) * (factor as u128);
    (wide % 0x1_0000_0000_0000_0000u128) as u64
}

fn deterministic_hash(number: u64) -> (r: [u8; 32])
    ensures
        r@ == mock_hash_of(number),
{
    let words = [number, wrapping_mul(number, 31), wrapping_mul(number, 131), wrapping_mul(number, 1313)];
    let mut hash = [0u8; 32];
    let mut i: usize = 0;
    while i < 32
        invariant
            i <= 32,
            words@ == seq![number, wrapping_mul_u64(number, 31), wrapping_mul_u64(number, 131), wrapping_mul_u64(number, 1313)],
            forall|j: int| 0 <= j < i ==> hash[j] == mock_hash_of(number)[j],
        decreases 32 - i,
    {
        let b = be_byte_of(words[i / 8], i % 8);
        hash[i] = b;
        i = i + 1;
    }
    assert(hash@ =~= mock_hash_of(number));
    hash
}

/// The headers of `hs` numbered at least `start`, in order.
pub open spec fn headers_at_or_after(hs: Seq<HeaderRef>, start: u64) -> Seq<HeaderRef>
    decreases hs.len(),
{
    if hs.len() == 0 {
        Seq::empty()
    } else if hs.last().number >= start {
        headers_at_or_after(hs.drop_last(), start).push(hs.last())
    } else {
        headers_at_or_after(hs.drop_last(), start)
    }
}

/// The first `limit` elements of `s` (all of them when fewer).
pub open spec fn clip<A>(s: Seq<A>, limit: usize) -> Seq<A> {
    if s.len() <= limit {
        s
    } else {
        s.take(limit as int)
    }
}

/// The tx count table built from `(number, count)` entries; a later entry
/// for a number replaces an earlier one.
pub open spec fn tx_count_table(entries: Seq<(u64, usize)>) -> Map<u64, usize>
    decreases entries.len(),
{
    if entries.len() == 0 {
        Map::empty()
    } else {
        tx_count_table(entries.drop_last()).insert(entries.last().0, entries.last().1)
    }
}

/// A sync source answering from a fixed list of headers and tx counts.
#[derive(Debug, Clone)]
pub struct MockSyncSource {
    headers: Vec<HeaderRef>,
    tx_counts: BTreeMap<u64, usize>,
}

impl MockSyncSource {
    /// The listed headers (in the given order) and their tx counts.
    pub closed spec fn header_list(&self) -> Seq<HeaderRef> {
        self.headers@
    }

    /// The tx count of each listed header number.
    pub closed spec fn tx_count_map(&self) -> Map<u64, usize> {
        self.tx_counts@
    }

    /// A source listing headers `numbers`, in that order, each with the mock
    /// hash of its number and `number % 3 + 1` transactions.
    pub fn from_header_numbers(numbers: &[u64]) -> (r: MockSyncSource)
        ensures
            r.header_list().len() == numbers@.len(),
            forall|i: int| 0 <= i < numbers@.len() ==> {
                &&& (#[trigger] r.header_list()[i]).number == numbers@[i]
                &&& r.header_list()[i].hash@ == mock_hash_of(numbers@[i])
            },
            r.tx_count_map() == tx_count_table(
                numbers@.map_values(|n: u64| (n, (n % 3 + 1) as usize)),
            ),
    {
        let ghost entries = numbers@.map_values(|n: u64| (n, (n % 3 + 1) as usize));
        let mut headers: Vec<HeaderRef> = Vec::new();
        let mut tx_counts: BTreeMap<u64, usize> = BTreeMap::new();
        let mut i: usize = 0;
        assert(entries.take(0) =~= Seq::<(u64, usize)>::empty());
        while i < numbers.len()
            invariant
                i <= numbers@.len(),
                entries == numbers@.map_values(|n: u64| (n, (n % 3 + 1) as usize)),
                headers@.len() == i,
                forall|j: int| 0 <= j < i ==> {
                    &&& (#[trigger] headers@[j]).number == numbers@[j]
                    &&& headers@[j].hash@ == mock_hash_of(numbers@[j])
                },
                tx_counts@ == tx_count_table(entries.take(i as int)),
            decreases numbers@.len() - i,
        {
            let number = numbers[i];
            tx_counts.insert(number, (number % 3) as usize + 1);
            headers.push(HeaderRef { number, hash: deterministic_hash(number) });
            assert(entries.take(i + 1).drop_last() =~= entries.take(i as int));
            i = i + 1;
        }
        assert(entries.take(numbers@.len() as int) =~= entries);
        MockSyncSource { headers, tx_counts }
    }

    /// A source listing the headers of `entries`, in that order, each with the
    /// mock hash of its number and the listed tx count (the last entry for a
    /// number wins).
    pub fn with_tx_counts(entries: &[(u64, usize)]) -> (r: MockSyncSource)
        ensures
            r.header_list().len() == entries@.len(),
            forall|i: int| 0 <= i < entries@.len() ==> {
                &&& (#[trigger] r.header_list()[i]).number == entries@[i].0
                &&& r.header_list()[i].hash@ == mock_hash_of(entries@[i].0)
            },
            r.tx_count_map() == tx_count_table(entries@),
    {
        let mut headers: Vec<HeaderRef> = Vec::new();
        let mut tx_counts: BTreeMap<u64, usize> = BTreeMap::new();
        let mut i: usize = 0;
        assert(entries@.take(0) =~= Seq::<(u64, usize)>::empty());
        while i < entries.len()
            invariant
                i <= entries@.len(),
                headers@.len() == i,
                forall|j: int| 0 <= j < i ==> {
                    &&& (#[trigger] headers@[j]).number == entries@[j].0
                    &&& headers@[j].hash@ == mock_hash_of(entries@[j].0)
                },
                tx_counts@ == tx_count_table(entries@.take(i as int)),
            decreases entries@.len() - i,
        {
            let (number, tx_count) = entries[i];
            tx_counts.insert(number, tx_count);
            headers.push(HeaderRef { number, hash: deterministic_hash(number) });
            assert(entries@.take(i + 1).drop_last() =~= entries@.take(i as int));
            i = i + 1;
        }
        assert(entries@.take(entries@.len() as int) =~= entries@);
        MockSyncSource { headers, tx_counts }
    }
}

impl MockSyncSource {
    /// The listed headers numbered at least `start`, at most `limit` of them.
    pub open spec fn headers_from(&self, start: u64, limit: usize) -> Seq<HeaderRef> {
        clip(headers_at_or_after(self.header_list(), start), limit)
    }

    /// The listed tx count of the header's number, or zero.
    pub open spec fn body_of(&self, header: HeaderRef) -> BlockBodyRef {
        BlockBodyRef {
            tx_count: if self.tx_count_map().contains_key(header.number) {
                self.tx_count_map()[header.number]
            } else {
                0
            },
        }
    }
}

impl SyncSource for MockSyncSource {
    /// The mock answers exactly `headers_from`.
    open spec fn answers_headers(&self, start: u64, limit: usize, headers: Seq<HeaderRef>) -> bool {
        headers == self.headers_from(start, limit)
    }

    /// The mock answers exactly `body_of`.
    open spec fn answers_body(&self, header: HeaderRef, body: BlockBodyRef) -> bool {
        body == self.body_of(header)
    }

    fn fetch_headers(&self, start: u64, limit: usize) -> (r: Vec<HeaderRef>)
        ensures
            r@ == self.headers_from(start, limit),
    {
        let mut out: Vec<HeaderRef> = Vec::new();
        let mut i: usize = 0;
        while i < self.headers.len()
            invariant
                i <= self.headers@.len(),
                out@ == clip(headers_at_or_after(self.headers@.take(i as int), start), limit),
            decreases self.headers@.len() - i,
        {
            let header = self.headers[i];
            let ghost before = headers_at_or_after(self.headers@.take(i as int), start);
            assert(self.headers@.take(i + 1).drop_last() =~= self.headers@.take(i as int));
            assert(self.headers@.take(i + 1).last() == header);
            if header.number >= start && out.len() < limit {
                out.push(header);
                assert(out@ =~= clip(before.push(header), limit));
            } else if header.number >= start {
                assert(clip(before.push(header), limit) =~= clip(before, limit));
            }
            i = i + 1;
        }
        assert(self.headers@.take(self.headers@.len() as int) =~= self.headers@);
        out
    }

    fn fetch_body(&self, header: &HeaderRef) -> (r: BlockBodyRef)
        ensures
            r == self.body_of(*header),
    {
        let tx_count = match self.tx_counts.get(&header.number) {
            Some(count) => *count,
            None => 0,
        };
        BlockBodyRef { tx_count }
    }
}

/// A sink that records what it executes and can be told to fail one header.
#[derive(Debug, Clone)]
pub struct RecordingExecutionSink {
    executed: Vec<(u64, usize)>,
    fail_on_header: Option<u64>,
}

impl RecordingExecutionSink {
    /// A sink that executes everything.
    pub fn new() -> (r: RecordingExecutionSink)
        ensures
            r.log() == (Seq::<(u64, usize)>::empty(), None::<u64>),
    {
        RecordingExecutionSink { executed: Vec::new(), fail_on_header: None }
    }

    /// A sink that refuses header `header_number` and executes everything else.
    pub fn with_failure(header_number: u64) -> (r: RecordingExecutionSink)
        ensures
            r.log() == (Seq::<(u64, usize)>::empty(), Some(header_number)),
    {
        RecordingExecutionSink { executed: Vec::new(), fail_on_header: Some(header_number) }
    }

    /// The `(header number, tx count)` pairs executed so far, in order.
    pub fn executed(&self) -> (r: &[(u64, usize)])
        ensures
            r@ == self.log().0,
    {
        self.executed.as_slice()
    }
}

impl Default for RecordingExecutionSink {
    fn default() -> (r: RecordingExecutionSink)
        ensures
            r.log() == (Seq::<(u64, usize)>::empty(), None::<u64>),
    {
        RecordingExecutionSink::new()
    }
}

impl RecordingExecutionSink {
    /// The executed pairs, and the header to refuse.
    pub closed spec fn log(&self) -> (Seq<(u64, usize)>, Option<u64>) {
        (self.executed@, self.fail_on_header)
    }

    /// The record after, and the answer of, executing a block: the refused
    /// header fails with "forced failure"; any other is recorded.
    pub open spec fn execution(
        log: (Seq<(u64, usize)>, Option<u64>),
        header: HeaderRef,
        body: BlockBodyRef,
    ) -> ((Seq<(u64, usize)>, Option<u64>), Result<(), Seq<char>>) {
        if log.1 == Some(header.number) {
            (log, Err("forced failure"@))
        } else {
            ((log.0.push((header.number, body.tx_count)), log.1), Ok(()))
        }
    }
}

impl ExecutionSink for RecordingExecutionSink {
    /// The recording sink steps exactly as `execution` states.
    open spec fn step(
        &self,
        header: HeaderRef,
        body: BlockBodyRef,
        next: Self,
        answer: Result<(), Seq<char>>,
    ) -> bool {
        (next.log(), answer) == RecordingExecutionSink::execution(self.log(), header, body)
    }

    fn execute_synced_block(&mut self, header: &HeaderRef, body: &BlockBodyRef) -> (r: Result<
        (),
        String,
    >)
        ensures
            final(self).log() == RecordingExecutionSink::execution(old(self).log(), *header, *body).0,
            outcome_view(r) == RecordingExecutionSink::execution(old(self).log(), *header, *body).1,
    {
        let refused = match self.fail_on_header {
            Some(n) => n == header.number,
            None => false,
        };
        if refused {
            return Err(String::from_str("forced failure"));
        }
        self.executed.push((header.number, body.tx_count));
        Ok(())
    }
}

} // verus!

verus! {

proof fn lemma_sequence_check_consecutive(hs: Seq<HeaderRef>, i: int, expected: u64)
    requires
        0 <= i <= hs.len(),
    ensures
        header_sequence_check(hs, i, expected) is Ok <==> forall|k: int|
            i <= k < hs.len() ==> #[trigger] hs[k].number == expected + (k - i),
    decreases hs.len() - i,
{
    if i < hs.len() {
        if hs[i].number != expected {
        } else if i + 1 < hs.len() {
            if expected == u64::MAX {
                assert(hs[i + 1].number <= u64::MAX);
            } else {
                lemma_sequence_check_consecutive(hs, i + 1, (expected + 1) as u64);
                if header_sequence_check(hs, i + 1, (expected + 1) as u64) is Ok {
                    assert forall|k: int| i <= k < hs.len() implies #[trigger] hs[k].number
                        == expected + (k - i) by {
                        if k > i {
                            assert(hs[k].number == (expected + 1) + (k - (i + 1)));
                        }
                    }
                } else {
                    let k = choose|k: int|
                        i + 1 <= k < hs.len() && #[trigger] hs[k].number != (expected + 1) + (k - (
                        i + 1));
                    assert(hs[k].number != expected + (k - i));
                }
            }
        }
    }
}

/// A header batch passes its check exactly when it holds at most `limit`
/// headers numbered `start`, `start + 1`, ... in order.
pub proof fn lemma_header_batch_check_is_consecutive(start: u64, limit: usize, hs: Seq<HeaderRef>)
    ensures
        header_batch_check(start, limit, hs) is Ok <==> (hs.len() <= limit && forall|k: int|
            0 <= k < hs.len() ==> #[trigger] hs[k].number == start + k),
{
    if hs.len() <= limit {
        lemma_sequence_check_consecutive(hs, 0, start);
    }
}

proof fn lemma_execution_outcome_steps(
    hs: Seq<HeaderRef>,
    bodies: Seq<BlockBodyRef>,
    outcomes: Seq<Result<(), Seq<char>>>,
)
    requires
        bodies.len() == outcomes.len(),
        execution_outcome(hs, bodies, outcomes) is Ok,
    ensures
        ({
            let steps = execution_outcome(hs, bodies, outcomes)->Ok_0;
            &&& steps.len() == outcomes.len()
            &&& forall|i: int|
                0 <= i < outcomes.len() ==> #[trigger] steps[i] == step_of(hs[i], bodies[i])
        }),
    decreases outcomes.len(),
{
    if outcomes.len() > 0 {
        lemma_execution_outcome_steps(hs, bodies.drop_last(), outcomes.drop_last());
        let steps = execution_outcome(hs, bodies, outcomes)->Ok_0;
        assert forall|i: int| 0 <= i < outcomes.len() implies #[trigger] steps[i] == step_of(
            hs[i],
            bodies[i],
        ) by {
            if i < outcomes.len() - 1 {
                assert(bodies.drop_last()[i] == bodies[i]);
            }
        }
    }
}

/// A sync pass that succeeds reports one step per header of the batch, in
/// order: the headers numbered `start`, `start + 1`, ..., at most `limit` of
/// them, each with the body the source gave for it.
pub proof fn lemma_sync_steps_follow_headers(
    start: u64,
    limit: usize,
    hs: Seq<HeaderRef>,
    bodies: Seq<BlockBodyRef>,
    outcomes: Seq<Result<(), Seq<char>>>,
    steps: Seq<SyncStepReport>,
)
    requires
        pass_accounts_for(
            start,
            limit,
            hs,
            bodies,
            outcomes,
            Ok::<Seq<SyncStepReport>, SyncErrorView>(steps),
        ),
    ensures
        steps.len() <= limit,
        forall|i: int| 0 <= i < steps.len() ==> #[trigger] steps[i].header_number == start + i,
        limit > 0 ==> steps.len() == hs.len(),
        forall|i: int|
            0 <= i < steps.len() ==> #[trigger] steps[i].tx_count == bodies[i].tx_count,
{
    if limit > 0 {
        lemma_header_batch_check_is_consecutive(start, limit, hs);
        lemma_execution_outcome_steps(hs, bodies, outcomes);
        if outcomes.len() < hs.len() {
            assert(outcomes.last() is Err);
            lemma_failed_execution_fails(hs, bodies, outcomes);
        }
        assert forall|i: int| 0 <= i < steps.len() implies #[trigger] steps[i].header_number
            == start + i by {
            assert(steps[i] == step_of(hs[i], bodies[i]));
            assert(hs[i].number == start + i);
        }
        assert forall|i: int| 0 <= i < steps.len() implies #[trigger] steps[i].tx_count
            == bodies[i].tx_count by {
            assert(steps[i] == step_of(hs[i], bodies[i]));
        }
    }
}

proof fn lemma_failed_execution_fails(
    hs: Seq<HeaderRef>,
    bodies: Seq<BlockBodyRef>,
    outcomes: Seq<Result<(), Seq<char>>>,
)
    requires
        outcomes.len() > 0,
        outcomes.last() is Err,
    ensures
        execution_outcome(hs, bodies, outcomes) is Err,
{
}


/// A sync pass is determined by what the source and the execution answer:
/// two passes with the same request and the same answers end alike.
pub proof fn lemma_sync_pass_is_deterministic(
    start: u64,
    limit: usize,
    hs: Seq<HeaderRef>,
    bodies: Seq<BlockBodyRef>,
    outcomes: Seq<Result<(), Seq<char>>>,
    r1: Result<Seq<SyncStepReport>, SyncErrorView>,
    r2: Result<Seq<SyncStepReport>, SyncErrorView>,
)
    requires
        pass_accounts_for(start, limit, hs, bodies, outcomes, r1),
        pass_accounts_for(start, limit, hs, bodies, outcomes, r2),
    ensures
        r1 == r2,
{
}


/// The record and result after the recording sink executes the first `n`
/// blocks of `hs`, with the mock source's bodies, in order, stopping at the
/// first refusal.
pub open spec fn recorded_prefix(
    source: MockSyncSource,
    log: (Seq<(u64, usize)>, Option<u64>),
    hs: Seq<HeaderRef>,
    n: nat,
) -> ((Seq<(u64, usize)>, Option<u64>), Result<Seq<SyncStepReport>, SyncErrorView>)
    decreases n,
{
    if n == 0 {
        (log, Ok(Seq::empty()))
    } else {
        let (l1, r) = recorded_prefix(source, log, hs, (n - 1) as nat);
        match r {
            Err(e) => (l1, Err(e)),
            Ok(steps) => {
                let h = hs[n - 1];
                let b = source.body_of(h);
                let (l2, o) = RecordingExecutionSink::execution(l1, h, b);
                match o {
                    Err(reason) => (
                        l2,
                        Err(SyncErrorView::ExecutionFailed { header_number: h.number, reason }),
                    ),
                    Ok(_) => (l2, Ok(steps.push(step_of(h, b)))),
                }
            },
        }
    }
}

/// The record and result of a sync pass of the mock source into the
/// recording sink whose record was `log`.
pub open spec fn recorded_pass(
    source: MockSyncSource,
    log: (Seq<(u64, usize)>, Option<u64>),
    start: u64,
    limit: usize,
) -> ((Seq<(u64, usize)>, Option<u64>), Result<Seq<SyncStepReport>, SyncErrorView>) {
    if limit == 0 {
        (log, Ok(Seq::empty()))
    } else {
        let hs = source.headers_from(start, limit);
        match header_batch_check(start, limit, hs) {
            Err(e) => (log, Err(e)),
            Ok(_) => recorded_prefix(source, log, hs, hs.len()),
        }
    }
}

proof fn lemma_all_accepted_is_ok(
    hs: Seq<HeaderRef>,
    bodies: Seq<BlockBodyRef>,
    outcomes: Seq<Result<(), Seq<char>>>,
)
    requires
        forall|j: int| 0 <= j < outcomes.len() ==> #[trigger] outcomes[j] is Ok,
    ensures
        execution_outcome(hs, bodies, outcomes) is Ok,
    decreases outcomes.len(),
{
    if outcomes.len() > 0 {
        lemma_all_accepted_is_ok(hs, bodies.drop_last(), outcomes.drop_last());
        assert(outcomes.last() == outcomes[outcomes.len() - 1]);
    }
}

proof fn lemma_recorded_failure_sticks(
    source: MockSyncSource,
    log: (Seq<(u64, usize)>, Option<u64>),
    hs: Seq<HeaderRef>,
    i: nat,
    k: nat,
)
    requires
        i <= k,
        recorded_prefix(source, log, hs, i).1 is Err,
    ensures
        recorded_prefix(source, log, hs, k) == recorded_prefix(source, log, hs, i),
    decreases k - i,
{
    if k > i {
        lemma_recorded_failure_sticks(source, log, hs, i, (k - 1) as nat);
    }
}

proof fn lemma_recorded_prefix_follows_trace(
    source: MockSyncSource,
    hs: Seq<HeaderRef>,
    b: Seq<BlockBodyRef>,
    o: Seq<Result<(), Seq<char>>>,
    s: Seq<RecordingExecutionSink>,
    i: nat,
)
    requires
        i <= o.len(),
        o.len() <= hs.len(),
        b.len() == o.len(),
        s.len() == o.len() + 1,
        forall|j: int| 0 <= j < o.len() - 1 ==> #[trigger] o[j] is Ok,
        forall|j: int| 0 <= j < b.len() ==> source.answers_body(hs[j], #[trigger] b[j]),
        forall|j: int| 0 <= j < o.len() ==> #[trigger] s[j].step(hs[j], b[j], s[j + 1], o[j]),
    ensures
        recorded_prefix(source, s[0].log(), hs, i) == (
            s[i as int].log(),
            execution_outcome(hs, b.take(i as int), o.take(i as int)),
        ),
    decreases i,
{
    if i > 0 {
        let j = i - 1;
        lemma_recorded_prefix_follows_trace(source, hs, b, o, s, j as nat);
        assert(o.take(j).len() == j);
        assert forall|q: int| 0 <= q < o.take(j).len() implies #[trigger] o.take(j)[q] is Ok by {
            assert(o.take(j)[q] == o[q]);
        }
        lemma_all_accepted_is_ok(hs, b.take(j), o.take(j));
        assert(b.take(i as int).drop_last() =~= b.take(j));
        assert(o.take(i as int).drop_last() =~= o.take(j));
        assert(b.take(i as int).last() == b[j]);
        assert(o.take(i as int).last() == o[j]);
        assert(source.answers_body(hs[j], b[j]));
        assert(s[j].step(hs[j], b[j], s[j + 1], o[j]));
    }
}

/// A sync pass of the mock source into the recording sink ends as
/// `recorded_pass` states: the result, and what the sink recorded, are those
/// of executing the mock's batch in order until the first refusal.
pub proof fn lemma_recorded_mock_pass(
    source: MockSyncSource,
    e0: RecordingExecutionSink,
    e1: RecordingExecutionSink,
    start: u64,
    limit: usize,
    hs: Seq<HeaderRef>,
    b: Seq<BlockBodyRef>,
    o: Seq<Result<(), Seq<char>>>,
    s: Seq<RecordingExecutionSink>,
    r: Result<Seq<SyncStepReport>, SyncErrorView>,
)
    requires
        pass_explained(source, e0, e1, start, limit, hs, b, o, s, r),
    ensures
        (e1.log(), r) == recorded_pass(source, e0.log(), start, limit),
{
    assert(pass_accounts_for(start, limit, hs, b, o, r));
    if limit > 0 && header_batch_check(start, limit, hs) is Ok {
        let n = o.len();
        lemma_recorded_prefix_follows_trace(source, hs, b, o, s, n);
        assert(b.take(n as int) =~= b);
        assert(o.take(n as int) =~= o);
        if n < hs.len() {
            assert(o.last() is Err);
            lemma_failed_execution_fails(hs, b, o);
            lemma_recorded_failure_sticks(source, e0.log(), hs, n, hs.len());
        }
    }
}


proof fn lemma_headers_at_or_after_is_filter(hs: Seq<HeaderRef>, start: u64)
    ensures
        headers_at_or_after(hs, start) == hs.filter(|h: HeaderRef| h.number >= start),
    decreases hs.len(),
{
    reveal(Seq::filter);
    if hs.len() > 0 {
        lemma_headers_at_or_after_is_filter(hs.drop_last(), start);
    }
}

/// The mock source answers a request from `start` of at most `limit`
/// headers with its listed headers numbered at least `start`, in listed
/// order, cut at `limit`: every answered header is numbered at least
/// `start`, and there are `limit` of them, or all such listed headers when
/// fewer.
pub proof fn lemma_mock_answers_first_headers_from_start(
    source: MockSyncSource,
    start: u64,
    limit: usize,
)
    ensures
        ({
            let r = source.headers_from(start, limit);
            let wanted = source.header_list().filter(|h: HeaderRef| h.number >= start);
            &&& forall|i: int| 0 <= i < r.len() ==> #[trigger] r[i].number >= start
            &&& r.len() == (if wanted.len() < limit {
                wanted.len() as int
            } else {
                limit as int
            })
            &&& forall|i: int| 0 <= i < r.len() ==> #[trigger] r[i] == wanted[i]
        }),
{
    let wanted = source.header_list().filter(|h: HeaderRef| h.number >= start);
    lemma_headers_at_or_after_is_filter(source.header_list(), start);
    let r = source.headers_from(start, limit);
    assert forall|i: int| 0 <= i < r.len() implies #[trigger] r[i].number >= start by {
        assert(r[i] == wanted[i]);
        source.header_list().lemma_filter_pred(|h: HeaderRef| h.number >= start, i);
    }
}

} // verus!
