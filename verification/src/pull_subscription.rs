//! The consumer handle behind a pull subscription, and batched retrieval.
//!
//! The library decides and the caller acts: a release says which request, if
//! any, the caller owes the administrative context, and a fetch is a request
//! for the transport and a rule for what its reply becomes.

use crate::headers::Headers;
use vstd::prelude::*;

verus! {

/// How the server expects delivered messages to be acknowledged.
#[derive(Clone, Copy, Debug, PartialEq, Eq, Structural)]
pub enum AckPolicy {
    /// No acknowledgement is owed.
    NoAck,
    /// Acknowledging one message acknowledges all before it.
    All,
    /// Each message is to be acknowledged by itself.
    Explicit,
}

/// Whether a handle answers for deleting its consumer.
#[derive(Clone, Copy, Debug, PartialEq, Eq, Structural)]
pub enum ConsumerOwnership {
    /// The consumer was made for this handle and goes with it.
    Owned,
    /// The consumer was there before and outlives the handle.
    Borrowed,
}

/// The configuration of a consumer, as far as a subscription reads it.
#[derive(Clone, Copy, Debug)]
pub struct ConsumerConfig {
    pub ack_policy: AckPolicy,
}

/// A consumer as the administrative interface resolved it.
#[derive(Clone, Debug)]
pub struct ConsumerInfo {
    pub stream_name: String,
    pub name: String,
    pub config: ConsumerConfig,
}

/// A message as the transport hands it over.
#[derive(Clone, Debug)]
pub struct Message {
    pub subject: String,
    pub data: Vec<u8>,
    pub headers: Option<Headers>,
    pub reply: Option<String>,
}

/// What a release asks of the caller.
#[derive(Debug)]
pub enum Teardown {
    /// Nothing is to be done.
    Nothing,
    /// The consumer is to be deleted; the outcome of that request is of no
    /// interest.
    DeleteConsumer { stream: String, consumer: String },
}

/// The request that a fetch sends to the transport.
#[derive(Clone, Debug)]
pub struct PullRequest {
    pub stream: String,
    pub consumer: String,
    pub batch: i64,
}

/// How the transport's reply to a pull request ended.
#[derive(Clone, Copy, Debug, PartialEq, Eq, Structural)]
pub enum ReplyEnd {
    /// The batch is complete.
    Exhausted,
    /// The request expired first.
    Expired,
    /// The caller gave the fetch up; what had arrived by then is kept.
    Cancelled,
    /// The connection was lost or the protocol violated.
    Failed,
}

/// The reply of the transport: the messages that arrived, in order of
/// arrival, and how the reply ended.
#[derive(Clone, Debug)]
pub struct TransportReply {
    pub messages: Vec<Message>,
    pub end: ReplyEnd,
}

/// Why a fetch gave no messages.
#[derive(Clone, Copy, Debug, PartialEq, Eq, Structural)]
pub enum FetchError {
    /// The batch size is not positive.
    InvalidBatch,
    /// The request could not be serviced and nothing had arrived.
    TransportFailure,
}

/// The messages of one fetch, in the order of their arrival.
#[derive(Clone, Debug)]
pub struct Fetch {
    pub messages: Vec<Message>,
}

/// The state shared by all holders of one subscription.
#[derive(Debug)]
pub struct ConsumerHandle {
    pub stream: String,
    pub consumer: String,
    pub consumer_ack_policy: AckPolicy,
    pub consumer_ownership: ConsumerOwnership,
    /// The number of holders; zero once the handle is torn down.
    pub holders: u64,
}

/// A handle that retrieves messages in batches, on demand.
#[derive(Debug)]
pub struct PullSubscription(pub ConsumerHandle);

/// The number of holders that one release leaves of `holders`.
pub open spec fn holders_after_release(holders: nat) -> nat {
    if holders == 0 {
        0
    } else {
        (holders - 1) as nat
    }
}

/// Whether a release among `holders` holders is the last one, the one that
/// tears the handle down.
pub open spec fn is_last_release(holders: nat) -> bool {
    holders == 1
}

/// The number of teardowns that `releases` releases in a row run on a handle
/// with `holders` holders.
pub open spec fn teardowns(holders: nat, releases: nat) -> nat
    decreases releases,
{
    if releases == 0 {
        0
    } else {
        let now: nat = if is_last_release(holders) {
            1
        } else {
            0
        };
        now + teardowns(holders_after_release(holders), (releases - 1) as nat)
    }
}

/// The number of delete requests that `releases` releases in a row ask for.
pub open spec fn deletions(ownership: ConsumerOwnership, holders: nat, releases: nat) -> nat {
    match ownership {
        ConsumerOwnership::Owned => teardowns(holders, releases),
        ConsumerOwnership::Borrowed => 0,
    }
}

/// Teardown runs once and only once: releases that leave a holder run none,
/// and from the release of the last holder on exactly one has run, however
/// many releases follow. Holders are counted and not told apart, so the
/// order in which they release does not enter.
pub proof fn lemma_teardown_exactly_once(holders: nat, releases: nat)
    ensures
        teardowns(holders, releases) == if 1 <= holders <= releases {
            1nat
        } else {
            0nat
        },
    decreases releases,
{
    if releases > 0 {
        lemma_teardown_exactly_once(holders_after_release(holders), (releases - 1) as nat);
    }
}

/// A handle that owns its consumer asks for one delete request when its last
/// holder is released and for none before; one that borrows it asks for none
/// at all.
pub proof fn lemma_deletions_by_ownership(ownership: ConsumerOwnership, holders: nat, releases: nat)
    ensures
        ownership == ConsumerOwnership::Owned && 1 <= holders <= releases ==> deletions(
            ownership,
            holders,
            releases,
        ) == 1,
        ownership == ConsumerOwnership::Owned && releases < holders ==> deletions(
            ownership,
            holders,
            releases,
        ) == 0,
        ownership == ConsumerOwnership::Borrowed ==> deletions(ownership, holders, releases) == 0,
{
    lemma_teardown_exactly_once(holders, releases);
}

/// What the transport's reply becomes for a fetch of `batch` messages.
pub open spec fn fetch_outcome(batch: i64, messages: Seq<Message>, end: ReplyEnd) -> Result<
    Seq<Message>,
    FetchError,
> {
    if batch <= 0 {
        Err(FetchError::InvalidBatch)
    } else if end == ReplyEnd::Failed && messages.len() == 0 {
        Err(FetchError::TransportFailure)
    } else if messages.len() > batch {
        Ok(messages.take(batch as int))
    } else {
        Ok(messages)
    }
}

impl ConsumerHandle {
    /// Binds a handle with one holder to the consumer that `consumer_info`
    /// names.
    pub fn new(consumer_info: ConsumerInfo, consumer_ownership: ConsumerOwnership) -> (r:
        ConsumerHandle)
        ensures
            r.stream == consumer_info.stream_name,
            r.consumer == consumer_info.name,
            r.consumer_ack_policy == consumer_info.config.ack_policy,
            r.consumer_ownership == consumer_ownership,
            r.holders == 1,
    {
        ConsumerHandle {
            stream: consumer_info.stream_name,
            consumer: consumer_info.name,
            consumer_ack_policy: consumer_info.config.ack_policy,
            consumer_ownership,
            holders: 1,
        }
    }

    /// Counts one more holder. A handle that is torn down, or whose count is
    /// at its limit, takes none and says so.
    pub fn acquire(&mut self) -> (r: bool)
        ensures
            r == (0 < old(self).holders < u64::MAX),
            final(self).holders == if r {
                old(self).holders + 1
            } else {
                old(self).holders as int
            },
            final(self).stream == old(self).stream,
            final(self).consumer == old(self).consumer,
            final(self).consumer_ack_policy == old(self).consumer_ack_policy,
            final(self).consumer_ownership == old(self).consumer_ownership,
    {
        if 0 < self.holders && self.holders < u64::MAX {
            self.holders = self.holders + 1;
            true
        } else {
            false
        }
    }

    /// Releases one holder. The release of the last holder tears the handle
    /// down: it asks for the consumer to be deleted where the handle owns
    /// it. Every other release asks for nothing.
    pub fn release(&mut self) -> (r: Teardown)
        ensures
            final(self).holders == holders_after_release(old(self).holders as nat),
            final(self).stream == old(self).stream,
            final(self).consumer == old(self).consumer,
            final(self).consumer_ack_policy == old(self).consumer_ack_policy,
            final(self).consumer_ownership == old(self).consumer_ownership,
            is_last_release(old(self).holders as nat) ==> teardown_matches(r, *old(self)),
            !is_last_release(old(self).holders as nat) ==> r is Nothing,
    {
        if self.holders == 0 {
            return Teardown::Nothing;
        }
        self.holders = self.holders - 1;
        if self.holders == 0 {
            match self.consumer_ownership {
                ConsumerOwnership::Owned => Teardown::DeleteConsumer {
                    stream: self.stream.clone(),
                    consumer: self.consumer.clone(),
                },
                ConsumerOwnership::Borrowed => Teardown::Nothing,
            }
        } else {
            Teardown::Nothing
        }
    }
}

/// Whether `r` is the teardown of `handle`: a delete request for its stream
/// and consumer where it owns the consumer, nothing where it does not.
pub open spec fn teardown_matches(r: Teardown, handle: ConsumerHandle) -> bool {
    match handle.consumer_ownership {
        ConsumerOwnership::Owned => r matches Teardown::DeleteConsumer { stream, consumer }
            && stream@ == handle.stream@ && consumer@ == handle.consumer@,
        ConsumerOwnership::Borrowed => r is Nothing,
    }
}

impl PullSubscription {
    /// Creates a subscription, the first holder of its handle.
    pub fn new(consumer_info: ConsumerInfo, consumer_ownership: ConsumerOwnership) -> (r:
        PullSubscription)
        ensures
            r.0.stream == consumer_info.stream_name,
            r.0.consumer == consumer_info.name,
            r.0.consumer_ack_policy == consumer_info.config.ack_policy,
            r.0.consumer_ownership == consumer_ownership,
            r.0.holders == 1,
    {
        PullSubscription(ConsumerHandle::new(consumer_info, consumer_ownership))
    }

    /// Counts one more holder of the subscription, as a clone of it is made.
    /// A subscription that is torn down, or whose count is at its limit,
    /// takes none and says so.
    pub fn share(&mut self) -> (r: bool)
        ensures
            r == (0 < old(self).0.holders < u64::MAX),
            final(self).0.holders == if r {
                old(self).0.holders + 1
            } else {
                old(self).0.holders as int
            },
            final(self).0.stream == old(self).0.stream,
            final(self).0.consumer == old(self).0.consumer,
            final(self).0.consumer_ack_policy == old(self).0.consumer_ack_policy,
            final(self).0.consumer_ownership == old(self).0.consumer_ownership,
    {
        self.0.acquire()
    }

    /// Releases one holder of the subscription. Only the release of the
    /// last holder asks for anything: that the consumer be deleted, where
    /// the subscription owns it.
    pub fn release(&mut self) -> (r: Teardown)
        ensures
            final(self).0.holders == holders_after_release(old(self).0.holders as nat),
            final(self).0.stream == old(self).0.stream,
            final(self).0.consumer == old(self).0.consumer,
            final(self).0.consumer_ack_policy == old(self).0.consumer_ack_policy,
            final(self).0.consumer_ownership == old(self).0.consumer_ownership,
            is_last_release(old(self).0.holders as nat) ==> teardown_matches(r, old(self).0),
            !is_last_release(old(self).0.holders as nat) ==> r is Nothing,
    {
        self.0.release()
    }

    /// The acknowledgement that the caller owes for each message fetched.
    pub fn ack_policy(&self) -> (r: AckPolicy)
        ensures
            r == self.0.consumer_ack_policy,
    {
        self.0.consumer_ack_policy
    }

    /// The request that a fetch of `batch` messages sends, or the refusal of
    /// a batch size that is not positive.
    pub fn request(&self, batch: i64) -> (r: Result<PullRequest, FetchError>)
        ensures
            batch <= 0 ==> r == Err::<PullRequest, FetchError>(FetchError::InvalidBatch),
            batch > 0 ==> r is Ok && r->Ok_0.stream@ == self.0.stream@ && r->Ok_0.consumer@
                == self.0.consumer@ && r->Ok_0.batch == batch,
    {
        if batch <= 0 {
            Err(FetchError::InvalidBatch)
        } else {
            Ok(PullRequest { stream: self.0.stream.clone(), consumer: self.0.consumer.clone(), batch })
        }
    }

    /// Turns the transport's reply to a request for `batch` messages into
    /// the result of the fetch: at most `batch` messages, in the order of
    /// their arrival. A reply that expired or was given up is no error,
    /// even with no message; one that failed with no message is.
    pub fn fetch(&self, batch: i64, reply: TransportReply) -> (r: Result<Fetch, FetchError>)
        ensures
            match fetch_outcome(batch, reply.messages@, reply.end) {
                Ok(messages) => r is Ok && r->Ok_0.messages@ == messages,
                Err(e) => r == Err::<Fetch, FetchError>(e),
            },
            r is Ok ==> r->Ok_0.messages@.len() <= batch,
    {
        if batch <= 0 {
            return Err(FetchError::InvalidBatch);
        }
        let mut messages = reply.messages;
        match reply.end {
            ReplyEnd::Failed => {
                if messages.len() == 0 {
                    return Err(FetchError::TransportFailure);
                }
            },
            _ => {},
        }
        if messages.len() as u64 > batch as u64 {
            messages.truncate(batch as usize);
            proof {
                assert(messages@ =~= reply.messages@.take(batch as int));
            }
        }
        Ok(Fetch { messages })
    }
}

impl Fetch {
    /// The number of messages fetched.
    pub fn len(&self) -> (r: usize)
        ensures
            r == self.messages@.len(),
    {
        self.messages.len()
    }

    /// The message at `index`, if there is one.
    pub fn get(&self, index: usize) -> (r: Option<&Message>)
        ensures
            index < self.messages@.len() ==> r == Some(&self.messages@[index as int]),
            index >= self.messages@.len() ==> r is None,
    {
        if index < self.messages.len() {
            Some(&self.messages[index])
        } else {
            None
        }
    }
}

} // verus!
