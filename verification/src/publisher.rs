//! Telling the pages of the console that the source or the jobs have changed. Each of the two has
//! a channel that holds a generation; a change moves it on, and changes that nobody has looked at
//! yet count as one.

use vstd::prelude::*;
use tokio::sync::watch;

verus! {

/// The sending side of a channel that holds the latest value, `tokio::sync::watch::Sender`.
#[verifier::external_type_specification]
#[verifier::external_body]
#[verifier::reject_recursive_types(T)]
pub struct ExWatchSender<T>(watch::Sender<T>);

/// The receiving side of a channel that holds the latest value, `tokio::sync::watch::Receiver`.
#[verifier::external_type_specification]
#[verifier::external_body]
#[verifier::reject_recursive_types(T)]
pub struct ExWatchReceiver<T>(watch::Receiver<T>);

/// Which channel a sender belongs to. It never changes.
pub uninterp spec fn sender_channel(sender: watch::Sender<u64>) -> int;

/// Which channel a receiver belongs to. It never changes.
pub uninterp spec fn receiver_channel(receiver: watch::Receiver<u64>) -> int;

/// The value that a channel holds after so many changes of it.
pub uninterp spec fn value_held(channel: int, changes: nat) -> u64;

/// The value that a channel was opened with. It never changes, whatever is sent later.
pub open spec fn opening_value(channel: int) -> u64 {
    value_held(channel, 0)
}

/// Whether some change of a channel took it from the generation that it held to the next one, and
/// this is that next one.
pub open spec fn is_published(channel: int, generation: u64) -> bool {
    exists|changes: nat|
        generation == next_generation(#[trigger] value_held(channel, changes)) && generation
            == value_held(channel, changes + 1)
}

/// Calls `tokio::sync::watch::channel`, beside a sender that is still there where one is given.
/// Claims that both sides belong to one channel, that it was opened with the given value, and that
/// it is another one than the channel of that sender: each call makes a shared state of its own.
#[verifier::external_body]
fn open_channel(generation: u64, beside: Option<&watch::Sender<u64>>) -> (sides: (
    watch::Sender<u64>,
    watch::Receiver<u64>,
))
    ensures
        sender_channel(sides.0) == receiver_channel(sides.1),
        value_held(sender_channel(sides.0), 0) == generation,
        beside matches Some(other) ==> sender_channel(sides.0) != sender_channel(*other),
{
    watch::channel(generation)
}

/// Calls `tokio::sync::watch::Sender::subscribe`. Claims that the receiver belongs to the channel
/// of the sender. Which values it has seen depends on the time of the call.
#[verifier::external_body]
fn subscribe(sender: &watch::Sender<u64>) -> (receiver: watch::Receiver<u64>)
    ensures
        receiver_channel(receiver) == sender_channel(*sender),
{
    sender.subscribe()
}

/// Calls `clone` on a `tokio::sync::watch::Sender`. Claims that the copy belongs to the channel of
/// the sender.
#[verifier::external_body]
fn another_sender(sender: &watch::Sender<u64>) -> (copy: watch::Sender<u64>)
    ensures
        sender_channel(copy) == sender_channel(*sender),
{
    sender.clone()
}

/// Calls `tokio::sync::watch::Sender::send_modify` with [`advance_generation`]. Claims that one
/// change of the channel of the sender took it to the next generation, and that this is what comes
/// back. Which change that was depends on the time of the call, and is not stated.
#[verifier::external_body]
fn publish_next(sender: &watch::Sender<u64>) -> (generation: u64)
    ensures
        is_published(sender_channel(*sender), generation),
{
    let mut generation: u64 = 0;
    sender.send_modify(|current| generation = advance_generation(current));
    generation
}

/// The generation behind a generation. Behind the last one the first one follows.
pub open spec fn next_generation(generation: u64) -> u64 {
    if generation == u64::MAX {
        0
    } else {
        (generation + 1) as u64
    }
}

/// Moves a channel on to the next generation, and hands that out.
pub fn advance_generation(current: &mut u64) -> (generation: u64)
    ensures
        *final(current) == next_generation(*old(current)),
        generation == next_generation(*old(current)),
{
    *current = if *current == u64::MAX {
        0
    } else {
        *current + 1
    };
    *current
}

/// The generation after some changes.
pub open spec fn generation_after(start: u64, changes: nat) -> u64
    decreases changes,
{
    if changes == 0 {
        start
    } else {
        next_generation(generation_after(start, (changes - 1) as nat))
    }
}

/// Changes that nobody looked at count as one, but none is lost: within one round of the
/// generations, different numbers of changes lead to different generations.
pub proof fn lemma_changes_are_noticed(start: u64, fewer: nat, more: nat)
    requires
        fewer < more <= fewer + u64::MAX,
    ensures
        generation_after(start, fewer) != generation_after(start, more),
{
    let middle = generation_after(start, fewer);
    lemma_generations_compose(start, fewer, (more - fewer) as nat);
    lemma_generation_after(middle, (more - fewer) as nat);
}

proof fn lemma_generations_compose(start: u64, first: nat, second: nat)
    ensures
        generation_after(start, first + second) == generation_after(
            generation_after(start, first),
            second,
        ),
    decreases second,
{
    if second > 0 {
        lemma_generations_compose(start, first, (second - 1) as nat);
        assert((first + second - 1) as nat == first + (second - 1) as nat);
    }
}

proof fn lemma_generation_after(start: u64, changes: nat)
    requires
        changes <= u64::MAX,
    ensures
        generation_after(start, changes) == if start + changes > u64::MAX {
            start + changes - u64::MAX - 1
        } else {
            start + changes
        },
    decreases changes,
{
    if changes > 0 {
        lemma_generation_after(start, (changes - 1) as nat);
    }
}

/// Where changes of the source and of the jobs are published.
pub struct ConsolePublisher {
    source_dirty: watch::Sender<u64>,
    jobs_changed: watch::Sender<u64>,
}

impl Clone for ConsolePublisher {
    /// Another handle on the same two channels.
    fn clone(&self) -> (publisher: Self)
        ensures
            publisher.source_channel() == self.source_channel(),
            publisher.jobs_channel() == self.jobs_channel(),
    {
        ConsolePublisher {
            source_dirty: another_sender(&self.source_dirty),
            jobs_changed: another_sender(&self.jobs_changed),
        }
    }
}

impl Default for ConsolePublisher {
    /// A publisher of its own.
    fn default() -> (publisher: Self)
        ensures
            opening_value(publisher.source_channel()) == 0,
            opening_value(publisher.jobs_channel()) == 0,
            publisher.source_channel() != publisher.jobs_channel(),
    {
        ConsolePublisher::new()
    }
}

impl ConsolePublisher {
    /// The channel of the changes of the source.
    pub closed spec fn source_channel(&self) -> int {
        sender_channel(self.source_dirty)
    }

    /// The channel of the changes of the jobs.
    pub closed spec fn jobs_channel(&self) -> int {
        sender_channel(self.jobs_changed)
    }

    /// A publisher of its own, with two channels that hold the first generation.
    pub fn new() -> (publisher: Self)
        ensures
            opening_value(publisher.source_channel()) == 0,
            opening_value(publisher.jobs_channel()) == 0,
            publisher.source_channel() != publisher.jobs_channel(),
    {
        let (source_dirty, _) = open_channel(0, None);
        let (jobs_changed, _) = open_channel(0, Some(&source_dirty));
        ConsolePublisher { source_dirty, jobs_changed }
    }
}

/// Publishes a change of the source: moves its channel on to the next generation, and hands that
/// out.
pub fn mark_source_dirty(publisher: &ConsolePublisher) -> (generation: u64)
    ensures
        is_published(publisher.source_channel(), generation),
{
    publish_next(&publisher.source_dirty)
}

/// Hands out a receiver of the changes of the source.
pub fn subscribe_source_changes(publisher: &ConsolePublisher) -> (receiver: watch::Receiver<u64>)
    ensures
        receiver_channel(receiver) == publisher.source_channel(),
{
    subscribe(&publisher.source_dirty)
}

/// Publishes a change of the jobs: moves its channel on to the next generation, and hands that
/// out.
pub fn mark_jobs_changed(publisher: &ConsolePublisher) -> (generation: u64)
    ensures
        is_published(publisher.jobs_channel(), generation),
{
    publish_next(&publisher.jobs_changed)
}

/// Hands out a receiver of the changes of the jobs.
pub fn subscribe_job_changes(publisher: &ConsolePublisher) -> (receiver: watch::Receiver<u64>)
    ensures
        receiver_channel(receiver) == publisher.jobs_channel(),
{
    subscribe(&publisher.jobs_changed)
}

/// A change leads to another generation: to the one behind it, and from the last one to the first.
pub proof fn lemma_next_generation(generation: u64)
    ensures
        next_generation(generation) != generation,
        generation < u64::MAX ==> next_generation(generation) == generation + 1,
        generation == u64::MAX ==> next_generation(generation) == 0,
{
}

} // verus!
