//! Message queues between processes, one endpoint per owner.
use vstd::prelude::*;

use crate::block::copy_bytes;

verus! {

/// Largest payload of one message, in bytes.
pub const MAX_MESSAGE_SIZE: usize = 256;

/// Messages one endpoint can hold.
pub const QUEUE_DEPTH: usize = 16;

/// Endpoints the registry can hold.
pub const MAX_ENDPOINTS: usize = 32;

/// One message: who sent it and its payload.
#[derive(Clone, Copy)]
pub struct Message {
    pub sender: u64,
    length: usize,
    bytes: [u8; 256],
}

impl Message {
    #[verifier::type_invariant]
    closed spec fn inv(self) -> bool {
        self.length <= MAX_MESSAGE_SIZE
    }

    pub closed spec fn spec_sender(self) -> u64 {
        self.sender
    }

    /// The payload bytes.
    pub closed spec fn content(self) -> Seq<u8> {
        self.bytes@.subrange(0, self.length as int)
    }

    pub fn empty() -> (message: Self)
        ensures
            message.spec_sender() == 0,
            message.content() == Seq::<u8>::empty(),
    {
        let message = Message { sender: 0, length: 0, bytes: [0u8; 256] };
        assert(message.content() =~= Seq::<u8>::empty());
        message
    }

    /// A message from `sender` carrying `payload`.
    pub fn new(sender: u64, payload: &[u8]) -> (message: Self)
        requires
            payload@.len() <= MAX_MESSAGE_SIZE,
        ensures
            message.spec_sender() == sender,
            message.content() == payload@,
    {
        let mut bytes = [0u8; 256];
        copy_bytes(&mut bytes, 0, payload, 0, payload.len());
        let message = Message { sender, length: payload.len(), bytes };
        assert(message.content() =~= payload@);
        message
    }

    pub fn payload(&self) -> (payload: &[u8])
        ensures
            payload@ == self.content(),
    {
        proof {
            use_type_invariant(self);
        }
        let length = self.length;
        let bytes: &[u8] = &self.bytes;
        slice_prefix(bytes, length)
    }
}

/// The first `length` bytes of `bytes`.
fn slice_prefix(bytes: &[u8], length: usize) -> (prefix: &[u8])
    requires
        length <= bytes@.len(),
    ensures
        prefix@ == bytes@.subrange(0, length as int),
{
    let (head, _) = bytes.split_at(length);
    head
}

/// Why an IPC operation failed.
#[derive(Clone, Copy, PartialEq, Eq, Structural, Debug)]
pub enum Error {
    EndpointExists,
    NoEndpoint,
    RegistryFull,
    QueueFull,
    QueueEmpty,
    MessageTooLarge,
}

/// The queue of one owner.
pub struct Endpoint {
    owner: u64,
    messages: Vec<Message>,
    length: usize,
}

impl Endpoint {
    pub closed spec fn wf(&self) -> bool {
        &&& self.messages@.len() == QUEUE_DEPTH
        &&& self.length <= QUEUE_DEPTH
    }

    pub closed spec fn spec_owner(&self) -> u64 {
        self.owner
    }

    /// The queued messages, oldest first.
    pub closed spec fn queue(&self) -> Seq<Message> {
        self.messages@.subrange(0, self.length as int)
    }

    fn new(owner: u64) -> (endpoint: Self)
        ensures
            endpoint.wf(),
            endpoint.spec_owner() == owner,
            endpoint.queue() == Seq::<Message>::empty(),
    {
        let mut messages: Vec<Message> = Vec::new();
        let mut i: usize = 0;
        while i < QUEUE_DEPTH
            invariant
                i <= QUEUE_DEPTH,
                messages@.len() == i,
            decreases QUEUE_DEPTH - i,
        {
            messages.push(Message::empty());
            i = i + 1;
        }
        let endpoint = Endpoint { owner, messages, length: 0 };
        assert(endpoint.queue() =~= Seq::<Message>::empty());
        endpoint
    }

    fn enqueue(&mut self, message: Message) -> (result: Result<(), Error>)
        requires
            old(self).wf(),
        ensures
            final(self).wf(),
            final(self).spec_owner() == old(self).spec_owner(),
            result is Err ==> *final(self) == *old(self),
            old(self).queue().len() == QUEUE_DEPTH ==> result == Err::<(), Error>(Error::QueueFull)
                && final(self).queue() == old(self).queue(),
            old(self).queue().len() < QUEUE_DEPTH ==> result is Ok && final(self).queue() == old(
                self,
            ).queue().push(message),
    {
        if self.length == QUEUE_DEPTH {
            return Err(Error::QueueFull);
        }
        self.messages.set(self.length, message);
        self.length = self.length + 1;
        assert(self.queue() =~= old(self).queue().push(message));
        Ok(())
    }

    fn dequeue(&mut self) -> (result: Result<Message, Error>)
        requires
            old(self).wf(),
        ensures
            final(self).wf(),
            final(self).spec_owner() == old(self).spec_owner(),
            result is Err ==> *final(self) == *old(self),
            old(self).queue().len() == 0 ==> result == Err::<Message, Error>(Error::QueueEmpty)
                && final(self).queue() == old(self).queue(),
            old(self).queue().len() > 0 ==> result == Ok::<Message, Error>(old(self).queue()[0])
                && final(self).queue() == old(self).queue().drop_first(),
    {
        if self.length == 0 {
            return Err(Error::QueueEmpty);
        }
        let message = self.messages[0];
        let mut i: usize = 1;
        while i < self.length
            invariant
                1 <= i <= self.length,
                self.length == old(self).length,
                self.length <= QUEUE_DEPTH,
                self.owner == old(self).owner,
                self.messages@.len() == QUEUE_DEPTH,
                forall|k: int| 0 <= k < i - 1 ==> self.messages@[k] == old(self).messages@[k + 1],
                forall|k: int| i <= k < QUEUE_DEPTH ==> self.messages@[k] == old(self).messages@[k],
            decreases self.length - i,
        {
            let next = self.messages[i];
            self.messages.set(i - 1, next);
            i = i + 1;
        }
        self.length = self.length - 1;
        let empty = Message::empty();
        self.messages.set(self.length, empty);
        assert(self.queue() =~= old(self).queue().drop_first());
        Ok(message)
    }
}

/// The endpoint registry.
pub struct State {
    endpoints: Vec<Option<Endpoint>>,
}

/// Slot `i` holds the endpoint of `owner`.
pub open spec fn slot_owned(slots: Seq<Option<Endpoint>>, i: int, owner: u64) -> bool {
    0 <= i < slots.len() && slots[i] is Some && slots[i]->0.spec_owner() == owner
}

impl State {
    pub closed spec fn wf(&self) -> bool {
        &&& self.endpoints@.len() == MAX_ENDPOINTS
        &&& forall|i: int|
            0 <= i < self.endpoints@.len() && (#[trigger] self.endpoints@[i]) is Some
                ==> self.endpoints@[i]->0.wf()
        &&& forall|i: int, j: int|
            #![trigger self.endpoints@[i], self.endpoints@[j]]
            0 <= i < self.endpoints@.len() && 0 <= j < self.endpoints@.len() && i != j
                && self.endpoints@[i] is Some && self.endpoints@[j] is Some
                ==> self.endpoints@[i]->0.spec_owner() != self.endpoints@[j]->0.spec_owner()
    }

    pub closed spec fn slots(&self) -> Seq<Option<Endpoint>> {
        self.endpoints@
    }

    /// Whether `owner` has an endpoint.
    pub open spec fn registered(&self, owner: u64) -> bool {
        exists|i: int| #[trigger] slot_owned(self.slots(), i, owner)
    }

    /// The messages waiting for `owner`, oldest first.
    pub open spec fn queue_of(&self, owner: u64) -> Seq<Message> {
        self.slots()[choose|i: int| #[trigger] slot_owned(self.slots(), i, owner)]->0.queue()
    }

    /// Number of registered endpoints.
    pub open spec fn endpoint_total(&self) -> nat {
        self.slots().filter(|slot: Option<Endpoint>| slot is Some).len()
    }

    pub fn new() -> (state: Self)
        ensures
            state.wf(),
            forall|owner: u64| !state.registered(owner),
            state.slots().len() == MAX_ENDPOINTS,
            forall|i: int| 0 <= i < MAX_ENDPOINTS ==> (#[trigger] state.slots()[i]) is None,
    {
        let mut endpoints: Vec<Option<Endpoint>> = Vec::new();
        let mut i: usize = 0;
        while i < MAX_ENDPOINTS
            invariant
                i <= MAX_ENDPOINTS,
                endpoints@.len() == i,
                forall|k: int| 0 <= k < i ==> (#[trigger] endpoints@[k]) is None,
            decreases MAX_ENDPOINTS - i,
        {
            endpoints.push(None);
            i = i + 1;
        }
        State { endpoints }
    }

    /// The slot holding `owner`'s endpoint.
    fn endpoint_slot(&self, owner: u64) -> (found: Option<usize>)
        requires
            self.wf(),
        ensures
            match found {
                Some(i) => slot_owned(self.slots(), i as int, owner),
                None => !self.registered(owner),
            },
    {
        let mut i: usize = 0;
        while i < self.endpoints.len()
            invariant
                i <= self.endpoints@.len(),
                forall|k: int| 0 <= k < i ==> !slot_owned(self.endpoints@, k, owner),
            decreases self.endpoints@.len() - i,
        {
            match &self.endpoints[i] {
                Some(endpoint) => {
                    if endpoint.owner == owner {
                        return Some(i);
                    }
                },
                None => {},
            }
            i = i + 1;
        }
        None
    }

    /// The endpoint of `owner`, if registered.
    pub fn endpoint(&self, owner: u64) -> (found: Option<&Endpoint>)
        requires
            self.wf(),
        ensures
            found is Some == self.registered(owner),
            found is Some ==> found->0.queue() == self.queue_of(owner) && found->0.wf(),
    {
        match self.endpoint_slot(owner) {
            Some(i) => {
                proof {
                    self.lemma_owner_slot_unique(owner, i as int);
                }
                self.endpoints[i].as_ref()
            },
            None => None,
        }
    }

    proof fn lemma_owner_slot_unique(&self, owner: u64, i: int)
        requires
            self.wf(),
            slot_owned(self.slots(), i, owner),
        ensures
            (choose|k: int| #[trigger] slot_owned(self.slots(), k, owner)) == i,
            self.queue_of(owner) == self.slots()[i]->0.queue(),
    {
        let k = choose|k: int| #[trigger] slot_owned(self.slots(), k, owner);
        assert(slot_owned(self.slots(), k, owner));
        if k != i {
            assert(self.endpoints@[k]->0.spec_owner() != self.endpoints@[i]->0.spec_owner());
        }
    }

    /// Gives `owner` an empty endpoint.
    pub fn register(&mut self, owner: u64) -> (result: Result<(), Error>)
        requires
            old(self).wf(),
        ensures
            final(self).wf(),
            old(self).registered(owner) ==> result == Err::<(), Error>(Error::EndpointExists),
            !old(self).registered(owner) && (forall|i: int|
                0 <= i < old(self).slots().len() ==> (#[trigger] old(self).slots()[i]) is Some)
                ==> result == Err::<(), Error>(Error::RegistryFull),
            result is Err ==> final(self).slots() == old(self).slots(),
            result is Err ==> old(self).registered(owner) || forall|i: int|
                0 <= i < old(self).slots().len() ==> (#[trigger] old(self).slots()[i]) is Some,
            result is Ok ==> exists|j: int|
                0 <= j < old(self).slots().len() && (#[trigger] old(self).slots()[j]) is None && final(self).slots()
                    == old(self).slots().update(j, final(self).slots()[j]),
            result is Ok ==> {
                &&& !old(self).registered(owner)
                &&& final(self).registered(owner)
                &&& final(self).queue_of(owner) == Seq::<Message>::empty()
                &&& forall|other: u64|
                    other != owner ==> final(self).registered(other) == old(self).registered(
                        other,
                    ) && (old(self).registered(other) ==> final(self).queue_of(other) == old(
                        self,
                    ).queue_of(other))
            },
    {
        if self.endpoint_slot(owner).is_some() {
            return Err(Error::EndpointExists);
        }
        let mut i: usize = 0;
        while i < self.endpoints.len()
            invariant
                self.wf(),
                *self == *old(self),
                !self.registered(owner),
                i <= self.endpoints@.len(),
                forall|k: int| 0 <= k < i ==> (#[trigger] self.endpoints@[k]) is Some,
            decreases self.endpoints@.len() - i,
        {
            if self.endpoints[i].is_none() {
                let endpoint = Endpoint::new(owner);
                self.endpoints.set(i, Some(endpoint));
                proof {
                    assert forall|a: int, b: int|
                        #![trigger self.endpoints@[a], self.endpoints@[b]]
                        0 <= a < self.endpoints@.len() && 0 <= b < self.endpoints@.len() && a != b
                            && self.endpoints@[a] is Some && self.endpoints@[b] is Some
                            implies self.endpoints@[a]->0.spec_owner()
                            != self.endpoints@[b]->0.spec_owner() by {
                        if a == i {
                            assert(!slot_owned(old(self).slots(), b, owner));
                        } else if b == i {
                            assert(!slot_owned(old(self).slots(), a, owner));
                        } else {
                            assert(old(self).endpoints@[a] == self.endpoints@[a]);
                            assert(old(self).endpoints@[b] == self.endpoints@[b]);
                        }
                    }
                    assert(self.wf());
                    assert(self.slots() =~= old(self).slots().update(i as int, self.slots()[i as int]));
                    assert(slot_owned(self.slots(), i as int, owner));
                    self.lemma_owner_slot_unique(owner, i as int);
                    assert forall|other: u64| other != owner implies self.registered(other)
                        == old(self).registered(other) && (old(self).registered(other)
                        ==> self.queue_of(other) == old(self).queue_of(other)) by {
                        if old(self).registered(other) {
                            let k = choose|k: int| #[trigger] slot_owned(old(self).slots(), k, other);
                            assert(slot_owned(old(self).slots(), k, other));
                            assert(slot_owned(self.slots(), k, other));
                            old(self).lemma_owner_slot_unique(other, k);
                            self.lemma_owner_slot_unique(other, k);
                        }
                        if self.registered(other) {
                            let k = choose|k: int| #[trigger] slot_owned(self.slots(), k, other);
                            assert(slot_owned(self.slots(), k, other));
                            assert(slot_owned(old(self).slots(), k, other));
                        }
                    }
                }
                return Ok(());
            }
            i = i + 1;
        }
        Err(Error::RegistryFull)
    }

    /// The registry after slot `i`, which holds `owner`'s endpoint, was replaced by
    /// `endpoint` of the same owner: every registration stands, only `owner`'s queue
    /// changed.
    proof fn lemma_replace_slot(&self, before: &State, owner: u64, i: int, endpoint: Endpoint)
        requires
            before.wf(),
            slot_owned(before.slots(), i, owner),
            endpoint.wf(),
            endpoint.spec_owner() == owner,
            self.slots() == before.slots().update(i, Some(endpoint)),
        ensures
            self.wf(),
            self.registered(owner),
            self.queue_of(owner) == endpoint.queue(),
            forall|other: u64| other != owner ==> (self.registered(other) == before.registered(other))
                && (before.registered(other) ==> self.queue_of(other) == before.queue_of(other)),
    {
        assert forall|a: int, b: int|
            #![trigger self.endpoints@[a], self.endpoints@[b]]
            0 <= a < self.endpoints@.len() && 0 <= b < self.endpoints@.len() && a != b
                && self.endpoints@[a] is Some && self.endpoints@[b] is Some
                implies self.endpoints@[a]->0.spec_owner() != self.endpoints@[b]->0.spec_owner() by {
            assert(before.endpoints@[a] is Some && before.endpoints@[b] is Some);
            assert(before.endpoints@[a]->0.spec_owner() != before.endpoints@[b]->0.spec_owner());
        }
        assert(slot_owned(self.slots(), i, owner));
        self.lemma_owner_slot_unique(owner, i);
        assert forall|other: u64| other != owner implies (self.registered(other)
            == before.registered(other)) && (before.registered(other) ==> self.queue_of(other)
            == before.queue_of(other)) by {
            if before.registered(other) {
                let k = choose|k: int| #[trigger] slot_owned(before.slots(), k, other);
                assert(slot_owned(before.slots(), k, other));
                assert(k != i);
                assert(slot_owned(self.slots(), k, other));
                before.lemma_owner_slot_unique(other, k);
                self.lemma_owner_slot_unique(other, k);
            }
            if self.registered(other) {
                let k = choose|k: int| #[trigger] slot_owned(self.slots(), k, other);
                assert(slot_owned(self.slots(), k, other));
                assert(slot_owned(before.slots(), k, other));
            }
        }
    }

    /// Removes `owner`'s endpoint with every message still queued on it.
    pub fn unregister(&mut self, owner: u64) -> (result: Result<(), Error>)
        requires
            old(self).wf(),
        ensures
            final(self).wf(),
            result is Err <==> !old(self).registered(owner),
            result is Err ==> result == Err::<(), Error>(Error::NoEndpoint) && final(self).slots()
                == old(self).slots(),
            result is Ok ==> !final(self).registered(owner),
            forall|other: u64| other != owner ==> (final(self).registered(other) == old(
                self,
            ).registered(other)) && (old(self).registered(other) ==> final(self).queue_of(other)
                == old(self).queue_of(other)),
    {
        match self.endpoint_slot(owner) {
            None => Err(Error::NoEndpoint),
            Some(i) => {
                self.endpoints.set(i, None);
                proof {
                    assert(self.wf()) by {
                        assert forall|a: int, b: int|
                            #![trigger self.endpoints@[a], self.endpoints@[b]]
                            0 <= a < self.endpoints@.len() && 0 <= b < self.endpoints@.len() && a
                                != b && self.endpoints@[a] is Some && self.endpoints@[b] is Some
                                implies self.endpoints@[a]->0.spec_owner()
                                != self.endpoints@[b]->0.spec_owner() by {
                            assert(old(self).endpoints@[a] is Some && old(self).endpoints@[b] is Some);
                        }
                    }
                    if self.registered(owner) {
                        let k = choose|k: int| #[trigger] slot_owned(self.slots(), k, owner);
                        assert(slot_owned(self.slots(), k, owner));
                        assert(slot_owned(old(self).slots(), k, owner));
                        assert(old(self).endpoints@[k]->0.spec_owner() != old(
                            self,
                        ).endpoints@[i as int]->0.spec_owner());
                    }
                    assert forall|other: u64| other != owner implies (self.registered(other)
                        == old(self).registered(other)) && (old(self).registered(other)
                        ==> self.queue_of(other) == old(self).queue_of(other)) by {
                        if old(self).registered(other) {
                            let k = choose|k: int| #[trigger] slot_owned(old(self).slots(), k, other);
                            assert(slot_owned(old(self).slots(), k, other));
                            assert(slot_owned(self.slots(), k, other));
                            old(self).lemma_owner_slot_unique(other, k);
                            self.lemma_owner_slot_unique(other, k);
                        }
                        if self.registered(other) {
                            let k = choose|k: int| #[trigger] slot_owned(self.slots(), k, other);
                            assert(slot_owned(self.slots(), k, other));
                            assert(slot_owned(old(self).slots(), k, other));
                        }
                    }
                }
                Ok(())
            },
        }
    }

    /// Queues a copy of `payload` from `sender` on `receiver`'s endpoint.
    pub fn send(&mut self, sender: u64, receiver: u64, payload: &[u8]) -> (result: Result<(), Error>)
        requires
            old(self).wf(),
        ensures
            final(self).wf(),
            payload@.len() > MAX_MESSAGE_SIZE ==> result == Err::<(), Error>(Error::MessageTooLarge),
            payload@.len() <= MAX_MESSAGE_SIZE && !(old(self).registered(sender) && old(
                self,
            ).registered(receiver)) ==> result == Err::<(), Error>(Error::NoEndpoint),
            payload@.len() <= MAX_MESSAGE_SIZE && old(self).registered(sender) && old(
                self,
            ).registered(receiver) && old(self).queue_of(receiver).len() == QUEUE_DEPTH
                ==> result == Err::<(), Error>(Error::QueueFull),
            result is Err ==> final(self).slots() == old(self).slots(),
            result is Ok <==> payload@.len() <= MAX_MESSAGE_SIZE && old(self).registered(sender)
                && old(self).registered(receiver) && old(self).queue_of(receiver).len()
                < QUEUE_DEPTH,
            result is Ok ==> {
                &&& payload@.len() <= MAX_MESSAGE_SIZE
                &&& old(self).registered(sender)
                &&& old(self).registered(receiver)
                &&& old(self).queue_of(receiver).len() < QUEUE_DEPTH
                &&& final(self).registered(receiver)
                &&& final(self).queue_of(receiver).len() == old(self).queue_of(receiver).len() + 1
                &&& final(self).queue_of(receiver).drop_last() == old(self).queue_of(receiver)
                &&& final(self).queue_of(receiver).last().spec_sender() == sender
                &&& final(self).queue_of(receiver).last().content() == payload@
                &&& forall|other: u64| other != receiver ==> (final(self).registered(other) == old(
                    self,
                ).registered(other)) && (old(self).registered(other) ==> final(self).queue_of(
                    other,
                ) == old(self).queue_of(other))
            },
    {
        if payload.len() > MAX_MESSAGE_SIZE {
            return Err(Error::MessageTooLarge);
        }
        if self.endpoint_slot(sender).is_none() {
            return Err(Error::NoEndpoint);
        }
        match self.endpoint_slot(receiver) {
            None => Err(Error::NoEndpoint),
            Some(i) => {
                let message = Message::new(sender, payload);
                proof {
                    self.lemma_owner_slot_unique(receiver, i as int);
                }
                let ghost before = *self;
                let slot = &mut self.endpoints[i];
                let result = match slot {
                    Some(endpoint) => endpoint.enqueue(message),
                    None => Err(Error::NoEndpoint),
                };
                proof {
                    let endpoint = self.endpoints@[i as int]->0;
                    assert(self.slots() == before.slots().update(i as int, Some(endpoint)));
                    if result is Ok {
                        self.lemma_replace_slot(&before, receiver, i as int, endpoint);
                        assert(self.queue_of(receiver) == before.queue_of(receiver).push(message));
                        assert(self.queue_of(receiver).drop_last() =~= before.queue_of(receiver));
                    } else {
                        assert(self.slots() =~= before.slots());
                    }
                }
                result
            },
        }
    }

    /// Takes the oldest message off `receiver`'s endpoint.
    pub fn receive(&mut self, receiver: u64) -> (result: Result<Message, Error>)
        requires
            old(self).wf(),
        ensures
            final(self).wf(),
            !old(self).registered(receiver) ==> result == Err::<Message, Error>(Error::NoEndpoint),
            old(self).registered(receiver) && old(self).queue_of(receiver).len() == 0 ==> result
                == Err::<Message, Error>(Error::QueueEmpty),
            result is Err ==> final(self).slots() == old(self).slots(),
            result is Ok <==> old(self).registered(receiver) && old(self).queue_of(receiver).len()
                > 0,
            result is Ok ==> {
                &&& old(self).registered(receiver)
                &&& old(self).queue_of(receiver).len() > 0
                &&& result == Ok::<Message, Error>(old(self).queue_of(receiver)[0])
                &&& final(self).registered(receiver)
                &&& final(self).queue_of(receiver) == old(self).queue_of(receiver).drop_first()
                &&& forall|other: u64| other != receiver ==> (final(self).registered(other) == old(
                    self,
                ).registered(other)) && (old(self).registered(other) ==> final(self).queue_of(
                    other,
                ) == old(self).queue_of(other))
            },
    {
        match self.endpoint_slot(receiver) {
            None => Err(Error::NoEndpoint),
            Some(i) => {
                proof {
                    self.lemma_owner_slot_unique(receiver, i as int);
                }
                let ghost before = *self;
                let slot = &mut self.endpoints[i];
                let result = match slot {
                    Some(endpoint) => endpoint.dequeue(),
                    None => Err(Error::NoEndpoint),
                };
                proof {
                    let endpoint = self.endpoints@[i as int]->0;
                    assert(self.slots() == before.slots().update(i as int, Some(endpoint)));
                    if result is Ok {
                        self.lemma_replace_slot(&before, receiver, i as int, endpoint);
                    } else {
                        assert(self.slots() =~= before.slots());
                    }
                }
                result
            },
        }
    }

    /// The oldest message on `receiver`'s endpoint, left in place.
    pub fn peek(&self, receiver: u64) -> (result: Result<Message, Error>)
        requires
            self.wf(),
        ensures
            !self.registered(receiver) ==> result == Err::<Message, Error>(Error::NoEndpoint),
            self.registered(receiver) && self.queue_of(receiver).len() == 0 ==> result == Err::<
                Message,
                Error,
            >(Error::QueueEmpty),
            self.registered(receiver) && self.queue_of(receiver).len() > 0 ==> result == Ok::<
                Message,
                Error,
            >(self.queue_of(receiver)[0]),
    {
        match self.endpoint(receiver) {
            None => Err(Error::NoEndpoint),
            Some(endpoint) => {
                if endpoint.length == 0 {
                    Err(Error::QueueEmpty)
                } else {
                    Ok(endpoint.messages[0])
                }
            },
        }
    }

    /// Number of registered endpoints.
    pub fn endpoint_count(&self) -> (count: usize)
        requires
            self.wf(),
        ensures
            count == count_registered(self.slots()),
    {
        let mut count: usize = 0;
        let mut i: usize = 0;
        while i < self.endpoints.len()
            invariant
                i <= self.endpoints@.len(),
                self.endpoints@.len() == MAX_ENDPOINTS,
                count == count_registered(self.endpoints@.take(i as int)),
                count <= i,
            decreases self.endpoints@.len() - i,
        {
            assert(self.endpoints@.take(i as int + 1).drop_last() =~= self.endpoints@.take(i as int));
            if self.endpoints[i].is_some() {
                count = count + 1;
            }
            i = i + 1;
        }
        assert(self.endpoints@.take(i as int) =~= self.endpoints@);
        count
    }
}

/// Number of occupied slots.
pub open spec fn count_registered(slots: Seq<Option<Endpoint>>) -> nat
    decreases slots.len(),
{
    if slots.len() == 0 {
        0
    } else {
        count_registered(slots.drop_last()) + if slots.last() is Some {
            1nat
        } else {
            0nat
        }
    }
}

/// Gives `owner` an endpoint in `state`.
pub fn register(state: &mut State, owner: u64) -> (result: Result<(), Error>)
    requires
        old(state).wf(),
    ensures
        final(state).wf(),
        old(state).registered(owner) ==> result == Err::<(), Error>(Error::EndpointExists),
        !old(state).registered(owner) && (forall|i: int|
            0 <= i < old(state).slots().len() ==> (#[trigger] old(state).slots()[i]) is Some) ==> result == Err::<
            (),
            Error,
        >(Error::RegistryFull),
        result is Ok ==> exists|j: int|
            0 <= j < old(state).slots().len() && (#[trigger] old(state).slots()[j]) is None && final(state).slots()
                == old(state).slots().update(j, final(state).slots()[j]),
        result is Ok ==> !old(state).registered(owner) && final(state).registered(owner),
        result is Ok ==> final(state).queue_of(owner) == Seq::<Message>::empty(),
        result is Err ==> final(state).slots() == old(state).slots(),
        result is Err ==> old(state).registered(owner) || forall|i: int|
            0 <= i < old(state).slots().len() ==> (#[trigger] old(state).slots()[i]) is Some,
        !old(state).registered(owner) && (exists|i: int|
            0 <= i < old(state).slots().len() && (#[trigger] old(state).slots()[i]) is None) ==> result is Ok,
        result is Ok ==> forall|other: u64|
            other != owner ==> #[trigger] final(state).registered(other) == old(state).registered(other) && (old(
                state,
            ).registered(other) ==> final(state).queue_of(other) == old(state).queue_of(other)),
{
    state.register(owner)
}

/// Removes `owner`'s endpoint from `state`.
pub fn unregister(state: &mut State, owner: u64) -> (result: Result<(), Error>)
    requires
        old(state).wf(),
    ensures
        final(state).wf(),
        result is Err <==> !old(state).registered(owner),
        result is Ok ==> !final(state).registered(owner),
{
    state.unregister(owner)
}

/// Sends `payload` from `sender` to `receiver` through `state`.
pub fn send(state: &mut State, sender: u64, receiver: u64, payload: &[u8]) -> (result: Result<
    (),
    Error,
>)
    requires
        old(state).wf(),
    ensures
        final(state).wf(),
        result is Ok <==> payload@.len() <= MAX_MESSAGE_SIZE && old(state).registered(sender) && old(
            state,
        ).registered(receiver) && old(state).queue_of(receiver).len() < QUEUE_DEPTH,
        payload@.len() > MAX_MESSAGE_SIZE ==> result == Err::<(), Error>(Error::MessageTooLarge),
        payload@.len() <= MAX_MESSAGE_SIZE && !(old(state).registered(sender) && old(state).registered(receiver))
            ==> result == Err::<(), Error>(Error::NoEndpoint),
        payload@.len() <= MAX_MESSAGE_SIZE && old(state).registered(sender) && old(state).registered(receiver)
            && old(state).queue_of(receiver).len() == QUEUE_DEPTH ==> result == Err::<(), Error>(Error::QueueFull),
        result is Ok ==> final(state).queue_of(receiver).last().content() == payload@
            && final(state).queue_of(receiver).last().spec_sender() == sender
            && final(state).queue_of(receiver).drop_last() == old(state).queue_of(receiver),
        result is Ok ==> final(state).registered(receiver) && forall|other: u64|
            other != receiver ==> #[trigger] final(state).registered(other) == old(state).registered(other) && (old(
                state,
            ).registered(other) ==> final(state).queue_of(other) == old(state).queue_of(other)),
        result is Err ==> final(state).slots() == old(state).slots(),
{
    state.send(sender, receiver, payload)
}

/// Takes the oldest message for `receiver` out of `state`.
pub fn receive(state: &mut State, receiver: u64) -> (result: Result<Message, Error>)
    requires
        old(state).wf(),
    ensures
        final(state).wf(),
        result is Ok <==> old(state).registered(receiver) && old(state).queue_of(receiver).len() > 0,
        !old(state).registered(receiver) ==> result == Err::<Message, Error>(Error::NoEndpoint),
        old(state).registered(receiver) && old(state).queue_of(receiver).len() == 0 ==> result == Err::<
            Message,
            Error,
        >(Error::QueueEmpty),
        result is Err ==> final(state).slots() == old(state).slots(),
        result is Ok ==> result == Ok::<Message, Error>(old(state).queue_of(receiver)[0])
            && final(state).queue_of(receiver) == old(state).queue_of(receiver).drop_first(),
        result is Ok ==> final(state).registered(receiver) && forall|other: u64|
            other != receiver ==> #[trigger] final(state).registered(other) == old(state).registered(other) && (old(
                state,
            ).registered(other) ==> final(state).queue_of(other) == old(state).queue_of(other)),
{
    state.receive(receiver)
}

/// The oldest message for `receiver` in `state`, left queued.
pub fn peek(state: &State, receiver: u64) -> (result: Result<Message, Error>)
    requires
        state.wf(),
    ensures
        result is Ok <==> state.registered(receiver) && state.queue_of(receiver).len() > 0,
        result is Ok ==> result == Ok::<Message, Error>(state.queue_of(receiver)[0]),
{
    state.peek(receiver)
}

/// Number of endpoints registered in `state`.
pub fn endpoint_count(state: &State) -> (count: usize)
    requires
        state.wf(),
    ensures
        count == count_registered(state.slots()),
{
    state.endpoint_count()
}

/// Messages between two endpoints arrive in the order they were sent: after two
/// successful sends to an endpoint with an empty queue, the first receive hands back
/// the first payload and the second the second.
pub proof fn law_fifo_delivery(s0: State, s1: State, s2: State, s3: State, s4: State, receiver: u64, first: Message, second: Message)
    requires
        s0.wf(),
        s0.registered(receiver),
        s0.queue_of(receiver) == Seq::<Message>::empty(),
        s1.registered(receiver),
        s1.queue_of(receiver).drop_last() == s0.queue_of(receiver),
        s1.queue_of(receiver).len() == s0.queue_of(receiver).len() + 1,
        s1.queue_of(receiver).last() == first,
        s2.registered(receiver),
        s2.queue_of(receiver).drop_last() == s1.queue_of(receiver),
        s2.queue_of(receiver).len() == s1.queue_of(receiver).len() + 1,
        s2.queue_of(receiver).last() == second,
        s3.queue_of(receiver) == s2.queue_of(receiver).drop_first(),
    ensures
        s2.queue_of(receiver)[0] == first,
        s3.queue_of(receiver)[0] == second,
        s3.queue_of(receiver).len() == 1,
{
    assert(s1.queue_of(receiver).len() == 1);
    assert(s1.queue_of(receiver)[0] == first);
    assert(s2.queue_of(receiver)[0] == s2.queue_of(receiver).drop_last()[0]);
}

/// Runs the registry through registration, a round trip and removal.
pub fn self_test() -> (passed: bool)
    ensures
        passed,
{
    let mut state = State::new();
    let payload: [u8; 12] = [119, 111, 118, 101, 110, 104, 97, 116, 45, 105, 112, 99];
    let ghost empty = state.slots();
    assert(!state.registered(10));
    assert(!state.registered(99));
    assert(state.slots()[0] is None);
    if state.register(10).is_err() {
        return false;
    }
    proof {
        let j = choose|j: int|
            0 <= j < empty.len() && (#[trigger] empty[j]) is None && state.slots() == empty.update(j, state.slots()[j]);
        let k: int = if j == 0 { 1 } else { 0 };
        assert(state.slots()[k] is None);
        assert(!state.registered(99));
        let w = choose|w: int| #[trigger] slot_owned(state.slots(), w, 10);
        assert(w == j);
        if state.registered(20) {
            let m = choose|m: int| #[trigger] slot_owned(state.slots(), m, 20);
            assert(m == j);
        }
    }
    if state.register(20).is_err() {
        return false;
    }
    match state.register(10) {
        Err(Error::EndpointExists) => {},
        _ => return false,
    }
    assert(!state.registered(99));
    assert(state.registered(10));
    if state.send(10, 20, &payload).is_err() {
        return false;
    }
    assert(!state.registered(99));
    let message = match state.receive(20) {
        Ok(message) => message,
        Err(_) => return false,
    };
    if message.sender != 10 || !bytes_equal(message.payload(), &payload) {
        return false;
    }
    assert(!state.registered(99));
    match state.receive(20) {
        Err(Error::QueueEmpty) => {},
        _ => return false,
    }
    match state.send(99, 20, &payload) {
        Err(Error::NoEndpoint) => {},
        _ => return false,
    }
    if state.unregister(10).is_err() {
        return false;
    }
    match state.unregister(10) {
        Err(Error::NoEndpoint) => true,
        _ => false,
    }
}

/// Whether two byte strings are equal.
pub fn bytes_equal(a: &[u8], b: &[u8]) -> (equal: bool)
    ensures
        equal == (a@ == b@),
{
    if a.len() != b.len() {
        return false;
    }
    let mut i: usize = 0;
    while i < a.len()
        invariant
            a@.len() == b@.len(),
            i <= a@.len(),
            forall|k: int| 0 <= k < i ==> a@[k] == b@[k],
        decreases a@.len() - i,
    {
        if a[i] != b[i] {
            return false;
        }
        i = i + 1;
    }
    assert(a@ =~= b@);
    true
}

} // verus!
