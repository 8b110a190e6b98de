//! Envelopes and the events a handler is driven by.

use vstd::prelude::*;

verus! {

/// The body of an envelope: optional correlation ids and a protocol payload.
#[derive(Debug, Clone, PartialEq, Eq)]
pub struct Body<BodyType> {
    pub msg_id: Option<u64>,
    pub in_reply_to: Option<u64>,
    pub payload: BodyType,
}

/// One transport-level message: who sent it, whom it is for, and its body.
#[derive(Debug, Clone, PartialEq, Eq)]
pub struct Message<BodyType> {
    pub src: String,
    pub dest: String,
    pub body: Body<BodyType>,
}

/// Mathematical model of a [`Body`].
pub struct BodyView<V> {
    pub msg_id: Option<u64>,
    pub in_reply_to: Option<u64>,
    pub payload: V,
}

/// Mathematical model of a [`Message`].
pub struct MessageView<V> {
    pub src: Seq<char>,
    pub dest: Seq<char>,
    pub body: BodyView<V>,
}

impl<BodyType: DeepView> DeepView for Body<BodyType> {
    type V = BodyView<BodyType::V>;

    open spec fn deep_view(&self) -> BodyView<BodyType::V> {
        BodyView {
            msg_id: self.msg_id,
            in_reply_to: self.in_reply_to,
            payload: self.payload.deep_view(),
        }
    }
}

impl<BodyType: DeepView> DeepView for Message<BodyType> {
    type V = MessageView<BodyType::V>;

    open spec fn deep_view(&self) -> MessageView<BodyType::V> {
        MessageView { src: self.src@, dest: self.dest@, body: self.body.deep_view() }
    }
}

/// The message id a reply carries when the request carried `request_id`.
pub open spec fn reply_id(request_id: Option<u64>) -> Option<u64> {
    match request_id {
        Some(id) => Some((id + 1) as u64),
        None => None,
    }
}

impl<V> MessageView<V> {
    /// Whether a reply to this message can be numbered: the successor of its
    /// message id must still be a `u64`.
    pub open spec fn answerable(self) -> bool {
        self.body.msg_id != Some(u64::MAX)
    }

    /// The reply to this message that carries `payload`: source and
    /// destination are swapped, `in_reply_to` is the request's message id and
    /// the reply's own message id is its successor.
    pub open spec fn reply(self, payload: V) -> MessageView<V> {
        MessageView {
            src: self.dest,
            dest: self.src,
            body: BodyView {
                msg_id: reply_id(self.body.msg_id),
                in_reply_to: self.body.msg_id,
                payload,
            },
        }
    }
}

impl<BodyType> Message<BodyType> {
    /// Whether [`Message::to_reply`] may be called on this message.
    pub open spec fn answerable(&self) -> bool {
        self.body.msg_id != Some(u64::MAX)
    }

    /// Tells whether a reply to this message can be numbered.
    pub fn can_reply(&self) -> (ok: bool)
        ensures
            ok == self.answerable(),
    {
        match self.body.msg_id {
            Some(id) => id < u64::MAX,
            None => true,
        }
    }

    /// Turns a request into the skeleton of its reply. The payload is carried
    /// over unchanged; callers replace it with the answer.
    pub fn to_reply(self) -> (reply: Self)
        requires
            self.answerable(),
        ensures
            reply.src == self.dest,
            reply.dest == self.src,
            reply.body.msg_id == reply_id(self.body.msg_id),
            reply.body.in_reply_to == self.body.msg_id,
            reply.body.payload == self.body.payload,
    {
        let msg_id = match self.body.msg_id {
            Some(id) => Some(id + 1),
            None => None,
        };
        Self {
            src: self.dest,
            dest: self.src,
            body: Body { msg_id, in_reply_to: self.body.msg_id, payload: self.body.payload },
        }
    }
}

/// The model of a list that grew by one element is the old model with the
/// element's model behind it.
pub proof fn lemma_deep_view_push<T: DeepView>(before: Vec<T>, after: Vec<T>, last: T)
    requires
        after@ == before@.push(last),
    ensures
        after.deep_view() == before.deep_view().push(last.deep_view()),
{
    assert(after.deep_view() =~= before.deep_view().push(last.deep_view()));
}

/// Everything a handler can be asked to react to.
#[derive(Debug, Clone, PartialEq, Eq)]
pub enum Events<Payload> {
    /// An envelope arrived.
    Message(Message<Payload>),
    /// The periodic timer fired.
    Heartbeat,
    /// The input is exhausted.
    EOF,
}

/// Mathematical model of [`Events`].
pub enum EventsView<V> {
    Message(MessageView<V>),
    Heartbeat,
    EOF,
}

impl<Payload: DeepView> DeepView for Events<Payload> {
    type V = EventsView<Payload::V>;

    open spec fn deep_view(&self) -> EventsView<Payload::V> {
        match self {
            Events::Message(m) => EventsView::Message(m.deep_view()),
            Events::Heartbeat => EventsView::Heartbeat,
            Events::EOF => EventsView::EOF,
        }
    }
}

} // verus!
