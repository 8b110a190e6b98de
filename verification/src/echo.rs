//! The echo handler: every `echo` request is mirrored back.

use crate::message::{Events, EventsView, Message, MessageView};
use crate::node::{HandlerError, InitPayload, InitPayloadView, NodeType};
use vstd::prelude::*;

verus! {

/// The payloads of the echo protocol.
#[derive(Debug, Clone, PartialEq, Eq)]
pub enum EchoPayload {
    Echo { echo: String },
    EchoOk { echo: String },
}

/// Mathematical model of an [`EchoPayload`].
pub enum EchoPayloadView {
    Echo { echo: Seq<char> },
    EchoOk { echo: Seq<char> },
}

impl DeepView for EchoPayload {
    type V = EchoPayloadView;

    open spec fn deep_view(&self) -> EchoPayloadView {
        match self {
            EchoPayload::Echo { echo } => EchoPayloadView::Echo { echo: echo@ },
            EchoPayload::EchoOk { echo } => EchoPayloadView::EchoOk { echo: echo@ },
        }
    }
}

/// What the echo handler sends in answer to `input`: to an `echo` request
/// the reply that carries the same text, to anything else nothing. A request
/// whose reply cannot be numbered is refused.
pub open spec fn echo_sends(input: EventsView<EchoPayloadView>) -> Result<
    Seq<MessageView<EchoPayloadView>>,
    HandlerError,
> {
    match input {
        EventsView::Message(request) => match request.body.payload {
            EchoPayloadView::Echo { echo } => if request.answerable() {
                Ok(seq![request.reply(EchoPayloadView::EchoOk { echo })])
            } else {
                Err(HandlerError::MessageIdExhausted)
            },
            EchoPayloadView::EchoOk { .. } => Ok(Seq::empty()),
        },
        _ => Ok(Seq::empty()),
    }
}

/// A handler without state that answers `echo` with `echo_ok`.
pub struct EchoNode {}

impl EchoNode {
    pub fn new() -> (node: Self)
        ensures
            node.inv(),
    {
        EchoNode {  }
    }
}

impl NodeType for EchoNode {
    type Payload = EchoPayload;

    type Model = ();

    open spec fn inv(&self) -> bool {
        true
    }

    open spec fn model(&self) -> () {
        ()
    }

    open spec fn init_model(model: (), init: InitPayloadView) -> () {
        ()
    }

    open spec fn transition(model: (), input: EventsView<EchoPayloadView>) -> (
        (),
        Result<Seq<MessageView<EchoPayloadView>>, HandlerError>,
    ) {
        ((), echo_sends(input))
    }

    fn step(&mut self, input: Events<EchoPayload>) -> (out: Result<
        Vec<Message<EchoPayload>>,
        HandlerError,
    >) {
        let mut sent: Vec<Message<EchoPayload>> = Vec::new();
        if let Events::Message(request) = input {
            let ghost asked = request.deep_view();
            let is_echo = match &request.body.payload {
                EchoPayload::Echo { .. } => true,
                EchoPayload::EchoOk { .. } => false,
            };
            if is_echo {
                if !request.can_reply() {
                    return Err(HandlerError::MessageIdExhausted);
                }
                let mut resp = request.to_reply();
                if let EchoPayload::Echo { echo } = resp.body.payload {
                    resp.body.payload = EchoPayload::EchoOk { echo };
                    sent.push(resp);
                    assert(sent.deep_view() =~= seq![
                        asked.reply(EchoPayloadView::EchoOk { echo: echo@ }),
                    ]);
                }
            }
        }
        assert(sent@.len() == 0 ==> sent.deep_view() =~= Seq::empty());
        Ok(sent)
    }

    fn init(&mut self, _init: InitPayload) {
    }
}

} // verus!
