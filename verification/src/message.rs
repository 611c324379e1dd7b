//! A message without semantic interpretation: what requests and responses
//! have in common once the start line is set aside.
use crate::error::CodecError;
use crate::framing::{body_framing, body_framing_of, BodyFraming};
use crate::header::HeaderMap;
use crate::start_line::MessageKind;
use vstd::prelude::*;

verus! {

/// An HTTP/1.1 message, request or response. The message owns its headers
/// and its body; a clone shares nothing with the value it was made from.
#[derive(Debug, PartialEq, Eq)]
pub struct HTTPMessage {
    /// Protocol version as received on the wire, e.g. `"HTTP/1.1"`.
    pub http_version: String,
    /// The headers, in wire order.
    pub headers: HeaderMap,
    /// The body, if the message has one.
    pub body: Option<Vec<u8>>,
}

/// The model of a message.
pub struct MessageView {
    pub http_version: Seq<char>,
    pub headers: Seq<(Seq<u8>, Seq<u8>)>,
    pub body: Option<Seq<u8>>,
}

/// The model of an optional body.
pub open spec fn body_view(body: Option<Vec<u8>>) -> Option<Seq<u8>> {
    match body {
        Some(b) => Some(b@),
        None => None,
    }
}

impl View for HTTPMessage {
    type V = MessageView;

    open spec fn view(&self) -> MessageView {
        MessageView {
            http_version: self.http_version@,
            headers: self.headers@,
            body: body_view(self.body),
        }
    }
}

impl Clone for HTTPMessage {
    fn clone(&self) -> (r: Self)
        ensures
            r@ == self@,
    {
        let body = match &self.body {
            Some(b) => {
                let c = b.clone();
                assert(c@ =~= b@);
                Some(c)
            },
            None => None,
        };
        HTTPMessage { http_version: self.http_version.clone(), headers: self.headers.clone(), body }
    }
}

impl HTTPMessage {
    /// Creates a message with the given version and headers and no body.
    pub fn new(http_version: String, headers: HeaderMap) -> (r: Self)
        ensures
            r@ == (MessageView {
                http_version: http_version@,
                headers: headers@,
                body: None::<Seq<u8>>,
            }),
    {
        Self { http_version, headers, body: None }
    }

    /// The framing that the headers prescribe at this moment. It is computed
    /// afresh on every call, so it cannot lag behind a change of the headers.
    pub fn framing(&self, kind: MessageKind) -> (r: Result<BodyFraming, CodecError>)
        ensures
            r == body_framing_of(self@.headers, kind),
    {
        body_framing(&self.headers, kind)
    }
}

} // verus!
