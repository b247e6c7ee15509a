//! The envelope protocol: what peers say to each other.

use vstd::prelude::*;
use crate::ident::{Cookie, NodeId};
use crate::lists::{copy_ids, same_ids};
use crate::value::Value;

verus! {

/// What a peer may ask of another.
#[derive(Debug)]
pub enum Payload<V> {
    /// Are you there?
    Ping,
    /// Keep `value` under `key`.
    Store { key: u128, value: V },
    /// Which peers do you know that are closest to this identifier?
    FindNode(NodeId),
    /// Give me the value under this key, or else the peers closest to it.
    FindValue(u128),
}

/// What a peer answers.
#[derive(Debug)]
pub enum Reply<V> {
    /// Acknowledges a `Ping` or a `Store`.
    Ack,
    /// Candidates, closest first.
    Nodes(Vec<NodeId>),
    /// The value that was asked for.
    Found(V),
}

/// An envelope carries either a request or the answer to one.
#[derive(Debug)]
pub enum Body<V> {
    Request(Payload<V>),
    Reply(Reply<V>),
}

/// The addressed, tokenized unit that peers exchange.
#[derive(Debug)]
pub struct Message<V> {
    pub src: NodeId,
    pub dst: NodeId,
    pub cookie: Cookie,
    pub body: Body<V>,
}

/// Mathematical content of a `Body`, over the view `M` of the values.
pub enum Content<M> {
    Ping,
    Store { key: u128, value: M },
    FindNode(NodeId),
    FindValue(u128),
    Ack,
    Nodes(Seq<NodeId>),
    Found(M),
}

/// Mathematical model of a `Message`.
pub struct Envelope<M> {
    pub src: NodeId,
    pub dst: NodeId,
    pub cookie: Cookie,
    pub content: Content<M>,
}

impl<M> Content<M> {
    /// Whether this content asks for something.
    pub open spec fn is_request(self) -> bool {
        self is Ping || self is Store || self is FindNode || self is FindValue
    }
}

impl<V: View> View for Payload<V> {
    type V = Content<V::V>;

    open spec fn view(&self) -> Content<V::V> {
        match *self {
            Payload::Ping => Content::Ping,
            Payload::Store { key, value } => Content::Store { key, value: value@ },
            Payload::FindNode(target) => Content::FindNode(target),
            Payload::FindValue(key) => Content::FindValue(key),
        }
    }
}

impl<V: View> View for Reply<V> {
    type V = Content<V::V>;

    open spec fn view(&self) -> Content<V::V> {
        match *self {
            Reply::Ack => Content::Ack,
            Reply::Nodes(nodes) => Content::Nodes(nodes@),
            Reply::Found(value) => Content::Found(value@),
        }
    }
}

impl<V: View> View for Body<V> {
    type V = Content<V::V>;

    open spec fn view(&self) -> Content<V::V> {
        match *self {
            Body::Request(payload) => payload@,
            Body::Reply(reply) => reply@,
        }
    }
}

impl<V: View> View for Message<V> {
    type V = Envelope<V::V>;

    open spec fn view(&self) -> Envelope<V::V> {
        Envelope { src: self.src, dst: self.dst, cookie: self.cookie, content: self.body@ }
    }
}

/// The views of a list of messages, in order.
pub open spec fn envelopes<V: View>(messages: Seq<Message<V>>) -> Seq<Envelope<V::V>> {
    messages.map_values(|m: Message<V>| m@)
}

impl<V: Value> Payload<V> {
    /// A copy with the same view.
    pub fn duplicate(&self) -> (copy: Payload<V>)
        ensures
            copy@ == self@,
    {
        match self {
            Payload::Ping => Payload::Ping,
            Payload::Store { key, value } => Payload::Store { key: *key, value: value.duplicate() },
            Payload::FindNode(target) => Payload::FindNode(*target),
            Payload::FindValue(key) => Payload::FindValue(*key),
        }
    }

    /// Whether two requests have the same view.
    pub fn same(&self, other: &Payload<V>) -> (b: bool)
        ensures
            b == (self@ == other@),
    {
        match (self, other) {
            (Payload::Ping, Payload::Ping) => true,
            (Payload::Store { key: k1, value: v1 }, Payload::Store { key: k2, value: v2 }) => {
                *k1 == *k2 && v1.same(v2)
            },
            (Payload::FindNode(t1), Payload::FindNode(t2)) => *t1 == *t2,
            (Payload::FindValue(k1), Payload::FindValue(k2)) => *k1 == *k2,
            _ => false,
        }
    }
}

impl<V: Value> Reply<V> {
    /// A copy with the same view.
    pub fn duplicate(&self) -> (copy: Reply<V>)
        ensures
            copy@ == self@,
    {
        match self {
            Reply::Ack => Reply::Ack,
            Reply::Nodes(nodes) => Reply::Nodes(copy_ids(nodes)),
            Reply::Found(value) => Reply::Found(value.duplicate()),
        }
    }

    /// Whether two answers have the same view.
    pub fn same(&self, other: &Reply<V>) -> (b: bool)
        ensures
            b == (self@ == other@),
    {
        match (self, other) {
            (Reply::Ack, Reply::Ack) => true,
            (Reply::Nodes(n1), Reply::Nodes(n2)) => same_ids(n1, n2),
            (Reply::Found(v1), Reply::Found(v2)) => v1.same(v2),
            _ => false,
        }
    }
}

impl<V: Value> Body<V> {
    /// A copy with the same view.
    pub fn duplicate(&self) -> (copy: Body<V>)
        ensures
            copy@ == self@,
    {
        match self {
            Body::Request(payload) => Body::Request(payload.duplicate()),
            Body::Reply(reply) => Body::Reply(reply.duplicate()),
        }
    }

    /// Whether two bodies have the same view.
    pub fn same(&self, other: &Body<V>) -> (b: bool)
        ensures
            b == (self@ == other@),
    {
        match (self, other) {
            (Body::Request(p1), Body::Request(p2)) => p1.same(p2),
            (Body::Reply(r1), Body::Reply(r2)) => r1.same(r2),
            _ => false,
        }
    }
}

impl<V: Value> Message<V> {
    /// The envelope by which `src` asks `payload` of `dst` under `cookie`.
    pub fn request(src: NodeId, dst: NodeId, cookie: Cookie, payload: Payload<V>) -> (m: Message<V>)
        ensures
            m@ == (Envelope { src, dst, cookie, content: payload@ }),
            m.body == Body::Request(payload),
    {
        Message { src, dst, cookie, body: Body::Request(payload) }
    }

    /// The envelope that answers `self`: it goes back to the sender of `self`
    /// under the same token.
    pub fn answer(&self, reply: Reply<V>) -> (m: Message<V>)
        ensures
            m@ == (Envelope {
                src: self.dst,
                dst: self.src,
                cookie: self.cookie,
                content: reply@,
            }),
            m.body == Body::Reply(reply),
    {
        Message { src: self.dst, dst: self.src, cookie: self.cookie, body: Body::Reply(reply) }
    }

    /// Whether this envelope carries a request.
    pub fn is_request(&self) -> (b: bool)
        ensures
            b == self@.content.is_request(),
            b == (self.body is Request),
    {
        match &self.body {
            Body::Request(p) => {
                assert(p@.is_request());
                true
            },
            Body::Reply(r) => {
                assert(!r@.is_request());
                false
            },
        }
    }

    /// A copy with the same view.
    pub fn duplicate(&self) -> (copy: Message<V>)
        ensures
            copy@ == self@,
    {
        Message { src: self.src, dst: self.dst, cookie: self.cookie, body: self.body.duplicate() }
    }

    /// Whether this envelope answers the request `outbound` by the acceptance
    /// rule: it carries the token of `outbound` and is not `outbound` itself.
    pub fn answers(&self, outbound: &Message<V>) -> (b: bool)
        ensures
            b == (self@.cookie == outbound@.cookie && self@ != outbound@),
    {
        self.cookie == outbound.cookie && !self.same(outbound)
    }

    /// Whether two envelopes have the same view.
    pub fn same(&self, other: &Message<V>) -> (b: bool)
        ensures
            b == (self@ == other@),
    {
        self.src == other.src && self.dst == other.dst && self.cookie == other.cookie
            && self.body.same(&other.body)
    }
}

impl<V> Default for Payload<V> {
    /// The request that asks for nothing but an answer.
    fn default() -> (p: Payload<V>)
        ensures
            p == Payload::<V>::Ping,
    {
        Payload::Ping
    }
}

impl<V: Value> Clone for Payload<V> {
    fn clone(&self) -> (copy: Payload<V>)
        ensures
            copy@ == self@,
    {
        self.duplicate()
    }
}

impl<V: Value> Clone for Reply<V> {
    fn clone(&self) -> (copy: Reply<V>)
        ensures
            copy@ == self@,
    {
        self.duplicate()
    }
}

impl<V: Value> Clone for Body<V> {
    fn clone(&self) -> (copy: Body<V>)
        ensures
            copy@ == self@,
    {
        self.duplicate()
    }
}

impl<V: Value> Clone for Message<V> {
    fn clone(&self) -> (copy: Message<V>)
        ensures
            copy@ == self@,
    {
        self.duplicate()
    }
}

impl<V: Value> PartialEq for Payload<V> {
    fn eq(&self, other: &Payload<V>) -> (b: bool) {
        self.same(other)
    }
}

impl<V: Value> vstd::std_specs::cmp::PartialEqSpecImpl for Payload<V> {
    open spec fn obeys_eq_spec() -> bool {
        true
    }

    open spec fn eq_spec(&self, other: &Payload<V>) -> bool {
        self@ == other@
    }
}

impl<V: Value> PartialEq for Message<V> {
    fn eq(&self, other: &Message<V>) -> (b: bool) {
        self.same(other)
    }
}

impl<V: Value> vstd::std_specs::cmp::PartialEqSpecImpl for Message<V> {
    open spec fn obeys_eq_spec() -> bool {
        true
    }

    open spec fn eq_spec(&self, other: &Message<V>) -> bool {
        self@ == other@
    }
}

} // verus!
