use vstd::prelude::*;
use crate::errors::Error;
use crate::message::{
    header_bytes, single_question, single_question_bytes, Message, MessageHeader, Question,
};
use crate::name::{name_wire, valid_name_text};
use crate::packer::u16_bytes;
use crate::name::Name;
use crate::types::{CLASS_INET, DNSClass, DNSType, RCode, RCODE_SUCCESS};

verus! {

/// How often queries are retransmitted until answered, in milliseconds.
pub const DEFAULT_QUERY_INTERVAL_MS: u64 = 1000;

/// Configures an mDNS client or server.
#[derive(Debug)]
pub struct Config {
    /// How often queries for a still-unanswered name are re-sent, in
    /// milliseconds.
    pub query_interval_ms: u64,
    /// The names this endpoint generates answers for when questioned.
    pub local_names: Vec<Name>,
}

impl Default for Config {
    fn default() -> (r: Config)
        ensures
            r.query_interval_ms == DEFAULT_QUERY_INTERVAL_MS,
            r.local_names@.len() == 0,
    {
        Config { query_interval_ms: DEFAULT_QUERY_INTERVAL_MS, local_names: Vec::new() }
    }
}

/// The name texts of a list of names.
pub open spec fn names_view(v: Seq<Name>) -> Seq<Seq<u8>> {
    v.map_values(|n: Name| n@)
}

/// The decision core of an mDNS endpoint. It owns the connection state
/// (open or closed, terminally) and the table of in-flight query names,
/// and decides what each event means; the surrounding runtime performs the
/// socket reads, sends, timers and cancellation that it decides on.
#[derive(Debug)]
pub struct DnsConn {
    closed: bool,
    config: Config,
    pending: Vec<Name>,
}

impl DnsConn {
    /// Whether the connection has been closed.
    pub closed spec fn spec_closed(self) -> bool {
        self.closed
    }

    /// The texts of the in-flight query names.
    pub closed spec fn spec_pending(self) -> Seq<Seq<u8>> {
        names_view(self.pending@)
    }

    /// The configuration the endpoint was built with.
    pub closed spec fn spec_config(self) -> Config {
        self.config
    }

    /// A fresh, open endpoint with no query in flight.
    pub fn server(config: Config) -> (r: DnsConn)
        ensures
            !r.spec_closed(),
            r.spec_pending().len() == 0,
            r.spec_config() == config,
    {
        DnsConn { closed: false, config, pending: Vec::new() }
    }

    /// Whether `close` has been called.
    pub fn is_closed(&self) -> (r: bool)
        ensures
            r == self.spec_closed(),
    {
        self.closed
    }

    /// The retransmission interval, in milliseconds.
    pub fn query_interval_ms(&self) -> (r: u64)
        ensures
            r == self.spec_config().query_interval_ms,
    {
        self.config.query_interval_ms
    }

    /// Closes the connection, exactly once: the first call succeeds and
    /// wakes (drops) every in-flight query; any further call fails with
    /// `ConnectionClosed` and changes nothing.
    pub fn close(&mut self) -> (r: Result<(), Error>)
        ensures
            old(self).spec_closed() ==> r == Err::<(), Error>(Error::ConnectionClosed)
                && *final(self) == *old(self),
            !old(self).spec_closed() ==> r is Ok && final(self).spec_closed()
                && final(self).spec_pending().len() == 0 && final(self).spec_config() == old(
                self).spec_config(),
    {
        if self.closed {
            return Err(Error::ConnectionClosed);
        }
        self.closed = true;
        self.pending = Vec::new();
        Ok(())
    }

    /// Registers a query for `name` and builds the datagram to send for
    /// it. On a closed connection nothing is registered and
    /// `ConnectionClosed` comes back; an unusable name is rejected with
    /// the name error and not registered either. On success the name
    /// joins the in-flight table and the returned datagram is a
    /// single-question query for it.
    pub fn start_query(&mut self, name: Name) -> (r: Result<Vec<u8>, Error>)
        ensures
            old(self).spec_closed() ==> r == Err::<Vec<u8>, Error>(Error::ConnectionClosed)
                && *final(self) == *old(self),
            (r matches Ok(pkt) ==> !old(self).spec_closed() && final(self).spec_pending() == old(
                self).spec_pending().push(name@) && final(self).spec_closed() == old(
                self).spec_closed()
                && final(self).spec_config() == old(self).spec_config() && pkt@.len() >= 12
                && pkt@.subrange(0, 12) == header_bytes(
                (MessageHeader {
                    id: 0,
                    response: false,
                    op_code: 0,
                    authoritative: false,
                    truncated: false,
                    recursion_desired: false,
                    recursion_available: false,
                    rcode: RCode(RCODE_SUCCESS),
                }),
                1,
                0,
                0,
                0,
            )),
            (r matches Ok(pkt) ==> (valid_name_text(name@) ==> pkt@ == header_bytes(
                (MessageHeader {
                    id: 0,
                    response: false,
                    op_code: 0,
                    authoritative: false,
                    truncated: false,
                    recursion_desired: false,
                    recursion_available: false,
                    rcode: RCode(RCODE_SUCCESS),
                }),
                1,
                0,
                0,
                0,
            ) + name_wire(name@) + u16_bytes((DNSType::A).spec_code()) + u16_bytes(CLASS_INET))),
            (!old(self).spec_closed() && valid_name_text(name@)) ==> r is Ok,
            (r is Err && !old(self).spec_closed()) ==> *final(self) == *old(self),
    {
        if self.closed {
            return Err(Error::ConnectionClosed);
        }
        let question = Question {
            name: name.duplicate(),
            typ: DNSType::A,
            class: DNSClass(CLASS_INET),
        };
        let msg = Message {
            header: MessageHeader {
                id: 0,
                response: false,
                op_code: 0,
                authoritative: false,
                truncated: false,
                recursion_desired: false,
                recursion_available: false,
                rcode: RCode(RCODE_SUCCESS),
            },
            questions: vec![question],
            answers: Vec::new(),
            authorities: Vec::new(),
            additionals: Vec::new(),
        };
        proof {
            if valid_name_text(name@) {
                assert(msg.questions@[0] == question);
                assert(single_question(msg));
            }
        }
        let pkt = msg.pack()?;
        proof {
            if valid_name_text(name@) {
                assert(pkt@ == single_question_bytes(msg));
            }
        }
        let ghost before = self.pending@;
        self.pending.push(name);
        proof {
            assert(names_view(self.pending@) =~= names_view(before).push(
                self.pending@[before.len() as int]@,
            ));
        }
        Ok(pkt)
    }

    /// Whether `name` is one this endpoint answers for.
    pub fn is_local_name(&self, name: &Name) -> (r: bool)
        ensures
            r == names_view(self.spec_config().local_names@).contains(name@),
    {
        let n = self.config.local_names.len();
        for i in 0..n
            invariant
                n == self.config.local_names@.len(),
                forall|k: int|
                    0 <= k < i ==> names_view(self.config.local_names@)[k] != name@,
        {
            if &self.config.local_names[i] == name {
                proof {
                    assert(names_view(self.config.local_names@)[i as int] == name@);
                }
                return true;
            }
            proof {
                assert(names_view(self.config.local_names@)[i as int] == self.config.local_names@[
                    i as int]@);
            }
        }
        proof {
            if names_view(self.config.local_names@).contains(name@) {
                let k = choose|k: int|
                    0 <= k < names_view(self.config.local_names@).len() && #[trigger] names_view(
                        self.config.local_names@,
                    )[k] == name@;
                assert(names_view(self.config.local_names@)[k] != name@);
            }
        }
        false
    }

    /// Delivers an observed answer for `answered`: every in-flight query
    /// for that name is resolved and leaves the table (so delivery is
    /// one-shot), and whether any waiter was woken is reported.
    pub fn handle_answer(&mut self, answered: &Name) -> (r: bool)
        ensures
            r == old(self).spec_pending().contains(answered@),
            final(self).spec_pending() == old(self).spec_pending().filter(
                |t: Seq<u8>| t != answered@,
            ),
            final(self).spec_closed() == old(self).spec_closed(),
            final(self).spec_config() == old(self).spec_config(),
    {
        let ghost before = names_view(self.pending@);
        let mut kept: Vec<Name> = Vec::new();
        let mut hit = false;
        let n = self.pending.len();
        proof {
            assert(before.take(0).filter(|t: Seq<u8>| t != answered@) =~= Seq::<Seq<u8>>::empty());
            assert(names_view(kept@) =~= Seq::<Seq<u8>>::empty());
        }
        for i in 0..n
            invariant
                n == self.pending@.len(),
                before == names_view(self.pending@),
                names_view(kept@) == before.take(i as int).filter(|t: Seq<u8>| t != answered@),
                hit == before.take(i as int).contains(answered@),
        {
            let ghost prefix = before.take(i as int);
            let cur = &self.pending[i];
            proof {
                assert(before[i as int] == self.pending@[i as int]@);
                assert(before.take(i + 1 as int) =~= prefix.push(before[i as int]));
                reveal(Seq::filter);
                assert(prefix.push(before[i as int]).drop_last() =~= prefix);
                assert(prefix.push(before[i as int]).last() == before[i as int]);
                if before[i as int] != answered@ {
                    assert(prefix.push(before[i as int]).filter(|t: Seq<u8>| t != answered@)
                        =~= prefix.filter(|t: Seq<u8>| t != answered@).push(before[i as int]));
                } else {
                    assert(prefix.push(before[i as int]).filter(|t: Seq<u8>| t != answered@)
                        =~= prefix.filter(|t: Seq<u8>| t != answered@));
                }
            }
            if cur == answered {
                hit = true;
                proof {
                    assert(before.take(i + 1 as int)[i as int] == answered@);
                    assert(before.take(i + 1 as int).contains(answered@));
                }
            } else {
                let ghost kept_before = names_view(kept@);
                kept.push(cur.duplicate());
                proof {
                    assert(names_view(kept@) =~= kept_before.push(before[i as int]));
                    if !hit {
                        if before.take(i + 1 as int).contains(answered@) {
                            let k = choose|k: int|
                                0 <= k < i + 1 && #[trigger] before.take(i + 1 as int)[k]
                                    == answered@;
                            assert(before.take(i as int)[k] == answered@);
                            assert(before.take(i as int).contains(answered@));
                        }
                    }
                }
            }
        }
        proof {
            assert(before.take(n as int) =~= before);
        }
        self.pending = kept;
        hit
    }
}

} // verus!
