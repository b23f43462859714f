//! The iterative resolution state machine. The lookups themselves — cache
//! reads, cache writes and the UDP exchange with upstream servers — happen
//! outside the library; this module decides, from the state and from what
//! came back, what to do next.

use vstd::prelude::*;

use crate::cache::{spec_record_from_cache, spec_valid, CachedRecord};
use crate::header::{spec_empty_header, Header, ResultCode};
use crate::packet::{
    spec_empty_packet, spec_first_a, spec_resolved_ns, spec_unresolved_ns, Packet, PacketV,
};
use crate::records::{Ipv4Addr, QueryType, Record, RecordV};

verus! {

/// The transient state of one iterative resolution: which server to ask,
/// which name is being queried, and whether that name is the client's or
/// an intermediate nameserver being resolved to an address.
pub struct ResolverState {
    /// The name the client asked for.
    pub qname: String,
    /// The type the client asked for.
    pub qtype: QueryType,
    /// The root nameserver resolution starts from.
    pub root_addr: Ipv4Addr,
    /// The upstream server the next query goes to.
    pub current_ns: Ipv4Addr,
    /// The name currently queried: the qname, or a nameserver host.
    pub currently_querying: String,
    /// The type currently queried.
    pub current_type: QueryType,
    /// True while searching for the qname itself; false while searching
    /// for a nameserver's address.
    pub search_for_qname: bool,
}

impl ResolverState {
    /// The starting state: ask the root for the client's name and type.
    pub fn new(qname: &String, qtype: QueryType, root_addr: Ipv4Addr) -> (r: ResolverState)
        ensures
            r.qname@ == qname@,
            r.qtype == qtype,
            r.root_addr == root_addr,
            r.current_ns == root_addr,
            r.currently_querying@ == qname@,
            r.current_type == qtype,
            r.search_for_qname,
    {
        ResolverState {
            qname: qname.clone(),
            qtype,
            root_addr,
            current_ns: root_addr,
            currently_querying: qname.clone(),
            current_type: qtype,
            search_for_qname: true,
        }
    }
}

/// What the driver must do after the cache was consulted.
#[derive(Debug, PartialEq, Eq)]
pub enum CacheOutcome {
    /// A valid cached record answers the query: this packet is the result.
    Answer(Packet),
    /// A valid cached row resolved the intermediate nameserver; consult
    /// the cache again for the client's name.
    Redirect,
    /// The row found has expired: delete it by this id, then query
    /// upstream.
    EvictAndQuery(u32),
    /// The row found is valid but violates its column-set invariant, or
    /// does not name an address where one is needed: treat it as a miss,
    /// report the integrity failure, and query upstream.
    QueryBadRow(u32),
    /// Nothing usable in the cache: query upstream.
    Query,
}

/// The shape of the single-answer packet a cache hit synthesizes.
pub open spec fn spec_cache_answer(rec: RecordV) -> PacketV {
    PacketV {
        header: Header { answers: 1, ..spec_empty_header() },
        answers: seq![rec],
        ..spec_empty_packet()
    }
}

/// One cache consultation of the resolver loop. A valid entry either
/// answers the query (when the client's name was being searched) or names
/// the nameserver's address (when an intermediate host was); an expired
/// entry is evicted and treated as a miss; a row that cannot be read back
/// is treated as a miss and left to the operator.
pub fn consult_cache(
    state: &mut ResolverState,
    found: Option<&CachedRecord>,
    now: i64,
) -> (r: CacheOutcome)
    ensures
        final(state).qname == old(state).qname,
        final(state).qtype == old(state).qtype,
        final(state).root_addr == old(state).root_addr,
        match found {
            None => r == CacheOutcome::Query && *final(state) == *old(state),
            Some(entry) => if !spec_valid(*entry, now) {
                r == CacheOutcome::EvictAndQuery(entry.id) && *final(state) == *old(state)
            } else if !old(state).search_for_qname {
                match spec_record_from_cache(*entry) {
                    Ok(rec) => (rec matches RecordV::A { addr, .. } && r == CacheOutcome::Redirect
                        && final(state).current_ns == addr
                        && final(state).currently_querying@ == old(state).qname@
                        && final(state).current_type == old(state).qtype
                        && final(state).search_for_qname) || (!(rec is A) && r
                        == CacheOutcome::QueryBadRow(entry.id) && *final(state) == *old(state)),
                    Err(_) => r == CacheOutcome::QueryBadRow(entry.id) && *final(state) == *old(
                        state,
                    ),
                }
            } else {
                match spec_record_from_cache(*entry) {
                    Ok(rec) => (r matches CacheOutcome::Answer(p) && p@ == spec_cache_answer(rec))
                        && *final(state) == *old(state),
                    Err(_) => r == CacheOutcome::QueryBadRow(entry.id) && *final(state) == *old(
                        state,
                    ),
                }
            },
        },
{
    let entry = match found {
        Some(entry) => entry,
        None => {
            return CacheOutcome::Query;
        },
    };
    if entry.is_valid(now) {
        // Searching for a nameserver's address: a valid A row gives it.
        if !state.search_for_qname {
            let record = match entry.record_from_cache() {
                Ok(rec) => rec,
                Err(_) => {
                    // Incorrect data in the cache; the resolver can still
                    // answer without it.
                    return CacheOutcome::QueryBadRow(entry.id);
                },
            };
            match record {
                Record::A { domain: _, addr, ttl: _ } => {
                    state.current_ns = addr;
                    state.currently_querying = state.qname.clone();
                    state.current_type = state.qtype;
                    state.search_for_qname = true;
                    CacheOutcome::Redirect
                },
                // A row that names no address is of no use here.
                _ => CacheOutcome::QueryBadRow(entry.id),
            }
        } else {
            // Searching for the client's name: the row is the answer.
            let mut response = Packet::new();
            match response.add_cr_to_answers(entry) {
                Ok(()) => CacheOutcome::Answer(response),
                Err(_) => {
                    // Incorrect data in the cache; treated as a miss.
                    CacheOutcome::QueryBadRow(entry.id)
                },
            }
        }
    } else {
        CacheOutcome::EvictAndQuery(entry.id)
    }
}

/// What the driver must do after an upstream response arrived. The second
/// component is the A record, if any, to persist in the cache before
/// going on.
#[derive(Debug, PartialEq, Eq)]
pub enum ResponseStep {
    /// This packet is the final result for the client.
    Finished(Packet),
    /// Ask upstream again with the updated state.
    Continue,
}

/// One upstream response of the resolver loop, following the response in
/// the order the protocol asks: an address for a pending nameserver ends
/// that sub-search; an answer with NOERROR, or an NXDOMAIN, ends the
/// query; glue switches to the delegated server; an unresolved delegation
/// starts a nameserver sub-search from the root; and a response with none
/// of these is returned as it stands.
pub fn handle_response(state: &mut ResolverState, response: Packet) -> (r: (
    ResponseStep,
    Option<Record>,
))
    ensures
        final(state).qname == old(state).qname,
        final(state).qtype == old(state).qtype,
        final(state).root_addr == old(state).root_addr,
        ({
            let first_a = spec_first_a(response@.answers);
            let glue = spec_resolved_ns(response@, old(state).currently_querying@);
            let pending = spec_unresolved_ns(response@, old(state).currently_querying@);
            if !old(state).search_for_qname && first_a is Some {
                (first_a->Some_0 matches RecordV::A { addr, .. } && r.0 == ResponseStep::Continue
                    && (r.1 matches Some(rec) && rec@ == first_a->Some_0)
                    && final(state).current_ns == addr
                    && final(state).currently_querying@ == old(state).qname@
                    && final(state).current_type == old(state).qtype
                    && final(state).search_for_qname)
            } else if response@.answers.len() > 0 && response@.header.rescode
                == ResultCode::NOERROR {
                (r.0 matches ResponseStep::Finished(p) && p == response) && *final(state) == *old(
                    state,
                ) && (match first_a {
                    Some(rec) => r.1 matches Some(x) && x@ == rec,
                    None => r.1 is None,
                })
            } else if response@.header.rescode == ResultCode::NXDOMAIN {
                (r.0 matches ResponseStep::Finished(p) && p == response) && r.1 is None
                    && *final(state) == *old(state)
            } else if glue is Some {
                (glue->Some_0 matches RecordV::A { addr, .. } && r.0 == ResponseStep::Continue
                    && (r.1 matches Some(rec) && rec@ == glue->Some_0)
                    && final(state).current_ns == addr
                    && final(state).currently_querying == old(state).currently_querying
                    && final(state).current_type == old(state).current_type
                    && final(state).search_for_qname == old(state).search_for_qname)
            } else {
                match pending {
                    Some(host) => r.0 == ResponseStep::Continue && r.1 is None
                        && final(state).currently_querying@ == host
                        && final(state).current_type == QueryType::A
                        && !final(state).search_for_qname
                        && final(state).current_ns == old(state).root_addr,
                    None => (r.0 matches ResponseStep::Finished(p) && p == response) && r.1 is None
                        && *final(state) == *old(state),
                }
            }
        }),
{
    proof {
        crate::packet::lemma_first_a_is_a(response@.answers);
        crate::packet::lemma_resolved_ns_is_a(
            crate::packet::spec_ns_pairs(response@.authorities, state.currently_querying@),
            response@.resources,
        );
    }
    // An address arrived for the nameserver being resolved: make it the
    // current server and resume the search for the client's name.
    if !state.search_for_qname {
        if let Some(record) = response.get_random_a_rec() {
            match &record {
                Record::A { domain: _, addr, ttl: _ } => {
                    state.current_ns = *addr;
                },
                _ => {},
            }
            state.currently_querying = state.qname.clone();
            state.current_type = state.qtype;
            state.search_for_qname = true;
            return (ResponseStep::Continue, Some(record));
        }
    }

    // Entries in the answer section and no error: the answer is found.
    if !response.answers.is_empty() && response.header.rescode == ResultCode::NOERROR {
        let learned = response.get_random_a_rec();
        return (ResponseStep::Finished(response), learned);
    }

    // NXDOMAIN: the authority says the name does not exist.
    if response.header.rescode == ResultCode::NXDOMAIN {
        return (ResponseStep::Finished(response), None);
    }

    // A delegation with glue: switch to the delegated server and retry.
    if let Some(record) = response.get_resolved_ns(self_querying(state).as_str()) {
        match &record {
            Record::A { domain: _, addr, ttl: _ } => {
                state.current_ns = *addr;
            },
            _ => {},
        }
        return (ResponseStep::Continue, Some(record));
    }

    // A delegation without glue: resolve the nameserver itself, starting
    // over from the root. With no delegation at all, the last response is
    // the best there is.
    let host = match response.get_unresolved_ns(self_querying(state).as_str()) {
        Some(x) => x.to_owned(),
        None => {
            return (ResponseStep::Finished(response), None);
        },
    };
    state.currently_querying = host;
    state.current_type = QueryType::A;
    state.search_for_qname = false;
    state.current_ns = state.root_addr;
    (ResponseStep::Continue, None)
}

/// The name the state is querying, borrowed.
fn self_querying(state: &ResolverState) -> (r: &String)
    ensures
        r == state.currently_querying,
{
    &state.currently_querying
}

} // verus!
