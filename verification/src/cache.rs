//! The cache layer: one persistent row per learned record, with TTL-based
//! validity. The store itself lives outside the library; rows reach this
//! module as plain values, and the clock reaches it as a timestamp in
//! seconds.

use vstd::prelude::*;

use crate::addrs::{format_ipv4, parse_ipv4, parse_ipv6, spec_format_ipv4, spec_parse_ipv4, spec_parse_ipv6};
use crate::errors::{CResult, DnsError};
use crate::records::{spec_qtype_from_num, Ipv4Addr, QueryType, Record, RecordV};

verus! {

/// One row of the persistent cache. For each supported record type a fixed
/// set of the optional columns is filled: A and AAAA use `address`, CNAME
/// and NS use `host`, MX uses `host` and `priority`.
#[derive(Debug, Clone)]
pub struct CachedRecord {
    /// The row's unique id; zero until the store assigns one.
    pub id: u32,
    /// The address as text, for A and AAAA rows.
    pub address: Option<String>,
    /// The target host, for CNAME, NS and MX rows.
    pub host: Option<String>,
    /// The priority, for MX rows.
    pub priority: Option<u16>,
    /// The owner domain, lowercased.
    pub domain: String,
    /// Absolute expiration time, in seconds of the cache's clock.
    pub expiration_date: i64,
    /// The record's time to live, in seconds.
    pub ttl: u32,
    /// The record type's wire number.
    pub record_type: u16,
}

/// A row is valid while its expiration time has not passed.
pub open spec fn spec_valid(entry: CachedRecord, now: i64) -> bool {
    entry.expiration_date >= now
}

/// The record a row reconstructs to, or the integrity failure it hides:
/// a row whose column set does not fit its type, or whose address text
/// does not parse, is a data-integrity error.
pub open spec fn spec_record_from_cache(c: CachedRecord) -> Result<RecordV, DnsError> {
    match spec_qtype_from_num(c.record_type) {
        QueryType::A => match c.address {
            None => Err(DnsError::CacheIntegrity),
            Some(a) => match spec_parse_ipv4(a@) {
                None => Err(DnsError::CacheIntegrity),
                Some(ip) => Ok(RecordV::A { domain: c.domain@, addr: ip, ttl: c.ttl }),
            },
        },
        QueryType::NS => match c.host {
            None => Err(DnsError::CacheIntegrity),
            Some(h) => Ok(RecordV::NS { domain: c.domain@, host: h@, ttl: c.ttl }),
        },
        QueryType::CNAME => match c.host {
            None => Err(DnsError::CacheIntegrity),
            Some(h) => Ok(RecordV::CNAME { domain: c.domain@, host: h@, ttl: c.ttl }),
        },
        QueryType::MX => match (c.host, c.priority) {
            (Some(h), Some(p)) => Ok(
                RecordV::MX { domain: c.domain@, priority: p, host: h@, ttl: c.ttl },
            ),
            _ => Err(DnsError::CacheIntegrity),
        },
        QueryType::AAAA => match c.address {
            None => Err(DnsError::CacheIntegrity),
            Some(a) => match spec_parse_ipv6(a@) {
                None => Err(DnsError::CacheIntegrity),
                Some(ip) => Ok(RecordV::AAAA { domain: c.domain@, addr: ip, ttl: c.ttl }),
            },
        },
        _ => Err(DnsError::CacheIntegrity),
    }
}

impl CachedRecord {
    /// True while the row has not expired at time `now`.
    pub fn is_valid(&self, now: i64) -> (r: bool)
        ensures
            r == spec_valid(*self, now),
    {
        if self.expiration_date >= now {
            return true;
        }
        false
    }

    /// Reconstructs the typed record this row stores, per the column-set
    /// invariant. A row that violates the invariant, or whose address text
    /// does not parse, surfaces as a data-integrity error.
    pub fn record_from_cache(&self) -> (r: CResult<Record>)
        ensures
            match r {
                Ok(rec) => spec_record_from_cache(*self) == Ok::<RecordV, DnsError>(rec@),
                Err(e) => spec_record_from_cache(*self) == Err::<RecordV, DnsError>(e),
            },
    {
        let record_type = QueryType::from_num(self.record_type);
        match record_type {
            QueryType::A => {
                let raw_addr = match &self.address {
                    Some(ra) => ra,
                    None => {
                        return Err(DnsError::CacheIntegrity);
                    },
                };
                let addr = match parse_ipv4(raw_addr.as_str()) {
                    Some(a) => a,
                    None => {
                        return Err(DnsError::CacheIntegrity);
                    },
                };
                Ok(Record::A { domain: self.domain.clone(), addr, ttl: self.ttl })
            },
            QueryType::NS => {
                let host = match &self.host {
                    Some(h) => h.clone(),
                    None => {
                        return Err(DnsError::CacheIntegrity);
                    },
                };
                Ok(Record::NS { domain: self.domain.clone(), host, ttl: self.ttl })
            },
            QueryType::CNAME => {
                let host = match &self.host {
                    Some(h) => h.clone(),
                    None => {
                        return Err(DnsError::CacheIntegrity);
                    },
                };
                Ok(Record::CNAME { domain: self.domain.clone(), host, ttl: self.ttl })
            },
            QueryType::MX => {
                let host = match &self.host {
                    Some(h) => h,
                    None => {
                        return Err(DnsError::CacheIntegrity);
                    },
                };
                let priority = match self.priority {
                    Some(p) => p,
                    None => {
                        return Err(DnsError::CacheIntegrity);
                    },
                };
                Ok(Record::MX {
                    domain: self.domain.clone(),
                    priority,
                    host: host.clone(),
                    ttl: self.ttl,
                })
            },
            QueryType::AAAA => {
                let raw_addr = match &self.address {
                    Some(ra) => ra,
                    None => {
                        return Err(DnsError::CacheIntegrity);
                    },
                };
                let addr = match parse_ipv6(raw_addr.as_str()) {
                    Some(a) => a,
                    None => {
                        return Err(DnsError::CacheIntegrity);
                    },
                };
                Ok(Record::AAAA { domain: self.domain.clone(), addr, ttl: self.ttl })
            },
            _ => Err(DnsError::CacheIntegrity),
        }
    }

    /// The row an A record is persisted as: the address in dotted-quad
    /// text, record type 1, and an absolute expiration `now + ttl`. The
    /// store assigns the real id on insertion.
    pub fn new_a(domain: &String, addr: Ipv4Addr, ttl: u32, now: i64) -> (r: CachedRecord)
        requires
            now + ttl <= i64::MAX,
        ensures
            r.id == 0,
            r.address matches Some(a) && a@ == spec_format_ipv4(addr),
            r.host is None,
            r.priority is None,
            r.domain@ == domain@,
            r.expiration_date == now + ttl,
            r.ttl == ttl,
            r.record_type == 1,
            spec_valid(r, now),
            spec_record_from_cache(r) == Ok::<RecordV, DnsError>(
                RecordV::A { domain: domain@, addr, ttl },
            ),
    {
        proof {
            crate::addrs::lemma_format_parse_ipv4(addr);
        }
        let text = format_ipv4(addr);
        let r = CachedRecord {
            id: 0,
            address: Some(text),
            host: None,
            priority: None,
            domain: domain.clone(),
            expiration_date: now + ttl as i64,
            ttl,
            record_type: 1,
        };
        r
    }
}

/// Cache validity monotonicity: a row inserted with TTL `ttl` at time `t0`
/// is valid at every instant from `t0` through `t0 + ttl`, and invalid at
/// every later instant.
pub proof fn lemma_cache_validity(entry: CachedRecord, t0: i64, ttl: u32, now: i64)
    requires
        entry.expiration_date == t0 + ttl,
    ensures
        t0 <= now <= t0 + ttl ==> spec_valid(entry, now),
        now > t0 + ttl ==> !spec_valid(entry, now),
{
}

} // verus!
