//! The orchestrator's decisions: how many game servers to start and on
//! which ports, and what it records of each heartbeat.
use vstd::prelude::*;
use crate::wire::str_eq;
use crate::heartbeat::{Heartbeat, heartbeat_readable, parse_heartbeat};

verus! {

/// The bytes a datagram carries before its heartbeat: the header the game
/// servers' transport puts in front of each packet.
pub const TRANSPORT_HEADER_LEN: usize = 18;

/// The status recorded for a server that reports `is_full`.
pub open spec fn status_of(is_full: bool) -> Seq<char> {
    if is_full {
        "full"@
    } else {
        "available"@
    }
}

/// The number of servers whose recorded status is "available"; a server
/// without a status is not counted.
pub open spec fn count_available(statuses: Seq<Option<String>>) -> nat
    decreases statuses.len(),
{
    if statuses.len() == 0 {
        0
    } else {
        count_available(statuses.drop_last()) + match statuses.last() {
            Some(s) => if s@ == "available"@ {
                1nat
            } else {
                0nat
            },
            None => 0nat,
        }
    }
}

/// The status recorded for the server a heartbeat comes from.
pub fn server_status(heartbeat: &Heartbeat) -> (s: &'static str)
    ensures
        s@ == status_of(heartbeat.is_full),
{
    if heartbeat.is_full {
        "full"
    } else {
        "available"
    }
}

/// Counts the servers whose status is "available".
pub fn count_available_servers(statuses: &Vec<Option<String>>) -> (n: usize)
    ensures
        n == count_available(statuses@),
{
    let mut count: usize = 0;
    let mut i: usize = 0;
    while i < statuses.len()
        invariant
            i <= statuses@.len(),
            count == count_available(statuses@.take(i as int)),
            count <= i,
        decreases statuses@.len() - i,
    {
        assert(statuses@.take(i + 1).drop_last() =~= statuses@.take(i as int));
        if let Some(s) = &statuses[i] {
            if str_eq(s.as_str(), "available") {
                count = count + 1;
            }
        }
        i = i + 1;
    }
    assert(statuses@.take(i as int) =~= statuses@);
    count
}

/// The ports of the servers to start so that `hot_servers_min` are
/// available: one per missing server, taken in turn from
/// `next_server_port`, which moves past them.
pub fn servers_to_spawn(count: usize, hot_servers_min: usize, next_server_port: &mut u16) -> (ports: Vec<u16>)
    requires
        count < hot_servers_min ==> *old(next_server_port) + (hot_servers_min - count) <= u16::MAX,
    ensures
        ports@.len() == if count < hot_servers_min {
            (hot_servers_min - count) as nat
        } else {
            0nat
        },
        forall|i: int| 0 <= i < ports@.len() ==> #[trigger] ports@[i] == *old(next_server_port) + i,
        *final(next_server_port) == *old(next_server_port) + ports@.len(),
{
    let mut ports: Vec<u16> = Vec::new();
    let mut k: usize = count;
    while k < hot_servers_min
        invariant
            count < hot_servers_min ==> *old(next_server_port) + (hot_servers_min - count) <= u16::MAX,
            count <= hot_servers_min ==> count <= k <= hot_servers_min,
            count > hot_servers_min ==> k == count,
            ports@.len() == k - count,
            *next_server_port == *old(next_server_port) + (k - count),
            forall|i: int| 0 <= i < ports@.len() ==> #[trigger] ports@[i] == *old(next_server_port) + i,
        decreases hot_servers_min - k,
    {
        ports.push(*next_server_port);
        *next_server_port = *next_server_port + 1;
        k = k + 1;
    }
    ports
}

/// The heartbeat a datagram carries after the transport's header; `None`
/// when its zone is not UTF-8.
pub fn heartbeat_from_datagram(datagram: &[u8]) -> (r: Option<Heartbeat>)
    requires
        datagram@.len() >= TRANSPORT_HEADER_LEN,
        heartbeat_readable(datagram@.skip(TRANSPORT_HEADER_LEN as int)),
    ensures
        match r {
            Some(h) => parse_heartbeat(datagram@.skip(TRANSPORT_HEADER_LEN as int)) == Some(h@),
            None => parse_heartbeat(datagram@.skip(TRANSPORT_HEADER_LEN as int)) is None,
        },
{
    let mut payload: Vec<u8> = Vec::new();
    let mut i: usize = TRANSPORT_HEADER_LEN;
    while i < datagram.len()
        invariant
            TRANSPORT_HEADER_LEN <= i <= datagram@.len(),
            payload@ == datagram@.subrange(TRANSPORT_HEADER_LEN as int, i as int),
        decreases datagram@.len() - i,
    {
        payload.push(datagram[i]);
        i = i + 1;
        assert(payload@ =~= datagram@.subrange(TRANSPORT_HEADER_LEN as int, i as int));
    }
    assert(payload@ =~= datagram@.skip(TRANSPORT_HEADER_LEN as int));
    Heartbeat::from_bytes(payload.as_slice())
}

/// A server that is not full is recorded as available and counted; a full
/// one is not counted.
pub proof fn lemma_status_counted(statuses: Seq<Option<String>>, s: String, is_full: bool)
    requires
        s@ == status_of(is_full),
    ensures
        count_available(statuses.push(Some(s))) == count_available(statuses) + if is_full {
            0nat
        } else {
            1nat
        },
{
    reveal_strlit("full");
    reveal_strlit("available");
    assert(statuses.push(Some(s)).drop_last() =~= statuses);
    if is_full {
        assert(s@.len() == 4);
    }
}

} // verus!
