//! The root name servers that every resolution starts from.
use vstd::prelude::*;

use crate::net::ServerAddr;

verus! {

/// The IPv4 addresses of the 13 root servers, a.root-servers.net to
/// m.root-servers.net in order. (IPv6 root addresses exist too but a v4-only
/// resolver is a fine starting point.)
pub open spec fn root_hint_ips() -> Seq<[u8; 4]> {
    seq![
        [198u8, 41u8, 0u8, 4u8],
        [199u8, 9u8, 14u8, 201u8],
        [192u8, 33u8, 4u8, 12u8],
        [199u8, 7u8, 91u8, 13u8],
        [192u8, 203u8, 230u8, 10u8],
        [192u8, 5u8, 5u8, 241u8],
        [192u8, 112u8, 36u8, 4u8],
        [198u8, 97u8, 190u8, 53u8],
        [192u8, 36u8, 148u8, 17u8],
        [192u8, 58u8, 128u8, 30u8],
        [193u8, 0u8, 14u8, 129u8],
        [199u8, 7u8, 83u8, 42u8],
        [202u8, 12u8, 27u8, 33u8],
    ]
}

/// Each root server on port 53.
pub fn root_server_addrs() -> (v: Vec<ServerAddr>)
    ensures
        v@.len() == 13,
        forall|i: int| 0 <= i < 13 ==> #[trigger] v@[i] == (ServerAddr { ip: root_hint_ips()[i], port: 53 }),
{
    let ips: [[u8; 4]; 13] = [
        [198, 41, 0, 4],
        [199, 9, 14, 201],
        [192, 33, 4, 12],
        [199, 7, 91, 13],
        [192, 203, 230, 10],
        [192, 5, 5, 241],
        [192, 112, 36, 4],
        [198, 97, 190, 53],
        [192, 36, 148, 17],
        [192, 58, 128, 30],
        [193, 0, 14, 129],
        [199, 7, 83, 42],
        [202, 12, 27, 33],
    ];
    assert(ips@ =~= root_hint_ips());
    let mut v: Vec<ServerAddr> = Vec::new();
    let mut i: usize = 0;
    while i < 13
        invariant
            i <= 13,
            ips@ == root_hint_ips(),
            v@.len() == i,
            forall|k: int| 0 <= k < i ==> #[trigger] v@[k] == (ServerAddr { ip: root_hint_ips()[k], port: 53 }),
        decreases 13 - i,
    {
        v.push(ServerAddr { ip: ips[i], port: 53 });
        i = i + 1;
    }
    v
}

} // verus!
