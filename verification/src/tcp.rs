//! Where a TCP tunnel goes: the relay that serves a decoded host, and the
//! address that is dialled for it.

use vstd::prelude::*;
use vstd::string::StringExecFns;

verus! {

/// The relay that serves a destination.
#[derive(Clone, Copy, Debug, PartialEq, Eq)]
pub enum Route {
    /// The destination names port 53: the DNS relay serves it.
    Dns,
    /// Any other destination: the TCP relay serves it.
    Tcp,
}

/// A destination and the relay that serves it.
#[derive(Debug)]
pub struct Destination {
    pub route: Route,
    /// The host with its port.
    pub address: String,
}

/// The host ends with `:53`.
pub open spec fn names_port_53(host: Seq<char>) -> bool {
    host.len() >= 3 && host.subrange(host.len() - 3, host.len() as int) == seq![':', '5', '3']
}

/// The address that is dialled for `host`: the host itself where it holds a
/// colon, else the host with the default port 80.
pub open spec fn dial_address(host: Seq<char>) -> Seq<char> {
    if host.contains(':') {
        host
    } else {
        host + ":80"@
    }
}

/// Decides which relay serves `host`, and completes it to an address.
pub fn route_host(host: String) -> (dest: Destination)
    ensures
        dest.route == (if names_port_53(host@) {
            Route::Dns
        } else {
            Route::Tcp
        }),
        dest.address@ == dial_address(host@),
{
    let mut colon = false;
    let mut seen: u8 = 0;
    let mut a: char = ' ';
    let mut b: char = ' ';
    let mut c: char = ' ';
    for ch in it: host.as_str().chars()
        invariant
            it.seq() == host@,
            colon == exists|j: int| 0 <= j < it.index() && host@[j] == ':',
            seen as int == (if it.index() < 3 {
                it.index()
            } else {
                3
            }),
            seen >= 1 ==> c == host@[it.index() - 1],
            seen >= 2 ==> b == host@[it.index() - 2],
            seen >= 3 ==> a == host@[it.index() - 3],
    {
        if ch == ':' {
            colon = true;
        }
        a = b;
        b = c;
        c = ch;
        if seen < 3 {
            seen = seen + 1;
        }
    }
    let dns = seen == 3 && a == ':' && b == '5' && c == '3';
    proof {
        let n = host@.len() as int;
        if n >= 3 {
            let tail = host@.subrange(n - 3, n);
            assert(tail[0] == a && tail[1] == b && tail[2] == c);
            if dns {
                assert(tail =~= seq![':', '5', '3']);
            } else {
                assert(seq![':', '5', '3'][0] == ':' && seq![':', '5', '3'][1] == '5' && seq![
                    ':',
                    '5',
                    '3',
                ][2] == '3');
            }
        }
        assert(colon == host@.contains(':'));
    }
    let mut address = host;
    if !colon {
        address.append(":80");
    }
    Destination { route: if dns { Route::Dns } else { Route::Tcp }, address }
}

} // verus!
