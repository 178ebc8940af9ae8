//! Identity resolution: matching a device's stored MAC address against the
//! parsed neighbor table to find its current IP address.
//!
//! MAC addresses are hexadecimal, and tools differ in the letter case they
//! print, so comparison folds the uppercase hexadecimal letters to lowercase
//! on both sides. The first matching record in table order wins; stale
//! duplicate entries for one MAC are not deduplicated.

use crate::arp::{neighbor_views, Neighbor, NeighborView};
use vstd::prelude::*;

verus! {

/// Folds an uppercase hexadecimal letter to its lowercase form and leaves
/// every other character alone.
pub open spec fn fold_hex_char(c: char) -> char {
    match c {
        'A' => 'a',
        'B' => 'b',
        'C' => 'c',
        'D' => 'd',
        'E' => 'e',
        'F' => 'f',
        _ => c,
    }
}

/// A string with its uppercase hexadecimal letters folded to lowercase.
pub open spec fn fold_hex(s: Seq<char>) -> Seq<char> {
    s.map_values(|c: char| fold_hex_char(c))
}

/// Two MAC address strings denote the same hardware address: they are equal
/// once hexadecimal letter case is folded.
pub open spec fn same_mac(a: Seq<char>, b: Seq<char>) -> bool {
    fold_hex(a) == fold_hex(b)
}

/// The IP address of the first neighbor in table order whose MAC matches
/// `mac`, if any.
pub open spec fn spec_resolve(mac: Seq<char>, ns: Seq<NeighborView>) -> Option<Seq<char>>
    decreases ns.len(),
{
    if ns.len() == 0 {
        None
    } else if same_mac(ns[0].mac, mac) {
        Some(ns[0].ip)
    } else {
        spec_resolve(mac, ns.drop_first())
    }
}

/// Folds an uppercase hexadecimal letter to lowercase.
fn fold_char(c: char) -> (r: char)
    ensures
        r == fold_hex_char(c),
{
    match c {
        'A' => 'a',
        'B' => 'b',
        'C' => 'c',
        'D' => 'd',
        'E' => 'e',
        'F' => 'f',
        _ => c,
    }
}

/// Compares two MAC address strings, ignoring hexadecimal letter case.
pub fn mac_eq(a: &str, b: &str) -> (r: bool)
    ensures
        r == same_mac(a@, b@),
{
    let la = a.unicode_len();
    let lb = b.unicode_len();
    if la != lb {
        proof {
            assert(fold_hex(a@).len() == a@.len());
            assert(fold_hex(b@).len() == b@.len());
        }
        return false;
    }
    let mut i: usize = 0;
    while i < la
        invariant
            la == a@.len(),
            lb == b@.len(),
            la == lb,
            i <= la,
            forall|j: int| 0 <= j < i ==> fold_hex_char(a@[j]) == fold_hex_char(b@[j]),
        decreases la - i,
    {
        let fa = fold_char(a.get_char(i));
        let fb = fold_char(b.get_char(i));
        if fa != fb {
            proof {
                assert(fold_hex(a@)[i as int] != fold_hex(b@)[i as int]);
            }
            return false;
        }
        i += 1;
    }
    proof {
        assert(fold_hex(a@) =~= fold_hex(b@));
    }
    true
}

/// Finds the current IP address of the device whose MAC address is `mac`:
/// the IP of the first neighbor in table order with a matching MAC, compared
/// case-insensitively. `None` when the MAC was not seen on the network.
pub fn resolve(mac: &str, neighbors: &Vec<Neighbor>) -> (r: Option<String>)
    ensures
        match r {
            Some(ip) => spec_resolve(mac@, neighbor_views(neighbors@)) == Some(ip@),
            None => spec_resolve(mac@, neighbor_views(neighbors@)) is None,
        },
{
    let ghost ns = neighbor_views(neighbors@);
    let n = neighbors.len();
    let mut i: usize = 0;
    proof {
        assert(ns.skip(0) =~= ns);
    }
    while i < n
        invariant
            n == neighbors@.len(),
            ns == neighbor_views(neighbors@),
            ns.len() == n,
            i <= n,
            spec_resolve(mac@, ns.skip(i as int)) == spec_resolve(mac@, ns),
        decreases n - i,
    {
        proof {
            assert(ns.skip(i as int)[0] == ns[i as int]);
        }
        if mac_eq(neighbors[i].mac.as_str(), mac) {
            proof {
                assert(spec_resolve(mac@, ns.skip(i as int)) == Some(ns[i as int].ip));
            }
            return Some(neighbors[i].ip.clone());
        }
        proof {
            assert(ns.skip(i as int).drop_first() =~= ns.skip(i as int + 1));
        }
        i += 1;
    }
    proof {
        assert(ns.skip(n as int) =~= Seq::<NeighborView>::empty());
    }
    None
}

} // verus!
