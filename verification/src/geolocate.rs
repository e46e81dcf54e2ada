use vstd::prelude::*;

verus! {

use crate::rational::{all_digits, digits_val, digit_of, is_digit};
use crate::strutil::{split_char, split_str, trim_spec, trim_str};

/// One dotted-quad octet: digits only, below 256.
pub open spec fn octet_ok(p: Seq<char>) -> bool {
    p.len() >= 1 && all_digits(p) && digits_val(p) < 256
}

/// The address number a dotted quad denotes, if each of its four octets is
/// in range.
pub open spec fn spec_parse_ipv4(s: Seq<char>) -> Option<u32> {
    let parts = split_char(s, '.');
    if parts.len() == 4 && octet_ok(parts[0]) && octet_ok(parts[1]) && octet_ok(parts[2])
        && octet_ok(parts[3]) {
        Some(
            (digits_val(parts[0]) * 0x1000000 + digits_val(parts[1]) * 0x10000 + digits_val(
                parts[2],
            ) * 0x100 + digits_val(parts[3])) as u32,
        )
    } else {
        None
    }
}

/// Read one octet; values at or above 256, junk, and emptiness all fail.
fn octet_value(p: &str) -> (r: Option<u32>)
    ensures
        match r {
            Some(v) => octet_ok(p@) && v == digits_val(p@),
            None => !octet_ok(p@),
        },
{
    let n = p.unicode_len();
    if n == 0 {
        return None;
    }
    let mut acc: u32 = 0;
    let mut i: usize = 0;
    while i < n
        invariant
            i <= n,
            n == p@.len(),
            all_digits(p@.take(i as int)),
            digits_val(p@.take(i as int)) <= 255 ==> acc == digits_val(p@.take(i as int)),
            digits_val(p@.take(i as int)) > 255 ==> acc == 256,
            digits_val(p@.take(i as int)) >= 0,
            acc <= 256,
        decreases n - i,
    {
        let ghost pre = p@.take(i as int);
        let ghost post = p@.take(i + 1);
        match digit_of(p.get_char(i)) {
            Some(d) => {
                proof {
                    assert(post.drop_last() =~= pre);
                    assert(post.last() == p@[i as int]);
                }
                if acc > 255 {
                    acc = 256;
                } else {
                    acc = acc * 10 + (d as u32);
                    if acc > 255 {
                        acc = 256;
                    }
                }
            },
            None => {
                proof {
                    assert(!all_digits(p@)) by {
                        if all_digits(p@) {
                            assert(is_digit(p@[i as int]));
                        }
                    }
                }
                return None;
            },
        }
        i += 1;
    }
    proof {
        assert(p@.take(n as int) =~= p@);
    }
    if acc > 255 {
        None
    } else {
        Some(acc)
    }
}

/// Read a dotted quad, as `spec_parse_ipv4` describes.
pub fn parse_ipv4(s: &str) -> (r: Option<u32>)
    ensures
        r == spec_parse_ipv4(s@),
{
    let ghost spec_parts = split_char(s@, '.');
    let parts = split_str(s, '.');
    if parts.len() != 4 {
        return None;
    }
    proof {
        assert(parts@[0]@ == spec_parts[0] && parts@[1]@ == spec_parts[1] && parts@[2]@
            == spec_parts[2] && parts@[3]@ == spec_parts[3]);
    }
    let a = match octet_value(parts[0].as_str()) {
        Some(v) => v,
        None => {
            return None;
        },
    };
    let b = match octet_value(parts[1].as_str()) {
        Some(v) => v,
        None => {
            return None;
        },
    };
    let c = match octet_value(parts[2].as_str()) {
        Some(v) => v,
        None => {
            return None;
        },
    };
    let d = match octet_value(parts[3].as_str()) {
        Some(v) => v,
        None => {
            return None;
        },
    };
    Some(a * 0x1000000 + b * 0x10000 + c * 0x100 + d)
}

/// Distance between two address numbers.
pub open spec fn ip_dist(a: u32, ipn: u32) -> int {
    if a > ipn {
        a - ipn
    } else {
        ipn - a
    }
}

/// `i` is the entry the scan settles on: no entry sits closer, and no later
/// entry sits as close.
pub open spec fn chosen_at<C>(locs: Seq<(u32, C)>, ipn: u32, i: int) -> bool {
    &&& 0 <= i < locs.len()
    &&& forall|j: int|
        0 <= j < locs.len() ==> ip_dist(locs[i].0, ipn) <= ip_dist((#[trigger] locs[j]).0, ipn)
    &&& forall|j: int|
        i < j < locs.len() ==> ip_dist(locs[i].0, ipn) < ip_dist((#[trigger] locs[j]).0, ipn)
}

/// What a lookup returns: the coordinates of the entry nearest to the
/// address, later entries winning ties; nothing for a malformed address or
/// an empty table.
pub open spec fn spec_lookup<C>(locs: Seq<(u32, C)>, ip: Seq<char>) -> Option<C> {
    match spec_parse_ipv4(ip) {
        None => None,
        Some(ipn) => if locs.len() == 0 {
            None
        } else {
            Some(locs[choose|i: int| chosen_at(locs, ipn, i)].1)
        },
    }
}

/// An IP-to-coordinate table: each entry maps an address number to a
/// coordinate payload; a lookup returns the payload of the nearest entry.
pub struct IpLocator<C> {
    locations: Vec<(u32, C)>,
    num_proxies: usize,
}

pub struct LocatorView<C> {
    pub locations: Seq<(u32, C)>,
    pub num_proxies: nat,
}

impl<C> View for IpLocator<C> {
    type V = LocatorView<C>;

    closed spec fn view(&self) -> LocatorView<C> {
        LocatorView { locations: self.locations@, num_proxies: self.num_proxies as nat }
    }
}

impl<C: Copy> IpLocator<C> {
    /// A table over the given entries; `num_proxies` says how many proxies
    /// stand before the service, for reading forwarded addresses.
    pub fn new(locations: Vec<(u32, C)>, num_proxies: usize) -> (r: Self)
        ensures
            r@.locations == locations@,
            r@.num_proxies == num_proxies,
    {
        IpLocator { locations, num_proxies }
    }

    /// Look an address up, as `spec_lookup` describes.
    pub fn lookup(&self, ip: &str) -> (r: Option<C>)
        ensures
            r == spec_lookup(self@.locations, ip@),
    {
        let ghost locs = self@.locations;
        let ipn = match parse_ipv4(ip) {
            Some(v) => v,
            None => {
                return None;
            },
        };
        if self.locations.len() == 0 {
            return None;
        }
        let mut min_dist: u32 = 0xffffffff;
        let mut result: Option<C> = None;
        let ghost mut best: int = 0;
        let mut i: usize = 0;
        while i < self.locations.len()
            invariant
                i <= locs.len(),
                locs == self@.locations,
                locs.len() > 0,
                result is None ==> i == 0 && min_dist == 0xffffffff,
                result is Some ==> 0 <= best < i && result == Some(locs[best].1) && min_dist
                    == ip_dist(locs[best].0, ipn) && (forall|j: int|
                    0 <= j < i ==> min_dist <= ip_dist((#[trigger] locs[j]).0, ipn)) && (forall|
                    j: int,
                |
                    best < j < i ==> min_dist < ip_dist((#[trigger] locs[j]).0, ipn)),
            decreases locs.len() - i,
        {
            let (cur_ip, payload) = self.locations[i];
            let dist: u32 = if cur_ip > ipn {
                cur_ip - ipn
            } else {
                ipn - cur_ip
            };
            if dist <= min_dist {
                min_dist = dist;
                result = Some(payload);
                proof {
                    best = i as int;
                }
            }
            i += 1;
        }
        proof {
            assert(chosen_at(locs, ipn, best));
            let c0 = choose|t: int| chosen_at(locs, ipn, t);
            assert(chosen_at(locs, ipn, c0));
            if c0 < best {
                assert(ip_dist(locs[c0].0, ipn) < ip_dist(locs[best].0, ipn));
                assert(ip_dist(locs[best].0, ipn) <= ip_dist(locs[c0].0, ipn));
            }
            if c0 > best {
                assert(ip_dist(locs[best].0, ipn) < ip_dist(locs[c0].0, ipn));
                assert(ip_dist(locs[c0].0, ipn) <= ip_dist(locs[best].0, ipn));
            }
            assert(c0 == best);
        }
        result
    }

    /// Pick the caller's address and look it up: behind `num_proxies`
    /// proxies, the address is read from the forwarded-for list, counting
    /// back from its end; a list shorter than the proxy count names nobody.
    pub fn lookup_for_request(&self, forwarded: Option<&str>, addr: &str) -> (r: Option<C>)
        ensures
            ({
                let np = self@.num_proxies;
                match forwarded {
                    Some(f) => if np > 0 {
                        let parts = split_char(f@, ',');
                        if parts.len() < np {
                            r is None
                        } else {
                            r == spec_lookup(
                                self@.locations,
                                trim_spec(parts[parts.len() - np]),
                            )
                        }
                    } else {
                        r == spec_lookup(self@.locations, addr@)
                    },
                    None => r == spec_lookup(self@.locations, addr@),
                }
            }),
    {
        if self.num_proxies > 0 {
            if let Some(f) = forwarded {
                let parts = split_str(f, ',');
                if parts.len() < self.num_proxies {
                    return None;
                }
                let idx = parts.len() - self.num_proxies;
                proof {
                    assert(parts@[idx as int]@ == split_char(f@, ',')[idx as int]);
                }
                let picked = trim_str(parts[idx].as_str());
                return self.lookup(picked);
            }
        }
        self.lookup(addr)
    }
}

} // verus!
