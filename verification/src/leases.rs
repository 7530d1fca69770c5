//! Turning one lease event into pending forward and reverse updates.

use vstd::prelude::*;

use crate::hostname::{clean_hostname, spec_clean_hostname};
use crate::update_map::{map_insert, UpdateMap};

verus! {

/// Length of the suffix of `s` strictly after the last `c`; `s.len()` when
/// `c` does not occur.
pub open spec fn suffix_after(s: Seq<char>, c: char) -> int
    decreases s.len(),
{
    if s.len() == 0 {
        0
    } else if s.last() == c {
        0
    } else {
        1 + suffix_after(s.drop_last(), c)
    }
}

/// Records one lease in both pending-update maps: the cleaned hostname
/// pointing at the address forward, and the address's last octet pointing
/// at the hostname (plus `reverse_suffix`) in reverse. Returns false, and
/// touches nothing, when the address holds no dot.
pub fn add_lease(
    forwards: &mut UpdateMap,
    reverses: &mut UpdateMap,
    hostname: &str,
    ip_address: &str,
    hw_addr: &str,
    reverse_suffix: &str,
) -> (r: bool)
    ensures
        ({
            let name = spec_clean_hostname(hostname@, hw_addr@);
            let k = suffix_after(ip_address@, '.');
            if k == ip_address@.len() {
                r == false && final(forwards)@ == old(forwards)@ && final(reverses)@ == old(
                    reverses,
                )@
            } else {
                r == true && final(forwards)@ == map_insert(old(forwards)@, name, ip_address@)
                    && final(reverses)@ == map_insert(
                    old(reverses)@,
                    ip_address@.skip(ip_address@.len() - k),
                    name + reverse_suffix@,
                )
            }
        }),
        old(forwards).wf() ==> final(forwards).wf(),
        old(reverses).wf() ==> final(reverses).wf(),
{
    let n = ip_address.unicode_len();
    let mut j: usize = n;
    proof {
        assert(ip_address@.subrange(0, n as int) =~= ip_address@);
    }
    while j > 0 && ip_address.get_char(j - 1) != '.'
        invariant
            j <= n,
            n == ip_address@.len(),
            suffix_after(ip_address@, '.') == (n - j) + suffix_after(
                ip_address@.subrange(0, j as int),
                '.',
            ),
        decreases j,
    {
        proof {
            let part = ip_address@.subrange(0, j as int);
            assert(part.last() == ip_address@[j - 1]);
            assert(part.drop_last() =~= ip_address@.subrange(0, j - 1));
        }
        j = j - 1;
    }
    proof {
        let part = ip_address@.subrange(0, j as int);
        if j > 0 {
            assert(part.last() == ip_address@[j - 1]);
        }
        assert(suffix_after(part, '.') == 0);
    }
    if j == 0 {
        return false;
    }
    let octet = ip_address.substring_char(j, n);
    proof {
        assert(octet@ =~= ip_address@.skip(
            ip_address@.len() - suffix_after(ip_address@, '.'),
        ));
    }
    let name = clean_hostname(hostname, hw_addr);
    forwards.insert(name.as_str(), ip_address);
    let reverse_name = name.concat(reverse_suffix);
    reverses.insert(octet, reverse_name.as_str());
    true
}

} // verus!
