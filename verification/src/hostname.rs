//! Lease hostname cleanup: domain stripping and the hardware-address
//! fallback table.

use vstd::prelude::*;

use crate::text::str_eq;

verus! {

/// Every `:` replaced by `_`: the normalized hardware address.
pub open spec fn replace_colons(s: Seq<char>) -> Seq<char> {
    s.map_values(|c: char| if c == ':' { '_' } else { c })
}

/// The friendly-name table for devices that report no hostname, keyed by
/// normalized hardware address.
pub open spec fn static_mapping(mac: Seq<char>) -> Option<Seq<char>> {
    if mac == "24_46_c8_8b_bb_f1"@ {
        Some("motoG7"@)
    } else {
        None
    }
}

/// Length of the prefix of `s` before the first `c`; `s.len()` when `c`
/// does not occur.
pub open spec fn prefix_until(s: Seq<char>, c: char) -> int
    decreases s.len(),
{
    if s.len() == 0 {
        0
    } else if s[0] == c {
        0
    } else {
        1 + prefix_until(s.drop_first(), c)
    }
}

/// The cleaned hostname: an empty hostname falls back to the normalized
/// hardware address (mapped through the friendly-name table when present);
/// otherwise the hostname is cut at its first dot.
pub open spec fn spec_clean_hostname(hostname: Seq<char>, hw: Seq<char>) -> Seq<char> {
    if hostname.len() == 0 {
        let mac = replace_colons(hw);
        match static_mapping(mac) {
            Some(friendly) => friendly,
            None => mac,
        }
    } else {
        hostname.take(prefix_until(hostname, '.'))
    }
}

fn normalize_hw(hw_addr: &str) -> (r: String)
    ensures
        r@ == replace_colons(hw_addr@),
{
    let n = hw_addr.unicode_len();
    let mut out = String::new();
    let mut i: usize = 0;
    proof {
        assert(out@ =~= replace_colons(hw_addr@.take(0)));
    }
    while i < n
        invariant
            i <= n,
            n == hw_addr@.len(),
            out@ == replace_colons(hw_addr@.take(i as int)),
        decreases n - i,
    {
        let c = hw_addr.get_char(i);
        if c == ':' {
            proof {
                reveal_strlit("_");
                assert(out@ + "_"@ =~= replace_colons(hw_addr@.take(i + 1)));
            }
            out.append("_");
        } else {
            let piece = hw_addr.substring_char(i, i + 1);
            proof {
                assert(out@ + piece@ =~= replace_colons(hw_addr@.take(i + 1)));
            }
            out.append(piece);
        }
        i = i + 1;
    }
    proof {
        assert(hw_addr@.take(n as int) =~= hw_addr@);
    }
    out
}

/// Cleans a lease's hostname. An empty hostname is replaced by the
/// normalized hardware address, or by its friendly name when the table
/// holds one; otherwise any domain suffix after the first dot is cut off.
pub fn clean_hostname(hostname: &str, hw_addr: &str) -> (r: String)
    ensures
        r@ == spec_clean_hostname(hostname@, hw_addr@),
{
    let n = hostname.unicode_len();
    if n == 0 {
        let mac = normalize_hw(hw_addr);
        if str_eq(mac.as_str(), "24_46_c8_8b_bb_f1") {
            String::from_str("motoG7")
        } else {
            mac
        }
    } else {
        let mut i: usize = 0;
        proof {
            assert(hostname@.subrange(0, n as int) =~= hostname@);
        }
        while i < n && hostname.get_char(i) != '.'
            invariant
                i <= n,
                n == hostname@.len(),
                prefix_until(hostname@, '.') == i + prefix_until(
                    hostname@.subrange(i as int, n as int),
                    '.',
                ),
            decreases n - i,
        {
            proof {
                let rest = hostname@.subrange(i as int, n as int);
                assert(rest[0] == hostname@[i as int]);
                assert(rest.drop_first() =~= hostname@.subrange(i + 1, n as int));
            }
            i = i + 1;
        }
        proof {
            let rest = hostname@.subrange(i as int, n as int);
            if i < n {
                assert(rest[0] == hostname@[i as int]);
            }
            assert(prefix_until(rest, '.') == 0);
            assert(hostname@.subrange(0, i as int) =~= hostname@.take(
                prefix_until(hostname@, '.'),
            ));
        }
        String::from_str(hostname.substring_char(0, i))
    }
}

} // verus!
