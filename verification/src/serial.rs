//! The serial marker line: recognition and increment.

use vstd::prelude::*;

use crate::digits::{dec_digits, dec_value, is_dec, parse_u64, format_u64};
use crate::text::{is_space, lemma_trim_front_suffix, trim, trim_back, trim_front, trimmed};

verus! {

/// Reconciliation fails only on a zone file whose serial line carries no
/// readable number: that file cannot be republished safely.
#[derive(Clone, Copy, Debug, PartialEq, Eq)]
pub enum ZoneError {
    CorruptZoneFile,
}

/// The literal that closes a serial line.
pub open spec fn serial_marker() -> Seq<char> {
    seq![';', 'S', 'e', 'r', 'i', 'a', 'l']
}

/// The last seven characters are the marker.
pub open spec fn marker_at_end(s: Seq<char>) -> bool {
    s.len() >= 7 && s.subrange(s.len() - 7, s.len() as int) == serial_marker()
}

/// A serial line: the line, trimmed, ends with the marker.
pub open spec fn is_serial_line(s: Seq<char>) -> bool {
    marker_at_end(trimmed(s))
}

/// The numeric field of a serial line: everything before the marker,
/// trimmed.
pub open spec fn serial_field(s: Seq<char>) -> Seq<char> {
    trimmed(trimmed(s).subrange(0, trimmed(s).len() - 7))
}

pub open spec fn serial_value(s: Seq<char>) -> nat {
    dec_value(serial_field(s))
}

/// The serial number is readable and its successor fits in a `u64`.
pub open spec fn serial_ok(s: Seq<char>) -> bool {
    is_dec(serial_field(s)) && serial_value(s) + 1 <= u64::MAX
}

/// The serial line written back out, carrying `n`.
pub open spec fn render_serial(n: nat) -> Seq<char> {
    dec_digits(n) + seq![' '] + serial_marker()
}

/// What one line becomes under the serial pass: `None` when the file is
/// corrupt, otherwise the line (incremented when it is the serial line)
/// and whether it was the serial line.
pub open spec fn spec_update_serial(s: Seq<char>) -> Option<(Seq<char>, bool)> {
    if is_serial_line(s) {
        if serial_ok(s) {
            Some((render_serial(serial_value(s) + 1), true))
        } else {
            None
        }
    } else {
        Some((s, false))
    }
}

/// On text whose last character is no separator, the trimmed test agrees
/// with the raw suffix test.
pub proof fn lemma_marker_ignores_lead(s: Seq<char>)
    requires
        s.len() > 0,
        !is_space(s.last()),
    ensures
        is_serial_line(s) == marker_at_end(s),
        trimmed(s) == trim_front(s),
{
    lemma_trim_front_suffix(s);
    let t = trim_front(s);
    let k = s.len() - t.len();
    if t.len() == 0 {
        assert(is_space(s[s.len() - 1]));
        assert(false);
    }
    assert(t[t.len() - 1] == s[s.len() - 1]);
    assert(trim_back(t) == t);
    assert(trimmed(s) == t);
    if t.len() >= 7 {
        assert(t.subrange(t.len() - 7, t.len() as int) =~= s.subrange(s.len() - 7, s.len() as int));
    } else {
        if s.len() >= 7 {
            let p = s.len() - 7;
            assert(is_space(s[p]));
            if s.subrange(p, s.len() as int) == serial_marker() {
                assert(s.subrange(p, s.len() as int)[0] == s[p]);
                assert(serial_marker()[0] == ';');
                assert(false);
            }
        }
    }
}

fn ends_with_marker(t: &str) -> (r: bool)
    ensures
        r == marker_at_end(t@),
{
    let n = t.unicode_len();
    if n < 7 {
        return false;
    }
    let tail = t.substring_char(n - 7, n);
    let eq = crate::text::str_eq(tail, ";Serial");
    proof {
        reveal_strlit(";Serial");
        assert(";Serial"@ =~= serial_marker());
    }
    eq
}

/// Increments the serial line by exactly one; every other line passes
/// through unchanged. The flag tells the caller the serial line was seen.
pub fn update_serial(line: &str) -> (r: Result<(String, bool), ZoneError>)
    ensures
        match r {
            Ok(p) => spec_update_serial(line@) == Some((p.0@, p.1)),
            Err(e) => spec_update_serial(line@) is None && e == ZoneError::CorruptZoneFile,
        },
{
    let t = trim(line);
    if !ends_with_marker(t) {
        return Ok((String::from_str(line), false));
    }
    let n = t.unicode_len();
    let field = trim(t.substring_char(0, n - 7));
    match parse_u64(field) {
        None => Err(ZoneError::CorruptZoneFile),
        Some(v) => {
            if v == u64::MAX {
                return Err(ZoneError::CorruptZoneFile);
            }
            let mut out = format_u64(v + 1);
            proof {
                reveal_strlit(" ;Serial");
                assert(" ;Serial"@ =~= seq![' '] + serial_marker());
                assert(out@ + " ;Serial"@ =~= render_serial((v + 1) as nat));
            }
            out.append(" ;Serial");
            Ok((out, true))
        },
    }
}

} // verus!
