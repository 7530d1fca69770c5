//! Resource-record lines: recognition, rendering, and the record matcher.

use vstd::prelude::*;

use crate::text::{tokens_of, split_ws, str_eq, contains_str};
use crate::update_map::{lookup, values_of, UpdateMap};

verus! {

/// The record class literal.
pub open spec fn in_marker() -> Seq<char> {
    seq!['I', 'N']
}

pub open spec fn a_marker() -> Seq<char> {
    seq!['A']
}

pub open spec fn ptr_marker() -> Seq<char> {
    seq!['P', 'T', 'R']
}

/// A line this engine understands: exactly four tokens, class `IN`,
/// type `A` or `PTR`.
pub open spec fn is_record_line(s: Seq<char>) -> bool {
    let t = tokens_of(s);
    t.len() == 4 && t[1] == in_marker() && (t[2] == a_marker() || t[2] == ptr_marker())
}

pub open spec fn rec_name(s: Seq<char>) -> Seq<char> {
    tokens_of(s)[0]
}

pub open spec fn rec_type(s: Seq<char>) -> Seq<char> {
    tokens_of(s)[2]
}

pub open spec fn rec_value(s: Seq<char>) -> Seq<char> {
    tokens_of(s)[3]
}

/// A freshly formatted record line.
pub open spec fn render_record(name: Seq<char>, rtype: Seq<char>, value: Seq<char>) -> Seq<char> {
    name + seq!['\t', '\t'] + in_marker() + seq!['\t'] + rtype + seq!['\t'] + value
}

/// The record type a zone holds: `A` forward, `PTR` reverse.
#[derive(Clone, Copy, Debug, PartialEq, Eq, Structural)]
pub enum RecordType {
    A,
    Ptr,
}

impl RecordType {
    pub open spec fn marker(self) -> Seq<char> {
        match self {
            RecordType::A => a_marker(),
            RecordType::Ptr => ptr_marker(),
        }
    }

    pub fn as_str(self) -> (r: &'static str)
        ensures
            r@ == self.marker(),
    {
        proof {
            reveal_strlit("A");
            reveal_strlit("PTR");
            assert("A"@ =~= a_marker());
            assert("PTR"@ =~= ptr_marker());
        }
        match self {
            RecordType::A => "A",
            RecordType::Ptr => "PTR",
        }
    }
}

/// What the record matcher does to one non-serial line, given the update
/// entries `es`, the pending target values `vals`, and the names already
/// handled `done`: the surviving line (`None` = dropped), whether it
/// changed, and the grown done-sequence.
pub open spec fn spec_update_record(
    line: Seq<char>,
    es: Seq<(Seq<char>, Seq<char>)>,
    vals: Seq<Seq<char>>,
    done: Seq<Seq<char>>,
) -> (Option<Seq<char>>, bool, Seq<Seq<char>>) {
    if !is_record_line(line) {
        (Some(line), false, done)
    } else {
        let name = rec_name(line);
        if done.contains(name) {
            (None, false, done)
        } else {
            let done2 = done.push(name);
            match lookup(es, name) {
                Some(nv) => if nv != rec_value(line) {
                    (Some(render_record(name, rec_type(line), nv)), true, done2)
                } else {
                    (Some(line), false, done2)
                },
                None => if vals.contains(rec_value(line)) {
                    (None, false, done2)
                } else {
                    (Some(line), false, done2)
                },
            }
        }
    }
}

/// Builds the line `NAME IN TYPE VALUE`, tab-separated.
pub fn render_record_line(name: &str, rtype: &str, value: &str) -> (r: String)
    ensures
        r@ == render_record(name@, rtype@, value@),
{
    let mut out = String::from_str(name);
    proof {
        reveal_strlit("\t\tIN\t");
        reveal_strlit("\t");
        assert("\t\tIN\t"@ =~= seq!['\t', '\t'] + in_marker() + seq!['\t']);
    }
    out.append("\t\tIN\t");
    out.append(rtype);
    out.append("\t");
    out.append(value);
    proof {
        assert(out@ =~= render_record(name@, rtype@, value@));
    }
    out
}

/// Applies the pending updates to one candidate record line.
///
/// An unrecognized line passes through; a name already in `done` is a stale
/// duplicate and is dropped; a name with a differing pending value is
/// rewritten; a name with no pending update whose value is some other
/// pending target is dropped; everything else is kept unchanged.
pub fn update_record(line: &str, updates: &UpdateMap, values: &Vec<String>, done: &mut Vec<
    String,
>) -> (r: (Option<String>, bool))
    requires
        values.deep_view() == values_of(updates@),
    ensures
        ({
            let step = spec_update_record(
                line@,
                updates@,
                values.deep_view(),
                old(done).deep_view(),
            );
            &&& final(done).deep_view() == step.2
            &&& r.1 == step.1
            &&& match (r.0, step.0) {
                (Some(x), Some(y)) => x@ == y,
                (None, None) => true,
                _ => false,
            }
        }),
{
    let tokens = split_ws(line);
    proof {
        reveal_strlit("IN");
        reveal_strlit("A");
        reveal_strlit("PTR");
        assert("IN"@ =~= in_marker());
        assert("A"@ =~= a_marker());
        assert("PTR"@ =~= ptr_marker());
    }
    if tokens.len() != 4 {
        return (Some(String::from_str(line)), false);
    }
    proof {
        assert(tokens.deep_view()[1] == tokens@[1]@);
        assert(tokens.deep_view()[2] == tokens@[2]@);
        assert(tokens.deep_view()[0] == tokens@[0]@);
        assert(tokens.deep_view()[3] == tokens@[3]@);
    }
    if !str_eq(tokens[1].as_str(), "IN") {
        return (Some(String::from_str(line)), false);
    }
    let is_a = str_eq(tokens[2].as_str(), "A");
    let is_ptr = str_eq(tokens[2].as_str(), "PTR");
    if !is_a && !is_ptr {
        return (Some(String::from_str(line)), false);
    }
    let name = &tokens[0];
    let old_value = &tokens[3];
    if contains_str(done, name.as_str()) {
        return (None, false);
    }
    let ghost done0 = done.deep_view();
    done.push(name.clone());
    proof {
        assert(done.deep_view() =~= done0.push(name@));
    }
    match updates.get(name.as_str()) {
        Some(new_value) => {
            if !str_eq(new_value.as_str(), old_value.as_str()) {
                let rewritten = render_record_line(name.as_str(), tokens[2].as_str(),
                    new_value.as_str());
                (Some(rewritten), true)
            } else {
                (Some(String::from_str(line)), false)
            }
        },
        None => {
            if contains_str(values, old_value.as_str()) {
                (None, false)
            } else {
                (Some(String::from_str(line)), false)
            }
        },
    }
}

} // verus!
