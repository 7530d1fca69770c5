//! The zone reconciler: runs every line through the serial pass and the
//! record matcher, then appends pending updates that matched no line.

use vstd::prelude::*;

use crate::records::{
    a_marker, ptr_marker, render_record, render_record_line, spec_update_record, update_record,
    RecordType,
};
use crate::serial::{spec_update_serial, update_serial, ZoneError};
use crate::text::contains_str;
use crate::update_map::{values_of, UpdateMap};

verus! {

/// One surviving line as a sequence fragment.
pub open spec fn emitted(l: Option<Seq<char>>) -> Seq<Seq<char>> {
    match l {
        Some(x) => seq![x],
        None => Seq::empty(),
    }
}

/// The line pass over a whole file body: `None` when a serial line is
/// corrupt, otherwise the surviving lines, whether any record changed,
/// and the names handled.
pub open spec fn spec_reconcile_lines(
    lines: Seq<Seq<char>>,
    es: Seq<(Seq<char>, Seq<char>)>,
    vals: Seq<Seq<char>>,
    done: Seq<Seq<char>>,
) -> Option<(Seq<Seq<char>>, bool, Seq<Seq<char>>)>
    decreases lines.len(),
{
    if lines.len() == 0 {
        Some((Seq::empty(), false, done))
    } else {
        match spec_update_serial(lines[0]) {
            None => None,
            Some(sres) => {
                let step = if sres.1 {
                    (Some(sres.0), false, done)
                } else {
                    spec_update_record(lines[0], es, vals, done)
                };
                match spec_reconcile_lines(lines.drop_first(), es, vals, step.2) {
                    None => None,
                    Some(rest) => Some(
                        (emitted(step.0) + rest.0, step.1 || rest.1, rest.2),
                    ),
                }
            },
        }
    }
}

/// The appended lines: one freshly formatted record for each update entry
/// whose name matched no existing line, in entry order.
pub open spec fn spec_appends(
    es: Seq<(Seq<char>, Seq<char>)>,
    done: Seq<Seq<char>>,
    rtype: Seq<char>,
) -> Seq<Seq<char>>
    decreases es.len(),
{
    if es.len() == 0 {
        Seq::empty()
    } else {
        (if done.contains(es[0].0) {
            Seq::empty()
        } else {
            seq![render_record(es[0].0, rtype, es[0].1)]
        }) + spec_appends(es.drop_first(), done, rtype)
    }
}

/// The whole reconciliation of a file body against the update entries:
/// the new body and whether anything changed.
pub open spec fn spec_reconcile(
    lines: Seq<Seq<char>>,
    es: Seq<(Seq<char>, Seq<char>)>,
    rtype: Seq<char>,
) -> Option<(Seq<Seq<char>>, bool)> {
    match spec_reconcile_lines(lines, es, values_of(es), Seq::empty()) {
        None => None,
        Some(body) => {
            let app = spec_appends(es, body.2, rtype);
            Some((body.0 + app, body.1 || app.len() > 0))
        },
    }
}

/// Merges the pending updates into an existing zone-file body.
///
/// Every line runs through the serial pass first, then the record matcher;
/// updates that matched no existing line are appended as new records of
/// type `rtype`. The flag is true exactly when a record line changed, was
/// dropped for a stale value, or was appended — the serial increment alone
/// does not raise it.
///
/// The serial line is incremented whenever it is present, whether or not
/// any record changed: the flag only tells the caller whether the body is
/// worth publishing, and a body published because of it always carries a
/// fresh serial.
pub fn update_zonefile(lines: &Vec<String>, updates: &UpdateMap, rtype: RecordType) -> (r: Result<
    (Vec<String>, bool),
    ZoneError,
>)
    ensures
        match r {
            Ok(p) => spec_reconcile(lines.deep_view(), updates@, rtype.marker()) == Some(
                (p.0.deep_view(), p.1),
            ),
            Err(e) => spec_reconcile(lines.deep_view(), updates@, rtype.marker()) is None && e
                == ZoneError::CorruptZoneFile,
        },
{
    let values = updates.values();
    let ghost ls = lines.deep_view();
    let ghost es = updates@;
    let ghost vals = values.deep_view();
    let mut out: Vec<String> = Vec::new();
    let mut done: Vec<String> = Vec::new();
    let mut changed = false;
    let n = lines.len();
    let mut i: usize = 0;
    proof {
        assert(ls.skip(0) =~= ls);
        assert(out.deep_view() =~= Seq::<Seq<char>>::empty());
        assert(out.deep_view() + spec_reconcile_lines(ls, es, vals, done.deep_view())->Some_0.0
            =~= spec_reconcile_lines(ls, es, vals, done.deep_view())->Some_0.0);
    }
    while i < n
        invariant
            i <= n,
            n == ls.len(),
            ls == lines.deep_view(),
            es == updates@,
            vals == values.deep_view(),
            vals == values_of(es),
            ({
                let whole = spec_reconcile_lines(ls, es, vals, Seq::empty());
                match spec_reconcile_lines(ls.skip(i as int), es, vals, done.deep_view()) {
                    Some(rest) => whole == Some(
                        (out.deep_view() + rest.0, changed || rest.1, rest.2),
                    ),
                    None => whole is None,
                }
            }),
        decreases n - i,
    {
        proof {
            let rest = ls.skip(i as int);
            assert(rest[0] == ls[i as int]);
            assert(rest.drop_first() =~= ls.skip(i + 1));
            assert(lines.deep_view()[i as int] == lines@[i as int]@);
        }
        let line = &lines[i];
        match update_serial(line.as_str()) {
            Err(e) => {
                return Err(e);
            },
            Ok((new_line, is_serial)) => {
                if is_serial {
                    let ghost prev = out.deep_view();
                    out.push(new_line);
                    proof {
                        assert(out.deep_view() =~= prev.push(new_line@));
                        let rest2 = spec_reconcile_lines(ls.skip(i + 1), es, vals,
                            done.deep_view());
                        if rest2 is Some {
                            assert(out.deep_view() + rest2->Some_0.0 =~= prev + (seq![new_line@]
                                + rest2->Some_0.0));
                        }
                    }
                } else {
                    let ghost done_in = done.deep_view();
                    let (surviving, ch) = update_record(line.as_str(), updates, &values,
                        &mut done);
                    let ghost step = spec_update_record(ls[i as int], es, vals, done_in);
                    changed = changed || ch;
                    match surviving {
                        Some(l) => {
                            let ghost prev = out.deep_view();
                            let ghost lv = l@;
                            out.push(l);
                            proof {
                                assert(out.deep_view() =~= prev.push(lv));
                                let rest2 = spec_reconcile_lines(ls.skip(i + 1), es, vals,
                                    done.deep_view());
                                if rest2 is Some {
                                    assert(out.deep_view() + rest2->Some_0.0 =~= prev + (seq![lv]
                                        + rest2->Some_0.0));
                                }
                            }
                        },
                        None => {
                            proof {
                                let rest2 = spec_reconcile_lines(ls.skip(i + 1), es, vals,
                                    done.deep_view());
                                if rest2 is Some {
                                    assert(out.deep_view() + (Seq::<Seq<char>>::empty()
                                        + rest2->Some_0.0) =~= out.deep_view()
                                        + rest2->Some_0.0);
                                }
                            }
                        },
                    }
                }
            },
        }
        i = i + 1;
    }
    proof {
        assert(ls.skip(n as int) =~= Seq::<Seq<char>>::empty());
        assert(out.deep_view() + Seq::<Seq<char>>::empty() =~= out.deep_view());
    }
    // Append pending updates that matched no existing line.
    let ghost done0 = done.deep_view();
    let ghost body = out.deep_view();
    let ghost changed0 = changed;
    let m = updates.len();
    let mut j: usize = 0;
    proof {
        assert(es.skip(0) =~= es);
        assert(body + spec_appends(es, done0, rtype.marker()) =~= out.deep_view() + spec_appends(
            es.skip(0),
            done0,
            rtype.marker(),
        ));
    }
    while j < m
        invariant
            j <= m,
            m == es.len(),
            es == updates@,
            done0 == done.deep_view(),
            body + spec_appends(es, done0, rtype.marker()) =~= out.deep_view() + spec_appends(
                es.skip(j as int),
                done0,
                rtype.marker(),
            ),
            out.deep_view().len() >= body.len(),
            changed == (changed0 || out.deep_view().len() > body.len()),
        decreases m - j,
    {
        proof {
            let rest = es.skip(j as int);
            assert(rest[0] == es[j as int]);
            assert(rest.drop_first() =~= es.skip(j + 1));
        }
        let key = updates.key_at(j);
        if !contains_str(&done, key.as_str()) {
            let value = updates.value_at(j);
            let appended = render_record_line(key.as_str(), rtype.as_str(), value.as_str());
            let ghost prev = out.deep_view();
            let ghost av = appended@;
            out.push(appended);
            changed = true;
            proof {
                assert(out.deep_view() =~= prev.push(av));
                assert(out.deep_view() + spec_appends(es.skip(j + 1), done0, rtype.marker())
                    =~= prev + (seq![av] + spec_appends(es.skip(j + 1), done0, rtype.marker())));
            }
        } else {
            proof {
                assert(out.deep_view() + (Seq::<Seq<char>>::empty() + spec_appends(
                    es.skip(j + 1),
                    done0,
                    rtype.marker(),
                )) =~= out.deep_view() + spec_appends(es.skip(j + 1), done0, rtype.marker()));
            }
        }
        j = j + 1;
    }
    proof {
        assert(es.skip(m as int) =~= Seq::<(Seq<char>, Seq<char>)>::empty());
        assert(out.deep_view() + Seq::<Seq<char>>::empty() =~= out.deep_view());
        assert(body + spec_appends(es, done0, rtype.marker()) =~= out.deep_view());
    }
    Ok((out, changed))
}

/// Reconciles a forward zone body; `Some` carries the new body to publish,
/// `None` says nothing changed.
pub fn update_forward_zonefile(lines: &Vec<String>, forwards: &UpdateMap) -> (r: Result<
    Option<Vec<String>>,
    ZoneError,
>)
    ensures
        match r {
            Ok(Some(out)) => spec_reconcile(lines.deep_view(), forwards@, a_marker()) == Some(
                (out.deep_view(), true),
            ),
            Ok(None) => spec_reconcile(lines.deep_view(), forwards@, a_marker()) is Some
                && !spec_reconcile(lines.deep_view(), forwards@, a_marker())->Some_0.1,
            Err(e) => spec_reconcile(lines.deep_view(), forwards@, a_marker()) is None && e
                == ZoneError::CorruptZoneFile,
        },
{
    match update_zonefile(lines, forwards, RecordType::A) {
        Ok((out, changed)) => if changed {
            Ok(Some(out))
        } else {
            Ok(None)
        },
        Err(e) => Err(e),
    }
}

/// Reconciles a reverse zone body; `Some` carries the new body to publish,
/// `None` says nothing changed.
pub fn update_reverse_zonefile(lines: &Vec<String>, reverses: &UpdateMap) -> (r: Result<
    Option<Vec<String>>,
    ZoneError,
>)
    ensures
        match r {
            Ok(Some(out)) => spec_reconcile(lines.deep_view(), reverses@, ptr_marker()) == Some(
                (out.deep_view(), true),
            ),
            Ok(None) => spec_reconcile(lines.deep_view(), reverses@, ptr_marker()) is Some
                && !spec_reconcile(lines.deep_view(), reverses@, ptr_marker())->Some_0.1,
            Err(e) => spec_reconcile(lines.deep_view(), reverses@, ptr_marker()) is None && e
                == ZoneError::CorruptZoneFile,
        },
{
    match update_zonefile(lines, reverses, RecordType::Ptr) {
        Ok((out, changed)) => if changed {
            Ok(Some(out))
        } else {
            Ok(None)
        },
        Err(e) => Err(e),
    }
}

} // verus!
