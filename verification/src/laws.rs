//! The stated guarantees of reconciliation: rendered lines parse back,
//! a pass keeps record names unique and values consistent, new entries are
//! appended, the serial rises by one, and a second pass changes nothing.

use vstd::prelude::*;

use crate::digits::{all_digits, dec_digits, dec_value, digit_char, digit_val, is_dec};
use crate::reconcile::{emitted, spec_appends, spec_reconcile, spec_reconcile_lines};
use crate::records::{
    a_marker, in_marker, is_record_line, ptr_marker, rec_name, rec_type, rec_value, render_record,
    spec_update_record,
};
use crate::serial::{
    is_serial_line, lemma_marker_ignores_lead, marker_at_end, render_serial, serial_field,
    serial_marker, serial_ok, serial_value, spec_update_serial,
};
use crate::text::{is_space, split_from, tokens_of, trim_back, trim_front, trimmed};
use crate::update_map::{lookup, unique_keys, values_of};

verus! {

/// A usable record name or value: non-empty, no separator characters.
pub open spec fn token_text(s: Seq<char>) -> bool {
    s.len() > 0 && forall|i: int| 0 <= i < s.len() ==> !is_space(#[trigger] s[i])
}

proof fn lemma_split_over_nonspace(a: Seq<char>, b: Seq<char>, cur: Seq<char>)
    requires
        forall|i: int| 0 <= i < a.len() ==> !is_space(#[trigger] a[i]),
    ensures
        split_from(a + b, cur) == split_from(b, cur + a),
    decreases a.len(),
{
    if a.len() == 0 {
        assert(a + b =~= b);
        assert(cur + a =~= cur);
    } else {
        assert((a + b)[0] == a[0]);
        assert((a + b).drop_first() =~= a.drop_first() + b);
        lemma_split_over_nonspace(a.drop_first(), b, cur.push(a[0]));
        assert(cur.push(a[0]) + a.drop_first() =~= cur + a);
    }
}

proof fn lemma_split_over_space(c: char, b: Seq<char>, cur: Seq<char>)
    requires
        is_space(c),
    ensures
        split_from(seq![c] + b, cur) == (if cur.len() == 0 {
            Seq::<Seq<char>>::empty()
        } else {
            seq![cur]
        }) + split_from(b, Seq::empty()),
{
    assert((seq![c] + b)[0] == c);
    assert((seq![c] + b).drop_first() =~= b);
    if cur.len() == 0 {
        assert(Seq::<Seq<char>>::empty() + split_from(b, Seq::empty()) =~= split_from(
            b,
            Seq::empty(),
        ));
    }
}

/// A rendered record line parses back into exactly its four tokens.
pub proof fn lemma_render_tokens(name: Seq<char>, rtype: Seq<char>, value: Seq<char>)
    requires
        token_text(name),
        token_text(value),
        rtype == a_marker() || rtype == ptr_marker(),
    ensures
        tokens_of(render_record(name, rtype, value)) == seq![name, in_marker(), rtype, value],
        is_record_line(render_record(name, rtype, value)),
        rec_name(render_record(name, rtype, value)) == name,
        rec_type(render_record(name, rtype, value)) == rtype,
        rec_value(render_record(name, rtype, value)) == value,
{
    let e = Seq::<char>::empty();
    let r = render_record(name, rtype, value);
    let t1 = seq!['\t'] + (seq!['\t'] + (in_marker() + (seq!['\t'] + (rtype + (seq!['\t']
        + value)))));
    assert(r =~= name + t1);
    lemma_split_over_nonspace(name, t1, e);
    assert(e + name =~= name);
    let t2 = seq!['\t'] + (in_marker() + (seq!['\t'] + (rtype + (seq!['\t'] + value))));
    lemma_split_over_space('\t', t2, name);
    let t3 = in_marker() + (seq!['\t'] + (rtype + (seq!['\t'] + value)));
    lemma_split_over_space('\t', t3, e);
    let t4 = seq!['\t'] + (rtype + (seq!['\t'] + value));
    assert(forall|i: int| 0 <= i < in_marker().len() ==> !is_space(#[trigger] in_marker()[i]));
    lemma_split_over_nonspace(in_marker(), t4, e);
    assert(e + in_marker() =~= in_marker());
    let t5 = rtype + (seq!['\t'] + value);
    lemma_split_over_space('\t', t5, in_marker());
    let t6 = seq!['\t'] + value;
    assert(forall|i: int| 0 <= i < rtype.len() ==> !is_space(#[trigger] rtype[i]));
    lemma_split_over_nonspace(rtype, t6, e);
    assert(e + rtype =~= rtype);
    lemma_split_over_space('\t', value, rtype);
    lemma_split_over_nonspace(value, e, e);
    assert(value + e =~= value);
    assert(e + value =~= value);
    assert(split_from(e, value) == seq![value]);
    assert(tokens_of(r) =~= seq![name, in_marker(), rtype, value]);
}

/// A rendered record line is no serial line when its value is none.
#[verifier::rlimit(50)]
pub proof fn lemma_render_not_serial(name: Seq<char>, rtype: Seq<char>, value: Seq<char>)
    requires
        token_text(value),
        !is_serial_line(value),
    ensures
        !is_serial_line(render_record(name, rtype, value)),
{
    let r = render_record(name, rtype, value);
    let m = serial_marker();
    assert(r[r.len() - 1] == value[value.len() - 1]);
    lemma_marker_ignores_lead(r);
    if marker_at_end(r) {
        let tail = r.subrange(r.len() - 7, r.len() as int);
        if value.len() >= 7 {
            assert(value.subrange(value.len() - 7, value.len() as int) =~= tail);
            assert(marker_at_end(value));
            lemma_marker_ignores_lead(value);
        } else {
            // the window reaches the tab before the value, which the marker
            // never holds
            let p = 6 - value.len();
            assert(r[r.len() - 1 - value.len()] == '\t');
            assert(tail[p] == r[r.len() - 7 + p]);
            assert(m[p] != '\t');
        }
        assert(false);
    }
}

/// Every token produced by whitespace splitting is usable text.
proof fn lemma_split_tokens_text(s: Seq<char>, cur: Seq<char>)
    requires
        forall|i: int| 0 <= i < cur.len() ==> !is_space(#[trigger] cur[i]),
    ensures
        forall|i: int|
            0 <= i < split_from(s, cur).len() ==> token_text(#[trigger] split_from(s, cur)[i]),
    decreases s.len(),
{
    if s.len() == 0 {
        if cur.len() > 0 {
            assert(split_from(s, cur) == seq![cur]);
            assert(split_from(s, cur)[0] == cur);
        }
    } else if is_space(s[0]) {
        lemma_split_tokens_text(s.drop_first(), Seq::empty());
        let r = split_from(s, cur);
        let rr = split_from(s.drop_first(), Seq::empty());
        assert forall|i: int| 0 <= i < r.len() implies token_text(#[trigger] r[i]) by {
            if cur.len() == 0 {
                assert(r[i] == rr[i]);
            } else {
                assert(r == seq![cur] + rr);
                if i == 0 {
                    assert(r[0] == cur);
                } else {
                    assert(r[i] == rr[i - 1]);
                }
            }
        }
    } else {
        lemma_split_tokens_text(s.drop_first(), cur.push(s[0]));
        let r = split_from(s, cur);
        let rr = split_from(s.drop_first(), cur.push(s[0]));
        assert forall|i: int| 0 <= i < r.len() implies token_text(#[trigger] r[i]) by {
            assert(r[i] == rr[i]);
        }
    }
}

/// The tokens of a record line are usable text.
pub proof fn lemma_record_tokens_text(s: Seq<char>)
    requires
        is_record_line(s),
    ensures
        token_text(rec_name(s)),
        token_text(rec_type(s)),
        token_text(rec_value(s)),
{
    lemma_split_tokens_text(s, Seq::empty());
}

/// A written decimal holds digits only.
pub proof fn lemma_dec_digits_all(n: nat)
    ensures
        all_digits(dec_digits(n)),
        dec_digits(n).len() > 0,
    decreases n,
{
    if n >= 10 {
        lemma_dec_digits_all(n / 10);
    }
}

/// Writing then reading a decimal gives the value back.
pub proof fn lemma_dec_digits_value(n: nat)
    ensures
        dec_value(dec_digits(n)) == n,
    decreases n,
{
    if n < 10 {
        assert(dec_digits(n).drop_last() =~= Seq::<char>::empty());
        assert(dec_value(Seq::<char>::empty()) == 0);
        assert(dec_digits(n).last() == digit_char(n));
        assert(digit_val(digit_char(n)) == n);
    } else {
        lemma_dec_digits_value(n / 10);
        assert(dec_digits(n).drop_last() =~= dec_digits(n / 10));
        assert(dec_digits(n).last() == digit_char(n % 10));
        assert(digit_val(digit_char(n % 10)) == n % 10);
    }
}

/// The written serial line parses back as a serial line with its value.
#[verifier::rlimit(50)]
pub proof fn lemma_render_serial(n: nat)
    ensures
        is_serial_line(render_serial(n)),
        serial_field(render_serial(n)) == dec_digits(n),
        serial_value(render_serial(n)) == n,
        is_dec(serial_field(render_serial(n))),
        !is_record_line(render_serial(n)),
{
    let r = render_serial(n);
    let d = dec_digits(n);
    lemma_dec_digits_all(n);
    lemma_dec_digits_value(n);
    assert(r.subrange(r.len() - 7, r.len() as int) =~= serial_marker());
    let head = r.subrange(0, r.len() - 7);
    assert(head =~= d + seq![' ']);
    assert(!is_space(head[0]));
    assert(trim_front(head) == head);
    assert(head.drop_last() =~= d);
    assert(!is_space(d.last()));
    assert(trim_back(d) == d);
    assert(trimmed(head) == d);
    // two tokens only, so no record line
    let e = Seq::<char>::empty();
    assert(r =~= d + (seq![' '] + serial_marker()));
    lemma_split_over_nonspace(d, seq![' '] + serial_marker(), e);
    assert(e + d =~= d);
    lemma_split_over_space(' ', serial_marker(), d);
    assert(forall|i: int|
        0 <= i < serial_marker().len() ==> !is_space(#[trigger] serial_marker()[i]));
    lemma_split_over_nonspace(serial_marker(), e, e);
    assert(serial_marker() + e =~= serial_marker());
    assert(e + serial_marker() =~= serial_marker());
    assert(tokens_of(r) =~= seq![d, serial_marker()]);
}

/// Entries usable as record lines: unique names, tokenizable names and
/// values, and no value that could be mistaken for a serial line.
pub open spec fn wf_entries(es: Seq<(Seq<char>, Seq<char>)>) -> bool {
    unique_keys(es) && forall|k: int|
        0 <= k < es.len() ==> token_text((#[trigger] es[k]).0) && token_text(es[k].1)
            && !is_serial_line(es[k].1)
}

/// Every record line agrees with the update entries: an updated name
/// carries its pending value, any other name carries no pending target.
pub open spec fn stable_lines(ls: Seq<Seq<char>>, es: Seq<(Seq<char>, Seq<char>)>) -> bool {
    forall|i: int|
        0 <= i < ls.len() && is_record_line(#[trigger] ls[i]) ==> match lookup(
            es,
            rec_name(ls[i]),
        ) {
            Some(v) => rec_value(ls[i]) == v,
            None => !values_of(es).contains(rec_value(ls[i])),
        }
}

/// No two record lines carry the same name.
pub open spec fn unique_rec_names(ls: Seq<Seq<char>>) -> bool {
    forall|i: int, j: int|
        0 <= i < j < ls.len() && is_record_line(#[trigger] ls[i]) && is_record_line(
            #[trigger] ls[j],
        ) ==> rec_name(ls[i]) != rec_name(ls[j])
}

/// Every serial line carries a readable number with room to rise.
pub open spec fn serials_ok(ls: Seq<Seq<char>>) -> bool {
    forall|i: int|
        0 <= i < ls.len() && is_serial_line(#[trigger] ls[i]) ==> serial_ok(ls[i])
}

/// Every serial line leaves room for two increments.
pub open spec fn serial_headroom(ls: Seq<Seq<char>>) -> bool {
    forall|i: int|
        0 <= i < ls.len() && is_serial_line(#[trigger] ls[i]) ==> serial_ok(ls[i]) && serial_value(
            ls[i],
        ) + 2 <= u64::MAX
}

/// Some line is a genuine record line named `x`; a serial line never
/// counts, since the serial pass claims it first.
pub open spec fn has_rec(ls: Seq<Seq<char>>, x: Seq<char>) -> bool {
    exists|i: int|
        0 <= i < ls.len() && is_record_line(#[trigger] ls[i]) && !is_serial_line(ls[i]) && rec_name(
            ls[i],
        ) == x
}

/// No record line carries a name already handled.
pub open spec fn names_outside(ls: Seq<Seq<char>>, done: Seq<Seq<char>>) -> bool {
    forall|i: int|
        0 <= i < ls.len() && is_record_line(#[trigger] ls[i]) ==> !done.contains(rec_name(ls[i]))
}

proof fn lemma_push_contains(s: Seq<Seq<char>>, v: Seq<char>, x: Seq<char>)
    ensures
        s.push(v).contains(x) <==> (s.contains(x) || x == v),
{
    if s.push(v).contains(x) {
        let w = choose|i: int| 0 <= i < s.push(v).len() && s.push(v)[i] == x;
        if w < s.len() {
            assert(s[w] == x);
        }
    }
    if s.contains(x) {
        let w = choose|i: int| 0 <= i < s.len() && s[i] == x;
        assert(s.push(v)[w] == x);
    }
    assert(s.push(v)[s.len() as int] == v);
}

proof fn lemma_has_rec_unfold(ls: Seq<Seq<char>>, x: Seq<char>)
    requires
        ls.len() > 0,
    ensures
        has_rec(ls, x) <==> ((is_record_line(ls[0]) && !is_serial_line(ls[0]) && rec_name(ls[0])
            == x) || has_rec(ls.drop_first(), x)),
{
    if has_rec(ls, x) {
        let w = choose|i: int|
            0 <= i < ls.len() && is_record_line(#[trigger] ls[i]) && !is_serial_line(ls[i])
                && rec_name(ls[i]) == x;
        if w > 0 {
            assert(ls.drop_first()[w - 1] == ls[w]);
            assert(has_rec(ls.drop_first(), x));
        }
    }
    if has_rec(ls.drop_first(), x) {
        let w = choose|i: int|
            0 <= i < ls.drop_first().len() && is_record_line(#[trigger] ls.drop_first()[i])
                && !is_serial_line(ls.drop_first()[i]) && rec_name(ls.drop_first()[i]) == x;
        assert(ls[w + 1] == ls.drop_first()[w]);
        assert(has_rec(ls, x));
    }
}

proof fn lemma_lookup_entry(es: Seq<(Seq<char>, Seq<char>)>, k: Seq<char>)
    requires
        lookup(es, k) is Some,
    ensures
        exists|j: int|
            0 <= j < es.len() && (#[trigger] es[j]).0 == k && es[j].1 == lookup(es, k)->Some_0,
    decreases es.len(),
{
    if es[0].0 == k {
        assert(es[0].0 == k && es[0].1 == lookup(es, k)->Some_0);
    } else {
        lemma_lookup_entry(es.drop_first(), k);
        let w = choose|j: int|
            0 <= j < es.drop_first().len() && (#[trigger] es.drop_first()[j]).0 == k
                && es.drop_first()[j].1 == lookup(es.drop_first(), k)->Some_0;
        assert(es[w + 1] == es.drop_first()[w]);
    }
}

proof fn lemma_lookup_of_key(es: Seq<(Seq<char>, Seq<char>)>, i: int)
    requires
        0 <= i < es.len(),
    ensures
        lookup(es, es[i].0) is Some,
    decreases i,
{
    if es[0].0 != es[i].0 {
        assert(es.drop_first()[i - 1] == es[i]);
        lemma_lookup_of_key(es.drop_first(), i - 1);
    }
}

/// What one pass of the line loop guarantees of its output: record lines
/// agree with the entries, names are unique and new, serial lines (given
/// headroom) stay healthy, the handled names are exactly the old ones plus
/// the file's record names, and every updatable name that was present
/// survives as a record line.
proof fn lemma_pass_shape(
    lines: Seq<Seq<char>>,
    es: Seq<(Seq<char>, Seq<char>)>,
    done: Seq<Seq<char>>,
)
    requires
        wf_entries(es),
        spec_reconcile_lines(lines, es, values_of(es), done) is Some,
    ensures
        ({
            let r = spec_reconcile_lines(lines, es, values_of(es), done)->Some_0;
            &&& stable_lines(r.0, es)
            &&& unique_rec_names(r.0)
            &&& names_outside(r.0, done)
            &&& serial_headroom(lines) ==> serials_ok(r.0)
            &&& forall|x: Seq<char>|
                r.2.contains(x) <==> (done.contains(x) || has_rec(lines, x))
            &&& forall|i: int|
                0 <= i < r.0.len() && is_record_line(#[trigger] r.0[i]) ==> !is_serial_line(r.0[i])
                    && has_rec(lines, rec_name(r.0[i]))
            &&& forall|x: Seq<char>|
                has_rec(lines, x) && lookup(es, x) is Some && !done.contains(x) ==> has_rec(
                    r.0,
                    x,
                )
        }),
    decreases lines.len(),
{
    let vals = values_of(es);
    let r = spec_reconcile_lines(lines, es, vals, done)->Some_0;
    if lines.len() == 0 {
        assert(forall|x: Seq<char>| !has_rec(lines, x));
    } else {
        let h = lines[0];
        let tail = lines.drop_first();
        let sres = spec_update_serial(h)->Some_0;
        let step = if sres.1 {
            (Some(sres.0), false, done)
        } else {
            spec_update_record(h, es, vals, done)
        };
        let done2 = step.2;
        lemma_pass_shape(tail, es, done2);
        let rest = spec_reconcile_lines(tail, es, vals, done2)->Some_0;
        assert(r.0 == emitted(step.0) + rest.0);
        assert(r.2 == rest.2);
        lemma_has_rec_unfold(lines, rec_name(h));
        assert forall|x: Seq<char>|
            has_rec(lines, x) <==> ((is_record_line(h) && !is_serial_line(h) && rec_name(h) == x)
                || has_rec(tail, x)) by {
            lemma_has_rec_unfold(lines, x);
        }
        if serial_headroom(lines) {
            assert(forall|i: int| 0 <= i < tail.len() ==> tail[i] == lines[i + 1]);
            assert(serial_headroom(tail));
        }
        // relate the head's outcome to the rest
        if sres.1 {
            // the serial line: rewritten, never a record line
            let v = serial_value(h);
            let nl = render_serial(v + 1);
            assert(step.0 == Some(nl) && done2 == done);
            lemma_render_serial(v + 1);
            assert(r.0 =~= seq![nl] + rest.0);
            assert(forall|i: int| 1 <= i < r.0.len() ==> r.0[i] == rest.0[i - 1]);
            assert(r.0[0] == nl);
            assert(stable_lines(r.0, es));
            assert(unique_rec_names(r.0));
            assert(names_outside(r.0, done));
            if serial_headroom(lines) {
                assert(is_serial_line(h));
                assert(serial_value(nl) == v + 1);
                assert(serials_ok(r.0));
            }
            assert forall|x: Seq<char>|
                has_rec(r.0, x) implies has_rec(rest.0, x) by {
                let w = choose|i: int|
                    0 <= i < r.0.len() && is_record_line(#[trigger] r.0[i]) && !is_serial_line(
                        r.0[i],
                    ) && rec_name(r.0[i]) == x;
                assert(r.0[w] == rest.0[w - 1]);
            }
            assert forall|x: Seq<char>|
                has_rec(lines, x) && lookup(es, x) is Some && !done.contains(x) implies has_rec(
                    r.0,
                    x,
                ) by {
                assert(has_rec(tail, x));
                assert(has_rec(rest.0, x));
                let w = choose|i: int|
                    0 <= i < rest.0.len() && is_record_line(#[trigger] rest.0[i])
                        && !is_serial_line(rest.0[i]) && rec_name(rest.0[i]) == x;
                assert(r.0[w + 1] == rest.0[w]);
            }
        } else {
            assert(!is_serial_line(h));
            if !is_record_line(h) || (is_record_line(h) && !done.contains(rec_name(h))
                && ((lookup(es, rec_name(h)) is Some && lookup(es, rec_name(h))->Some_0 == rec_value(
                h,
            )) || (lookup(es, rec_name(h)) is None && !vals.contains(rec_value(h))))) {
                // the line survives unchanged
                assert(step.0 == Some(h));
                assert(r.0 =~= seq![h] + rest.0);
                assert(forall|i: int| 1 <= i < r.0.len() ==> r.0[i] == rest.0[i - 1]);
                assert(r.0[0] == h);
                if is_record_line(h) {
                    assert(done2 == done.push(rec_name(h)));
                    assert forall|y: Seq<char>|
                        done2.contains(y) <==> (done.contains(y) || y == rec_name(h)) by {
                        lemma_push_contains(done, rec_name(h), y);
                    }
                }
                assert(stable_lines(r.0, es));
                assert(unique_rec_names(r.0)) by {
                    if is_record_line(h) {
                        assert(forall|j: int|
                            0 <= j < rest.0.len() && is_record_line(#[trigger] rest.0[j])
                                ==> rec_name(rest.0[j]) != rec_name(h));
                    }
                }
                assert(names_outside(r.0, done));
                if serial_headroom(lines) {
                    assert(serials_ok(r.0));
                }
                assert forall|x: Seq<char>|
                    r.2.contains(x) <==> (done.contains(x) || has_rec(lines, x)) by {
                    if is_record_line(h) {
                        assert(r.2.contains(x) <==> (done2.contains(x) || has_rec(tail, x)));
                    }
                }
                assert forall|i: int|
                    0 <= i < r.0.len() && is_record_line(#[trigger] r.0[i]) implies !is_serial_line(
                    r.0[i],
                ) && has_rec(lines, rec_name(r.0[i])) by {
                    if i > 0 {
                        assert(r.0[i] == rest.0[i - 1]);
                    }
                }
                assert forall|x: Seq<char>|
                    has_rec(lines, x) && lookup(es, x) is Some && !done.contains(x) implies has_rec(
                    r.0,
                    x,
                ) by {
                    if is_record_line(h) && rec_name(h) == x {
                        assert(r.0[0] == h);
                        assert(has_rec(r.0, x));
                    } else {
                        assert(has_rec(tail, x));
                        assert(!done2.contains(x));
                        assert(has_rec(rest.0, x));
                        let w = choose|i: int|
                            0 <= i < rest.0.len() && is_record_line(#[trigger] rest.0[i])
                                && !is_serial_line(rest.0[i]) && rec_name(rest.0[i]) == x;
                        assert(r.0[w + 1] == rest.0[w]);
                    }
                }
            } else if is_record_line(h) && done.contains(rec_name(h)) {
                // a stale duplicate: dropped, nothing handled anew
                assert(step.0 is None && done2 == done);
                assert(r.0 =~= rest.0);
                assert forall|x: Seq<char>|
                    has_rec(lines, x) && lookup(es, x) is Some && !done.contains(x) implies has_rec(
                    r.0,
                    x,
                ) by {
                    assert(x != rec_name(h));
                    assert(has_rec(tail, x));
                }
            } else if is_record_line(h) && lookup(es, rec_name(h)) is Some {
                // rewritten to the pending value
                let nm = rec_name(h);
                let nv = lookup(es, nm)->Some_0;
                let nl = render_record(nm, rec_type(h), nv);
                assert(step.0 == Some(nl));
                assert(done2 == done.push(nm));
                assert forall|y: Seq<char>|
                    done2.contains(y) <==> (done.contains(y) || y == nm) by {
                    lemma_push_contains(done, nm, y);
                }
                lemma_record_tokens_text(h);
                lemma_lookup_entry(es, nm);
                let j = choose|j: int|
                    0 <= j < es.len() && (#[trigger] es[j]).0 == nm && es[j].1 == nv;
                assert(token_text(nv) && !is_serial_line(nv));
                lemma_render_tokens(nm, rec_type(h), nv);
                lemma_render_not_serial(nm, rec_type(h), nv);
                assert(r.0 =~= seq![nl] + rest.0);
                assert(forall|i: int| 1 <= i < r.0.len() ==> r.0[i] == rest.0[i - 1]);
                assert(r.0[0] == nl);
                assert(stable_lines(r.0, es));
                assert(unique_rec_names(r.0)) by {
                    assert(forall|j2: int|
                        0 <= j2 < rest.0.len() && is_record_line(#[trigger] rest.0[j2])
                            ==> rec_name(rest.0[j2]) != nm);
                }
                assert(names_outside(r.0, done));
                if serial_headroom(lines) {
                    assert(serials_ok(r.0));
                }
                assert forall|x: Seq<char>|
                    r.2.contains(x) <==> (done.contains(x) || has_rec(lines, x)) by {
                    assert(r.2.contains(x) <==> (done2.contains(x) || has_rec(tail, x)));
                }
                assert forall|i: int|
                    0 <= i < r.0.len() && is_record_line(#[trigger] r.0[i]) implies !is_serial_line(
                    r.0[i],
                ) && has_rec(lines, rec_name(r.0[i])) by {
                    if i > 0 {
                        assert(r.0[i] == rest.0[i - 1]);
                    } else {
                        assert(rec_name(r.0[0]) == nm);
                    }
                }
                assert forall|x: Seq<char>|
                    has_rec(lines, x) && lookup(es, x) is Some && !done.contains(x) implies has_rec(
                    r.0,
                    x,
                ) by {
                    if x == nm {
                        assert(is_record_line(r.0[0]) && !is_serial_line(r.0[0]) && rec_name(
                            r.0[0],
                        ) == x);
                        assert(has_rec(r.0, x));
                    } else {
                        assert(has_rec(tail, x));
                        assert(!done2.contains(x));
                        assert(has_rec(rest.0, x));
                        let w = choose|i: int|
                            0 <= i < rest.0.len() && is_record_line(#[trigger] rest.0[i])
                                && !is_serial_line(rest.0[i]) && rec_name(rest.0[i]) == x;
                        assert(r.0[w + 1] == rest.0[w]);
                    }
                }
            } else {
                // a stale value being reassigned elsewhere: dropped
                let nm = rec_name(h);
                assert(is_record_line(h) && lookup(es, nm) is None && vals.contains(rec_value(h)));
                assert(step.0 is None);
                assert(done2 == done.push(nm));
                assert forall|y: Seq<char>|
                    done2.contains(y) <==> (done.contains(y) || y == nm) by {
                    lemma_push_contains(done, nm, y);
                }
                assert(r.0 =~= rest.0);
                assert(names_outside(r.0, done));
                assert forall|x: Seq<char>|
                    r.2.contains(x) <==> (done.contains(x) || has_rec(lines, x)) by {
                    assert(r.2.contains(x) <==> (done2.contains(x) || has_rec(tail, x)));
                }
                assert forall|x: Seq<char>|
                    has_rec(lines, x) && lookup(es, x) is Some && !done.contains(x) implies has_rec(
                    r.0,
                    x,
                ) by {
                    assert(x != nm);
                    assert(has_rec(tail, x));
                    assert(!done2.contains(x));
                }
            }
        }
    }
}

/// What the append phase guarantees: each appended line is a record line
/// carrying an entry's name and value, names stay unique, and every entry
/// whose name was not handled gets its line.
proof fn lemma_appends_shape(es: Seq<(Seq<char>, Seq<char>)>, done: Seq<Seq<char>>, rt: Seq<char>)
    requires
        wf_entries(es),
        rt == a_marker() || rt == ptr_marker(),
    ensures
        ({
            let app = spec_appends(es, done, rt);
            &&& forall|i: int|
                0 <= i < app.len() ==> is_record_line(#[trigger] app[i]) && !is_serial_line(app[i])
                    && !done.contains(rec_name(app[i])) && lookup(es, rec_name(app[i])) == Some(
                    rec_value(app[i]),
                )
            &&& unique_rec_names(app)
            &&& forall|k: int|
                0 <= k < es.len() && !done.contains((#[trigger] es[k]).0) ==> app.contains(
                    render_record(es[k].0, rt, es[k].1),
                ) && has_rec(app, es[k].0)
        }),
    decreases es.len(),
{
    let app = spec_appends(es, done, rt);
    if es.len() == 0 {
    } else {
        let k0 = es[0].0;
        let v0 = es[0].1;
        let tail = es.drop_first();
        assert(unique_keys(tail) && forall|k: int|
            0 <= k < tail.len() ==> (#[trigger] tail[k]) == es[k + 1]);
        lemma_appends_shape(tail, done, rt);
        let tapp = spec_appends(tail, done, rt);
        assert forall|x: Seq<char>| x != k0 implies lookup(es, x) == lookup(tail, x) by {}
        if done.contains(k0) {
            assert(app =~= tapp);
            assert forall|i: int|
                0 <= i < app.len() && is_record_line(#[trigger] app[i]) implies lookup(
                es,
                rec_name(app[i]),
            ) == Some(rec_value(app[i])) by {
                lemma_lookup_entry(tail, rec_name(app[i]));
                let j = choose|j: int|
                    0 <= j < tail.len() && (#[trigger] tail[j]).0 == rec_name(app[i]) && tail[j].1
                        == lookup(tail, rec_name(app[i]))->Some_0;
                assert(es[j + 1].0 == rec_name(app[i]));
                assert(rec_name(app[i]) != k0);
            }
            assert forall|k: int|
                0 <= k < es.len() && !done.contains((#[trigger] es[k]).0) implies app.contains(
                render_record(es[k].0, rt, es[k].1),
            ) && has_rec(app, es[k].0) by {
                assert(k >= 1);
                assert(tail[k - 1] == es[k]);
            }
        } else {
            lemma_render_tokens(k0, rt, v0);
            lemma_render_not_serial(k0, rt, v0);
            let nl = render_record(k0, rt, v0);
            assert(app =~= seq![nl] + tapp);
            assert(forall|i: int| 1 <= i < app.len() ==> app[i] == tapp[i - 1]);
            assert(app[0] == nl);
            assert forall|i: int|
                1 <= i < app.len() implies rec_name(#[trigger] app[i]) != k0 && lookup(
                es,
                rec_name(app[i]),
            ) == Some(rec_value(app[i])) by {
                lemma_lookup_entry(tail, rec_name(app[i]));
                let j = choose|j: int|
                    0 <= j < tail.len() && (#[trigger] tail[j]).0 == rec_name(app[i]) && tail[j].1
                        == lookup(tail, rec_name(app[i]))->Some_0;
                assert(es[j + 1].0 == rec_name(app[i]));
            }
            assert(unique_rec_names(app));
            assert forall|k: int|
                0 <= k < es.len() && !done.contains((#[trigger] es[k]).0) implies app.contains(
                render_record(es[k].0, rt, es[k].1),
            ) && has_rec(app, es[k].0) by {
                if k == 0 {
                    assert(app[0] == render_record(es[0].0, rt, es[0].1));
                    assert(is_record_line(app[0]) && !is_serial_line(app[0]) && rec_name(app[0])
                        == es[0].0);
                } else {
                    assert(tail[k - 1] == es[k]);
                    assert(tapp.contains(render_record(es[k].0, rt, es[k].1)));
                    let w = choose|i: int|
                        0 <= i < tapp.len() && tapp[i] == render_record(es[k].0, rt, es[k].1);
                    assert(app[w + 1] == tapp[w]);
                    assert(has_rec(tapp, es[k].0));
                    let w2 = choose|i: int|
                        0 <= i < tapp.len() && is_record_line(#[trigger] tapp[i])
                            && !is_serial_line(tapp[i]) && rec_name(tapp[i]) == es[k].0;
                    assert(app[w2 + 1] == tapp[w2]);
                }
            }
        }
    }
}

/// Nothing is appended once every entry's name has been handled.
proof fn lemma_appends_all_done(es: Seq<(Seq<char>, Seq<char>)>, done: Seq<Seq<char>>, rt: Seq<
    char,
>)
    requires
        forall|k: int| 0 <= k < es.len() ==> done.contains((#[trigger] es[k]).0),
    ensures
        spec_appends(es, done, rt).len() == 0,
    decreases es.len(),
{
    if es.len() > 0 {
        assert(forall|k: int| 0 <= k < es.len() - 1 ==> (#[trigger] es.drop_first()[k]) == es[k
            + 1]);
        lemma_appends_all_done(es.drop_first(), done, rt);
        assert(spec_appends(es, done, rt) =~= spec_appends(es.drop_first(), done, rt));
    }
}

/// A pass over lines already consistent with the entries flags no change,
/// and every record name ends up handled.
proof fn lemma_second_pass(ls: Seq<Seq<char>>, es: Seq<(Seq<char>, Seq<char>)>, done: Seq<
    Seq<char>,
>)
    requires
        stable_lines(ls, es),
        unique_rec_names(ls),
        serials_ok(ls),
        names_outside(ls, done),
    ensures
        spec_reconcile_lines(ls, es, values_of(es), done) is Some,
        ({
            let r = spec_reconcile_lines(ls, es, values_of(es), done)->Some_0;
            &&& r.1 == false
            &&& forall|x: Seq<char>| done.contains(x) ==> r.2.contains(x)
            &&& forall|i: int|
                0 <= i < ls.len() && is_record_line(#[trigger] ls[i]) && !is_serial_line(ls[i])
                    ==> r.2.contains(rec_name(ls[i]))
        }),
    decreases ls.len(),
{
    let vals = values_of(es);
    if ls.len() == 0 {
    } else {
        let h = ls[0];
        let tail = ls.drop_first();
        assert(forall|i: int| 0 <= i < tail.len() ==> (#[trigger] tail[i]) == ls[i + 1]);
        if is_serial_line(h) {
            assert(serial_ok(h));
            lemma_second_pass(tail, es, done);
            let r = spec_reconcile_lines(ls, es, vals, done)->Some_0;
            let rest = spec_reconcile_lines(tail, es, vals, done)->Some_0;
            assert(r.1 == false);
            assert forall|i: int|
                0 <= i < ls.len() && is_record_line(#[trigger] ls[i]) && !is_serial_line(
                    ls[i],
                ) implies r.2.contains(rec_name(ls[i])) by {
                assert(ls[i] == tail[i - 1]);
            }
        } else if is_record_line(h) {
            let nm = rec_name(h);
            assert(!done.contains(nm));
            let done2 = done.push(nm);
            assert forall|y: Seq<char>|
                done2.contains(y) <==> (done.contains(y) || y == nm) by {
                lemma_push_contains(done, nm, y);
            }
            let step = spec_update_record(h, es, vals, done);
            assert(step.0 == Some(h) && step.1 == false && step.2 == done2);
            assert(names_outside(tail, done2)) by {
                assert(forall|i: int|
                    0 <= i < tail.len() && is_record_line(#[trigger] tail[i]) ==> rec_name(tail[i])
                        != nm);
            }
            lemma_second_pass(tail, es, done2);
            let r = spec_reconcile_lines(ls, es, vals, done)->Some_0;
            let rest = spec_reconcile_lines(tail, es, vals, done2)->Some_0;
            assert(r.1 == false);
            assert(rest.2.contains(nm));
            assert forall|i: int|
                0 <= i < ls.len() && is_record_line(#[trigger] ls[i]) && !is_serial_line(
                    ls[i],
                ) implies r.2.contains(rec_name(ls[i])) by {
                if i > 0 {
                    assert(ls[i] == tail[i - 1]);
                }
            }
        } else {
            lemma_second_pass(tail, es, done);
            let r = spec_reconcile_lines(ls, es, vals, done)->Some_0;
            assert(r.1 == false);
            assert forall|i: int|
                0 <= i < ls.len() && is_record_line(#[trigger] ls[i]) && !is_serial_line(
                    ls[i],
                ) implies r.2.contains(rec_name(ls[i])) by {
                assert(ls[i] == tail[i - 1]);
            }
        }
    }
}

/// The shape of any successful reconciliation's output: every record line
/// agrees with the entries (an updated name carries its pending value; any
/// other name carries no pending target — no dangling reassigned values),
/// no name appears on two record lines, and every entry's name stands on
/// some record line.
pub proof fn lemma_output_shape(
    lines: Seq<Seq<char>>,
    es: Seq<(Seq<char>, Seq<char>)>,
    rt: Seq<char>,
)
    requires
        wf_entries(es),
        rt == a_marker() || rt == ptr_marker(),
        spec_reconcile(lines, es, rt) is Some,
    ensures
        ({
            let out = spec_reconcile(lines, es, rt)->Some_0.0;
            &&& stable_lines(out, es)
            &&& unique_rec_names(out)
            &&& serial_headroom(lines) ==> serials_ok(out)
            &&& forall|k: int| 0 <= k < es.len() ==> has_rec(out, (#[trigger] es[k]).0)
        }),
{
    let vals = values_of(es);
    let nothing = Seq::<Seq<char>>::empty();
    assert(forall|x: Seq<char>| !nothing.contains(x));
    lemma_pass_shape(lines, es, nothing);
    let body = spec_reconcile_lines(lines, es, vals, nothing)->Some_0;
    let done1 = body.2;
    lemma_appends_shape(es, done1, rt);
    let app = spec_appends(es, done1, rt);
    let out = body.0 + app;
    assert(spec_reconcile(lines, es, rt)->Some_0.0 == out);
    assert(forall|i: int| 0 <= i < body.0.len() ==> out[i] == body.0[i]);
    assert(forall|i: int| 0 <= i < app.len() ==> out[body.0.len() + i] == app[i]);
    assert(stable_lines(out, es)) by {
        assert(forall|i: int|
            body.0.len() <= i < out.len() ==> out[i] == app[i - body.0.len()]);
    }
    assert(unique_rec_names(out)) by {
        assert(forall|i: int|
            0 <= i < body.0.len() && is_record_line(#[trigger] body.0[i]) ==> done1.contains(
                rec_name(body.0[i]),
            ));
        assert(forall|i: int|
            body.0.len() <= i < out.len() ==> out[i] == app[i - body.0.len()]);
    }
    if serial_headroom(lines) {
        assert(serials_ok(out)) by {
            assert(forall|i: int|
                body.0.len() <= i < out.len() ==> out[i] == app[i - body.0.len()]);
        }
    }
    assert forall|k: int| 0 <= k < es.len() implies has_rec(out, (#[trigger] es[k]).0) by {
        let x = es[k].0;
        if done1.contains(x) {
            assert(has_rec(lines, x));
            lemma_lookup_of_key(es, k);
            assert(has_rec(body.0, x));
            let w = choose|i: int|
                0 <= i < body.0.len() && is_record_line(#[trigger] body.0[i]) && !is_serial_line(
                    body.0[i],
                ) && rec_name(body.0[i]) == x;
            assert(out[w] == body.0[w]);
        } else {
            assert(has_rec(app, x));
            let w = choose|i: int|
                0 <= i < app.len() && is_record_line(#[trigger] app[i]) && !is_serial_line(app[i])
                    && rec_name(app[i]) == x;
            assert(out[body.0.len() + w] == app[w]);
        }
    }
}

/// Reconciling a reconciled body against the same updates flags no second
/// change: no record line is rewritten or dropped and nothing is appended;
/// only the serial transform fires again.
pub proof fn lemma_reconcile_idempotent(
    lines: Seq<Seq<char>>,
    es: Seq<(Seq<char>, Seq<char>)>,
    rt: Seq<char>,
)
    requires
        wf_entries(es),
        rt == a_marker() || rt == ptr_marker(),
        serial_headroom(lines),
        spec_reconcile(lines, es, rt) is Some,
    ensures
        spec_reconcile(spec_reconcile(lines, es, rt)->Some_0.0, es, rt) is Some,
        !spec_reconcile(spec_reconcile(lines, es, rt)->Some_0.0, es, rt)->Some_0.1,
{
    let vals = values_of(es);
    let nothing = Seq::<Seq<char>>::empty();
    assert(forall|x: Seq<char>| !nothing.contains(x));
    let out = spec_reconcile(lines, es, rt)->Some_0.0;
    lemma_output_shape(lines, es, rt);
    assert(names_outside(out, nothing));
    lemma_second_pass(out, es, nothing);
    let r2 = spec_reconcile_lines(out, es, vals, nothing)->Some_0;
    assert forall|k: int| 0 <= k < es.len() implies r2.2.contains((#[trigger] es[k]).0) by {
        assert(has_rec(out, es[k].0));
        let w = choose|i: int|
            0 <= i < out.len() && is_record_line(#[trigger] out[i]) && !is_serial_line(out[i])
                && rec_name(out[i]) == es[k].0;
    }
    lemma_appends_all_done(es, r2.2, rt);
}

/// For all names on more than one record line of the input, at most one
/// line per name survives in the output.
pub proof fn lemma_uniqueness(
    lines: Seq<Seq<char>>,
    es: Seq<(Seq<char>, Seq<char>)>,
    rt: Seq<char>,
)
    requires
        wf_entries(es),
        rt == a_marker() || rt == ptr_marker(),
        spec_reconcile(lines, es, rt) is Some,
    ensures
        unique_rec_names(spec_reconcile(lines, es, rt)->Some_0.0),
{
    lemma_output_shape(lines, es, rt);
}

/// No dangling reassigned values: no surviving record line whose name has
/// no pending update carries a value that some other name is updated to.
pub proof fn lemma_no_dangling_values(
    lines: Seq<Seq<char>>,
    es: Seq<(Seq<char>, Seq<char>)>,
    rt: Seq<char>,
)
    requires
        wf_entries(es),
        rt == a_marker() || rt == ptr_marker(),
        spec_reconcile(lines, es, rt) is Some,
    ensures
        ({
            let out = spec_reconcile(lines, es, rt)->Some_0.0;
            forall|i: int|
                0 <= i < out.len() && is_record_line(#[trigger] out[i]) && lookup(
                    es,
                    rec_name(out[i]),
                ) is None ==> !values_of(es).contains(rec_value(out[i]))
        }),
{
    lemma_output_shape(lines, es, rt);
}

/// Append-for-new: an entry whose name stands on no record line of the
/// input gains a freshly formatted record line in the output.
pub proof fn lemma_append_for_new(
    lines: Seq<Seq<char>>,
    es: Seq<(Seq<char>, Seq<char>)>,
    rt: Seq<char>,
    k: int,
)
    requires
        wf_entries(es),
        rt == a_marker() || rt == ptr_marker(),
        spec_reconcile(lines, es, rt) is Some,
        0 <= k < es.len(),
        !has_rec(lines, es[k].0),
    ensures
        spec_reconcile(lines, es, rt)->Some_0.0.contains(render_record(es[k].0, rt, es[k].1)),
        spec_reconcile(lines, es, rt)->Some_0.1,
{
    let vals = values_of(es);
    let nothing = Seq::<Seq<char>>::empty();
    assert(forall|x: Seq<char>| !nothing.contains(x));
    lemma_pass_shape(lines, es, nothing);
    let body = spec_reconcile_lines(lines, es, vals, nothing)->Some_0;
    let done1 = body.2;
    assert(!done1.contains(es[k].0));
    lemma_appends_shape(es, done1, rt);
    let app = spec_appends(es, done1, rt);
    let out = body.0 + app;
    assert(app.contains(render_record(es[k].0, rt, es[k].1)));
    let w = choose|i: int|
        0 <= i < app.len() && app[i] == render_record(es[k].0, rt, es[k].1);
    assert(out[body.0.len() + w] == app[w]);
    assert(out.contains(render_record(es[k].0, rt, es[k].1)));
}

proof fn lemma_first_occurrence_pass(
    lines: Seq<Seq<char>>,
    es: Seq<(Seq<char>, Seq<char>)>,
    done: Seq<Seq<char>>,
    i: int,
)
    requires
        wf_entries(es),
        spec_reconcile_lines(lines, es, values_of(es), done) is Some,
        0 <= i < lines.len(),
        is_record_line(lines[i]),
        !is_serial_line(lines[i]),
        !done.contains(rec_name(lines[i])),
        forall|j: int|
            0 <= j < i ==> !(is_record_line(#[trigger] lines[j]) && !is_serial_line(lines[j])
                && rec_name(lines[j]) == rec_name(lines[i])),
    ensures
        ({
            let r = spec_reconcile_lines(lines, es, values_of(es), done)->Some_0;
            let x = rec_name(lines[i]);
            match lookup(es, x) {
                Some(v) => if v != rec_value(lines[i]) {
                    r.0.contains(render_record(x, rec_type(lines[i]), v))
                } else {
                    r.0.contains(lines[i])
                },
                None => if !values_of(es).contains(rec_value(lines[i])) {
                    r.0.contains(lines[i])
                } else {
                    !has_rec(r.0, x)
                },
            }
        }),
    decreases lines.len(),
{
    let vals = values_of(es);
    let r = spec_reconcile_lines(lines, es, vals, done)->Some_0;
    let x = rec_name(lines[i]);
    let h = lines[0];
    let tail = lines.drop_first();
    let sres = spec_update_serial(h)->Some_0;
    let step = if sres.1 {
        (Some(sres.0), false, done)
    } else {
        spec_update_record(h, es, vals, done)
    };
    let done2 = step.2;
    let rest = spec_reconcile_lines(tail, es, vals, done2)->Some_0;
    assert(r.0 == emitted(step.0) + rest.0);
    if i == 0 {
        assert(!sres.1);
        match lookup(es, x) {
            Some(v) => {
                if v != rec_value(h) {
                    assert(r.0[0] == render_record(x, rec_type(h), v));
                    assert(r.0.contains(render_record(x, rec_type(h), v)));
                } else {
                    assert(r.0[0] == h);
                    assert(r.0.contains(h));
                }
            },
            None => {
                if !vals.contains(rec_value(h)) {
                    assert(r.0[0] == h);
                    assert(r.0.contains(h));
                } else {
                    assert(step.0 is None && done2 == done.push(x));
                    lemma_push_contains(done, x, x);
                    lemma_pass_shape(tail, es, done2);
                    assert(r.0 =~= rest.0);
                    if has_rec(r.0, x) {
                        let w = choose|j: int|
                            0 <= j < r.0.len() && is_record_line(#[trigger] r.0[j])
                                && !is_serial_line(r.0[j]) && rec_name(r.0[j]) == x;
                        assert(!done2.contains(rec_name(rest.0[w])));
                        assert(false);
                    }
                }
            },
        }
    } else {
        assert(tail[i - 1] == lines[i]);
        assert(forall|j: int| 0 <= j < tail.len() ==> (#[trigger] tail[j]) == lines[j + 1]);
        // the head is not a record line named `x`, so the name stays new
        if !sres.1 && is_record_line(h) && !done.contains(rec_name(h)) {
            assert(rec_name(h) != x);
            assert forall|y: Seq<char>|
                done2.contains(y) implies (done.contains(y) || y == rec_name(h)) by {
                lemma_push_contains(done, rec_name(h), y);
            }
        }
        assert(!done2.contains(x));
        lemma_first_occurrence_pass(tail, es, done2, i - 1);
        // what the head emits is never a record line named `x`
        let ghost head_clear: bool = match step.0 {
            Some(l) => !(is_record_line(l) && !is_serial_line(l) && rec_name(l) == x),
            None => true,
        };
        assert(head_clear) by {
            if sres.1 {
                lemma_render_serial(serial_value(h) + 1);
            } else if is_record_line(h) && !done.contains(rec_name(h)) && lookup(
                es,
                rec_name(h),
            ) is Some && lookup(es, rec_name(h))->Some_0 != rec_value(h) {
                let nm = rec_name(h);
                let nv = lookup(es, nm)->Some_0;
                lemma_record_tokens_text(h);
                lemma_lookup_entry(es, nm);
                let j = choose|j: int|
                    0 <= j < es.len() && (#[trigger] es[j]).0 == nm && es[j].1 == nv;
                lemma_render_tokens(nm, rec_type(h), nv);
            }
        }
        match lookup(es, x) {
            Some(v) => {
                let want = if v != rec_value(lines[i]) {
                    render_record(x, rec_type(lines[i]), v)
                } else {
                    lines[i]
                };
                assert(rest.0.contains(want));
                let w = choose|j: int| 0 <= j < rest.0.len() && rest.0[j] == want;
                assert(r.0[emitted(step.0).len() + w] == rest.0[w]);
                assert(r.0.contains(want));
            },
            None => {
                if !vals.contains(rec_value(lines[i])) {
                    assert(rest.0.contains(lines[i]));
                    let w = choose|j: int| 0 <= j < rest.0.len() && rest.0[j] == lines[i];
                    assert(r.0[emitted(step.0).len() + w] == rest.0[w]);
                    assert(r.0.contains(lines[i]));
                } else {
                    if has_rec(r.0, x) {
                        let w = choose|j: int|
                            0 <= j < r.0.len() && is_record_line(#[trigger] r.0[j])
                                && !is_serial_line(r.0[j]) && rec_name(r.0[j]) == x;
                        if w >= emitted(step.0).len() {
                            assert(r.0[w] == rest.0[w - emitted(step.0).len()]);
                            assert(has_rec(rest.0, x));
                        }
                        assert(false);
                    }
                }
            },
        }
    }
}

/// Only the first occurrence of a name decides: the first record line
/// carrying a name survives (as written, or rewritten to the pending
/// value, or dropped when its value is being reassigned elsewhere), and
/// no other record line carries that name in the output.
pub proof fn lemma_first_occurrence(
    lines: Seq<Seq<char>>,
    es: Seq<(Seq<char>, Seq<char>)>,
    rt: Seq<char>,
    i: int,
)
    requires
        wf_entries(es),
        rt == a_marker() || rt == ptr_marker(),
        spec_reconcile(lines, es, rt) is Some,
        0 <= i < lines.len(),
        is_record_line(lines[i]),
        !is_serial_line(lines[i]),
        forall|j: int|
            0 <= j < i ==> !(is_record_line(#[trigger] lines[j]) && !is_serial_line(lines[j])
                && rec_name(lines[j]) == rec_name(lines[i])),
    ensures
        ({
            let out = spec_reconcile(lines, es, rt)->Some_0.0;
            let x = rec_name(lines[i]);
            match lookup(es, x) {
                Some(v) => if v != rec_value(lines[i]) {
                    out.contains(render_record(x, rec_type(lines[i]), v))
                } else {
                    out.contains(lines[i])
                },
                None => if !values_of(es).contains(rec_value(lines[i])) {
                    out.contains(lines[i])
                } else {
                    !has_rec(out, x)
                },
            }
        }),
        unique_rec_names(spec_reconcile(lines, es, rt)->Some_0.0),
{
    let vals = values_of(es);
    let nothing = Seq::<Seq<char>>::empty();
    let x = rec_name(lines[i]);
    assert(forall|y: Seq<char>| !nothing.contains(y));
    lemma_first_occurrence_pass(lines, es, nothing, i);
    lemma_output_shape(lines, es, rt);
    let body = spec_reconcile_lines(lines, es, vals, nothing)->Some_0;
    lemma_appends_shape(es, body.2, rt);
    let app = spec_appends(es, body.2, rt);
    let out = body.0 + app;
    assert(spec_reconcile(lines, es, rt)->Some_0.0 == out);
    assert(forall|j: int| 0 <= j < body.0.len() ==> out[j] == body.0[j]);
    match lookup(es, x) {
        Some(v) => {
            let want = if v != rec_value(lines[i]) {
                render_record(x, rec_type(lines[i]), v)
            } else {
                lines[i]
            };
            let w = choose|j: int| 0 <= j < body.0.len() && body.0[j] == want;
            assert(out[w] == body.0[w]);
            assert(out.contains(want));
        },
        None => {
            if !vals.contains(rec_value(lines[i])) {
                let w = choose|j: int| 0 <= j < body.0.len() && body.0[j] == lines[i];
                assert(out[w] == body.0[w]);
                assert(out.contains(lines[i]));
            } else {
                if has_rec(out, x) {
                    let w = choose|j: int|
                        0 <= j < out.len() && is_record_line(#[trigger] out[j]) && !is_serial_line(
                            out[j],
                        ) && rec_name(out[j]) == x;
                    if w < body.0.len() {
                        assert(has_rec(body.0, x));
                    } else {
                        assert(out[w] == app[w - body.0.len()]);
                        assert(lookup(es, x) is Some);
                    }
                    assert(false);
                }
            }
        },
    }
}

proof fn lemma_serial_in_pass(
    lines: Seq<Seq<char>>,
    es: Seq<(Seq<char>, Seq<char>)>,
    done: Seq<Seq<char>>,
    i: int,
)
    requires
        spec_reconcile_lines(lines, es, values_of(es), done) is Some,
        0 <= i < lines.len(),
        is_serial_line(lines[i]),
    ensures
        spec_reconcile_lines(lines, es, values_of(es), done)->Some_0.0.contains(
            render_serial(serial_value(lines[i]) + 1),
        ),
    decreases lines.len(),
{
    let vals = values_of(es);
    let r = spec_reconcile_lines(lines, es, vals, done)->Some_0;
    let h = lines[0];
    let tail = lines.drop_first();
    let sres = spec_update_serial(h)->Some_0;
    let step = if sres.1 {
        (Some(sres.0), false, done)
    } else {
        spec_update_record(h, es, vals, done)
    };
    let rest = spec_reconcile_lines(tail, es, vals, step.2)->Some_0;
    if i == 0 {
        assert(r.0 == emitted(step.0) + rest.0);
        assert(r.0[0] == render_serial(serial_value(h) + 1));
    } else {
        assert(tail[i - 1] == lines[i]);
        lemma_serial_in_pass(tail, es, step.2, i - 1);
        let w = choose|j: int|
            0 <= j < rest.0.len() && rest.0[j] == render_serial(serial_value(lines[i]) + 1);
        assert(r.0[emitted(step.0).len() + w] == rest.0[w]);
    }
}

/// Serial monotonicity: for a serial line of value `v` in the input, the
/// output holds the serial line of value `v + 1`.
pub proof fn lemma_serial_monotone(
    lines: Seq<Seq<char>>,
    es: Seq<(Seq<char>, Seq<char>)>,
    rt: Seq<char>,
    i: int,
)
    requires
        spec_reconcile(lines, es, rt) is Some,
        0 <= i < lines.len(),
        is_serial_line(lines[i]),
    ensures
        spec_reconcile(lines, es, rt)->Some_0.0.contains(
            render_serial(serial_value(lines[i]) + 1),
        ),
{
    let vals = values_of(es);
    let nothing = Seq::<Seq<char>>::empty();
    lemma_serial_in_pass(lines, es, nothing, i);
    let body = spec_reconcile_lines(lines, es, vals, nothing)->Some_0;
    let app = spec_appends(es, body.2, rt);
    let out = body.0 + app;
    let w = choose|j: int|
        0 <= j < body.0.len() && body.0[j] == render_serial(serial_value(lines[i]) + 1);
    assert(out[w] == body.0[w]);
    assert(out.contains(render_serial(serial_value(lines[i]) + 1)));
}

} // verus!
