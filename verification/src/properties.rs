use vstd::prelude::*;

use crate::cursor::{byte_offset, char_width};
use crate::parseerror::ParseError;
use crate::parser::{
    is_key_char, is_value_char, key_run_end, spec_compare_set, spec_compare_value, spec_parse,
    spec_parse_key, spec_parse_operator, spec_parse_requirement, spec_parse_value,
    spec_selector_rest, spec_set_values, spec_skip_ws, value_run_end, Operator,
};

verus! {

/// A nonempty run of key characters, as `parse_key` scans it.
pub open spec fn valid_key(k: Seq<char>) -> bool {
    k.len() > 0 && (forall|q: int| 0 <= q < k.len() ==> is_key_char(#[trigger] k[q]))
}

/// A nonempty run of value characters, as `parse_value` scans it.
pub open spec fn valid_value(v: Seq<char>) -> bool {
    v.len() > 0 && (forall|q: int| 0 <= q < v.len() ==> is_value_char(#[trigger] v[q]))
}

pub proof fn lemma_key_run_end_at(s: Seq<char>, p: int, e: int)
    requires
        0 <= p <= e <= s.len(),
        forall|q: int| p <= q < e ==> is_key_char(#[trigger] s[q]),
        e < s.len() ==> !is_key_char(s[e]),
    ensures
        key_run_end(s, p) == e,
    decreases e - p,
{
    if p < e {
        lemma_key_run_end_at(s, p + 1, e);
    }
}

pub proof fn lemma_value_run_end_at(s: Seq<char>, p: int, e: int)
    requires
        0 <= p <= e <= s.len(),
        forall|q: int| p <= q < e ==> is_value_char(#[trigger] s[q]),
        e < s.len() ==> !is_value_char(s[e]),
    ensures
        value_run_end(s, p) == e,
    decreases e - p,
{
    if p < e {
        lemma_value_run_end_at(s, p + 1, e);
    }
}

/// Skipping over a run of spaces that ends at `q` lands on `q`; the
/// reported index is the last character peeked at along the way.
pub proof fn lemma_skip_run(s: Seq<char>, i: int, p: int, q: int)
    requires
        0 <= p <= q <= s.len(),
        forall|t: int| p <= t < q ==> #[trigger] s[t] == ' ',
        q < s.len() ==> s[q] != ' ',
    ensures
        spec_skip_ws(s, i, p) == if q < s.len() {
            (byte_offset(s, q), q)
        } else if q > p {
            (byte_offset(s, q - 1), q)
        } else {
            (i, q)
        },
    decreases q - p,
{
    if p < q {
        lemma_skip_run(s, byte_offset(s, p), p + 1, q);
    }
}

/// Every character before `q` is one byte wide, so the byte offset of `q`
/// is `q` itself.
pub proof fn lemma_byte_offset_ascii(s: Seq<char>, q: int)
    requires
        0 <= q <= s.len(),
        forall|t: int| 0 <= t < q ==> char_width(#[trigger] s[t]) == 1,
    ensures
        byte_offset(s, q) == q,
    decreases q,
{
    if q > 0 {
        lemma_byte_offset_ascii(s, q - 1);
    }
}

/// A selector that is one bare key matches exactly when the key is
/// present in the label map.
pub proof fn lemma_single_key(k: Seq<char>, m: Map<Seq<char>, Seq<char>>)
    requires
        valid_key(k),
    ensures
        spec_parse(k, m) == Ok::<bool, ParseError>(m.contains_key(k)),
{
    let n = k.len() as int;
    lemma_key_run_end_at(k, 0, n);
    assert(k.subrange(0, n) =~= k);
    assert(spec_skip_ws(k, 0, 0) == (0int, 0int));
    assert(spec_parse_key(k, 0, 0) == Ok::<_, ParseError>((k, byte_offset(k, n - 1), n)));
    assert(spec_skip_ws(k, byte_offset(k, n - 1), n) == (byte_offset(k, n - 1), n));
    assert(spec_parse_requirement(k, 0, 0, m) == Ok::<_, ParseError>(
        (m.contains_key(k), byte_offset(k, n - 1), n),
    ));
    assert(spec_selector_rest(k, byte_offset(k, n - 1), n, m.contains_key(k), m)
        == Ok::<bool, ParseError>(m.contains_key(k)));
}

/// The empty selector is always refused, whatever the map holds.
pub proof fn lemma_empty_selector(m: Map<Seq<char>, Seq<char>>)
    ensures
        spec_parse(Seq::empty(), m) == Err::<bool, ParseError>(ParseError::EmptySelector),
{
}

/// A `!` in front of a bare key inverts the existence check.
pub proof fn lemma_negated_key(k: Seq<char>, m: Map<Seq<char>, Seq<char>>)
    requires
        valid_key(k),
    ensures
        spec_parse(seq!['!'] + k, m) == Ok::<bool, ParseError>(!m.contains_key(k)),
{
    let s = seq!['!'] + k;
    let n = s.len() as int;
    assert(s[0] == '!');
    assert(forall|q: int| 1 <= q < n ==> is_key_char(#[trigger] s[q]));
    lemma_key_run_end_at(s, 1, n);
    assert(s.subrange(1, n) =~= k);
    assert(spec_skip_ws(s, 0, 0) == (0int, 0int));
    assert(spec_skip_ws(s, byte_offset(s, 0), 1) == (byte_offset(s, 1), 1int));
    assert(spec_parse_key(s, byte_offset(s, 1), 1) == Ok::<_, ParseError>(
        (k, byte_offset(s, n - 1), n),
    ));
    assert(spec_skip_ws(s, byte_offset(s, n - 1), n) == (byte_offset(s, n - 1), n));
    assert(spec_parse_requirement(s, 0, 0, m) == Ok::<_, ParseError>(
        (!m.contains_key(k), byte_offset(s, n - 1), n),
    ));
    assert(spec_selector_rest(s, byte_offset(s, n - 1), n, !m.contains_key(k), m)
        == Ok::<bool, ParseError>(!m.contains_key(k)));
}

/// Spaces before and after a bare key change nothing: the selector still
/// matches exactly when the key is present.
pub proof fn lemma_spaces_around_key(k: Seq<char>, m: Map<Seq<char>, Seq<char>>)
    requires
        valid_key(k),
    ensures
        spec_parse(seq![' '] + k + seq![' '], m) == Ok::<bool, ParseError>(m.contains_key(k)),
{
    let s = seq![' '] + k + seq![' '];
    let n = k.len() as int;
    assert(s.len() == n + 2);
    assert(s[0] == ' ');
    assert(forall|q: int| 1 <= q < n + 1 ==> is_key_char(#[trigger] s[q]));
    assert(s[n + 1] == ' ');
    lemma_skip_run(s, 0, 0, 1);
    lemma_key_run_end_at(s, 1, n + 1);
    assert(s.subrange(1, n + 1) =~= k);
    assert(spec_parse_key(s, byte_offset(s, 1), 1) == Ok::<_, ParseError>(
        (k, byte_offset(s, n), n + 1),
    ));
    lemma_skip_run(s, byte_offset(s, n), n + 1, n + 2);
    assert(spec_parse_requirement(s, 0, 0, m) == Ok::<_, ParseError>(
        (m.contains_key(k), byte_offset(s, n + 1), n + 2),
    ));
    assert(spec_selector_rest(s, byte_offset(s, n + 1), n + 2, m.contains_key(k), m)
        == Ok::<bool, ParseError>(m.contains_key(k)));
}

/// Two bare keys joined by a comma form the conjunction of the two
/// existence checks.
#[verifier::rlimit(50)]
pub proof fn lemma_conjunction(k1: Seq<char>, k2: Seq<char>, m: Map<Seq<char>, Seq<char>>)
    requires
        valid_key(k1),
        valid_key(k2),
    ensures
        spec_parse(k1 + seq![','] + k2, m) == Ok::<bool, ParseError>(
            m.contains_key(k1) && m.contains_key(k2),
        ),
{
    let s = k1 + seq![','] + k2;
    let n1 = k1.len() as int;
    let n = s.len() as int;
    assert(n == n1 + 1 + k2.len());
    assert(forall|q: int| 0 <= q < n1 ==> is_key_char(#[trigger] s[q]));
    assert(s[n1] == ',');
    assert(forall|q: int| n1 + 1 <= q < n ==> is_key_char(#[trigger] s[q]));
    lemma_key_run_end_at(s, 0, n1);
    assert(s.subrange(0, n1) =~= k1);
    assert(spec_skip_ws(s, 0, 0) == (0int, 0int));
    assert(spec_parse_key(s, 0, 0) == Ok::<_, ParseError>((k1, byte_offset(s, n1 - 1), n1)));
    assert(spec_skip_ws(s, byte_offset(s, n1 - 1), n1) == (byte_offset(s, n1), n1));
    assert(spec_parse_requirement(s, 0, 0, m) == Ok::<_, ParseError>(
        (m.contains_key(k1), byte_offset(s, n1), n1),
    ));
    // the driver consumes the comma and scans the second requirement
    assert(spec_skip_ws(s, byte_offset(s, n1), n1) == (byte_offset(s, n1), n1));
    lemma_key_run_end_at(s, n1 + 1, n);
    assert(s.subrange(n1 + 1, n) =~= k2);
    assert(spec_skip_ws(s, byte_offset(s, n1), n1 + 1) == (byte_offset(s, n1 + 1), n1 + 1));
    assert(spec_parse_key(s, byte_offset(s, n1 + 1), n1 + 1) == Ok::<_, ParseError>(
        (k2, byte_offset(s, n - 1), n),
    ));
    assert(spec_skip_ws(s, byte_offset(s, n - 1), n) == (byte_offset(s, n - 1), n));
    assert(spec_parse_requirement(s, byte_offset(s, n1), n1 + 1, m) == Ok::<_, ParseError>(
        (m.contains_key(k2), byte_offset(s, n - 1), n),
    ));
    assert(spec_selector_rest(s, byte_offset(s, n1), n1, m.contains_key(k1), m)
        == spec_selector_rest(
        s,
        byte_offset(s, n - 1),
        n,
        m.contains_key(k2) && m.contains_key(k1),
        m,
    ));
    assert(spec_selector_rest(
        s,
        byte_offset(s, n - 1),
        n,
        m.contains_key(k2) && m.contains_key(k1),
        m,
    ) == Ok::<bool, ParseError>(m.contains_key(k2) && m.contains_key(k1)));
}

/// A run of spaces.
pub open spec fn spaces(a: nat) -> Seq<char> {
    Seq::new(a, |t: int| ' ')
}

/// `k = v` matches exactly when the map holds `v` under `k`; an absent
/// key compares unequal.
#[verifier::rlimit(50)]
pub proof fn lemma_equality(k: Seq<char>, v: Seq<char>, m: Map<Seq<char>, Seq<char>>)
    requires
        valid_key(k),
        valid_value(v),
    ensures
        spec_parse(k + seq![' ', '=', ' '] + v, m) == Ok::<bool, ParseError>(
            m.contains_key(k) && m[k] == v,
        ),
{
    let s = k + seq![' ', '=', ' '] + v;
    let n1 = k.len() as int;
    let n = s.len() as int;
    assert(n == n1 + 3 + v.len());
    assert(forall|q: int| 0 <= q < n1 ==> is_key_char(#[trigger] s[q]));
    assert(s[n1] == ' ' && s[n1 + 1] == '=' && s[n1 + 2] == ' ');
    assert(forall|q: int| n1 + 3 <= q < n ==> is_value_char(#[trigger] s[q]));
    assert(spec_skip_ws(s, 0, 0) == (0int, 0int));
    lemma_key_run_end_at(s, 0, n1);
    assert(s.subrange(0, n1) =~= k);
    assert(spec_parse_key(s, 0, 0) == Ok::<_, ParseError>((k, byte_offset(s, n1 - 1), n1)));
    lemma_skip_run(s, byte_offset(s, n1 - 1), n1, n1 + 1);
    assert(spec_parse_operator(s, byte_offset(s, n1 + 1), n1 + 1) == Ok::<_, ParseError>(
        (Operator::Equality, byte_offset(s, n1 + 1), n1 + 2),
    ));
    lemma_skip_run(s, byte_offset(s, n1 + 1), n1 + 2, n1 + 3);
    lemma_value_run_end_at(s, n1 + 3, n);
    assert(s.subrange(n1 + 3, n) =~= v);
    let label = if m.contains_key(k) {
        Some(m[k])
    } else {
        None
    };
    assert(spec_compare_value(label, v) == (m.contains_key(k) && m[k] == v));
    assert(spec_parse_requirement(s, 0, 0, m) == Ok::<_, ParseError>(
        (m.contains_key(k) && m[k] == v, byte_offset(s, n - 1), n),
    ));
    assert(spec_skip_ws(s, byte_offset(s, n - 1), n) == (byte_offset(s, n - 1), n));
}

/// The `==` spelling normalizes to the same equality as `=`: `k == v`
/// gives the same result as `k = v`.
#[verifier::spinoff_prover]
#[verifier::rlimit(100)]
pub proof fn lemma_double_equals(k: Seq<char>, v: Seq<char>, m: Map<Seq<char>, Seq<char>>)
    requires
        valid_key(k),
        valid_value(v),
    ensures
        spec_parse(k + seq![' ', '=', '=', ' '] + v, m) == spec_parse(
            k + seq![' ', '=', ' '] + v,
            m,
        ),
{
    lemma_equality(k, v, m);
    let s = k + seq![' ', '=', '=', ' '] + v;
    let n1 = k.len() as int;
    let n = s.len() as int;
    assert(n == n1 + 4 + v.len());
    assert(forall|q: int| 0 <= q < n1 ==> is_key_char(#[trigger] s[q]));
    assert(s[n1] == ' ' && s[n1 + 1] == '=' && s[n1 + 2] == '=' && s[n1 + 3] == ' ');
    assert(forall|q: int| n1 + 4 <= q < n ==> is_value_char(#[trigger] s[q]));
    assert(spec_skip_ws(s, 0, 0) == (0int, 0int));
    lemma_key_run_end_at(s, 0, n1);
    assert(s.subrange(0, n1) =~= k);
    assert(spec_parse_key(s, 0, 0) == Ok::<_, ParseError>((k, byte_offset(s, n1 - 1), n1)));
    lemma_skip_run(s, byte_offset(s, n1 - 1), n1, n1 + 1);
    assert(spec_parse_operator(s, byte_offset(s, n1 + 1), n1 + 1) == Ok::<_, ParseError>(
        (Operator::Equality, byte_offset(s, n1 + 2), n1 + 3),
    ));
    lemma_skip_run(s, byte_offset(s, n1 + 2), n1 + 3, n1 + 4);
    lemma_value_run_end_at(s, n1 + 4, n);
    assert(s.subrange(n1 + 4, n) =~= v);
    let label = if m.contains_key(k) {
        Some(m[k])
    } else {
        None
    };
    assert(spec_compare_value(label, v) == (m.contains_key(k) && m[k] == v));
    assert(spec_parse_requirement(s, 0, 0, m) == Ok::<_, ParseError>(
        (m.contains_key(k) && m[k] == v, byte_offset(s, n - 1), n),
    ));
    assert(spec_skip_ws(s, byte_offset(s, n - 1), n) == (byte_offset(s, n - 1), n));
}

/// `k != v` yields the negation of the `k = v` comparison; an absent key
/// makes the inequality hold.
#[verifier::rlimit(50)]
pub proof fn lemma_inequality(k: Seq<char>, v: Seq<char>, m: Map<Seq<char>, Seq<char>>)
    requires
        valid_key(k),
        valid_value(v),
    ensures
        spec_parse(k + seq![' ', '!', '=', ' '] + v, m) == Ok::<bool, ParseError>(
            !(m.contains_key(k) && m[k] == v),
        ),
{
    let s = k + seq![' ', '!', '=', ' '] + v;
    let n1 = k.len() as int;
    let n = s.len() as int;
    assert(n == n1 + 4 + v.len());
    assert(forall|q: int| 0 <= q < n1 ==> is_key_char(#[trigger] s[q]));
    assert(s[n1] == ' ' && s[n1 + 1] == '!' && s[n1 + 2] == '=' && s[n1 + 3] == ' ');
    assert(forall|q: int| n1 + 4 <= q < n ==> is_value_char(#[trigger] s[q]));
    assert(spec_skip_ws(s, 0, 0) == (0int, 0int));
    lemma_key_run_end_at(s, 0, n1);
    assert(s.subrange(0, n1) =~= k);
    assert(spec_parse_key(s, 0, 0) == Ok::<_, ParseError>((k, byte_offset(s, n1 - 1), n1)));
    lemma_skip_run(s, byte_offset(s, n1 - 1), n1, n1 + 1);
    assert(spec_parse_operator(s, byte_offset(s, n1 + 1), n1 + 1) == Ok::<_, ParseError>(
        (Operator::InEquality, byte_offset(s, n1 + 2), n1 + 3),
    ));
    lemma_skip_run(s, byte_offset(s, n1 + 2), n1 + 3, n1 + 4);
    lemma_value_run_end_at(s, n1 + 4, n);
    assert(s.subrange(n1 + 4, n) =~= v);
    let label = if m.contains_key(k) {
        Some(m[k])
    } else {
        None
    };
    assert(spec_compare_value(label, v) == (m.contains_key(k) && m[k] == v));
    assert(spec_parse_requirement(s, 0, 0, m) == Ok::<_, ParseError>(
        (!(m.contains_key(k) && m[k] == v), byte_offset(s, n - 1), n),
    ));
    assert(spec_skip_ws(s, byte_offset(s, n - 1), n) == (byte_offset(s, n - 1), n));
}

/// `k in (v)` matches exactly when the map holds `v` under `k`, with any
/// number of spaces around the set's value: `k in ( v )` and `k in (v)`
/// give identical results.
#[verifier::rlimit(50)]
pub proof fn lemma_in_set_one(
    k: Seq<char>,
    v: Seq<char>,
    a: nat,
    b: nat,
    m: Map<Seq<char>, Seq<char>>,
)
    requires
        valid_key(k),
        valid_value(v),
    ensures
        spec_parse(k + seq![' ', 'i', 'n', ' ', '('] + spaces(a) + v + spaces(b) + seq![')'], m)
            == Ok::<bool, ParseError>(m.contains_key(k) && m[k] == v),
{
    let s = k + seq![' ', 'i', 'n', ' ', '('] + spaces(a) + v + spaces(b) + seq![')'];
    let n1 = k.len() as int;
    let vstart = n1 + 5 + a;
    let vend = vstart + v.len() as int;
    let n = s.len() as int;
    assert(n == vend + b + 1);
    assert(forall|q: int| 0 <= q < n1 ==> is_key_char(#[trigger] s[q]));
    assert(s[n1] == ' ' && s[n1 + 1] == 'i' && s[n1 + 2] == 'n' && s[n1 + 3] == ' ' && s[n1 + 4]
        == '(');
    assert(forall|t: int| n1 + 5 <= t < vstart ==> #[trigger] s[t] == ' ');
    assert(forall|q: int| vstart <= q < vend ==> is_value_char(#[trigger] s[q]));
    assert(forall|t: int| vend <= t < vend + b ==> #[trigger] s[t] == ' ');
    assert(s[vend + b] == ')');
    assert(spec_skip_ws(s, 0, 0) == (0int, 0int));
    lemma_key_run_end_at(s, 0, n1);
    assert(s.subrange(0, n1) =~= k);
    assert(spec_parse_key(s, 0, 0) == Ok::<_, ParseError>((k, byte_offset(s, n1 - 1), n1)));
    lemma_skip_run(s, byte_offset(s, n1 - 1), n1, n1 + 1);
    assert(spec_parse_operator(s, byte_offset(s, n1 + 1), n1 + 1) == Ok::<_, ParseError>(
        (Operator::InSet, byte_offset(s, n1 + 2), n1 + 3),
    ));
    lemma_skip_run(s, byte_offset(s, n1 + 2), n1 + 3, n1 + 4);
    // inside the parentheses: optional spaces, the value, optional spaces
    lemma_skip_run(s, byte_offset(s, n1 + 4), n1 + 5, vstart);
    lemma_value_run_end_at(s, vstart, vend);
    assert(s.subrange(vstart, vend) =~= v);
    let vs = Seq::<Seq<char>>::empty().push(v);
    assert(spec_set_values(s, byte_offset(s, n1 + 4), n1 + 5, Seq::empty(), true)
        == spec_set_values(s, byte_offset(s, vend - 1), vend, vs, false));
    lemma_skip_run(s, byte_offset(s, vend - 1), vend, vend + b);
    assert(spec_set_values(s, byte_offset(s, vend - 1), vend, vs, false) == Ok::<_, ParseError>(
        (vs, byte_offset(s, vend + b), n),
    ));
    let label = if m.contains_key(k) {
        Some(m[k])
    } else {
        None
    };
    assert(vs.len() == 1 && vs[0] == v);
    if m.contains_key(k) && m[k] == v {
        assert(vs.contains(m[k]));
    }
    if m.contains_key(k) && vs.contains(m[k]) {
        assert(m[k] == v);
    }
    assert(spec_compare_set(label, vs) == (m.contains_key(k) && m[k] == v));
    assert(spec_parse_requirement(s, 0, 0, m) == Ok::<_, ParseError>(
        (m.contains_key(k) && m[k] == v, byte_offset(s, n - 1), n),
    ));
    assert(spec_skip_ws(s, byte_offset(s, n - 1), n) == (byte_offset(s, n - 1), n));
}

/// The textual continuation of a set after its first value: `,v` for each
/// further value, in order.
pub open spec fn rep_values(vs: Seq<Seq<char>>) -> Seq<char>
    decreases vs.len(),
{
    if vs.len() == 0 {
        Seq::empty()
    } else {
        seq![','] + vs[0] + rep_values(vs.drop_first())
    }
}

/// The textual form of a nonempty value list, joined by commas.
pub open spec fn joined_values(vs: Seq<Seq<char>>) -> Seq<char>
    recommends
        vs.len() > 0,
{
    vs[0] + rep_values(vs.drop_first())
}

/// From a `,` or the closing `)`, the set loop collects exactly the
/// remaining comma-led values and stops on the `)`.
#[verifier::spinoff_prover]
#[verifier::rlimit(100)]
proof fn lemma_set_values_rest(
    s: Seq<char>,
    i: int,
    p: int,
    acc: Seq<Seq<char>>,
    vs: Seq<Seq<char>>,
)
    requires
        0 <= p,
        p + rep_values(vs).len() + 1 <= s.len(),
        forall|q: int| 0 <= q < vs.len() ==> valid_value(#[trigger] vs[q]),
        s.subrange(p, p + rep_values(vs).len()) == rep_values(vs),
        s[p + rep_values(vs).len()] == ')',
    ensures
        spec_set_values(s, i, p, acc, false) == Ok::<_, ParseError>(
            (
                acc + vs,
                byte_offset(s, p + rep_values(vs).len()),
                p + rep_values(vs).len() + 1,
            ),
        ),
    decreases vs.len(),
{
    let r = rep_values(vs).len() as int;
    if vs.len() == 0 {
        assert(s[p] == ')') by {
            assert(s.subrange(p, p + r) =~= Seq::empty());
        }
        assert(spec_skip_ws(s, i, p) == (byte_offset(s, p), p));
        assert(acc + vs =~= acc);
    } else {
        let v = vs[0];
        let rest = vs.drop_first();
        let vlen = v.len() as int;
        let rr = rep_values(rest).len() as int;
        assert(rep_values(vs) == seq![','] + v + rep_values(rest));
        assert(r == 1 + vlen + rr);
        assert(s[p] == ',') by {
            assert(s.subrange(p, p + r)[0] == rep_values(vs)[0]);
        }
        assert(forall|q: int| p + 1 <= q < p + 1 + vlen ==> is_value_char(#[trigger] s[q])) by {
            assert forall|q: int| p + 1 <= q < p + 1 + vlen implies is_value_char(
                #[trigger] s[q],
            ) by {
                assert(s.subrange(p, p + r)[q - p] == rep_values(vs)[q - p]);
                assert(rep_values(vs)[q - p] == v[q - p - 1]);
            }
        }
        assert(s.subrange(p + 1, p + 1 + vlen) =~= v) by {
            assert forall|w: int| 0 <= w < vlen implies s.subrange(p + 1, p + 1 + vlen)[w] == v[w]
                by {
                assert(s.subrange(p, p + r)[1 + w] == rep_values(vs)[1 + w]);
                assert(rep_values(vs)[1 + w] == v[w]);
            }
        }
        // the character after the value is the next comma or the `)`
        assert(!is_value_char(s[p + 1 + vlen])) by {
            if rest.len() == 0 {
                assert(s[p + 1 + vlen] == ')');
            } else {
                assert(s.subrange(p, p + r)[1 + vlen] == rep_values(vs)[1 + vlen]);
                assert(rep_values(vs)[1 + vlen] == rep_values(rest)[0]);
                assert(rep_values(rest)[0] == ',');
            }
        }
        assert(s.subrange(p + 1 + vlen, p + 1 + vlen + rr) =~= rep_values(rest)) by {
            assert forall|w: int| 0 <= w < rr implies s.subrange(p + 1 + vlen, p + 1 + vlen + rr)[w]
                == rep_values(rest)[w] by {
                assert(s.subrange(p, p + r)[1 + vlen + w] == rep_values(vs)[1 + vlen + w]);
                assert(rep_values(vs)[1 + vlen + w] == rep_values(rest)[w]);
            }
        }
        assert(forall|q: int| 0 <= q < rest.len() ==> valid_value(#[trigger] rest[q])) by {
            assert forall|q: int| 0 <= q < rest.len() implies valid_value(#[trigger] rest[q]) by {
                assert(rest[q] == vs[q + 1]);
            }
        }
        assert(s[p + 1 + vlen + rr] == ')');
        lemma_value_run_end_at(s, p + 1, p + 1 + vlen);
        assert(spec_skip_ws(s, i, p) == (byte_offset(s, p), p));
        assert(spec_parse_value(s, byte_offset(s, p), p + 1) == Ok::<_, ParseError>(
            (v, byte_offset(s, p + vlen), p + 1 + vlen),
        ));
        lemma_set_values_rest(s, byte_offset(s, p + vlen), p + 1 + vlen, acc.push(v), rest);
        assert(acc.push(v) + rest =~= acc + vs);
    }
}

/// From the first value of a set, the loop collects all the values and
/// stops on the `)`.
#[verifier::spinoff_prover]
#[verifier::rlimit(100)]
proof fn lemma_set_values_all(s: Seq<char>, i: int, p: int, vs: Seq<Seq<char>>)
    requires
        0 <= p,
        vs.len() > 0,
        p + joined_values(vs).len() + 1 <= s.len(),
        forall|q: int| 0 <= q < vs.len() ==> valid_value(#[trigger] vs[q]),
        s.subrange(p, p + joined_values(vs).len()) == joined_values(vs),
        s[p + joined_values(vs).len()] == ')',
    ensures
        spec_set_values(s, i, p, Seq::empty(), true) == Ok::<_, ParseError>(
            (
                vs,
                byte_offset(s, p + joined_values(vs).len()),
                p + joined_values(vs).len() + 1,
            ),
        ),
{
    let v = vs[0];
    let rest = vs.drop_first();
    let vlen = v.len() as int;
    let rr = rep_values(rest).len() as int;
    let j = joined_values(vs).len() as int;
    assert(j == vlen + rr);
    assert(forall|q: int| p <= q < p + vlen ==> is_value_char(#[trigger] s[q])) by {
        assert forall|q: int| p <= q < p + vlen implies is_value_char(#[trigger] s[q]) by {
            assert(s.subrange(p, p + j)[q - p] == joined_values(vs)[q - p]);
            assert(joined_values(vs)[q - p] == v[q - p]);
        }
    }
    assert(s.subrange(p, p + vlen) =~= v) by {
        assert forall|w: int| 0 <= w < vlen implies s.subrange(p, p + vlen)[w] == v[w] by {
            assert(s.subrange(p, p + j)[w] == joined_values(vs)[w]);
            assert(joined_values(vs)[w] == v[w]);
        }
    }
    assert(!is_value_char(s[p + vlen])) by {
        if rest.len() == 0 {
            assert(vlen == j);
            assert(s[p + vlen] == ')');
        } else {
            assert(s.subrange(p, p + j)[vlen] == joined_values(vs)[vlen]);
            assert(joined_values(vs)[vlen] == rep_values(rest)[0]);
            assert(rep_values(rest)[0] == ',');
        }
    }
    assert(s.subrange(p + vlen, p + vlen + rr) =~= rep_values(rest)) by {
        assert forall|w: int| 0 <= w < rr implies s.subrange(p + vlen, p + vlen + rr)[w]
            == rep_values(rest)[w] by {
            assert(s.subrange(p, p + j)[vlen + w] == joined_values(vs)[vlen + w]);
            assert(joined_values(vs)[vlen + w] == rep_values(rest)[w]);
        }
    }
    assert(forall|q: int| 0 <= q < rest.len() ==> valid_value(#[trigger] rest[q])) by {
        assert forall|q: int| 0 <= q < rest.len() implies valid_value(#[trigger] rest[q]) by {
            assert(rest[q] == vs[q + 1]);
        }
    }
    assert(s[p + vlen + rr] == ')');
    assert(spec_skip_ws(s, i, p) == (byte_offset(s, p), p));
    lemma_value_run_end_at(s, p, p + vlen);
    assert(spec_parse_value(s, byte_offset(s, p), p) == Ok::<_, ParseError>(
        (v, byte_offset(s, p + vlen - 1), p + vlen),
    ));
    lemma_set_values_rest(s, byte_offset(s, p + vlen - 1), p + vlen, Seq::empty().push(v), rest);
    assert(Seq::empty().push(v) + rest =~= vs);
}

/// `k in (v1,v2,...)` matches exactly when the map holds one of the
/// listed values under `k`; an absent key is in no set.
#[verifier::rlimit(50)]
pub proof fn lemma_in_set(k: Seq<char>, vs: Seq<Seq<char>>, m: Map<Seq<char>, Seq<char>>)
    requires
        valid_key(k),
        vs.len() > 0,
        forall|q: int| 0 <= q < vs.len() ==> valid_value(#[trigger] vs[q]),
    ensures
        spec_parse(k + seq![' ', 'i', 'n', ' ', '('] + joined_values(vs) + seq![')'], m)
            == Ok::<bool, ParseError>(m.contains_key(k) && vs.contains(m[k])),
{
    let s = k + seq![' ', 'i', 'n', ' ', '('] + joined_values(vs) + seq![')'];
    let n1 = k.len() as int;
    let j = joined_values(vs).len() as int;
    let n = s.len() as int;
    assert(n == n1 + 5 + j + 1);
    assert(forall|q: int| 0 <= q < n1 ==> is_key_char(#[trigger] s[q]));
    assert(s[n1] == ' ' && s[n1 + 1] == 'i' && s[n1 + 2] == 'n' && s[n1 + 3] == ' ' && s[n1 + 4]
        == '(');
    assert(spec_skip_ws(s, 0, 0) == (0int, 0int));
    lemma_key_run_end_at(s, 0, n1);
    assert(s.subrange(0, n1) =~= k);
    assert(spec_parse_key(s, 0, 0) == Ok::<_, ParseError>((k, byte_offset(s, n1 - 1), n1)));
    lemma_skip_run(s, byte_offset(s, n1 - 1), n1, n1 + 1);
    assert(spec_parse_operator(s, byte_offset(s, n1 + 1), n1 + 1) == Ok::<_, ParseError>(
        (Operator::InSet, byte_offset(s, n1 + 2), n1 + 3),
    ));
    lemma_skip_run(s, byte_offset(s, n1 + 2), n1 + 3, n1 + 4);
    assert(s.subrange(n1 + 5, n1 + 5 + j) =~= joined_values(vs));
    assert(s[n1 + 5 + j] == ')');
    lemma_set_values_all(s, byte_offset(s, n1 + 4), n1 + 5, vs);
    let label = if m.contains_key(k) {
        Some(m[k])
    } else {
        None
    };
    assert(spec_compare_set(label, vs) == (m.contains_key(k) && vs.contains(m[k])));
    assert(spec_parse_requirement(s, 0, 0, m) == Ok::<_, ParseError>(
        (m.contains_key(k) && vs.contains(m[k]), byte_offset(s, n - 1), n),
    ));
    assert(spec_skip_ws(s, byte_offset(s, n - 1), n) == (byte_offset(s, n - 1), n));
}

/// `k notin (v1,v2,...)` yields the logical complement of the `in` form.
#[verifier::rlimit(50)]
pub proof fn lemma_notin_set(k: Seq<char>, vs: Seq<Seq<char>>, m: Map<Seq<char>, Seq<char>>)
    requires
        valid_key(k),
        vs.len() > 0,
        forall|q: int| 0 <= q < vs.len() ==> valid_value(#[trigger] vs[q]),
    ensures
        spec_parse(k + seq![' ', 'n', 'o', 't', 'i', 'n', ' ', '('] + joined_values(vs) + seq![')'], m)
            == Ok::<bool, ParseError>(!(m.contains_key(k) && vs.contains(m[k]))),
{
    let s = k + seq![' ', 'n', 'o', 't', 'i', 'n', ' ', '('] + joined_values(vs) + seq![')'];
    let n1 = k.len() as int;
    let j = joined_values(vs).len() as int;
    let n = s.len() as int;
    assert(n == n1 + 8 + j + 1);
    assert(forall|q: int| 0 <= q < n1 ==> is_key_char(#[trigger] s[q]));
    assert(s[n1] == ' ' && s[n1 + 1] == 'n' && s[n1 + 2] == 'o' && s[n1 + 3] == 't' && s[n1 + 4]
        == 'i' && s[n1 + 5] == 'n' && s[n1 + 6] == ' ' && s[n1 + 7] == '(');
    assert(spec_skip_ws(s, 0, 0) == (0int, 0int));
    lemma_key_run_end_at(s, 0, n1);
    assert(s.subrange(0, n1) =~= k);
    assert(spec_parse_key(s, 0, 0) == Ok::<_, ParseError>((k, byte_offset(s, n1 - 1), n1)));
    lemma_skip_run(s, byte_offset(s, n1 - 1), n1, n1 + 1);
    assert(spec_parse_operator(s, byte_offset(s, n1 + 1), n1 + 1) == Ok::<_, ParseError>(
        (Operator::NotInSet, byte_offset(s, n1 + 1) + 5, n1 + 6),
    ));
    lemma_skip_run(s, byte_offset(s, n1 + 1) + 5, n1 + 6, n1 + 7);
    assert(s.subrange(n1 + 8, n1 + 8 + j) =~= joined_values(vs));
    assert(s[n1 + 8 + j] == ')');
    lemma_set_values_all(s, byte_offset(s, n1 + 7), n1 + 8, vs);
    let label = if m.contains_key(k) {
        Some(m[k])
    } else {
        None
    };
    assert(spec_compare_set(label, vs) == (m.contains_key(k) && vs.contains(m[k])));
    assert(spec_parse_requirement(s, 0, 0, m) == Ok::<_, ParseError>(
        (!(m.contains_key(k) && vs.contains(m[k])), byte_offset(s, n - 1), n),
    ));
    assert(spec_skip_ws(s, byte_offset(s, n - 1), n) == (byte_offset(s, n - 1), n));
}

/// A syntax error in a later requirement surfaces as an error even when
/// an earlier requirement already evaluated, whatever its truth value.
pub proof fn lemma_error_after_first(k1: Seq<char>, c: char, m: Map<Seq<char>, Seq<char>>)
    requires
        valid_key(k1),
        !is_key_char(c),
        c != ',',
        c != ' ',
        c != '!',
    ensures
        spec_parse(k1 + seq![','] + seq![c], m) == Err::<bool, ParseError>(
            ParseError::InvalidKey((k1.len() + 1) as usize),
        ),
{
    let s = k1 + seq![','] + seq![c];
    let n1 = k1.len() as int;
    let n = s.len() as int;
    assert(n == n1 + 2);
    assert(forall|q: int| 0 <= q < n1 ==> is_key_char(#[trigger] s[q]));
    assert(s[n1] == ',');
    assert(s[n1 + 1] == c);
    assert(spec_skip_ws(s, 0, 0) == (0int, 0int));
    lemma_key_run_end_at(s, 0, n1);
    assert(s.subrange(0, n1) =~= k1);
    assert(spec_parse_key(s, 0, 0) == Ok::<_, ParseError>((k1, byte_offset(s, n1 - 1), n1)));
    assert(spec_skip_ws(s, byte_offset(s, n1 - 1), n1) == (byte_offset(s, n1), n1));
    assert(spec_parse_requirement(s, 0, 0, m) == Ok::<_, ParseError>(
        (m.contains_key(k1), byte_offset(s, n1), n1),
    ));
    // the driver consumes the comma; the second key position holds `c`
    assert(spec_skip_ws(s, byte_offset(s, n1), n1) == (byte_offset(s, n1), n1));
    assert(spec_skip_ws(s, byte_offset(s, n1), n1 + 1) == (byte_offset(s, n1 + 1), n1 + 1));
    assert(key_run_end(s, n1 + 1) == n1 + 1);
    assert(forall|t: int| 0 <= t < n1 + 1 ==> char_width(#[trigger] s[t]) == 1);
    lemma_byte_offset_ascii(s, n1 + 1);
    assert(spec_parse_key(s, byte_offset(s, n1 + 1), n1 + 1) == Err::<
        (Seq<char>, int, int),
        ParseError,
    >(ParseError::InvalidKey((n1 + 1) as usize)));
    assert(spec_parse_requirement(s, byte_offset(s, n1), n1 + 1, m) == Err::<
        (bool, int, int),
        ParseError,
    >(ParseError::InvalidKey((n1 + 1) as usize)));
}

/// After a nonempty key, a character that starts no operator is reported
/// as `InvalidOperator` at its byte offset, which for an ASCII key is the
/// key's length.
pub proof fn lemma_invalid_operator_after_key(c: char, k: Seq<char>, m: Map<Seq<char>, Seq<char>>)
    requires
        valid_key(k),
        !is_key_char(c),
        c != ',',
        c != ' ',
        c != '=',
        c != '!',
        c != 'i',
        c != 'n',
    ensures
        spec_parse(k + seq![c], m) == Err::<bool, ParseError>(
            ParseError::InvalidOperator(k.len() as usize),
        ),
{
    let s = k + seq![c];
    let n1 = k.len() as int;
    let n = s.len() as int;
    assert(n == n1 + 1);
    assert(forall|q: int| 0 <= q < n1 ==> is_key_char(#[trigger] s[q]));
    assert(s[n1] == c);
    assert(spec_skip_ws(s, 0, 0) == (0int, 0int));
    lemma_key_run_end_at(s, 0, n1);
    assert(s.subrange(0, n1) =~= k);
    assert(spec_parse_key(s, 0, 0) == Ok::<_, ParseError>((k, byte_offset(s, n1 - 1), n1)));
    assert(spec_skip_ws(s, byte_offset(s, n1 - 1), n1) == (byte_offset(s, n1), n1));
    assert(forall|t: int| 0 <= t < n1 ==> char_width(#[trigger] s[t]) == 1);
    lemma_byte_offset_ascii(s, n1);
    assert(spec_parse_operator(s, byte_offset(s, n1), n1) == Err::<(Operator, int, int), ParseError>(
        ParseError::InvalidOperator(n1 as usize),
    ));
}

/// A character that can start neither a key nor anything else a
/// requirement may begin with is reported as `InvalidKey` at its offset.
pub proof fn lemma_invalid_key_start(c: char, m: Map<Seq<char>, Seq<char>>)
    requires
        !is_key_char(c),
        c != ',',
        c != ' ',
        c != '!',
    ensures
        spec_parse(seq![c], m) == Err::<bool, ParseError>(ParseError::InvalidKey(0)),
{
    let s = seq![c];
    assert(s[0] == c);
    assert(spec_skip_ws(s, 0, 0) == (0int, 0int));
    assert(key_run_end(s, 0) == 0);
    assert(spec_parse_key(s, 0, 0) == Err::<(Seq<char>, int, int), ParseError>(
        ParseError::InvalidKey(0),
    ));
}

} // verus!
