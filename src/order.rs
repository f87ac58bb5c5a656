//! Numeric ordering of rule identifiers.
use vstd::prelude::*;
use crate::rule::{Rule, RuleModel, rules_view};
use vstd::multiset::Multiset;

verus! {


pub open spec fn is_digit(c: char) -> bool {
    '0' <= c <= '9'
}

pub open spec fn digit_value(c: char) -> int {
    c as int - '0' as int
}

pub open spec fn all_digits(s: Seq<char>) -> bool {
    forall|i: int| 0 <= i < s.len() ==> is_digit(#[trigger] s[i])
}

/// The natural number written by a string of decimal digits.
pub open spec fn digits_value(s: Seq<char>) -> int
    decreases s.len(),
{
    if s.len() == 0 {
        0
    } else {
        digits_value(s.drop_last()) * 10 + digit_value(s.last())
    }
}

/// The integer that `s` writes in decimal: an optional sign followed by at
/// least one digit, and nothing else.
pub open spec fn decimal_value(s: Seq<char>) -> Option<int> {
    if s.len() > 0 && (s[0] == '+' || s[0] == '-') {
        let rest = s.skip(1);
        if rest.len() > 0 && all_digits(rest) {
            Some(if s[0] == '-' { -digits_value(rest) } else { digits_value(rest) })
        } else {
            None
        }
    } else if s.len() > 0 && all_digits(s) {
        Some(digits_value(s))
    } else {
        None
    }
}


/// The sort key of an identifier: the integer it writes in decimal, of any
/// width, or zero where it writes none.
pub open spec fn id_key(s: Seq<char>) -> int {
    match decimal_value(s) {
        Some(v) => v,
        None => 0,
    }
}


/// The rules are in ascending order of their identifiers' keys.
pub open spec fn sorted_by_id(rules: Seq<RuleModel>) -> bool {
    forall|i: int, j: int|
        0 <= i < j < rules.len() ==> id_key(#[trigger] rules[i].id) <= id_key(#[trigger] rules[j].id)
}

/// `output` is `input` rearranged by the positions `p` (`output[i]` is
/// `input[p[i]]`, each position once), and rules with equal keys keep their
/// relative order.
pub open spec fn stable_arrangement(input: Seq<Rule>, output: Seq<Rule>, p: Seq<int>) -> bool {
    &&& p.len() == output.len()
    &&& output.len() == input.len()
    &&& forall|i: int|
        0 <= i < output.len() ==> 0 <= #[trigger] p[i] < input.len() && output[i] == input[p[i]]
    &&& forall|i: int, j: int| 0 <= i < j < output.len() ==> #[trigger] p[i] != #[trigger] p[j]
    &&& forall|i: int, j: int|
        0 <= i < j < output.len() && id_key(output[i]@.id) == id_key(output[j]@.id) ==> #[trigger] p[i]
            < #[trigger] p[j]
}

/// The value of the first `i` digits of `x` written `pad` zeros wide on the left.
pub open spec fn padded_prefix(x: Seq<char>, pad: int, i: int) -> int {
    if i <= pad {
        0
    } else {
        digits_value(x.take(i - pad))
    }
}

proof fn lemma_digits_value_nonneg(s: Seq<char>)
    requires
        all_digits(s),
    ensures
        digits_value(s) >= 0,
    decreases s.len(),
{
    if s.len() > 0 {
        let p = s.drop_last();
        assert(all_digits(p)) by {
            assert forall|k: int| 0 <= k < p.len() implies is_digit(#[trigger] p[k]) by {
                assert(p[k] == s[k]);
            }
        }
        lemma_digits_value_nonneg(p);
        assert(is_digit(s[s.len() - 1]));
    }
}


proof fn lemma_padded_prefix_step(x: Seq<char>, pad: int, i: int)
    requires
        all_digits(x),
        0 <= pad,
        0 <= i < pad + x.len(),
    ensures
        padded_prefix(x, pad, i + 1) == 10 * padded_prefix(x, pad, i) + (if i < pad {
            0
        } else {
            digit_value(x[i - pad])
        }),
        0 <= padded_prefix(x, pad, i),
        i >= pad ==> 0 <= digit_value(x[i - pad]) <= 9,
{
    if i >= pad {
        let t = x.take(i + 1 - pad);
        assert(t.drop_last() =~= x.take(i - pad));
        assert(t.last() == x[i - pad]);
        assert(is_digit(x[i - pad]));
        if i == pad {
            assert(x.take(0).len() == 0);
        }
        assert(all_digits(x.take(i - pad))) by {
            assert forall|k: int| 0 <= k < x.take(i - pad).len() implies is_digit(
                #[trigger] x.take(i - pad)[k],
            ) by {
                assert(x.take(i - pad)[k] == x[k]);
            }
        }
        lemma_digits_value_nonneg(x.take(i - pad));
    }
}

/// True where every character of `s` from `start` on is a decimal digit.
fn digits_from(s: &str, start: usize) -> (r: bool)
    requires
        start <= s@.len(),
    ensures
        r == all_digits(s@.skip(start as int)),
{
    let n = s.unicode_len();
    let mut i: usize = start;
    while i < n
        invariant
            n == s@.len(),
            start <= i <= n,
            forall|k: int| start <= k < i ==> is_digit(#[trigger] s@[k]),
        decreases n - i,
    {
        let c = s.get_char(i);
        if !('0' <= c && c <= '9') {
            proof {
                assert(s@.skip(start as int)[i - start] == c);
            }
            return false;
        }
        i = i + 1;
    }
    proof {
        assert forall|k: int| 0 <= k < s@.skip(start as int).len() implies is_digit(
            #[trigger] s@.skip(start as int)[k],
        ) by {
            assert(s@.skip(start as int)[k] == s@[start + k]);
        }
    }
    true
}

/// The value `-m` where `negative`, else `m`.
pub open spec fn signed(negative: bool, m: int) -> int {
    if negative {
        -m
    } else {
        m
    }
}

/// Splits an identifier into a sign and the position where its digits
/// start; an identifier that writes no number gets an empty run of digits.
fn split_sign(s: &str) -> (r: (bool, usize))
    ensures
        r.1 <= s@.len(),
        all_digits(s@.skip(r.1 as int)),
        id_key(s@) == signed(r.0, digits_value(s@.skip(r.1 as int))),
{
    let n = s.unicode_len();
    proof {
        assert(s@.skip(n as int).len() == 0);
    }
    if n == 0 {
        return (false, 0);
    }
    let first = s.get_char(0);
    if first == '+' || first == '-' {
        if n > 1 && digits_from(s, 1) {
            (first == '-', 1)
        } else {
            (false, n)
        }
    } else {
        proof {
            assert(s@.skip(0) =~= s@);
        }
        if digits_from(s, 0) {
            (false, 0)
        } else {
            (false, n)
        }
    }
}

/// Whether the digits of `a` from `sa` on write a number at most that of the
/// digits of `b` from `sb` on, and whether the two are equal; the runs of
/// digits may have any length.
fn compare_magnitudes(a: &str, sa: usize, b: &str, sb: usize) -> (r: (bool, bool))
    requires
        sa <= a@.len(),
        sb <= b@.len(),
        all_digits(a@.skip(sa as int)),
        all_digits(b@.skip(sb as int)),
    ensures
        r.0 == (digits_value(a@.skip(sa as int)) <= digits_value(b@.skip(sb as int))),
        r.1 == (digits_value(a@.skip(sa as int)) == digits_value(b@.skip(sb as int))),
{
    let ghost xa = a@.skip(sa as int);
    let ghost xb = b@.skip(sb as int);
    let a_len = a.unicode_len();
    let b_len = b.unicode_len();
    let la = a_len - sa;
    let lb = b_len - sb;
    let n = if la < lb { lb } else { la };
    let pad_a = n - la;
    let pad_b = n - lb;
    // -1: less so far, 0: equal so far, 1: greater so far
    let mut state: i8 = 0;
    let mut i: usize = 0;
    while i < n
        invariant
            xa == a@.skip(sa as int),
            xb == b@.skip(sb as int),
            all_digits(xa),
            all_digits(xb),
            la == xa.len(),
            lb == xb.len(),
            sa + la == a_len,
            sb + lb == b_len,
            a_len == a@.len(),
            b_len == b@.len(),
            n == pad_a + la,
            n == pad_b + lb,
            i <= n,
            state == -1 ==> padded_prefix(xa, pad_a as int, i as int) < padded_prefix(xb, pad_b as int, i as int),
            state == 0 ==> padded_prefix(xa, pad_a as int, i as int) == padded_prefix(xb, pad_b as int, i as int),
            state == 1 ==> padded_prefix(xa, pad_a as int, i as int) > padded_prefix(xb, pad_b as int, i as int),
            -1 <= state <= 1,
        decreases n - i,
    {
        proof {
            lemma_padded_prefix_step(xa, pad_a as int, i as int);
            lemma_padded_prefix_step(xb, pad_b as int, i as int);
        }
        if state == 0 {
            let ca = if i < pad_a { '0' } else { a.get_char(sa + (i - pad_a)) };
            let cb = if i < pad_b { '0' } else { b.get_char(sb + (i - pad_b)) };
            proof {
                if i >= pad_a {
                    assert(xa[i - pad_a] == ca);
                }
                if i >= pad_b {
                    assert(xb[i - pad_b] == cb);
                }
            }
            if ca < cb {
                state = -1;
            } else if ca > cb {
                state = 1;
            }
        }
        i = i + 1;
    }
    proof {
        assert(xa.take(n - pad_a) =~= xa);
        assert(xb.take(n - pad_b) =~= xb);
        if n == 0 {
            assert(xa.len() == 0 && xb.len() == 0);
        }
    }
    (state <= 0, state == 0)
}

proof fn lemma_digits_value_nonneg_skip(s: Seq<char>, start: int)
    requires
        0 <= start <= s.len(),
        all_digits(s.skip(start)),
    ensures
        digits_value(s.skip(start)) >= 0,
{
    lemma_digits_value_nonneg(s.skip(start));
}

/// Whether the key of identifier `a` is at most that of identifier `b`; the
/// numbers they write may have any number of digits.
pub fn id_key_le(a: &str, b: &str) -> (r: bool)
    ensures
        r == (id_key(a@) <= id_key(b@)),
{
    let (na, sa) = split_sign(a);
    let (nb, sb) = split_sign(b);
    proof {
        lemma_digits_value_nonneg_skip(a@, sa as int);
        lemma_digits_value_nonneg_skip(b@, sb as int);
    }
    if na {
        if nb {
            let (le, eq) = compare_magnitudes(a, sa, b, sb);
            !le || eq
        } else {
            true
        }
    } else if nb {
        let (a_le_zero, _) = compare_magnitudes(a, sa, a, a.unicode_len());
        let (b_le_zero, _) = compare_magnitudes(b, sb, b, b.unicode_len());
        proof {
            assert(a@.skip(a@.len() as int).len() == 0);
            assert(b@.skip(b@.len() as int).len() == 0);
        }
        a_le_zero && b_le_zero
    } else {
        let (le, _) = compare_magnitudes(a, sa, b, sb);
        le
    }
}

/// Orders rules by the numeric keys of their identifiers, ascending; rules
/// with equal keys keep their relative order.
pub fn sort_by_numeric_id(rules: Vec<Rule>) -> (r: Vec<Rule>)
    ensures
        sorted_by_id(rules_view(r@)),
        r@.to_multiset() == rules@.to_multiset(),
        exists|p: Seq<int>| stable_arrangement(rules@, r@, p),
{
    broadcast use vstd::multiset::group_multiset_axioms, vstd::seq_lib::group_to_multiset_ensures;

    let ghost all = rules@;
    let mut rest = rules;
    let mut out: Vec<Rule> = Vec::new();
    let ghost mut p: Seq<int> = Seq::empty();
    proof {
        assert(out@.to_multiset() =~= Multiset::empty());
        assert(out@.to_multiset().add(rest@.to_multiset()) =~= all.to_multiset());
    }
    while rest.len() > 0
        invariant
            sorted_by_id(rules_view(out@)),
            out@.to_multiset().add(rest@.to_multiset()) == all.to_multiset(),
            out.len() + rest.len() == all.len(),
            rest@ == all.skip(out.len() as int),
            p.len() == out.len(),
            forall|i: int| 0 <= i < out.len() ==> 0 <= #[trigger] p[i] < out.len() && out@[i] == all[p[i]],
            forall|i: int, j: int| 0 <= i < j < out.len() ==> #[trigger] p[i] != #[trigger] p[j],
            forall|i: int, j: int|
                0 <= i < j < out.len() && id_key(out@[i]@.id) == id_key(out@[j]@.id) ==> #[trigger] p[i]
                    < #[trigger] p[j],
        decreases rest.len(),
    {
        let ghost pre = rest@;
        let rule = rest.remove(0);
        let ghost k = id_key(rule@.id);
        let mut pos: usize = out.len();
        while pos > 0 && !id_key_le(out[pos - 1].id.as_str(), rule.id.as_str())
            invariant
                pos <= out.len(),
                sorted_by_id(rules_view(out@)),
                forall|j: int| pos <= j < out.len() ==> id_key(#[trigger] out@[j]@.id) > k,
                k == id_key(rule@.id),
            decreases pos,
        {
            proof {
                assert(out@[pos - 1]@.id == out[pos - 1].id@);
            }
            pos = pos - 1;
        }
        let ghost before = out@;
        let ghost removed = rest@;
        let ghost pb = p;
        let ghost c = before.len() as int;
        out.insert(pos, rule);
        proof {
            p = pb.insert(pos as int, c);
            assert(pre[0] == all[c]);
            assert(rest@ =~= all.skip(out.len() as int));
            assert forall|i: int| 0 <= i < out.len() implies 0 <= #[trigger] p[i] < out.len()
                && out@[i] == all[p[i]] by {
                if i > pos {
                    assert(p[i] == pb[i - 1]);
                }
            }
            assert forall|i: int, j: int| 0 <= i < j < out.len() implies #[trigger] p[i] != #[trigger] p[j] by {
                if i < pos && j > pos {
                    assert(p[j] == pb[j - 1]);
                } else if i > pos {
                    assert(p[i] == pb[i - 1]);
                    assert(p[j] == pb[j - 1]);
                } else if j == pos {
                    assert(pb[i] < c);
                } else if i == pos {
                    assert(pb[j - 1] < c);
                }
            }
            assert forall|i: int, j: int|
                0 <= i < j < out.len() && id_key(out@[i]@.id) == id_key(out@[j]@.id) implies #[trigger] p[i]
                    < #[trigger] p[j] by {
                if i < pos && j > pos {
                    assert(p[j] == pb[j - 1]);
                    assert(out@[j] == before[j - 1]);
                } else if i > pos {
                    assert(p[i] == pb[i - 1]);
                    assert(p[j] == pb[j - 1]);
                    assert(out@[i] == before[i - 1]);
                    assert(out@[j] == before[j - 1]);
                } else if j == pos {
                    assert(pb[i] < c);
                } else if i == pos {
                    assert(out@[j] == before[j - 1]);
                    assert(id_key(before[j - 1]@.id) > k);
                }
            }
            let v = rules_view(out@);
            let vb = rules_view(before);
            assert forall|i: int, j: int| 0 <= i < j < v.len() implies id_key(#[trigger] v[i].id)
                <= id_key(#[trigger] v[j].id) by {
                if i < pos {
                    assert(v[i] == vb[i]);
                    if j < pos {
                        assert(v[j] == vb[j]);
                    } else if j == pos {
                        if pos > 0 {
                            assert(vb[pos - 1] == v[pos - 1]);
                            assert(id_key(vb[i].id) <= id_key(vb[pos - 1].id) || i == pos - 1);
                        }
                    } else {
                        assert(v[j] == vb[j - 1]);
                    }
                } else if i == pos {
                    assert(v[j] == vb[j - 1]);
                    assert(id_key(before[j - 1]@.id) > k);
                } else {
                    assert(v[i] == vb[i - 1]);
                    assert(v[j] == vb[j - 1]);
                }
            }
            vstd::seq_lib::to_multiset_insert(before, pos as int, rule);
            assert(out@ == before.insert(pos as int, rule));
            assert(pre =~= removed.insert(0, rule));
            vstd::seq_lib::to_multiset_insert(removed, 0, rule);
            assert(out@.to_multiset().add(rest@.to_multiset()) =~= all.to_multiset());
        }
    }
    proof {
        assert(rest@ =~= Seq::<Rule>::empty());
        vstd::seq_lib::to_multiset_len(rest@);
        assert(rest@.to_multiset() =~= Multiset::empty());
        assert(stable_arrangement(all, out@, p));
    }
    out
}

} // verus!
