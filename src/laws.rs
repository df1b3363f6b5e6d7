use vstd::prelude::*;

use crate::catalog::VariableType;
use crate::engine::{
    canonical, decimal, digit_char, int_canonical, join, lemma_sorted_of, member_set, members,
    nat_decimal, parse_i32, pow1024, set_canonical, sorted_of, split_commas, strictly_sorted,
    reconciled, suffix_rank, trim_all,
};
use crate::text::{
    ascii_upper, ascii_upper_char, case_fold, is_ascii_chars, is_white, lemma_lex_irreflexive,
    lemma_lex_total,
    lemma_lex_transitive, lex_lt, trim, trim_end, trim_start,
};

verus! {

/// `m` with `e` put in its place, where `m` is ascending.
pub open spec fn sorted_insert(m: Seq<Seq<char>>, e: Seq<char>) -> Seq<Seq<char>>
    decreases m.len(),
{
    if m.len() == 0 {
        seq![e]
    } else if m[0] == e {
        m
    } else if lex_lt(e, m[0]) {
        seq![e] + m
    } else {
        seq![m[0]] + sorted_insert(m.drop_first(), e)
    }
}

proof fn lemma_sorted_insert(m: Seq<Seq<char>>, e: Seq<char>)
    requires
        strictly_sorted(m),
    ensures
        strictly_sorted(sorted_insert(m, e)),
        sorted_insert(m, e).to_set() == m.to_set().insert(e),
        forall|x: Seq<char>| #[trigger] sorted_insert(m, e).contains(x) ==> x == e || m.contains(x),
    decreases m.len(),
{
    let r = sorted_insert(m, e);
    if m.len() == 0 {
        assert(r.to_set() =~= m.to_set().insert(e)) by {
            assert forall|x| #[trigger] r.to_set().contains(x) <==> m.to_set().insert(e).contains(x) by {
                if r.contains(x) {
                    assert(r[0] == x);
                }
                if x == e {
                    assert(r[0] == e);
                }
            }
        }
    } else if m[0] == e {
        assert(m.to_set().contains(e));
        assert(m.to_set() =~= m.to_set().insert(e));
    } else if lex_lt(e, m[0]) {
        assert forall|i: int, j: int| 0 <= i < j < r.len() implies lex_lt(#[trigger] r[i], #[trigger] r[j]) by {
            if i == 0 {
                if j > 1 {
                    lemma_lex_transitive(e, m[0], m[j - 1]);
                }
            } else {
                assert(r[i] == m[i - 1] && r[j] == m[j - 1]);
            }
        }
        assert(r.to_set() =~= m.to_set().insert(e)) by {
            assert forall|x| #[trigger] r.to_set().contains(x) <==> m.to_set().insert(e).contains(x) by {
                if r.contains(x) {
                    let k = choose|k: int| 0 <= k < r.len() && r[k] == x;
                    if k > 0 {
                        assert(m[k - 1] == x);
                    }
                }
                if m.contains(x) {
                    let k = choose|k: int| 0 <= k < m.len() && m[k] == x;
                    assert(r[k + 1] == x);
                }
                if x == e {
                    assert(r[0] == e);
                }
            }
        }
    } else {
        lemma_lex_total(e, m[0]);
        let t = m.drop_first();
        assert forall|i: int, j: int| 0 <= i < j < t.len() implies lex_lt(#[trigger] t[i], #[trigger] t[j]) by {
            assert(t[i] == m[i + 1] && t[j] == m[j + 1]);
        }
        lemma_sorted_insert(t, e);
        let ti = sorted_insert(t, e);
        assert(r == seq![m[0]] + ti);
        assert forall|i: int, j: int| 0 <= i < j < r.len() implies lex_lt(#[trigger] r[i], #[trigger] r[j]) by {
            if i == 0 {
                assert(r[j] == ti[j - 1]);
                assert(ti.contains(ti[j - 1]));
                if ti[j - 1] != e {
                    assert(t.contains(ti[j - 1]));
                    let k = choose|k: int| 0 <= k < t.len() && t[k] == ti[j - 1];
                    assert(m[k + 1] == ti[j - 1]);
                }
            } else {
                assert(r[i] == ti[i - 1] && r[j] == ti[j - 1]);
            }
        }
        assert(r.to_set() =~= m.to_set().insert(e)) by {
            assert forall|x| #[trigger] r.to_set().contains(x) <==> m.to_set().insert(e).contains(x) by {
                if r.contains(x) {
                    let k = choose|k: int| 0 <= k < r.len() && r[k] == x;
                    if k > 0 {
                        assert(ti[k - 1] == x);
                        assert(ti.to_set().contains(x));
                        if x != e {
                            assert(t.to_set().contains(x));
                            let l = choose|l: int| 0 <= l < t.len() && t[l] == x;
                            assert(m[l + 1] == x);
                        }
                    } else {
                        assert(m[0] == x);
                    }
                }
                if m.contains(x) {
                    let k = choose|k: int| 0 <= k < m.len() && m[k] == x;
                    if k == 0 {
                        assert(r[0] == x);
                    } else {
                        assert(t[k - 1] == x);
                        assert(t.to_set().contains(x));
                        assert(ti.to_set().contains(x));
                        let l = choose|l: int| 0 <= l < ti.len() && ti[l] == x;
                        assert(r[l + 1] == x);
                    }
                }
                if x == e {
                    assert(ti.to_set().contains(e));
                    let l = choose|l: int| 0 <= l < ti.len() && ti[l] == e;
                    assert(r[l + 1] == e);
                }
            }
        }
        assert forall|x: Seq<char>| #[trigger] r.contains(x) implies x == e || m.contains(x) by {
            let k = choose|k: int| 0 <= k < r.len() && r[k] == x;
            if k > 0 {
                assert(ti[k - 1] == x);
                assert(ti.contains(x));
                if x != e {
                    let l = choose|l: int| 0 <= l < t.len() && t[l] == x;
                    assert(m[l + 1] == x);
                }
            } else {
                assert(m[0] == x);
            }
        }
    }
}

/// Every finite list of members has an ascending arrangement without repeats.
proof fn lemma_sorted_exists(x: Seq<Seq<char>>)
    ensures
        strictly_sorted(sorted_of(x.to_set())),
        sorted_of(x.to_set()).to_set() == x.to_set(),
    decreases x.len(),
{
    if x.len() == 0 {
        let e = Seq::<Seq<char>>::empty();
        assert(x =~= e);
        assert(strictly_sorted(e) && e.to_set() == x.to_set());
    } else {
        let d = x.drop_last();
        lemma_sorted_exists(d);
        let m = sorted_of(d.to_set());
        lemma_sorted_insert(m, x.last());
        assert(x =~= d.push(x.last()));
        d.lemma_push_to_set_commute(x.last());
        let w = sorted_insert(m, x.last());
        assert(strictly_sorted(w) && w.to_set() == x.to_set());
    }
}


/// ASCII, and no lowercase letter.
pub open spec fn is_upper_ascii(c: char) -> bool {
    (c as u32) < 128 && !(97 <= (c as u32) <= 122)
}

pub open spec fn all_upper_ascii(s: Seq<char>) -> bool {
    forall|i: int| 0 <= i < s.len() ==> is_upper_ascii(#[trigger] s[i])
}

pub open spec fn no_comma(s: Seq<char>) -> bool {
    forall|i: int| 0 <= i < s.len() ==> #[trigger] s[i] != ','
}

proof fn lemma_upper_fixed(s: Seq<char>)
    requires
        all_upper_ascii(s),
    ensures
        case_fold(s) == s,
{
    assert(is_ascii_chars(s));
    assert(ascii_upper(s) =~= s);
}

proof fn lemma_fold_upper(s: Seq<char>)
    requires
        is_ascii_chars(s),
    ensures
        all_upper_ascii(case_fold(s)),
{
    let u = ascii_upper(s);
    assert forall|i: int| 0 <= i < u.len() implies is_upper_ascii(#[trigger] u[i]) by {
        assert((s[i] as u32) < 128);
    }
}

proof fn lemma_split_len(s: Seq<char>)
    ensures
        split_commas(s).len() >= 1,
    decreases s.len(),
{
    if s.len() > 0 {
        lemma_split_len(s.drop_last());
    }
}

proof fn lemma_split_pieces(s: Seq<char>)
    requires
        all_upper_ascii(s),
    ensures
        forall|k: int|
            0 <= k < split_commas(s).len() ==> all_upper_ascii(#[trigger] split_commas(s)[k])
                && no_comma(split_commas(s)[k]),
    decreases s.len(),
{
    if s.len() > 0 {
        let d = s.drop_last();
        lemma_split_pieces(d);
        lemma_split_len(d);
        let p = split_commas(d);
        assert forall|k: int| 0 <= k < split_commas(s).len() implies all_upper_ascii(
            #[trigger] split_commas(s)[k],
        ) && no_comma(split_commas(s)[k]) by {
            if k < p.len() - 1 || (k == p.len() - 1 && s.last() == ',') {
                assert(split_commas(s)[k] == p[k]);
            } else if k == p.len() {
                assert(split_commas(s)[k] =~= Seq::<char>::empty());
            } else {
                let q = p.last().push(s.last());
                assert(split_commas(s)[k] == q);
                assert(is_upper_ascii(s[s.len() - 1]));
                assert forall|j: int| 0 <= j < q.len() implies is_upper_ascii(#[trigger] q[j]) && q[j] != ',' by {
                    if j < q.len() - 1 {
                        assert(q[j] == p[p.len() - 1][j]);
                    }
                }
            }
        }
    }
}

proof fn lemma_split_append(x: Seq<char>, y: Seq<char>)
    requires
        no_comma(y),
    ensures
        split_commas(x + y) == split_commas(x).update(
            split_commas(x).len() - 1,
            split_commas(x).last() + y,
        ),
    decreases y.len(),
{
    lemma_split_len(x);
    if y.len() == 0 {
        assert(x + y =~= x);
        assert(split_commas(x).last() + y =~= split_commas(x).last());
        assert(split_commas(x).update(split_commas(x).len() - 1, split_commas(x).last()) =~= split_commas(x));
    } else {
        let yd = y.drop_last();
        lemma_split_append(x, yd);
        assert((x + y).drop_last() =~= x + yd);
        assert((x + y).last() == y.last());
        assert(y.last() != ',');
        let p = split_commas(x);
        assert(split_commas(x + y) =~= p.update(p.len() - 1, p.last() + y)) by {
            assert((p.last() + yd).push(y.last()) =~= p.last() + y);
        }
    }
}

proof fn lemma_split_join(m: Seq<Seq<char>>)
    requires
        m.len() >= 1,
        forall|k: int| 0 <= k < m.len() ==> no_comma(#[trigger] m[k]),
    ensures
        split_commas(join(m)) == m,
    decreases m.len(),
{
    if m.len() == 1 {
        let e = Seq::<char>::empty();
        lemma_split_append(e, m[0]);
        assert(e + m[0] =~= m[0]);
        assert(split_commas(e) =~= seq![e]);
        assert(e + m[0] =~= m[0]);
        assert(split_commas(m[0]) =~= m);
    } else {
        let d = m.drop_last();
        lemma_split_join(d);
        let x = join(d) + seq![','];
        assert(x.drop_last() =~= join(d));
        assert(split_commas(x) == d.push(Seq::<char>::empty()));
        lemma_split_append(x, m.last());
        assert(Seq::<char>::empty() + m.last() =~= m.last());
        assert(split_commas(join(m)) =~= m);
    }
}

proof fn lemma_join_upper(m: Seq<Seq<char>>)
    requires
        forall|k: int| 0 <= k < m.len() ==> all_upper_ascii(#[trigger] m[k]),
    ensures
        all_upper_ascii(join(m)),
    decreases m.len(),
{
    if m.len() >= 2 {
        lemma_join_upper(m.drop_last());
        let j = join(m);
        let a = join(m.drop_last());
        assert forall|i: int| 0 <= i < j.len() implies is_upper_ascii(#[trigger] j[i]) by {
            if i < a.len() {
                assert(j[i] == a[i]);
            } else if i > a.len() {
                assert(j[i] == m.last()[i - a.len() - 1]);
            }
        }
    } else if m.len() == 1 {
        assert(all_upper_ascii(m[0]));
    }
}

proof fn lemma_trim_start_is_suffix(s: Seq<char>)
    ensures
        exists|k: int| 0 <= k <= s.len() && trim_start(s) == s.subrange(k, s.len() as int),
        trim_start(s).len() > 0 ==> !is_white(trim_start(s)[0]),
    decreases s.len(),
{
    if s.len() > 0 && is_white(s[0]) {
        lemma_trim_start_is_suffix(s.drop_first());
        let k = choose|k: int| 0 <= k <= s.drop_first().len() && trim_start(s.drop_first()) == s.drop_first().subrange(k, s.drop_first().len() as int);
        assert(s.drop_first().subrange(k, s.drop_first().len() as int) =~= s.subrange(k + 1, s.len() as int));
    } else {
        assert(s.subrange(0, s.len() as int) =~= s);
    }
}

proof fn lemma_trim_end_is_prefix(s: Seq<char>)
    ensures
        exists|k: int| 0 <= k <= s.len() && trim_end(s) == s.subrange(0, k),
        trim_end(s).len() > 0 ==> !is_white(trim_end(s).last()),
    decreases s.len(),
{
    if s.len() > 0 && is_white(s.last()) {
        lemma_trim_end_is_prefix(s.drop_last());
        let k = choose|k: int| 0 <= k <= s.drop_last().len() && trim_end(s.drop_last()) == s.drop_last().subrange(0, k);
        assert(s.drop_last().subrange(0, k) =~= s.subrange(0, k));
    } else {
        assert(s.subrange(0, s.len() as int) =~= s);
    }
}

proof fn lemma_trim_keeps(s: Seq<char>)
    requires
        all_upper_ascii(s),
        no_comma(s),
    ensures
        all_upper_ascii(trim(s)),
        no_comma(trim(s)),
        trim(trim(s)) == trim(s),
{
    lemma_trim_start_is_suffix(s);
    let a = trim_start(s);
    let k1 = choose|k: int| 0 <= k <= s.len() && trim_start(s) == s.subrange(k, s.len() as int);
    lemma_trim_end_is_prefix(a);
    let b = trim_end(a);
    let k2 = choose|k: int| 0 <= k <= a.len() && trim_end(a) == a.subrange(0, k);
    assert forall|i: int| 0 <= i < b.len() implies is_upper_ascii(#[trigger] b[i]) && b[i] != ',' by {
        assert(b[i] == a[i]);
        assert(a[i] == s[i + k1]);
    }
    // b starts with a's first character, so no whitespace leads it
    if b.len() > 0 {
        assert(b[0] == a[0]);
    }
    assert(trim_start(b) == b);
    lemma_trim_end_is_prefix(b);
    assert(trim_end(b) == b);
}

/// Every finite list of members, less one value, has an ascending
/// arrangement without repeats.
proof fn lemma_sorted_exists_without(x: Seq<Seq<char>>, e: Seq<char>)
    ensures
        strictly_sorted(sorted_of(x.to_set().remove(e))),
        sorted_of(x.to_set().remove(e)).to_set() == x.to_set().remove(e),
{
    lemma_sorted_exists(x);
    let m = sorted_of(x.to_set());
    let st = x.to_set().remove(e);
    if m.contains(e) {
        let i = choose|i: int| 0 <= i < m.len() && m[i] == e;
        let w = m.remove(i);
        assert forall|p: int, q: int| 0 <= p < q < w.len() implies lex_lt(#[trigger] w[p], #[trigger] w[q]) by {
            let p1 = if p < i { p } else { p + 1 };
            let q1 = if q < i { q } else { q + 1 };
            assert(w[p] == m[p1] && w[q] == m[q1]);
        }
        assert(w.to_set() =~= st) by {
            assert forall|y: Seq<char>| #[trigger] w.to_set().contains(y) implies st.contains(y) by {
                assert(w.contains(y));
                let k = choose|k: int| 0 <= k < w.len() && w[k] == y;
                let k1 = if k < i { k } else { k + 1 };
                assert(m[k1] == y);
                assert(m.to_set().contains(y));
                if y == e {
                    if k1 < i {
                        assert(lex_lt(m[k1], m[i]));
                    } else {
                        assert(lex_lt(m[i], m[k1]));
                    }
                    lemma_lex_irreflexive(y);
                }
            }
            assert forall|y: Seq<char>| #[trigger] st.contains(y) implies w.to_set().contains(y) by {
                assert(m.to_set().contains(y));
                assert(m.contains(y));
                let k = choose|k: int| 0 <= k < m.len() && m[k] == y;
                if k < i {
                    assert(w[k] == y);
                } else {
                    assert(w[k - 1] == y);
                }
            }
        }
        assert(strictly_sorted(w) && w.to_set() == st);
    } else {
        assert(m.to_set() =~= st) by {
            assert forall|y: Seq<char>| #[trigger] m.to_set().contains(y) implies y != e by {
                assert(m.contains(y));
            }
        }
        assert(strictly_sorted(m) && m.to_set() == st);
    }
}

/// A canonical set value of upper-case ASCII text is its own canonical form.
proof fn lemma_set_canonical_fixed(u: Seq<char>)
    requires
        all_upper_ascii(u),
    ensures
        all_upper_ascii(set_canonical(u)),
        set_canonical(set_canonical(u)) == set_canonical(u),
{
    let e = Seq::<char>::empty();
    let pieces = members(u);
    lemma_split_pieces(u);
    lemma_split_len(u);
    assert forall|k: int| 0 <= k < pieces.len() implies all_upper_ascii(#[trigger] pieces[k]) && no_comma(pieces[k]) by {
        assert(pieces[k] == split_commas(u)[k]);
    }
    let t = trim_all(pieces);
    lemma_sorted_exists_without(t, e);
    let m = sorted_of(member_set(u));
    assert forall|k: int| 0 <= k < m.len() implies all_upper_ascii(#[trigger] m[k]) && no_comma(m[k])
        && trim(m[k]) == m[k] && m[k].len() > 0 by {
        assert(m.to_set().contains(m[k]));
        assert(t.to_set().contains(m[k]));
        assert(m[k] != e);
        if m[k].len() == 0 {
            assert(m[k] =~= e);
        }
        assert(t.contains(m[k]));
        let j = choose|j: int| 0 <= j < t.len() && t[j] == m[k];
        lemma_trim_keeps(pieces[j]);
    }
    lemma_join_upper(m);
    let c = join(m);
    if m.len() == 0 {
        assert(c =~= e);
        assert(split_commas(c) =~= seq![e]);
        assert(members(c) =~= m);
        assert(trim_all(m) =~= m);
        assert(m.to_set().remove(e) =~= m.to_set());
    } else {
        lemma_split_join(m);
        assert(members(c) == m);
        assert(trim_all(m) =~= m);
        assert(m.to_set().remove(e) =~= m.to_set()) by {
            assert forall|y: Seq<char>| #[trigger] m.to_set().contains(y) implies y != e by {
                assert(m.contains(y));
            }
        }
    }
    lemma_sorted_of(m);
}

proof fn lemma_nat_decimal(n: nat)
    ensures
        all_upper_ascii(nat_decimal(n)),
        nat_decimal(n).len() > 0,
        suffix_rank(nat_decimal(n).last()) is None,
    decreases n,
{
    let d = (n % 10) as nat;
    let c = digit_char(d);
    assert((c as u32) == 48 + d);
    if n >= 10 {
        lemma_nat_decimal(n / 10);
        let r = nat_decimal(n);
        let a = nat_decimal(n / 10);
        assert forall|i: int| 0 <= i < r.len() implies is_upper_ascii(#[trigger] r[i]) by {
            if i < a.len() {
                assert(r[i] == a[i]);
            }
        }
    }
}

proof fn lemma_int_canonical_fixed(u: Seq<char>)
    requires
        all_upper_ascii(u),
    ensures
        case_fold(int_canonical(u)) == int_canonical(u),
        int_canonical(int_canonical(u)) == int_canonical(u),
{
    lemma_upper_fixed(u);
    if int_canonical(u) != u {
        let k = suffix_rank(u.last())->0;
        let n = parse_i32(u.drop_last())->0 * pow1024(k + 1);
        let r = decimal(n);
        if n < 0 {
            lemma_nat_decimal((-n) as nat);
            let a = nat_decimal((-n) as nat);
            assert forall|i: int| 0 <= i < r.len() implies is_upper_ascii(#[trigger] r[i]) by {
                if i > 0 {
                    assert(r[i] == a[i - 1]);
                }
            }
            assert(r.last() == a.last());
        } else {
            lemma_nat_decimal(n as nat);
        }
        lemma_upper_fixed(r);
    }
}


proof fn lemma_split_fold(s: Seq<char>)
    requires
        is_ascii_chars(s),
    ensures
        split_commas(ascii_upper(s)) == split_commas(s).map_values(|p: Seq<char>| ascii_upper(p)),
    decreases s.len(),
{
    lemma_split_len(s);
    if s.len() > 0 {
        let d = s.drop_last();
        lemma_split_fold(d);
        lemma_split_len(d);
        let u = ascii_upper(s);
        assert(u.drop_last() =~= ascii_upper(d));
        assert(u.last() == ascii_upper_char(s.last()));
        assert((u.last() == ',') == (s.last() == ','));
        let p = split_commas(d);
        if s.last() == ',' {
            assert(ascii_upper(Seq::<char>::empty()) =~= Seq::<char>::empty());
            assert(split_commas(u) =~= split_commas(s).map_values(|p: Seq<char>| ascii_upper(p)));
        } else {
            assert(ascii_upper(p.last().push(s.last())) =~= ascii_upper(p.last()).push(u.last()));
            assert(split_commas(u) =~= split_commas(s).map_values(|p: Seq<char>| ascii_upper(p)));
        }
    } else {
        assert(ascii_upper(s) =~= s);
        assert(ascii_upper(Seq::<char>::empty()) =~= Seq::<char>::empty());
        assert(split_commas(s).map_values(|p: Seq<char>| ascii_upper(p)) =~= split_commas(s));
    }
}

proof fn lemma_white_fold(c: char)
    ensures
        is_white(ascii_upper_char(c)) == is_white(c),
{
}

proof fn lemma_trim_start_fold(s: Seq<char>)
    ensures
        trim_start(ascii_upper(s)) == ascii_upper(trim_start(s)),
    decreases s.len(),
{
    if s.len() > 0 {
        lemma_white_fold(s[0]);
        assert(ascii_upper(s).drop_first() =~= ascii_upper(s.drop_first()));
        lemma_trim_start_fold(s.drop_first());
    }
}

proof fn lemma_trim_end_fold(s: Seq<char>)
    ensures
        trim_end(ascii_upper(s)) == ascii_upper(trim_end(s)),
    decreases s.len(),
{
    if s.len() > 0 {
        lemma_white_fold(s.last());
        assert(ascii_upper(s).drop_last() =~= ascii_upper(s.drop_last()));
        lemma_trim_end_fold(s.drop_last());
    }
}

/// The trimmed members of an ASCII set value, case-folded, are those of the
/// case-folded value.
proof fn lemma_member_set_fold(s: Seq<char>)
    requires
        is_ascii_chars(s),
    ensures
        member_set(ascii_upper(s)) == member_set(s).map(|p: Seq<char>| ascii_upper(p)),
{
    lemma_split_fold(s);
    lemma_split_len(s);
    let ps = split_commas(s);
    let pu = split_commas(ascii_upper(s));
    assert((pu.last().len() == 0) == (ps.last().len() == 0));
    let ms = members(s);
    let mu = members(ascii_upper(s));
    assert(mu =~= ms.map_values(|p: Seq<char>| ascii_upper(p)));
    let ts = trim_all(ms);
    let tu = trim_all(mu);
    assert forall|i: int| 0 <= i < ms.len() implies #[trigger] tu[i] == ascii_upper(ts[i]) by {
        lemma_trim_start_fold(ms[i]);
        lemma_trim_end_fold(trim_start(ms[i]));
    }
    let f = |p: Seq<char>| ascii_upper(p);
    let e = Seq::<char>::empty();
    let su = tu.to_set().remove(e);
    let ss = ts.to_set().remove(e);
    assert(member_set(ascii_upper(s)) =~= member_set(s).map(f)) by {
        assert forall|x: Seq<char>| #[trigger] su.contains(x) implies ss.map(f).contains(x) by {
            assert(tu.contains(x));
            let i = choose|i: int| 0 <= i < tu.len() && tu[i] == x;
            assert(ts.to_set().contains(ts[i]));
            assert(tu[i] == ascii_upper(ts[i]));
            assert(ts[i].len() == x.len());
            if ts[i].len() == 0 {
                assert(x =~= e);
            }
            assert(ts[i] != e);
            assert(ss.contains(ts[i]));
        }
        assert forall|x: Seq<char>| #[trigger] ss.map(f).contains(x) implies su.contains(x) by {
            let y = choose|y: Seq<char>| ss.contains(y) && f(y) == x;
            assert(ts.contains(y));
            let i = choose|i: int| 0 <= i < ts.len() && ts[i] == y;
            assert(tu[i] == x);
            assert(x.len() == y.len());
            if x.len() == 0 {
                assert(y =~= e);
            }
            assert(x != e);
        }
    }
}

/// Reconciling twice: once the canonical desired value that reconciling
/// returned is in effect, reconciling the same desired value again asks for
/// no change. Shown for desired values of ASCII text, and for every value of
/// the kinds that keep case.
pub proof fn lemma_apply_is_stable(t: VariableType, desired: Seq<char>, observed: Seq<char>)
    requires
        is_ascii_chars(desired) || t == VariableType::String || t == VariableType::File || t
            == VariableType::Directory || t == VariableType::Bitmap || t == VariableType::Boolean,
    ensures
        reconciled(t, desired, observed) is Some ==> reconciled(
            t,
            desired,
            reconciled(t, desired, observed)->0,
        ) is None,
{
    lemma_canonical_idempotent(t, desired);
}

/// Normalizing a canonical value again changes nothing (for ASCII text, and
/// for every value of the kinds that keep case).
pub proof fn lemma_canonical_idempotent(t: VariableType, v: Seq<char>)
    requires
        is_ascii_chars(v) || t == VariableType::String || t == VariableType::File || t
            == VariableType::Directory || t == VariableType::Bitmap || t == VariableType::Boolean,
    ensures
        canonical(t, canonical(t, v)) == canonical(t, v),
{
    match t {
        VariableType::Boolean => {
            lemma_bool_normalize_idempotent(v);
        },
        VariableType::Numeric | VariableType::Enum => {
            lemma_fold_upper(v);
            lemma_upper_fixed(case_fold(v));
        },
        VariableType::MemberSet => {
            lemma_fold_upper(v);
            lemma_set_canonical_fixed(case_fold(v));
            lemma_upper_fixed(set_canonical(case_fold(v)));
        },
        VariableType::Integer => {
            lemma_fold_upper(v);
            lemma_int_canonical_fixed(case_fold(v));
        },
        _ => {},
    }
}

/// Normalizing a boolean value a second time changes nothing.
pub proof fn lemma_bool_normalize_idempotent(v: Seq<char>)
    ensures
        canonical(VariableType::Boolean, canonical(VariableType::Boolean, v)) == canonical(
            VariableType::Boolean,
            v,
        ),
{
    let on = seq!['O', 'N'];
    let off = seq!['O', 'F', 'F'];
    assert(is_ascii_chars(on));
    assert(is_ascii_chars(off));
    assert(ascii_upper(on) =~= on);
    assert(ascii_upper(off) =~= off);
}

/// The empty set value normalizes to the empty string, not to one empty
/// member.
pub proof fn lemma_empty_set_value(v: Seq<char>)
    requires
        v.len() == 0,
    ensures
        canonical(VariableType::MemberSet, v).len() == 0,
{
    assert(is_ascii_chars(v));
    assert(ascii_upper(v) =~= v);
    assert(split_commas(v) =~= seq![Seq::<char>::empty()]);
    assert(members(v) =~= Seq::<Seq<char>>::empty());
    assert(trim_all(members(v)) =~= Seq::<Seq<char>>::empty());
    let e = Seq::<Seq<char>>::empty();
    assert(e.to_set() =~= Set::empty());
    assert(member_set(v) =~= Set::empty());
    lemma_sorted_of(e);
}

/// For set variables, two ASCII values whose trimmed members form the same
/// set have the same canonical form: the order, repetition and surrounding
/// whitespace of members do not count.
pub proof fn lemma_set_members_decide(a: Seq<char>, b: Seq<char>)
    requires
        is_ascii_chars(a),
        is_ascii_chars(b),
        member_set(a) == member_set(b),
    ensures
        canonical(VariableType::MemberSet, a) == canonical(VariableType::MemberSet, b),
{
    lemma_member_set_fold(a);
    lemma_member_set_fold(b);
}

} // verus!
