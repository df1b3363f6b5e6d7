use vstd::prelude::*;

use crate::catalog::{Catalog, VariableDefinition, VariableType};
use crate::text::{
    case_fold, chars_of, compare_chars, fold_case, lemma_lex_irreflexive, lemma_lex_transitive,
    lex_lt, string_of, trim, trimmed_copy,
};

verus! {

// ---------- Boolean ----------

/// Canonical form of an uppercased boolean value: the truthy spellings become
/// `ON`, everything else `OFF`.
pub open spec fn bool_canonical(u: Seq<char>) -> Seq<char> {
    if u == seq!['Y', 'E', 'S'] || u == seq!['T', 'R', 'U', 'E'] || u == seq!['1'] || u == seq![
        'O',
        'N',
    ] {
        seq!['O', 'N']
    } else {
        seq!['O', 'F', 'F']
    }
}

// ---------- Integer ----------

/// Position of a magnitude suffix in `K M G T P E`.
pub open spec fn suffix_rank(c: char) -> Option<nat> {
    if c == 'K' {
        Some(0)
    } else if c == 'M' {
        Some(1)
    } else if c == 'G' {
        Some(2)
    } else if c == 'T' {
        Some(3)
    } else if c == 'P' {
        Some(4)
    } else if c == 'E' {
        Some(5)
    } else {
        None
    }
}

pub open spec fn is_digit(c: char) -> bool {
    '0' <= c <= '9'
}

pub open spec fn all_digits(s: Seq<char>) -> bool {
    s.len() > 0 && forall|i: int| 0 <= i < s.len() ==> is_digit(#[trigger] s[i])
}

pub open spec fn digits_value(s: Seq<char>) -> nat
    decreases s.len(),
{
    if s.len() == 0 {
        0
    } else {
        digits_value(s.drop_last()) * 10 + ((s.last() as u32) - 48) as nat
    }
}

/// A 32-bit signed decimal: an optional `+` or `-`, then one or more digits,
/// within `i32`'s range.
pub open spec fn parse_i32(s: Seq<char>) -> Option<int> {
    if s.len() > 0 && s[0] == '-' {
        if all_digits(s.drop_first()) && digits_value(s.drop_first()) <= 2147483648 {
            Some(-(digits_value(s.drop_first()) as int))
        } else {
            None
        }
    } else if s.len() > 0 && s[0] == '+' {
        if all_digits(s.drop_first()) && digits_value(s.drop_first()) <= 2147483647 {
            Some(digits_value(s.drop_first()) as int)
        } else {
            None
        }
    } else if all_digits(s) && digits_value(s) <= 2147483647 {
        Some(digits_value(s) as int)
    } else {
        None
    }
}

pub open spec fn pow1024(k: nat) -> int
    decreases k,
{
    if k == 0 {
        1
    } else {
        1024 * pow1024((k - 1) as nat)
    }
}

pub open spec fn digit_char(d: nat) -> char {
    ((48 + d) as u8) as char
}

pub open spec fn nat_decimal(n: nat) -> Seq<char>
    decreases n,
{
    if n < 10 {
        seq![digit_char(n)]
    } else {
        nat_decimal(n / 10).push(digit_char(n % 10))
    }
}

/// Decimal text of an integer, with a leading `-` when it is negative.
pub open spec fn decimal(n: int) -> Seq<char> {
    if n < 0 {
        seq!['-'] + nat_decimal((-n) as nat)
    } else {
        nat_decimal(n as nat)
    }
}

/// Canonical form of an uppercased integer value: a 32-bit number followed by
/// a magnitude suffix becomes the plain product, computed exactly; anything
/// else is kept as it is.
pub open spec fn int_canonical(u: Seq<char>) -> Seq<char> {
    if u.len() == 0 {
        u
    } else {
        match suffix_rank(u.last()) {
            None => u,
            Some(k) => match parse_i32(u.drop_last()) {
                None => u,
                Some(n) => decimal(n * pow1024(k + 1)),
            },
        }
    }
}

// ---------- Set ----------

/// The pieces between commas, as `str::split` gives them.
pub open spec fn split_commas(s: Seq<char>) -> Seq<Seq<char>>
    decreases s.len(),
{
    if s.len() == 0 {
        seq![Seq::empty()]
    } else {
        let p = split_commas(s.drop_last());
        if s.last() == ',' {
            p.push(Seq::empty())
        } else {
            p.update(p.len() - 1, p.last().push(s.last()))
        }
    }
}

/// The pieces between commas, without a final empty one (`str::split_terminator`).
pub open spec fn members(s: Seq<char>) -> Seq<Seq<char>> {
    let p = split_commas(s);
    if p.last().len() == 0 {
        p.drop_last()
    } else {
        p
    }
}

pub open spec fn trim_all(m: Seq<Seq<char>>) -> Seq<Seq<char>> {
    m.map_values(|x: Seq<char>| trim(x))
}

/// The distinct trimmed members of a set value, leaving out the empty one.
pub open spec fn member_set(s: Seq<char>) -> Set<Seq<char>> {
    trim_all(members(s)).to_set().remove(Seq::empty())
}

pub open spec fn strictly_sorted(m: Seq<Seq<char>>) -> bool {
    forall|i: int, j: int| 0 <= i < j < m.len() ==> lex_lt(#[trigger] m[i], #[trigger] m[j])
}

/// The members of a finite set in ascending order, each once.
pub open spec fn sorted_of(st: Set<Seq<char>>) -> Seq<Seq<char>> {
    choose|m: Seq<Seq<char>>| strictly_sorted(m) && m.to_set() == st
}

/// The members joined with single commas.
pub open spec fn join(m: Seq<Seq<char>>) -> Seq<char>
    decreases m.len(),
{
    if m.len() == 0 {
        Seq::empty()
    } else if m.len() == 1 {
        m[0]
    } else {
        join(m.drop_last()) + seq![','] + m.last()
    }
}

/// Canonical form of an uppercased set value.
pub open spec fn set_canonical(u: Seq<char>) -> Seq<char> {
    join(sorted_of(member_set(u)))
}


fn chars_equal(a: &Vec<char>, b: &Vec<char>) -> (r: bool)
    ensures
        r == (a@ == b@),
{
    let c = compare_chars(a, b);
    proof {
        lemma_lex_irreflexive(a@);
    }
    c == 0
}

fn bool_canonical_exec(u: &Vec<char>) -> (r: Vec<char>)
    ensures
        r@ == bool_canonical(u@),
{
    let yes = vec!['Y', 'E', 'S'];
    let tru = vec!['T', 'R', 'U', 'E'];
    let one = vec!['1'];
    let on = vec!['O', 'N'];
    assert(yes@ =~= seq!['Y', 'E', 'S']);
    assert(tru@ =~= seq!['T', 'R', 'U', 'E']);
    assert(one@ =~= seq!['1']);
    assert(on@ =~= seq!['O', 'N']);
    if chars_equal(u, &yes) || chars_equal(u, &tru) || chars_equal(u, &one) || chars_equal(u, &on) {
        on
    } else {
        let off = vec!['O', 'F', 'F'];
        assert(off@ =~= seq!['O', 'F', 'F']);
        off
    }
}

fn suffix_rank_exec(c: char) -> (r: Option<u32>)
    ensures
        r is Some <==> suffix_rank(c) is Some,
        r is Some ==> r->0 as nat == suffix_rank(c)->0,
{
    if c == 'K' {
        Some(0)
    } else if c == 'M' {
        Some(1)
    } else if c == 'G' {
        Some(2)
    } else if c == 'T' {
        Some(3)
    } else if c == 'P' {
        Some(4)
    } else if c == 'E' {
        Some(5)
    } else {
        None
    }
}

proof fn lemma_digits_value_grows(s: Seq<char>, i: int)
    requires
        0 <= i <= s.len(),
    ensures
        digits_value(s.subrange(0, i)) <= digits_value(s),
    decreases s.len() - i,
{
    if i < s.len() {
        lemma_digits_value_grows(s, i + 1);
        assert(s.subrange(0, i + 1).drop_last() =~= s.subrange(0, i));
    } else {
        assert(s.subrange(0, i) =~= s);
    }
}

/// The value of the digits of `s` from `start` on, where they are all digits
/// and the value is at most `bound`.
pub(crate) fn digits_upto(s: &Vec<char>, start: usize, bound: u64) -> (r: Option<u64>)
    requires
        start <= s@.len(),
        bound <= 2147483648,
    ensures
        r is Some <==> (all_digits(s@.subrange(start as int, s@.len() as int)) && digits_value(
            s@.subrange(start as int, s@.len() as int),
        ) <= bound),
        r is Some ==> r->0 == digits_value(s@.subrange(start as int, s@.len() as int)),
{
    let ghost t = s@.subrange(start as int, s@.len() as int);
    if start == s.len() {
        return None;
    }
    let mut acc: u64 = 0;
    let mut i: usize = start;
    while i < s.len()
        invariant
            start <= i <= s@.len(),
            t == s@.subrange(start as int, s@.len() as int),
            acc <= bound <= 2147483648,
            acc == digits_value(t.subrange(0, i - start)),
            forall|j: int| 0 <= j < i - start ==> is_digit(#[trigger] t[j]),
        decreases s@.len() - i,
    {
        let c = s[i];
        if !('0' <= c && c <= '9') {
            assert(!is_digit(t[i - start]));
            return None;
        }
        assert(t.subrange(0, i + 1 - start).drop_last() =~= t.subrange(0, i - start));
        let next = acc * 10 + ((c as u32) - 48) as u64;
        if next > bound {
            proof {
                lemma_digits_value_grows(t, i + 1 - start);
            }
            return None;
        }
        acc = next;
        i = i + 1;
    }
    assert(t.subrange(0, i - start) =~= t);
    Some(acc)
}

fn parse_i32_exec(s: &Vec<char>) -> (r: Option<i64>)
    ensures
        r is Some <==> parse_i32(s@) is Some,
        r is Some ==> r->0 as int == parse_i32(s@)->0,
{
    if s.len() > 0 && s[0] == '-' {
        assert(s@.subrange(1, s@.len() as int) =~= s@.drop_first());
        match digits_upto(s, 1, 2147483648) {
            Some(v) => Some(-(v as i64)),
            None => None,
        }
    } else if s.len() > 0 && s[0] == '+' {
        assert(s@.subrange(1, s@.len() as int) =~= s@.drop_first());
        match digits_upto(s, 1, 2147483647) {
            Some(v) => Some(v as i64),
            None => None,
        }
    } else {
        assert(s@.subrange(0, s@.len() as int) =~= s@);
        match digits_upto(s, 0, 2147483647) {
            Some(v) => Some(v as i64),
            None => None,
        }
    }
}

fn pow1024_exec(k: u32) -> (r: i128)
    requires
        1 <= k <= 6,
    ensures
        r == pow1024(k as nat),
        0 < r <= 0x1000000000000000,
{
    reveal_with_fuel(pow1024, 7);
    if k == 1 {
        0x400
    } else if k == 2 {
        0x100000
    } else if k == 3 {
        0x40000000
    } else if k == 4 {
        0x10000000000
    } else if k == 5 {
        0x4000000000000
    } else {
        0x1000000000000000
    }
}

fn push_nat_decimal(x: u128, out: &mut Vec<char>)
    ensures
        final(out)@ == old(out)@ + nat_decimal(x as nat),
    decreases x,
{
    if x >= 10 {
        push_nat_decimal(x / 10, out);
    }
    out.push(((48 + x % 10) as u8) as char);
    assert(final(out)@ =~= old(out)@ + nat_decimal(x as nat));
}

fn decimal_exec(n: i128) -> (r: Vec<char>)
    requires
        n > i128::MIN,
    ensures
        r@ == decimal(n as int),
{
    let mut out: Vec<char> = Vec::new();
    if n < 0 {
        out.push('-');
        push_nat_decimal((-n) as u128, &mut out);
    } else {
        push_nat_decimal(n as u128, &mut out);
    }
    assert(out@ =~= decimal(n as int));
    out
}

fn int_canonical_exec(u: &Vec<char>) -> (r: Vec<char>)
    ensures
        r@ == int_canonical(u@),
{
    if u.len() == 0 {
        return u.clone();
    }
    match suffix_rank_exec(u[u.len() - 1]) {
        None => u.clone(),
        Some(k) => {
            let mut head: Vec<char> = Vec::new();
            let mut i: usize = 0;
            while i < u.len() - 1
                invariant
                    u@.len() > 0,
                    i < u@.len(),
                    head@ == u@.subrange(0, i as int),
                decreases u@.len() - i,
            {
                head.push(u[i]);
                assert(head@ =~= u@.subrange(0, i + 1));
                i = i + 1;
            }
            assert(head@ =~= u@.drop_last());
            match parse_i32_exec(&head) {
                None => u.clone(),
                Some(n) => {
                    let p = pow1024_exec(k + 1);
                    assert(-2147483648 <= n <= 2147483647);
                    assert(-(0x80000000 as int) * (0x1000000000000000 as int) <= (n as int) * (
                    p as int) <= (0x80000000 as int) * (0x1000000000000000 as int))
                        by (nonlinear_arith)
                        requires
                            -2147483648 <= n <= 2147483647,
                            0 < p <= 0x1000000000000000,
                    ;
                    decimal_exec((n as i128) * p)
                },
            }
        },
    }
}


pub open spec fn views(v: Seq<Vec<char>>) -> Seq<Seq<char>> {
    v.map_values(|x: Vec<char>| x@)
}

/// Two ascending sequences without repeats that hold the same members are equal.
pub proof fn lemma_sorted_unique(a: Seq<Seq<char>>, b: Seq<Seq<char>>)
    requires
        strictly_sorted(a),
        strictly_sorted(b),
        a.to_set() == b.to_set(),
    ensures
        a == b,
    decreases a.len(),
{
    if a.len() == 0 {
        if b.len() > 0 {
            assert(a.to_set().contains(b[0]));
        }
        assert(a =~= b);
    } else {
        assert(b.to_set().contains(a[0]));
        assert(b.contains(a[0]));
        let j = choose|j: int| 0 <= j < b.len() && b[j] == a[0];
        assert(b.len() > 0);
        assert(a.to_set().contains(b[0]));
        let i = choose|i: int| 0 <= i < a.len() && a[i] == b[0];
        if a[0] != b[0] {
            assert(lex_lt(b[0], a[0]));
            assert(lex_lt(a[0], b[0]));
            lemma_lex_transitive(a[0], b[0], a[0]);
            lemma_lex_irreflexive(a[0]);
        }
        let ta = a.drop_first();
        let tb = b.drop_first();
        assert(ta.to_set() =~= tb.to_set()) by {
            assert forall|x: Seq<char>| #[trigger] ta.to_set().contains(x) implies tb.to_set().contains(x) by {
                let k = choose|k: int| 0 <= k < ta.len() && ta[k] == x;
                assert(a[k + 1] == x);
                assert(a.to_set().contains(x));
                let l = choose|l: int| 0 <= l < b.len() && b[l] == x;
                if l == 0 {
                    assert(lex_lt(a[0], a[k + 1]));
                    lemma_lex_irreflexive(x);
                }
                assert(tb[l - 1] == x);
            }
            assert forall|x: Seq<char>| #[trigger] tb.to_set().contains(x) implies ta.to_set().contains(x) by {
                let k = choose|k: int| 0 <= k < tb.len() && tb[k] == x;
                assert(b[k + 1] == x);
                assert(b.to_set().contains(x));
                let l = choose|l: int| 0 <= l < a.len() && a[l] == x;
                if l == 0 {
                    assert(lex_lt(b[0], b[k + 1]));
                    lemma_lex_irreflexive(x);
                }
                assert(ta[l - 1] == x);
            }
        }
        assert forall|p: int, q: int| 0 <= p < q < ta.len() implies lex_lt(#[trigger] ta[p], #[trigger] ta[q]) by {
            assert(ta[p] == a[p + 1] && ta[q] == a[q + 1]);
        }
        assert forall|p: int, q: int| 0 <= p < q < tb.len() implies lex_lt(#[trigger] tb[p], #[trigger] tb[q]) by {
            assert(tb[p] == b[p + 1] && tb[q] == b[q + 1]);
        }
        lemma_sorted_unique(ta, tb);
        assert(ta == tb);
        assert(ta.len() == a.len() - 1);
        assert(tb.len() == b.len() - 1);
        assert(a.len() == b.len());
        assert(a =~= b) by {
            assert forall|k: int| 0 <= k < a.len() implies a[k] == b[k] by {
                if k > 0 {
                    assert(a[k] == ta[k - 1] && b[k] == tb[k - 1]);
                }
            }
        }
    }
}

/// `sorted_of` picks the one ascending arrangement of the set.
pub proof fn lemma_sorted_of(m: Seq<Seq<char>>)
    requires
        strictly_sorted(m),
    ensures
        sorted_of(m.to_set()) == m,
{
    let st = m.to_set();
    assert(strictly_sorted(m) && m.to_set() == st);
    let c = sorted_of(st);
    lemma_sorted_unique(c, m);
}

fn insert_member(acc: &mut Vec<Vec<char>>, m: Vec<char>)
    requires
        strictly_sorted(views(old(acc)@)),
    ensures
        strictly_sorted(views(final(acc)@)),
        views(final(acc)@).to_set() == views(old(acc)@).to_set().insert(m@),
{
    let ghost s = views(acc@);
    let mut i: usize = 0;
    while i < acc.len() && compare_chars(&acc[i], &m) < 0
        invariant
            i <= acc@.len(),
            s == views(acc@),
            strictly_sorted(s),
            forall|j: int| 0 <= j < i ==> lex_lt(#[trigger] s[j], m@),
        decreases acc@.len() - i,
    {
        i = i + 1;
    }
    if i < acc.len() {
        let c = compare_chars(&acc[i], &m);
        if c == 0 {
            assert(s.to_set() =~= s.to_set().insert(m@)) by {
                assert(s[i as int] == m@);
            }
            return;
        }
        assert forall|j: int| i <= j < s.len() implies lex_lt(m@, #[trigger] s[j]) by {
            if i < j {
                lemma_lex_transitive(m@, s[i as int], s[j]);
            }
        }
    }
    let ghost mv = m@;
    acc.insert(i, m);
    let ghost t = views(acc@);
    assert(t =~= s.insert(i as int, mv));
    assert forall|p: int, q: int| 0 <= p < q < t.len() implies lex_lt(#[trigger] t[p], #[trigger] t[q]) by {
        if q < i {
        } else if q == i {
        } else if p < i {
            lemma_lex_transitive(s[p], mv, s[q - 1]);
        } else if p == i {
        } else {
        }
    }
    assert(t.to_set() =~= s.to_set().insert(mv)) by {
        assert forall|x: Seq<char>| #[trigger] t.to_set().contains(x) implies s.to_set().insert(mv).contains(x) by {
            let k = choose|k: int| 0 <= k < t.len() && t[k] == x;
            if k < i {
                assert(s[k] == x);
            } else if k > i {
                assert(s[k - 1] == x);
            }
        }
        assert forall|x: Seq<char>| #[trigger] s.to_set().insert(mv).contains(x) implies t.to_set().contains(x) by {
            if x == mv {
                assert(t[i as int] == x);
            } else {
                let k = choose|k: int| 0 <= k < s.len() && s[k] == x;
                if k < i {
                    assert(t[k] == x);
                } else {
                    assert(t[k + 1] == x);
                }
            }
        }
    }
}

/// Adds a member that is not empty.
fn add_member(acc: &mut Vec<Vec<char>>, m: Vec<char>)
    requires
        strictly_sorted(views(old(acc)@)),
    ensures
        strictly_sorted(views(final(acc)@)),
        views(final(acc)@).to_set() == (if m@.len() == 0 {
            views(old(acc)@).to_set()
        } else {
            views(old(acc)@).to_set().insert(m@)
        }),
{
    if m.len() > 0 {
        insert_member(acc, m);
    }
}

fn join_exec(acc: &Vec<Vec<char>>) -> (r: Vec<char>)
    ensures
        r@ == join(views(acc@)),
{
    let ghost s = views(acc@);
    let mut out: Vec<char> = Vec::new();
    let mut k: usize = 0;
    assert(s.subrange(0, 0) =~= Seq::<Seq<char>>::empty());
    while k < acc.len()
        invariant
            k <= acc@.len(),
            s == views(acc@),
            out@ == join(s.subrange(0, k as int)),
        decreases acc@.len() - k,
    {
        let ghost before = out@;
        if k > 0 {
            out.push(',');
        }
        let ghost mid = out@;
        let mut j: usize = 0;
        while j < acc[k].len()
            invariant
                k < acc@.len(),
                j <= acc@[k as int]@.len(),
                out@ == mid + acc@[k as int]@.subrange(0, j as int),
            decreases acc@[k as int]@.len() - j,
        {
            out.push(acc[k][j]);
            assert(out@ =~= mid + acc@[k as int]@.subrange(0, j + 1));
            j = j + 1;
        }
        assert(acc@[k as int]@.subrange(0, j as int) =~= s[k as int]);
        assert(s.subrange(0, k + 1).drop_last() =~= s.subrange(0, k as int));
        if k == 0 {
            assert(out@ =~= s.subrange(0, 1)[0]);
        } else {
            assert(out@ =~= before + seq![','] + s[k as int]);
        }
        k = k + 1;
    }
    assert(s.subrange(0, k as int) =~= s);
    out
}

proof fn lemma_insert_remove_empty(st: Set<Seq<char>>, x: Seq<char>)
    ensures
        st.insert(x).remove(Seq::empty()) == (if x.len() == 0 {
            st.remove(Seq::empty())
        } else {
            st.remove(Seq::empty()).insert(x)
        }),
{
    if x.len() == 0 {
        assert(x =~= Seq::<char>::empty());
        assert(st.insert(x).remove(Seq::empty()) =~= st.remove(Seq::empty()));
    } else {
        assert(x != Seq::<char>::empty());
        assert(st.insert(x).remove(Seq::empty()) =~= st.remove(Seq::empty()).insert(x));
    }
}

fn set_canonical_exec(u: &Vec<char>) -> (r: Vec<char>)
    ensures
        r@ == set_canonical(u@),
{
    let mut acc: Vec<Vec<char>> = Vec::new();
    let mut start: usize = 0;
    let mut i: usize = 0;
    let ghost mut done: Seq<Seq<char>> = Seq::empty();
    assert(u@.subrange(0, 0) =~= Seq::<char>::empty());
    assert(split_commas(Seq::<char>::empty()) =~= done.push(u@.subrange(0, 0)));
    assert(views(acc@) =~= Seq::<Seq<char>>::empty());
    assert(trim_all(done).to_set() =~= Set::empty());
    assert(views(acc@).to_set() =~= Set::empty());
    assert(trim_all(done).to_set().remove(Seq::empty()) =~= Set::empty());
    while i < u.len()
        invariant
            start <= i <= u@.len(),
            split_commas(u@.subrange(0, i as int)) == done.push(u@.subrange(start as int, i as int)),
            strictly_sorted(views(acc@)),
            views(acc@).to_set() == trim_all(done).to_set().remove(Seq::empty()),
        decreases u@.len() - i,
    {
        assert(u@.subrange(0, i + 1).drop_last() =~= u@.subrange(0, i as int));
        if u[i] == ',' {
            let m = trimmed_copy(u, start, i);
            add_member(&mut acc, m);
            proof {
                let piece = u@.subrange(start as int, i as int);
                assert(trim_all(done.push(piece)) =~= trim_all(done).push(trim(piece)));
                trim_all(done).lemma_push_to_set_commute(trim(piece));
                lemma_insert_remove_empty(trim_all(done).to_set(), trim(piece));
                done = done.push(piece);
                assert(u@.subrange(i + 1, i + 1) =~= Seq::<char>::empty());
            }
            start = i + 1;
        } else {
            assert(u@.subrange(start as int, i + 1) =~= u@.subrange(start as int, i as int).push(u@[i as int]));
            assert(done.push(u@.subrange(start as int, i as int)).update(
                done.len() as int,
                u@.subrange(start as int, i as int).push(u@[i as int]),
            ) =~= done.push(u@.subrange(start as int, i + 1)));
        }
        i = i + 1;
    }
    assert(u@.subrange(0, i as int) =~= u@);
    let ghost last = u@.subrange(start as int, i as int);
    if start < u.len() {
        let m = trimmed_copy(u, start, u.len());
        add_member(&mut acc, m);
        proof {
            assert(trim_all(done.push(last)) =~= trim_all(done).push(trim(last)));
            trim_all(done).lemma_push_to_set_commute(trim(last));
            lemma_insert_remove_empty(trim_all(done).to_set(), trim(last));
            assert(members(u@) == done.push(last));
        }
    } else {
        assert(done.push(last).drop_last() =~= done);
        assert(members(u@) == done);
    }
    proof {
        lemma_sorted_of(views(acc@));
    }
    join_exec(&acc)
}

// ---------- All kinds ----------

/// The canonical form of a value of a variable of kind `t`.
pub open spec fn canonical(t: VariableType, v: Seq<char>) -> Seq<char> {
    match t {
        VariableType::Boolean => bool_canonical(case_fold(v)),
        VariableType::Integer => int_canonical(case_fold(v)),
        VariableType::Numeric | VariableType::Enum => case_fold(v),
        VariableType::MemberSet => set_canonical(case_fold(v)),
        VariableType::String | VariableType::File | VariableType::Directory
        | VariableType::Bitmap => v,
    }
}

/// What reconciling a desired value with an observed one yields: nothing where
/// their canonical forms agree, else the canonical desired value.
pub open spec fn reconciled(t: VariableType, desired: Seq<char>, observed: Seq<char>) -> Option<
    Seq<char>,
> {
    if canonical(t, desired) == canonical(t, observed) {
        None
    } else {
        Some(canonical(t, desired))
    }
}

impl VariableDefinition {
    /// The canonical form of `value` for this variable's kind.
    pub fn normalize(&self, value: &str) -> (r: String)
        ensures
            r@ == canonical(self.vartype, value@),
    {
        match self.vartype {
            VariableType::Boolean => {
                let u = fold_case(value);
                string_of(&bool_canonical_exec(&chars_of(u.as_str())))
            },
            VariableType::Integer => {
                let u = fold_case(value);
                string_of(&int_canonical_exec(&chars_of(u.as_str())))
            },
            VariableType::Numeric | VariableType::Enum => fold_case(value),
            VariableType::MemberSet => {
                let u = fold_case(value);
                string_of(&set_canonical_exec(&chars_of(u.as_str())))
            },
            VariableType::String | VariableType::File | VariableType::Directory
            | VariableType::Bitmap => value.to_owned(),
        }
    }

    /// Compares a desired value with the observed one: `None` where both have
    /// the same canonical form, else the canonical desired value, to be applied.
    pub fn same(&self, new: &str, current: &str) -> (r: Option<String>)
        ensures
            r is None <==> reconciled(self.vartype, new@, current@) is None,
            r is Some ==> r->0@ == reconciled(self.vartype, new@, current@)->0,
    {
        let new = self.normalize(new);
        let current = self.normalize(current);
        if new == current {
            None
        } else {
            Some(new)
        }
    }
}

/// The change to make to server variable `name`, whose value in effect is
/// `observed` and which the option file sets to `desired`, if it does: the
/// canonical desired value and the variable's kind. A name that the catalog
/// lacks, or that the option file does not set, asks for nothing and is not
/// normalized.
pub fn plan_change(catalog: &Catalog, name: &str, desired: Option<&str>, observed: &str) -> (r:
    Option<(String, VariableType)>)
    requires
        catalog.wf(),
    ensures
        !catalog@.contains_key(name@) ==> r is None,
        desired is None ==> r is None,
        catalog@.contains_key(name@) && desired is Some ==> {
            let t = catalog@[name@];
            &&& (r is None <==> reconciled(t, desired->0@, observed@) is None)
            &&& (r is Some ==> (r->0).0@ == reconciled(t, desired->0@, observed@)->0 && (r->0).1 == t)
        },
{
    match catalog.lookup(name) {
        None => None,
        Some(def) => match desired {
            None => None,
            Some(d) => match def.same(d, observed) {
                None => None,
                Some(v) => Some((v, def.vartype)),
            },
        },
    }
}

} // verus!
