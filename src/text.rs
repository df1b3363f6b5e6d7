use vstd::prelude::*;

verus! {

/// What `str::to_uppercase` returns for a sequence of characters.
pub uninterp spec fn upper_of(s: Seq<char>) -> Seq<char>;

pub open spec fn is_ascii_chars(s: Seq<char>) -> bool {
    forall|i: int| 0 <= i < s.len() ==> (s[i] as u32) < 128
}

pub open spec fn ascii_upper_char(c: char) -> char {
    if 97 <= (c as u32) <= 122 {
        ((c as u32) - 32) as char
    } else {
        c
    }
}

pub open spec fn ascii_upper(s: Seq<char>) -> Seq<char> {
    s.map_values(|c: char| ascii_upper_char(c))
}

/// The case rule of case-insensitive kinds: `str::to_uppercase`, which on ASCII
/// text is the plain ASCII mapping.
pub open spec fn case_fold(s: Seq<char>) -> Seq<char> {
    if is_ascii_chars(s) {
        ascii_upper(s)
    } else {
        upper_of(s)
    }
}

/// Relies on `str::to_uppercase`: Unicode uppercasing, which on ASCII text maps
/// `a..=z` to `A..=Z` and keeps every other character.
#[verifier::external_body]
fn to_upper(s: &str) -> (r: String)
    ensures
        r@ == upper_of(s@),
        is_ascii_chars(s@) ==> r@ == ascii_upper(s@),
{
    s.to_uppercase()
}

/// `s` with the case rule applied.
pub fn fold_case(s: &str) -> (r: String)
    ensures
        r@ == case_fold(s@),
{
    to_upper(s)
}

/// Relies on `str::chars`: the characters of the string, in order.
#[verifier::external_body]
pub(crate) fn chars_of(s: &str) -> (r: Vec<char>)
    ensures
        r@ == s@,
{
    s.chars().collect()
}

/// Relies on `String: FromIterator<char>`: a string of exactly these characters.
#[verifier::external_body]
pub(crate) fn string_of(v: &Vec<char>) -> (r: String)
    ensures
        r@ == v@,
{
    v.iter().collect()
}

/// What `str::to_lowercase` returns for a sequence of characters.
pub uninterp spec fn lower_of(s: Seq<char>) -> Seq<char>;

pub open spec fn ascii_lower_char(c: char) -> char {
    if 65 <= (c as u32) <= 90 {
        ((c as u32) + 32) as char
    } else {
        c
    }
}

pub open spec fn ascii_lower(s: Seq<char>) -> Seq<char> {
    s.map_values(|c: char| ascii_lower_char(c))
}

/// Lowercasing as `str::to_lowercase` does it, which on ASCII text is the plain
/// ASCII mapping.
pub open spec fn lower_fold(s: Seq<char>) -> Seq<char> {
    if is_ascii_chars(s) {
        ascii_lower(s)
    } else {
        lower_of(s)
    }
}

/// Relies on `str::to_lowercase`: Unicode lowercasing, which on ASCII text maps
/// `A..=Z` to `a..=z` and keeps every other character.
#[verifier::external_body]
fn to_lower(s: &str) -> (r: String)
    ensures
        r@ == lower_of(s@),
        is_ascii_chars(s@) ==> r@ == ascii_lower(s@),
{
    s.to_lowercase()
}

/// `s` lowercased.
pub fn fold_lower(s: &str) -> (r: String)
    ensures
        r@ == lower_fold(s@),
{
    to_lower(s)
}

/// Unicode `White_Space`, the property that `char::is_whitespace` tests.
pub open spec fn is_white(c: char) -> bool {
    let n = c as u32;
    (9 <= n <= 13) || n == 32 || n == 0x85 || n == 0xa0 || n == 0x1680 || (0x2000 <= n
        <= 0x200a) || n == 0x2028 || n == 0x2029 || n == 0x202f || n == 0x205f || n == 0x3000
}

pub fn is_white_exec(c: char) -> (r: bool)
    ensures
        r == is_white(c),
{
    let n = c as u32;
    (9 <= n && n <= 13) || n == 32 || n == 0x85 || n == 0xa0 || n == 0x1680 || (0x2000 <= n
        && n <= 0x200a) || n == 0x2028 || n == 0x2029 || n == 0x202f || n == 0x205f || n
        == 0x3000
}

pub open spec fn trim_start(s: Seq<char>) -> Seq<char>
    decreases s.len(),
{
    if s.len() > 0 && is_white(s[0]) {
        trim_start(s.drop_first())
    } else {
        s
    }
}

pub open spec fn trim_end(s: Seq<char>) -> Seq<char>
    decreases s.len(),
{
    if s.len() > 0 && is_white(s.last()) {
        trim_end(s.drop_last())
    } else {
        s
    }
}

/// Whitespace stripped from both ends, as `str::trim` does.
pub open spec fn trim(s: Seq<char>) -> Seq<char> {
    trim_end(trim_start(s))
}

/// The characters of `v` in `[start, end)`, with surrounding whitespace removed.
pub fn trimmed_copy(v: &Vec<char>, start: usize, end: usize) -> (r: Vec<char>)
    requires
        start <= end <= v@.len(),
    ensures
        r@ == trim(v@.subrange(start as int, end as int)),
{
    let mut a = start;
    while a < end && is_white_exec(v[a])
        invariant
            start <= a <= end <= v@.len(),
            trim_start(v@.subrange(start as int, end as int)) == trim_start(
                v@.subrange(a as int, end as int),
            ),
        decreases end - a,
    {
        assert(v@.subrange(a as int, end as int).drop_first() =~= v@.subrange(
            a + 1,
            end as int,
        ));
        a = a + 1;
    }
    proof {
        if a < end {
            assert(!is_white(v@.subrange(a as int, end as int)[0]));
        }
    }
    let mut b = end;
    while b > a && is_white_exec(v[b - 1])
        invariant
            start <= a <= b <= end <= v@.len(),
            trim(v@.subrange(start as int, end as int)) == trim_end(
                v@.subrange(a as int, b as int),
            ),
        decreases b - a,
    {
        assert(v@.subrange(a as int, b as int).drop_last() =~= v@.subrange(
            a as int,
            b - 1,
        ));
        b = b - 1;
    }
    let mut r: Vec<char> = Vec::new();
    let mut i = a;
    while i < b
        invariant
            a <= i <= b <= v@.len(),
            r@ == v@.subrange(a as int, i as int),
        decreases b - i,
    {
        r.push(v[i]);
        assert(r@ =~= v@.subrange(a as int, i + 1));
        i = i + 1;
    }
    r
}

/// Strict lexicographic order of character sequences, by code point.
pub open spec fn lex_lt(a: Seq<char>, b: Seq<char>) -> bool {
    exists|k: int|
        #![trigger a.subrange(0, k)]
        0 <= k <= a.len() && k < b.len() && a.subrange(0, k) == b.subrange(0, k) && (k
            == a.len() || a[k] < b[k])
}

pub proof fn lemma_lex_irreflexive(a: Seq<char>)
    ensures
        !lex_lt(a, a),
{
}

pub proof fn lemma_lex_transitive(a: Seq<char>, b: Seq<char>, c: Seq<char>)
    requires
        lex_lt(a, b),
        lex_lt(b, c),
    ensures
        lex_lt(a, c),
{
    let k1 = choose|k: int|
        #![trigger a.subrange(0, k)]
        0 <= k <= a.len() && k < b.len() && a.subrange(0, k) == b.subrange(0, k) && (k
            == a.len() || a[k] < b[k]);
    let k2 = choose|k: int|
        #![trigger b.subrange(0, k)]
        0 <= k <= b.len() && k < c.len() && b.subrange(0, k) == c.subrange(0, k) && (k
            == b.len() || b[k] < c[k]);
    if k1 <= k2 {
        assert(b.subrange(0, k1) =~= c.subrange(0, k1)) by {
            assert(b.subrange(0, k1) =~= b.subrange(0, k2).subrange(0, k1));
            assert(c.subrange(0, k1) =~= c.subrange(0, k2).subrange(0, k1));
        }
        if k1 < k2 {
            assert(b[k1] == b.subrange(0, k2)[k1]);
            assert(c[k1] == c.subrange(0, k2)[k1]);
        }
        assert(a.subrange(0, k1) == c.subrange(0, k1));
    } else {
        assert(a.subrange(0, k2) =~= b.subrange(0, k2)) by {
            assert(a.subrange(0, k2) =~= a.subrange(0, k1).subrange(0, k2));
            assert(b.subrange(0, k2) =~= b.subrange(0, k1).subrange(0, k2));
        }
        assert(a[k2] == a.subrange(0, k1)[k2]);
        assert(b[k2] == b.subrange(0, k1)[k2]);
        assert(a.subrange(0, k2) == c.subrange(0, k2));
    }
}

proof fn lemma_lex_total_from(a: Seq<char>, b: Seq<char>, k: int)
    requires
        0 <= k <= a.len(),
        k <= b.len(),
        a.subrange(0, k) == b.subrange(0, k),
        a != b,
    ensures
        lex_lt(a, b) || lex_lt(b, a),
    decreases a.len() - k,
{
    if k == a.len() && k == b.len() {
        assert(a =~= a.subrange(0, k));
        assert(b =~= b.subrange(0, k));
    } else if k == a.len() {
        assert(lex_lt(a, b));
    } else if k == b.len() {
        assert(b.subrange(0, k) == a.subrange(0, k));
        assert(lex_lt(b, a));
    } else if a[k] != b[k] {
        if a[k] < b[k] {
            assert(lex_lt(a, b));
        } else {
            assert(b.subrange(0, k) == a.subrange(0, k));
            assert(lex_lt(b, a));
        }
    } else {
        assert(a.subrange(0, k + 1) =~= a.subrange(0, k).push(a[k]));
        assert(b.subrange(0, k + 1) =~= b.subrange(0, k).push(b[k]));
        lemma_lex_total_from(a, b, k + 1);
    }
}

/// Any two different sequences are ordered one way or the other.
pub proof fn lemma_lex_total(a: Seq<char>, b: Seq<char>)
    requires
        a != b,
    ensures
        lex_lt(a, b) || lex_lt(b, a),
{
    assert(a.subrange(0, 0) =~= b.subrange(0, 0));
    lemma_lex_total_from(a, b, 0);
}

/// Three-way comparison: negative, zero or positive as `a` is below, equal to
/// or above `b` in `lex_lt`.
pub fn compare_chars(a: &Vec<char>, b: &Vec<char>) -> (r: i8)
    ensures
        r < 0 ==> lex_lt(a@, b@),
        r == 0 ==> a@ == b@,
        r > 0 ==> lex_lt(b@, a@),
{
    let mut i: usize = 0;
    while i < a.len() && i < b.len() && a[i] == b[i]
        invariant
            i <= a@.len(),
            i <= b@.len(),
            a@.subrange(0, i as int) == b@.subrange(0, i as int),
        decreases a@.len() - i,
    {
        assert(a@.subrange(0, i + 1) =~= a@.subrange(0, i as int).push(a@[i as int]));
        assert(b@.subrange(0, i + 1) =~= b@.subrange(0, i as int).push(b@[i as int]));
        i = i + 1;
    }
    if i == a.len() && i == b.len() {
        assert(a@ =~= a@.subrange(0, i as int));
        assert(b@ =~= b@.subrange(0, i as int));
        0
    } else if i == a.len() {
        assert(a@.subrange(0, i as int) == b@.subrange(0, i as int));
        -1
    } else if i == b.len() {
        assert(b@.subrange(0, i as int) == a@.subrange(0, i as int));
        1
    } else if a[i] < b[i] {
        assert(a@.subrange(0, i as int) == b@.subrange(0, i as int));
        -1
    } else {
        assert(a@[i as int] != b@[i as int]);
        assert(b@.subrange(0, i as int) == a@.subrange(0, i as int));
        1
    }
}

} // verus!
