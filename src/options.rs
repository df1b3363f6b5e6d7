use vstd::prelude::*;

use crate::engine::{all_digits, digits_value};
use crate::text::{chars_of, fold_lower, lower_fold, string_of};

verus! {

/// One section of an option file: its name and its entries, each a key with
/// an optional value.
pub struct OptionSection {
    pub name: String,
    pub options: Vec<(String, Option<String>)>,
}

/// No two sections share a name, and no two entries of a section share a key.
pub open spec fn distinct_names(s: Seq<OptionSection>) -> bool {
    &&& forall|i: int, j: int| 0 <= i < j < s.len() ==> #[trigger] s[i].name@ != #[trigger] s[j].name@
    &&& forall|k: int, i: int, j: int|
        0 <= k < s.len() && 0 <= i < j < s[k].options@.len() ==> #[trigger] s[k].options@[i].0@
            != #[trigger] s[k].options@[j].0@
}

/// Relies on configparser's `Ini::read`: parses option-file text into named
/// sections of entries, or reports why it cannot. Sections and the entries of
/// each are kept in maps, so names and keys come out distinct.
#[verifier::external_body]
fn parse_ini(text: &str) -> (r: Result<Vec<OptionSection>, String>)
    ensures
        r is Ok ==> distinct_names(r->Ok_0@),
{
    let mut ini = configparser::ini::Ini::new();
    match ini.read(text.to_string()) {
        Ok(map) => Ok(
            map.into_iter().map(|(name, opts)| OptionSection { name, options: opts.into_iter().collect() }).collect(),
        ),
        Err(e) => Err(e),
    }
}

/// The sections of an option file's text, with distinct section names and
/// distinct keys in each section.
pub fn read_option_text(text: &str) -> (r: Result<Vec<OptionSection>, String>)
    ensures
        r is Ok ==> distinct_names(r->Ok_0@),
{
    parse_ini(text)
}

pub open spec fn opt_view(o: Option<String>) -> Option<Seq<char>> {
    match o {
        Some(s) => Some(s@),
        None => None,
    }
}

/// The value of the first entry named `key`, where that entry has one.
pub open spec fn entry_value(opts: Seq<(String, Option<String>)>, key: Seq<char>) -> Option<Seq<char>>
    decreases opts.len(),
{
    if opts.len() == 0 {
        None
    } else if opts[0].0@ == key {
        opt_view(opts[0].1)
    } else {
        entry_value(opts.drop_first(), key)
    }
}

/// Where keys are distinct, the first entry named `key` is the only one.
pub proof fn lemma_entry_value_at(opts: Seq<(String, Option<String>)>, i: int)
    requires
        0 <= i < opts.len(),
        forall|p: int, q: int| 0 <= p < q < opts.len() ==> #[trigger] opts[p].0@ != #[trigger] opts[q].0@,
    ensures
        entry_value(opts, opts[i].0@) == opt_view(opts[i].1),
    decreases i,
{
    if i > 0 {
        let t = opts.drop_first();
        assert(opts[0].0@ != opts[i].0@);
        assert forall|p: int, q: int| 0 <= p < q < t.len() implies #[trigger] t[p].0@ != #[trigger] t[q].0@ by {
            assert(t[p] == opts[p + 1] && t[q] == opts[q + 1]);
        }
        assert(t[i - 1] == opts[i]);
        lemma_entry_value_at(t, i - 1);
    }
}

fn find_entry(opts: &Vec<(String, Option<String>)>, key: &str) -> (r: Option<String>)
    ensures
        opt_view(r) == entry_value(opts@, key@),
{
    let k = String::from_str(key);
    let mut i: usize = 0;
    assert(opts@.subrange(0, opts@.len() as int) =~= opts@);
    while i < opts.len()
        invariant
            i <= opts@.len(),
            k@ == key@,
            entry_value(opts@, key@) == entry_value(opts@.subrange(i as int, opts@.len() as int), key@),
        decreases opts@.len() - i,
    {
        let ghost rest = opts@.subrange(i as int, opts@.len() as int);
        assert(rest.drop_first() =~= opts@.subrange(i + 1, opts@.len() as int));
        if opts[i].0 == k {
            return opts[i].1.clone();
        }
        i = i + 1;
    }
    None
}

/// The entries of the first section named `name`.
pub open spec fn section_entries(sections: Seq<OptionSection>, name: Seq<char>) -> Option<Seq<(String, Option<String>)>>
    decreases sections.len(),
{
    if sections.len() == 0 {
        None
    } else if sections[0].name@ == name {
        Some(sections[0].options@)
    } else {
        section_entries(sections.drop_first(), name)
    }
}

fn find_section<'a>(sections: &'a Vec<OptionSection>, name: &str) -> (r: Option<&'a OptionSection>)
    ensures
        r is Some <==> section_entries(sections@, name@) is Some,
        r is Some ==> r->0.options@ == section_entries(sections@, name@)->0,
{
    let n = String::from_str(name);
    let mut i: usize = 0;
    assert(sections@.subrange(0, sections@.len() as int) =~= sections@);
    while i < sections.len()
        invariant
            i <= sections@.len(),
            n@ == name@,
            section_entries(sections@, name@) == section_entries(
                sections@.subrange(i as int, sections@.len() as int),
                name@,
            ),
        decreases sections@.len() - i,
    {
        let ghost rest = sections@.subrange(i as int, sections@.len() as int);
        assert(rest.drop_first() =~= sections@.subrange(i + 1, sections@.len() as int));
        if sections[i].name == n {
            return Some(&sections[i]);
        }
        i = i + 1;
    }
    None
}

// ---------- Server options ----------

pub open spec fn dash_to_underscore(s: Seq<char>) -> Seq<char> {
    s.map_values(|c: char| if c == '-' { '_' } else { c })
}

/// A value without one pair of matching single or double quotes around it.
pub open spec fn unquote(v: Seq<char>) -> Seq<char> {
    if v.len() > 1 && (v[0] == '\'' || v[0] == '"') && v.last() == v[0] {
        v.subrange(1, v.len() - 1)
    } else {
        v
    }
}

pub open spec fn skip_prefix() -> Seq<char> {
    seq!['s', 'k', 'i', 'p', '_']
}

pub open spec fn has_skip_prefix(k: Seq<char>) -> bool {
    k.len() >= 5 && k.subrange(0, 5) == skip_prefix()
}

/// The variable name and value that an option-file entry sets: the key
/// lowercased with `-` read as `_`; a key without a value means `ON`; one pair
/// of quotes around the value is dropped; `skip_x` means `x` set to `OFF`.
pub open spec fn server_option(key: Seq<char>, value: Option<Seq<char>>) -> (Seq<char>, Seq<char>) {
    let k = dash_to_underscore(lower_fold(key));
    let v = match value {
        Some(v) => v,
        None => seq!['O', 'N'],
    };
    if has_skip_prefix(k) {
        (k.subrange(5, k.len() as int), seq!['O', 'F', 'F'])
    } else {
        (k, unquote(v))
    }
}

fn copy_range(v: &Vec<char>, from: usize, to: usize) -> (r: Vec<char>)
    requires
        from <= to <= v@.len(),
    ensures
        r@ == v@.subrange(from as int, to as int),
{
    let mut r: Vec<char> = Vec::new();
    let mut i = from;
    while i < to
        invariant
            from <= i <= to <= v@.len(),
            r@ == v@.subrange(from as int, i as int),
        decreases to - i,
    {
        r.push(v[i]);
        assert(r@ =~= v@.subrange(from as int, i + 1));
        i = i + 1;
    }
    r
}

/// The variable name and value that one option-file entry sets.
pub fn normalize_option(key: &str, value: Option<&str>) -> (r: (String, String))
    ensures
        (r.0@, r.1@) == server_option(
            key@,
            match value {
                Some(v) => Some(v@),
                None => None,
            },
        ),
{
    let low = fold_lower(key);
    let lc = chars_of(low.as_str());
    let mut k: Vec<char> = Vec::new();
    let mut i: usize = 0;
    while i < lc.len()
        invariant
            i <= lc@.len(),
            k@ == dash_to_underscore(lc@.subrange(0, i as int)),
        decreases lc@.len() - i,
    {
        let c = lc[i];
        k.push(if c == '-' { '_' } else { c });
        assert(k@ =~= dash_to_underscore(lc@.subrange(0, i + 1)));
        i = i + 1;
    }
    assert(lc@.subrange(0, i as int) =~= lc@);
    if k.len() >= 5 && k[0] == 's' && k[1] == 'k' && k[2] == 'i' && k[3] == 'p' && k[4] == '_' {
        assert(k@.subrange(0, 5) =~= skip_prefix());
        let name = copy_range(&k, 5, k.len());
        let off = vec!['O', 'F', 'F'];
        assert(off@ =~= seq!['O', 'F', 'F']);
        return (string_of(&name), string_of(&off));
    }
    proof {
        if has_skip_prefix(k@) {
            assert(k@.subrange(0, 5)[0] == 's');
            assert(k@.subrange(0, 5)[1] == 'k');
            assert(k@.subrange(0, 5)[2] == 'i');
            assert(k@.subrange(0, 5)[3] == 'p');
            assert(k@.subrange(0, 5)[4] == '_');
        }
    }
    let v = match value {
        Some(v) => chars_of(v),
        None => {
            let on = vec!['O', 'N'];
            assert(on@ =~= seq!['O', 'N']);
            on
        },
    };
    let n = v.len();
    let out = if n > 1 && (v[0] == '\'' || v[0] == '"') && v[n - 1] == v[0] {
        copy_range(&v, 1, n - 1)
    } else {
        v
    };
    (string_of(&k), string_of(&out))
}

/// The variables that the `mysqld` section of an option file sets, in the
/// order of its entries; `None` where there is no such section.
pub fn mysqld_options(sections: &Vec<OptionSection>) -> (r: Option<Vec<(String, String)>>)
    ensures
        r is Some <==> section_entries(sections@, "mysqld"@) is Some,
        r is Some ==> {
            let e = section_entries(sections@, "mysqld"@)->0;
            &&& r->0@.len() == e.len()
            &&& forall|i: int|
                0 <= i < e.len() ==> (#[trigger] r->0@[i].0@, r->0@[i].1@) == server_option(
                    e[i].0@,
                    opt_view(e[i].1),
                )
        },
{
    match find_section(sections, "mysqld") {
        None => None,
        Some(sec) => {
            let mut out: Vec<(String, String)> = Vec::new();
            let mut i: usize = 0;
            while i < sec.options.len()
                invariant
                    i <= sec.options@.len(),
                    out@.len() == i,
                    forall|j: int|
                        0 <= j < i ==> (#[trigger] out@[j].0@, out@[j].1@) == server_option(
                            sec.options@[j].0@,
                            opt_view(sec.options@[j].1),
                        ),
                decreases sec.options@.len() - i,
            {
                let entry = &sec.options[i];
                let pair = match &entry.1 {
                    Some(v) => normalize_option(entry.0.as_str(), Some(v.as_str())),
                    None => normalize_option(entry.0.as_str(), None),
                };
                out.push(pair);
                i = i + 1;
            }
            Some(out)
        },
    }
}

// ---------- Login settings ----------

/// A 16-bit unsigned decimal: an optional `+`, then one or more digits, at most 65535.
pub open spec fn parse_u16(s: Seq<char>) -> Option<nat> {
    let d = if s.len() > 0 && s[0] == '+' {
        s.drop_first()
    } else {
        s
    };
    if all_digits(d) && digits_value(d) <= 65535 {
        Some(digits_value(d))
    } else {
        None
    }
}

/// How to reach the server.
pub struct LoginSettings {
    pub user: Option<String>,
    pub password: Option<String>,
    pub host: Option<String>,
    pub port: u16,
    pub socket: Option<String>,
}

pub open spec fn replaced(old: Option<Seq<char>>, new: Option<Seq<char>>) -> Option<Seq<char>> {
    match new {
        Some(v) => Some(v),
        None => old,
    }
}

pub open spec fn port_after(old: u16, new: Option<Seq<char>>) -> nat {
    match new {
        Some(p) => match parse_u16(p) {
            Some(n) => n,
            None => old as nat,
        },
        None => old as nat,
    }
}

impl LoginSettings {
    /// No user, password, host or socket, and the standard port 3306.
    pub fn new() -> (r: LoginSettings)
        ensures
            r.user is None && r.password is None && r.host is None && r.socket is None,
            r.port == 3306,
    {
        LoginSettings { user: None, password: None, host: None, port: 3306, socket: None }
    }

    /// Takes each login entry of an option-file section that has a value; a
    /// port that is not a 16-bit number is ignored.
    pub fn apply_section(&mut self, opts: &Vec<(String, Option<String>)>)
        ensures
            opt_view(final(self).user) == replaced(opt_view(old(self).user), entry_value(opts@, "user"@)),
            opt_view(final(self).password) == replaced(
                opt_view(old(self).password),
                entry_value(opts@, "password"@),
            ),
            opt_view(final(self).host) == replaced(opt_view(old(self).host), entry_value(opts@, "host"@)),
            opt_view(final(self).socket) == replaced(
                opt_view(old(self).socket),
                entry_value(opts@, "socket"@),
            ),
            final(self).port as nat == port_after(old(self).port, entry_value(opts@, "port"@)),
    {
        match find_entry(opts, "user") {
            Some(v) => self.user = Some(v),
            None => {},
        }
        match find_entry(opts, "password") {
            Some(v) => self.password = Some(v),
            None => {},
        }
        match find_entry(opts, "host") {
            Some(v) => self.host = Some(v),
            None => {},
        }
        match find_entry(opts, "port") {
            Some(p) => {
                let c = chars_of(p.as_str());
                let start: usize = if c.len() > 0 && c[0] == '+' { 1 } else { 0 };
                assert(c@.subrange(start as int, c@.len() as int) =~= (if c@.len() > 0 && c@[0] == '+' {
                    c@.drop_first()
                } else {
                    c@
                }));
                match crate::engine::digits_upto(&c, start, 65535) {
                    Some(n) => self.port = n as u16,
                    None => {},
                }
            },
            None => {},
        }
        match find_entry(opts, "socket") {
            Some(v) => self.socket = Some(v),
            None => {},
        }
    }

    /// The login settings of an option file: its `mysql` section, then its
    /// `client` section, each over what came before, from `new`.
    pub fn from_sections(sections: &Vec<OptionSection>) -> (r: LoginSettings)
        ensures
            ({
                let a = section_entries(sections@, "mysql"@);
                let b = section_entries(sections@, "client"@);
                let ea = if a is Some { a->0 } else { Seq::empty() };
                let eb = if b is Some { b->0 } else { Seq::empty() };
                &&& opt_view(r.user) == replaced(entry_value(ea, "user"@), entry_value(eb, "user"@))
                &&& opt_view(r.password) == replaced(entry_value(ea, "password"@), entry_value(eb, "password"@))
                &&& opt_view(r.host) == replaced(entry_value(ea, "host"@), entry_value(eb, "host"@))
                &&& opt_view(r.socket) == replaced(entry_value(ea, "socket"@), entry_value(eb, "socket"@))
                &&& r.port as nat == port_after(
                    port_after(3306, entry_value(ea, "port"@)) as u16,
                    entry_value(eb, "port"@),
                )
            }),
    {
        let mut login = LoginSettings::new();
        match find_section(sections, "mysql") {
            Some(sec) => login.apply_section(&sec.options),
            None => {},
        }
        match find_section(sections, "client") {
            Some(sec) => login.apply_section(&sec.options),
            None => {},
        }
        login
    }
}

} // verus!
