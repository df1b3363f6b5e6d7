use vstd::prelude::*;

use crate::text::{chars_of, compare_chars, lemma_lex_irreflexive, lemma_lex_transitive, lex_lt};

verus! {

/// The semantic kind of a server variable; it decides how values are compared.
#[derive(Debug, Clone, Copy, PartialEq, Eq, Structural)]
pub enum VariableType {
    Boolean,
    String,
    Integer,
    Numeric,
    File,
    Directory,
    Enum,
    MemberSet,
    Bitmap,
}

/// A server variable that can be set at run time, with its semantic kind.
#[derive(Debug, Clone, Copy)]
pub struct VariableDefinition {
    pub name: &'static str,
    pub vartype: VariableType,
}

/// The name-to-kind map that a list of definitions describes, where a later
/// definition of a name replaces an earlier one.
pub open spec fn entries_map(s: Seq<VariableDefinition>) -> Map<Seq<char>, VariableType>
    decreases s.len(),
{
    if s.len() == 0 {
        Map::empty()
    } else {
        entries_map(s.drop_last()).insert(s.last().name@, s.last().vartype)
    }
}

pub open spec fn names_sorted(s: Seq<VariableDefinition>) -> bool {
    forall|i: int, j: int| 0 <= i < j < s.len() ==> lex_lt(#[trigger] s[i].name@, #[trigger] s[j].name@)
}

pub open spec fn has_name(s: Seq<VariableDefinition>, n: Seq<char>) -> bool {
    exists|i: int| 0 <= i < s.len() && #[trigger] s[i].name@ == n
}

pub open spec fn index_of(s: Seq<VariableDefinition>, n: Seq<char>) -> int {
    choose|i: int| 0 <= i < s.len() && #[trigger] s[i].name@ == n
}

pub open spec fn sorted_map(s: Seq<VariableDefinition>) -> Map<Seq<char>, VariableType> {
    Map::new(|n: Seq<char>| has_name(s, n), |n: Seq<char>| s[index_of(s, n)].vartype)
}

proof fn lemma_sorted_map_at(s: Seq<VariableDefinition>, i: int)
    requires
        names_sorted(s),
        0 <= i < s.len(),
    ensures
        sorted_map(s).contains_key(s[i].name@),
        sorted_map(s)[s[i].name@] == s[i].vartype,
{
    let n = s[i].name@;
    assert(has_name(s, n));
    let j = index_of(s, n);
    if j < i {
        assert(lex_lt(s[j].name@, s[i].name@));
        lemma_lex_irreflexive(n);
    } else if i < j {
        assert(lex_lt(s[i].name@, s[j].name@));
        lemma_lex_irreflexive(n);
    }
}

/// An immutable table of variable definitions, sorted by name with each name
/// once, searched by bisection.
pub struct Catalog {
    entries: Vec<VariableDefinition>,
}

impl Catalog {
    pub closed spec fn wf(&self) -> bool {
        names_sorted(self.entries@)
    }

    /// Each name in the table with its kind.
    pub closed spec fn view(&self) -> Map<Seq<char>, VariableType> {
        sorted_map(self.entries@)
    }

    /// Bisection: `pos` is where `n` stands, or where it would be inserted.
    fn find(&self, n: &Vec<char>) -> (r: (bool, usize))
        requires
            self.wf(),
        ensures
            r.1 <= self.entries@.len(),
            forall|i: int| 0 <= i < r.1 ==> lex_lt(#[trigger] self.entries@[i].name@, n@),
            r.0 ==> r.1 < self.entries@.len() && self.entries@[r.1 as int].name@ == n@,
            !r.0 ==> forall|i: int|
                r.1 <= i < self.entries@.len() ==> lex_lt(n@, #[trigger] self.entries@[i].name@),
    {
        let ghost s = self.entries@;
        let mut lo: usize = 0;
        let mut hi: usize = self.entries.len();
        while lo < hi
            invariant
                lo <= hi <= s.len(),
                s == self.entries@,
                names_sorted(s),
                forall|i: int| 0 <= i < lo ==> lex_lt(#[trigger] s[i].name@, n@),
                forall|i: int| hi <= i < s.len() ==> lex_lt(n@, #[trigger] s[i].name@),
            decreases hi - lo,
        {
            let mid = lo + (hi - lo) / 2;
            let m = chars_of(self.entries[mid].name);
            let c = compare_chars(&m, n);
            if c == 0 {
                return (true, mid);
            } else if c < 0 {
                assert forall|i: int| 0 <= i <= mid implies lex_lt(#[trigger] s[i].name@, n@) by {
                    if i < mid {
                        lemma_lex_transitive(s[i].name@, s[mid as int].name@, n@);
                    }
                }
                lo = mid + 1;
            } else {
                assert forall|i: int| mid <= i < s.len() implies lex_lt(n@, #[trigger] s[i].name@) by {
                    if mid < i {
                        lemma_lex_transitive(n@, s[mid as int].name@, s[i].name@);
                    }
                }
                hi = mid;
            }
        }
        (false, lo)
    }

    /// The definition of `name`, or `None` where the table has no such name.
    pub fn lookup(&self, name: &str) -> (r: Option<VariableDefinition>)
        requires
            self.wf(),
        ensures
            r is Some <==> self@.contains_key(name@),
            r is Some ==> r->0.name@ == name@ && r->0.vartype == self@[name@],
    {
        let n = chars_of(name);
        let (found, pos) = self.find(&n);
        if found {
            proof {
                lemma_sorted_map_at(self.entries@, pos as int);
            }
            Some(self.entries[pos])
        } else {
            proof {
                if has_name(self.entries@, name@) {
                    let j = index_of(self.entries@, name@);
                    if j < pos {
                        assert(lex_lt(self.entries@[j].name@, n@));
                    } else {
                        assert(lex_lt(n@, self.entries@[j].name@));
                    }
                    lemma_lex_irreflexive(n@);
                }
            }
            None
        }
    }

    /// Adds a definition; one of the same name is replaced.
    fn put(&mut self, d: VariableDefinition)
        requires
            old(self).wf(),
        ensures
            final(self).wf(),
            final(self)@ == old(self)@.insert(d.name@, d.vartype),
    {
        let ghost s = self.entries@;
        let n = chars_of(d.name);
        let (found, pos) = self.find(&n);
        if found {
            self.entries.set(pos, d);
            let ghost t = self.entries@;
            assert(t == s.update(pos as int, d));
            assert(names_sorted(t)) by {
                assert forall|i: int, j: int| 0 <= i < j < t.len() implies lex_lt(
                    #[trigger] t[i].name@,
                    #[trigger] t[j].name@,
                ) by {
                    assert(s[i].name@ == t[i].name@ && s[j].name@ == t[j].name@);
                }
            }
            assert(sorted_map(t) =~= sorted_map(s).insert(d.name@, d.vartype)) by {
                assert forall|m: Seq<char>| #[trigger] has_name(t, m) <==> (has_name(s, m) || m == d.name@) by {
                    if has_name(t, m) {
                        let j = choose|j: int| 0 <= j < t.len() && #[trigger] t[j].name@ == m;
                        assert(s[j].name@ == m);
                    }
                    if has_name(s, m) {
                        let j = choose|j: int| 0 <= j < s.len() && #[trigger] s[j].name@ == m;
                        assert(t[j].name@ == m);
                    }
                    if m == d.name@ {
                        assert(t[pos as int].name@ == m);
                    }
                }
                assert forall|m: Seq<char>| #[trigger] has_name(t, m) implies sorted_map(t)[m]
                    == sorted_map(s).insert(d.name@, d.vartype)[m] by {
                    let j = choose|j: int| 0 <= j < t.len() && #[trigger] t[j].name@ == m;
                    lemma_sorted_map_at(t, j);
                    if j != pos {
                        lemma_sorted_map_at(s, j);
                    }
                }
            }
        } else {
            self.entries.insert(pos, d);
            let ghost t = self.entries@;
            assert(t == s.insert(pos as int, d));
            assert(names_sorted(t)) by {
                assert forall|i: int, j: int| 0 <= i < j < t.len() implies lex_lt(
                    #[trigger] t[i].name@,
                    #[trigger] t[j].name@,
                ) by {
                    if j < pos {
                        assert(t[i] == s[i] && t[j] == s[j]);
                    } else if j == pos {
                        assert(t[i] == s[i]);
                    } else if i < pos {
                        assert(t[i] == s[i] && t[j] == s[j - 1]);
                        lemma_lex_transitive(s[i].name@, n@, s[j - 1].name@);
                    } else if i == pos {
                        assert(t[j] == s[j - 1]);
                    } else {
                        assert(t[i] == s[i - 1] && t[j] == s[j - 1]);
                    }
                }
            }
            assert(sorted_map(t) =~= sorted_map(s).insert(d.name@, d.vartype)) by {
                assert forall|m: Seq<char>| #[trigger] has_name(t, m) <==> (has_name(s, m) || m == d.name@) by {
                    if has_name(t, m) {
                        let j = choose|j: int| 0 <= j < t.len() && #[trigger] t[j].name@ == m;
                        if j < pos {
                            assert(s[j].name@ == m);
                        } else if j > pos {
                            assert(s[j - 1].name@ == m);
                        }
                    }
                    if has_name(s, m) {
                        let j = choose|j: int| 0 <= j < s.len() && #[trigger] s[j].name@ == m;
                        if j < pos {
                            assert(t[j].name@ == m);
                        } else {
                            assert(t[j + 1].name@ == m);
                        }
                    }
                    if m == d.name@ {
                        assert(t[pos as int].name@ == m);
                    }
                }
                assert forall|m: Seq<char>| #[trigger] has_name(t, m) implies sorted_map(t)[m]
                    == sorted_map(s).insert(d.name@, d.vartype)[m] by {
                    let j = choose|j: int| 0 <= j < t.len() && #[trigger] t[j].name@ == m;
                    lemma_sorted_map_at(t, j);
                    if j < pos {
                        lemma_sorted_map_at(s, j);
                        assert(m != d.name@) by {
                            lemma_lex_irreflexive(m);
                        }
                    } else if j > pos {
                        lemma_sorted_map_at(s, j - 1);
                        assert(m != d.name@) by {
                            lemma_lex_irreflexive(m);
                        }
                    }
                }
            }
        }
    }

    /// A table of the given definitions. Where a name occurs more than once,
    /// the last definition of it wins.
    pub fn new(defs: &Vec<VariableDefinition>) -> (r: Catalog)
        ensures
            r.wf(),
            r@ == entries_map(defs@),
    {
        let mut c = Catalog { entries: Vec::new() };
        assert(c@ =~= Map::empty());
        let mut k: usize = 0;
        while k < defs.len()
            invariant
                k <= defs@.len(),
                c.wf(),
                c@ == entries_map(defs@.subrange(0, k as int)),
            decreases defs@.len() - k,
        {
            c.put(defs[k]);
            assert(defs@.subrange(0, k + 1).drop_last() =~= defs@.subrange(0, k as int));
            k = k + 1;
        }
        assert(defs@.subrange(0, k as int) =~= defs@);
        c
    }
}


/// The server variables that can be changed at run time, by name.
pub open spec fn system_definitions() -> Seq<VariableDefinition> {
    seq![
        VariableDefinition { name: "autocommit", vartype: VariableType::Boolean },
        VariableDefinition { name: "big_tables", vartype: VariableType::Boolean },
        VariableDefinition { name: "binlog_cache_size", vartype: VariableType::Integer },
        VariableDefinition { name: "binlog_format", vartype: VariableType::Enum },
        VariableDefinition { name: "binlog_row_image", vartype: VariableType::Enum },
        VariableDefinition { name: "bulk_insert_buffer_size", vartype: VariableType::Integer },
        VariableDefinition { name: "character_set_server", vartype: VariableType::String },
        VariableDefinition { name: "collation_server", vartype: VariableType::String },
        VariableDefinition { name: "completion_type", vartype: VariableType::Enum },
        VariableDefinition { name: "concurrent_insert", vartype: VariableType::Enum },
        VariableDefinition { name: "connect_timeout", vartype: VariableType::Integer },
        VariableDefinition { name: "default_storage_engine", vartype: VariableType::Enum },
        VariableDefinition { name: "default_week_format", vartype: VariableType::Integer },
        VariableDefinition { name: "delay_key_write", vartype: VariableType::Enum },
        VariableDefinition { name: "event_scheduler", vartype: VariableType::Enum },
        VariableDefinition { name: "flush", vartype: VariableType::Boolean },
        VariableDefinition { name: "general_log", vartype: VariableType::Boolean },
        VariableDefinition { name: "general_log_file", vartype: VariableType::File },
        VariableDefinition { name: "group_concat_max_len", vartype: VariableType::Integer },
        VariableDefinition { name: "init_connect", vartype: VariableType::String },
        VariableDefinition { name: "innodb_adaptive_hash_index", vartype: VariableType::Boolean },
        VariableDefinition { name: "innodb_buffer_pool_size", vartype: VariableType::Integer },
        VariableDefinition { name: "innodb_flush_log_at_trx_commit", vartype: VariableType::Enum },
        VariableDefinition { name: "innodb_io_capacity", vartype: VariableType::Integer },
        VariableDefinition { name: "innodb_lock_wait_timeout", vartype: VariableType::Integer },
        VariableDefinition { name: "innodb_max_dirty_pages_pct", vartype: VariableType::Numeric },
        VariableDefinition { name: "innodb_print_all_deadlocks", vartype: VariableType::Boolean },
        VariableDefinition { name: "innodb_stats_on_metadata", vartype: VariableType::Boolean },
        VariableDefinition { name: "innodb_strict_mode", vartype: VariableType::Boolean },
        VariableDefinition { name: "innodb_tmpdir", vartype: VariableType::Directory },
        VariableDefinition { name: "interactive_timeout", vartype: VariableType::Integer },
        VariableDefinition { name: "join_buffer_size", vartype: VariableType::Integer },
        VariableDefinition { name: "key_buffer_size", vartype: VariableType::Integer },
        VariableDefinition { name: "local_infile", vartype: VariableType::Boolean },
        VariableDefinition { name: "lock_wait_timeout", vartype: VariableType::Integer },
        VariableDefinition { name: "log_bin_trust_function_creators", vartype: VariableType::Boolean },
        VariableDefinition { name: "log_error_verbosity", vartype: VariableType::Integer },
        VariableDefinition { name: "log_output", vartype: VariableType::MemberSet },
        VariableDefinition { name: "log_queries_not_using_indexes", vartype: VariableType::Boolean },
        VariableDefinition { name: "long_query_time", vartype: VariableType::Numeric },
        VariableDefinition { name: "max_allowed_packet", vartype: VariableType::Integer },
        VariableDefinition { name: "max_connect_errors", vartype: VariableType::Integer },
        VariableDefinition { name: "max_connections", vartype: VariableType::Integer },
        VariableDefinition { name: "max_heap_table_size", vartype: VariableType::Integer },
        VariableDefinition { name: "max_user_connections", vartype: VariableType::Integer },
        VariableDefinition { name: "min_examined_row_limit", vartype: VariableType::Integer },
        VariableDefinition { name: "net_read_timeout", vartype: VariableType::Integer },
        VariableDefinition { name: "net_write_timeout", vartype: VariableType::Integer },
        VariableDefinition { name: "optimizer_switch", vartype: VariableType::MemberSet },
        VariableDefinition { name: "read_buffer_size", vartype: VariableType::Integer },
        VariableDefinition { name: "read_only", vartype: VariableType::Boolean },
        VariableDefinition { name: "read_rnd_buffer_size", vartype: VariableType::Integer },
        VariableDefinition { name: "slow_launch_time", vartype: VariableType::Integer },
        VariableDefinition { name: "slow_query_log", vartype: VariableType::Boolean },
        VariableDefinition { name: "slow_query_log_file", vartype: VariableType::File },
        VariableDefinition { name: "sort_buffer_size", vartype: VariableType::Integer },
        VariableDefinition { name: "sql_mode", vartype: VariableType::MemberSet },
        VariableDefinition { name: "super_read_only", vartype: VariableType::Boolean },
        VariableDefinition { name: "sync_binlog", vartype: VariableType::Integer },
        VariableDefinition { name: "table_definition_cache", vartype: VariableType::Integer },
        VariableDefinition { name: "table_open_cache", vartype: VariableType::Integer },
        VariableDefinition { name: "thread_cache_size", vartype: VariableType::Integer },
        VariableDefinition { name: "time_zone", vartype: VariableType::String },
        VariableDefinition { name: "tmp_table_size", vartype: VariableType::Integer },
        VariableDefinition { name: "transaction_isolation", vartype: VariableType::Enum },
        VariableDefinition { name: "validate_password.policy", vartype: VariableType::Enum },
        VariableDefinition { name: "wait_timeout", vartype: VariableType::Integer },
    ]
}

/// The server variables that can be changed at run time, by name.
pub fn system_variables() -> (r: Vec<VariableDefinition>)
    ensures
        r@ == system_definitions(),
{
    let mut v: Vec<VariableDefinition> = Vec::new();
    v.push(VariableDefinition { name: "autocommit", vartype: VariableType::Boolean });
    v.push(VariableDefinition { name: "big_tables", vartype: VariableType::Boolean });
    v.push(VariableDefinition { name: "binlog_cache_size", vartype: VariableType::Integer });
    v.push(VariableDefinition { name: "binlog_format", vartype: VariableType::Enum });
    v.push(VariableDefinition { name: "binlog_row_image", vartype: VariableType::Enum });
    v.push(VariableDefinition { name: "bulk_insert_buffer_size", vartype: VariableType::Integer });
    v.push(VariableDefinition { name: "character_set_server", vartype: VariableType::String });
    v.push(VariableDefinition { name: "collation_server", vartype: VariableType::String });
    v.push(VariableDefinition { name: "completion_type", vartype: VariableType::Enum });
    v.push(VariableDefinition { name: "concurrent_insert", vartype: VariableType::Enum });
    v.push(VariableDefinition { name: "connect_timeout", vartype: VariableType::Integer });
    v.push(VariableDefinition { name: "default_storage_engine", vartype: VariableType::Enum });
    v.push(VariableDefinition { name: "default_week_format", vartype: VariableType::Integer });
    v.push(VariableDefinition { name: "delay_key_write", vartype: VariableType::Enum });
    v.push(VariableDefinition { name: "event_scheduler", vartype: VariableType::Enum });
    v.push(VariableDefinition { name: "flush", vartype: VariableType::Boolean });
    v.push(VariableDefinition { name: "general_log", vartype: VariableType::Boolean });
    v.push(VariableDefinition { name: "general_log_file", vartype: VariableType::File });
    v.push(VariableDefinition { name: "group_concat_max_len", vartype: VariableType::Integer });
    v.push(VariableDefinition { name: "init_connect", vartype: VariableType::String });
    v.push(VariableDefinition { name: "innodb_adaptive_hash_index", vartype: VariableType::Boolean });
    v.push(VariableDefinition { name: "innodb_buffer_pool_size", vartype: VariableType::Integer });
    v.push(VariableDefinition { name: "innodb_flush_log_at_trx_commit", vartype: VariableType::Enum });
    v.push(VariableDefinition { name: "innodb_io_capacity", vartype: VariableType::Integer });
    v.push(VariableDefinition { name: "innodb_lock_wait_timeout", vartype: VariableType::Integer });
    v.push(VariableDefinition { name: "innodb_max_dirty_pages_pct", vartype: VariableType::Numeric });
    v.push(VariableDefinition { name: "innodb_print_all_deadlocks", vartype: VariableType::Boolean });
    v.push(VariableDefinition { name: "innodb_stats_on_metadata", vartype: VariableType::Boolean });
    v.push(VariableDefinition { name: "innodb_strict_mode", vartype: VariableType::Boolean });
    v.push(VariableDefinition { name: "innodb_tmpdir", vartype: VariableType::Directory });
    v.push(VariableDefinition { name: "interactive_timeout", vartype: VariableType::Integer });
    v.push(VariableDefinition { name: "join_buffer_size", vartype: VariableType::Integer });
    v.push(VariableDefinition { name: "key_buffer_size", vartype: VariableType::Integer });
    v.push(VariableDefinition { name: "local_infile", vartype: VariableType::Boolean });
    v.push(VariableDefinition { name: "lock_wait_timeout", vartype: VariableType::Integer });
    v.push(VariableDefinition { name: "log_bin_trust_function_creators", vartype: VariableType::Boolean });
    v.push(VariableDefinition { name: "log_error_verbosity", vartype: VariableType::Integer });
    v.push(VariableDefinition { name: "log_output", vartype: VariableType::MemberSet });
    v.push(VariableDefinition { name: "log_queries_not_using_indexes", vartype: VariableType::Boolean });
    v.push(VariableDefinition { name: "long_query_time", vartype: VariableType::Numeric });
    v.push(VariableDefinition { name: "max_allowed_packet", vartype: VariableType::Integer });
    v.push(VariableDefinition { name: "max_connect_errors", vartype: VariableType::Integer });
    v.push(VariableDefinition { name: "max_connections", vartype: VariableType::Integer });
    v.push(VariableDefinition { name: "max_heap_table_size", vartype: VariableType::Integer });
    v.push(VariableDefinition { name: "max_user_connections", vartype: VariableType::Integer });
    v.push(VariableDefinition { name: "min_examined_row_limit", vartype: VariableType::Integer });
    v.push(VariableDefinition { name: "net_read_timeout", vartype: VariableType::Integer });
    v.push(VariableDefinition { name: "net_write_timeout", vartype: VariableType::Integer });
    v.push(VariableDefinition { name: "optimizer_switch", vartype: VariableType::MemberSet });
    v.push(VariableDefinition { name: "read_buffer_size", vartype: VariableType::Integer });
    v.push(VariableDefinition { name: "read_only", vartype: VariableType::Boolean });
    v.push(VariableDefinition { name: "read_rnd_buffer_size", vartype: VariableType::Integer });
    v.push(VariableDefinition { name: "slow_launch_time", vartype: VariableType::Integer });
    v.push(VariableDefinition { name: "slow_query_log", vartype: VariableType::Boolean });
    v.push(VariableDefinition { name: "slow_query_log_file", vartype: VariableType::File });
    v.push(VariableDefinition { name: "sort_buffer_size", vartype: VariableType::Integer });
    v.push(VariableDefinition { name: "sql_mode", vartype: VariableType::MemberSet });
    v.push(VariableDefinition { name: "super_read_only", vartype: VariableType::Boolean });
    v.push(VariableDefinition { name: "sync_binlog", vartype: VariableType::Integer });
    v.push(VariableDefinition { name: "table_definition_cache", vartype: VariableType::Integer });
    v.push(VariableDefinition { name: "table_open_cache", vartype: VariableType::Integer });
    v.push(VariableDefinition { name: "thread_cache_size", vartype: VariableType::Integer });
    v.push(VariableDefinition { name: "time_zone", vartype: VariableType::String });
    v.push(VariableDefinition { name: "tmp_table_size", vartype: VariableType::Integer });
    v.push(VariableDefinition { name: "transaction_isolation", vartype: VariableType::Enum });
    v.push(VariableDefinition { name: "validate_password.policy", vartype: VariableType::Enum });
    v.push(VariableDefinition { name: "wait_timeout", vartype: VariableType::Integer });
    assert(v@ =~= system_definitions());
    v
}

impl Catalog {
    /// The table of the server's run-time variables.
    pub fn system() -> (r: Catalog)
        ensures
            r.wf(),
            r@ == entries_map(system_definitions()),
    {
        Catalog::new(&system_variables())
    }
}

impl VariableDefinition {
    /// The definition of the server variable `name`, or `None` where the
    /// server has no run-time variable of that name.
    pub fn get(name: &str) -> (r: Option<VariableDefinition>)
        ensures
            r is Some <==> entries_map(system_definitions()).contains_key(name@),
            r is Some ==> r->0.name@ == name@ && r->0.vartype == entries_map(
                system_definitions(),
            )[name@],
    {
        Catalog::system().lookup(name)
    }
}

} // verus!
