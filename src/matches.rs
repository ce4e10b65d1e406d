//! The resolved mapping: merging a configuration tree, applying defaults,
//! and rebuilding a tree from dotted keys.

use vstd::prelude::*;
use crate::arg::Arg;
use crate::entries::{Entries, unique_keys, lemma_insert_unique, entries_view, get_entry, has_key, insert_absent, insert_entry, lookup, set_entry};
use crate::text::{chars_of, string_of};
use crate::value::{Val, Value, arr_view};

verus! {

/// The result of parsing arguments: a mapping from argument name (or dotted
/// configuration key) to value, the program's name, and the tokens left over.
#[derive(Debug, Clone)]
pub struct Matches {
    /// Parsed values, one entry per key
    pub values: Vec<(String, Value)>,
    /// Program name
    pub program_name: String,
    /// Tokens after a `--` terminator
    pub remaining: Vec<String>,
}

/// A key under a prefix: `prefix.key`, or `key` alone under the empty prefix.
pub open spec fn join_key(prefix: Seq<char>, key: Seq<char>) -> Seq<char> {
    if prefix.len() == 0 {
        key
    } else {
        prefix + seq!['.'] + key
    }
}

/// The configuration tree `t` flattened into `vals` under `prefix`, depth first:
/// each key, dot-joined to its prefix, is added where it is not present yet, a
/// nested table after the keys within it.
pub open spec fn merge_tree(vals: Entries, t: Seq<(Seq<char>, Val)>, prefix: Seq<char>) -> Entries
    decreases t,
{
    if t.len() == 0 {
        vals
    } else {
        let v0 = merge_tree(vals, t.drop_last(), prefix);
        let full = join_key(prefix, t.last().0);
        let v1 = match t.last().1 {
            Val::Tbl(inner) => merge_tree(v0, inner, full),
            _ => v0,
        };
        insert_absent(v1, full, t.last().1)
    }
}

/// The flattening of a configuration tree: every dotted key path with its value.
pub open spec fn flatten(t: Seq<(Seq<char>, Val)>) -> Entries {
    merge_tree(Seq::empty(), t, Seq::empty())
}

/// The defaults of `specs` added, in declaration order, to the names not present.
pub open spec fn apply_defaults(vals: Entries, specs: Seq<Arg>) -> Entries
    decreases specs.len(),
{
    if specs.len() == 0 {
        vals
    } else {
        let v0 = apply_defaults(vals, specs.drop_last());
        match specs.last().default {
            Some(d) => insert_absent(v0, specs.last().name@, d@),
            None => v0,
        }
    }
}

/// The default that applies to `name`: that of the first argument so named that has one.
pub open spec fn default_for(specs: Seq<Arg>, name: Seq<char>) -> Option<Val>
    decreases specs.len(),
{
    if specs.len() == 0 {
        None
    } else {
        let d = default_for(specs.drop_last(), name);
        if d is Some {
            d
        } else if specs.last().name@ == name && specs.last().default is Some {
            Some(specs.last().default->0@)
        } else {
            None
        }
    }
}

/// `prefix.key`, or `key` under the empty prefix.
pub fn join(prefix: &String, key: &String) -> (r: String)
    ensures
        r@ == join_key(prefix@, key@),
{
    let p = chars_of(prefix.as_str());
    if p.len() == 0 {
        return key.clone();
    }
    let k = chars_of(key.as_str());
    let mut out = p;
    out.push('.');
    let mut i: usize = 0;
    while i < k.len()
        invariant
            i <= k@.len(),
            out@ == prefix@ + seq!['.'] + k@.subrange(0, i as int),
        decreases k.len() - i,
    {
        out.push(k[i]);
        i += 1;
    }
    assert(k@.subrange(0, i as int) =~= k@);
    let n = out.len();
    let r = string_of(out.as_slice(), 0, n);
    assert(out@.subrange(0, n as int) =~= out@);
    r
}

/// The parts of `key` between its dots.
pub open spec fn split_dots(key: Seq<char>) -> Seq<Seq<char>>
    decreases key.len(),
{
    if key.len() == 0 {
        seq![Seq::empty()]
    } else {
        let p = split_dots(key.drop_last());
        if key.last() == '.' {
            p.push(Seq::empty())
        } else {
            p.update(p.len() - 1, p.last().push(key.last()))
        }
    }
}

pub proof fn lemma_split_dots_len(key: Seq<char>)
    ensures
        split_dots(key).len() >= 1,
    decreases key.len(),
{
    if key.len() > 0 {
        lemma_split_dots_len(key.drop_last());
    }
}

/// `v` stored in `t` under the key path `parts`: tables on the path are created
/// where absent and reused where present; a path through a value that is not a
/// table stores nothing.
pub open spec fn insert_path(t: Entries, parts: Seq<Seq<char>>, v: Val) -> Entries
    decreases parts.len(),
{
    if parts.len() <= 1 {
        insert_entry(t, if parts.len() == 1 { parts[0] } else { Seq::empty() }, v)
    } else {
        let head = parts[0];
        match lookup(t, head) {
            None => insert_entry(t, head, Val::Tbl(insert_path(Seq::empty(), parts.drop_first(), v))),
            Some(Val::Tbl(inner)) => insert_entry(t, head, Val::Tbl(insert_path(inner, parts.drop_first(), v))),
            Some(_) => t,
        }
    }
}

/// The nested tree of a flat mapping: each dotted key becomes a path of tables.
pub open spec fn unflatten(m: Entries) -> Entries
    decreases m.len(),
{
    if m.len() == 0 {
        Seq::empty()
    } else {
        insert_path(unflatten(m.drop_last()), split_dots(m.last().0), m.last().1)
    }
}

/// The parts of `key` between its dots.
pub fn split_key(key: &String) -> (r: Vec<String>)
    ensures
        strings_view(r@) == split_dots(key@),
{
    let cs = chars_of(key.as_str());
    let mut parts: Vec<String> = Vec::new();
    let mut start: usize = 0;
    let mut i: usize = 0;
    assert(cs@.subrange(0, 0) =~= Seq::<char>::empty());
    assert(strings_view(parts@).push(cs@.subrange(0, 0)) =~= seq![Seq::<char>::empty()]);
    while i < cs.len()
        invariant
            start <= i <= cs@.len(),
            strings_view(parts@).push(cs@.subrange(start as int, i as int)) == split_dots(cs@.subrange(0, i as int)),
        decreases cs.len() - i,
    {
        let ghost pre = cs@.subrange(0, i + 1);
        assert(pre.drop_last() =~= cs@.subrange(0, i as int));
        proof {
            lemma_split_dots_len(cs@.subrange(0, i as int));
        }
        if cs[i] == '.' {
            let part = string_of(cs.as_slice(), start, i);
            let ghost before = strings_view(parts@);
            parts.push(part);
            assert(strings_view(parts@) =~= before.push(cs@.subrange(start as int, i as int)));
            start = i + 1;
            assert(cs@.subrange(start as int, i + 1) =~= Seq::<char>::empty());
        } else {
            assert(cs@.subrange(start as int, i + 1) =~= cs@.subrange(start as int, i as int).push(cs@[i as int]));
        }
        i += 1;
    }
    let last = string_of(cs.as_slice(), start, cs.len());
    let ghost before = strings_view(parts@);
    parts.push(last);
    assert(strings_view(parts@) =~= before.push(cs@.subrange(start as int, i as int)));
    assert(cs@.subrange(0, i as int) =~= cs@);
    parts
}

/// A copy of a table's entries.
pub fn copy_entries(t: &Vec<(String, Value)>) -> (r: Vec<(String, Value)>)
    ensures
        entries_view(r@) == entries_view(t@),
{
    let mut out: Vec<(String, Value)> = Vec::new();
    let mut i: usize = 0;
    while i < t.len()
        invariant
            i <= t@.len(),
            entries_view(out@) == entries_view(t@).subrange(0, i as int),
        decreases t.len() - i,
    {
        let ghost before = out@;
        let pair = (t[i].0.clone(), t[i].1.duplicate());
        let ghost pv = (pair.0@, pair.1@);
        out.push(pair);
        assert(entries_view(out@) =~= entries_view(before).push(pv));
        assert(entries_view(out@) =~= entries_view(t@).subrange(0, i + 1));
        i += 1;
    }
    assert(entries_view(t@).subrange(0, i as int) =~= entries_view(t@));
    out
}

/// Stores `v` in `t` under the key path `parts[k..]`.
pub fn store_path(t: &mut Vec<(String, Value)>, parts: &Vec<String>, k: usize, v: Value)
    requires
        k < parts@.len(),
    ensures
        entries_view(final(t)@) == insert_path(
            entries_view(old(t)@),
            strings_view(parts@).subrange(k as int, parts@.len() as int),
            v@,
        ),
    decreases parts.len() - k,
{
    let ghost ps = strings_view(parts@).subrange(k as int, parts@.len() as int);
    if k + 1 == parts.len() {
        set_entry(t, parts[k].clone(), v);
        return;
    }
    assert(ps.drop_first() =~= strings_view(parts@).subrange(k + 1, parts@.len() as int));
    let head = &parts[k];
    let inner: Option<Vec<(String, Value)>> = match get_entry(t, head) {
        None => Some(Vec::new()),
        Some(Value::Table(x)) => {
            proof {
                crate::value::lemma_table_view(*x);
            }
            Some(copy_entries(x))
        },
        Some(_) => None,
    };
    match inner {
        Some(mut sub) => {
            assert(lookup(entries_view(t@), head@) is None ==> entries_view(sub@) =~= Seq::<(Seq<char>, Val)>::empty());
            store_path(&mut sub, parts, k + 1, v);
            proof {
                crate::value::lemma_table_view(sub);
            }
            set_entry(t, head.clone(), Value::Table(sub));
        },
        None => {},
    }
}

/// The views of a list of strings.
pub open spec fn strings_view(v: Seq<String>) -> Seq<Seq<char>> {
    v.map_values(|s: String| s@)
}

impl Matches {
    /// The resolved mapping.
    pub open spec fn entries(&self) -> Entries {
        entries_view(self.values@)
    }

    /// No key occurs twice in the mapping.
    pub open spec fn wf(&self) -> bool {
        unique_keys(self.entries())
    }

    /// The tokens left over.
    pub open spec fn rest(&self) -> Seq<Seq<char>> {
        strings_view(self.remaining@)
    }

    pub fn new() -> (r: Matches)
        ensures
            r.entries().len() == 0,
            r.rest().len() == 0,
            r.wf(),
            r.program_name@.len() == 0,
    {
        Matches { values: Vec::new(), program_name: String::new(), remaining: Vec::new() }
    }

    /// Flattens `table` under `prefix` into the mapping; keys already present keep their values.
    pub fn merge_toml(&mut self, table: &Vec<(String, Value)>, prefix: &String)
        ensures
            final(self).entries() == merge_tree(old(self).entries(), entries_view(table@), prefix@),
            final(self).rest() == old(self).rest(),
            final(self).program_name == old(self).program_name,
            old(self).wf() ==> final(self).wf(),
        decreases table,
    {
        let ghost t = entries_view(table@);
        let ghost start = self.entries();
        let mut i: usize = 0;
        assert(t.subrange(0, 0) =~= Seq::<(Seq<char>, Val)>::empty());
        while i < table.len()
            invariant
                i <= table@.len(),
                t == entries_view(table@),
                self.entries() == merge_tree(start, t.subrange(0, i as int), prefix@),
                self.rest() == old(self).rest(),
                self.program_name == old(self).program_name,
                old(self).wf() ==> self.wf(),
            decreases table.len() - i,
        {
            let (key, value) = &table[i];
            let full = join(prefix, key);
            assert(t.subrange(0, i + 1).drop_last() =~= t.subrange(0, i as int));
            assert(t.subrange(0, i + 1).last() == (key@, value@));
            match value {
                Value::Table(inner) => {
                    proof {
                        vstd::std_specs::vec::axiom_vec_index_decreases(*table, i as int);
                        assert(decreases_to!(table[i as int] => table[i as int].1));
                        assert(decreases_to!(table[i as int].1 => table[i as int].1->Table_0));
                        crate::value::lemma_table_view(*inner);
                    }
                    self.merge_toml(inner, &full);
                },
                _ => {},
            }
            let present = match get_entry(&self.values, &full) {
                Some(_) => true,
                None => false,
            };
            if !present {
                let ghost before = self.values@;
                proof {
                    if unique_keys(entries_view(before)) {
                        lemma_insert_unique(entries_view(before), full@, value@);
                    }
                }
                self.values.push((full, value.duplicate()));
                assert(self.entries() =~= entries_view(before).push((full@, value@)));
            }
            i += 1;
        }
        assert(t.subrange(0, i as int) =~= t);
    }

    /// Merges a configuration tree: its values are used only where the mapping has none.
    pub fn with_toml(self, table: &Vec<(String, Value)>) -> (r: Matches)
        ensures
            r.entries() == merge_tree(self.entries(), entries_view(table@), Seq::empty()),
            r.rest() == self.rest(),
            r.program_name == self.program_name,
            self.wf() ==> r.wf(),
    {
        let mut m = self;
        let prefix = String::new();
        m.merge_toml(table, &prefix);
        m
    }

    /// Adds the default of each argument whose name is not present.
    pub fn with_defaults(self, args: &[Arg]) -> (r: Matches)
        ensures
            r.entries() == apply_defaults(self.entries(), args@),
            r.rest() == self.rest(),
            r.program_name == self.program_name,
            self.wf() ==> r.wf(),
    {
        let mut m = self;
        let ghost start = m.entries();
        let mut i: usize = 0;
        assert(args@.subrange(0, 0) =~= Seq::<Arg>::empty());
        while i < args.len()
            invariant
                i <= args@.len(),
                m.entries() == apply_defaults(start, args@.subrange(0, i as int)),
                m.rest() == self.rest(),
                m.program_name == self.program_name,
                self.wf() ==> m.wf(),
            decreases args.len() - i,
        {
            let a = &args[i];
            assert(args@.subrange(0, i + 1).drop_last() =~= args@.subrange(0, i as int));
            match &a.default {
                Some(d) => {
                    let present = match get_entry(&m.values, &a.name) {
                        Some(_) => true,
                        None => false,
                    };
                    if !present {
                        let ghost before = m.values@;
                        proof {
                            if unique_keys(entries_view(before)) {
                                lemma_insert_unique(entries_view(before), a.name@, d@);
                            }
                        }
                        m.values.push((a.name.clone(), d.duplicate()));
                        assert(m.entries() =~= entries_view(before).push((a.name@, d@)));
                    }
                },
                None => {},
            }
            i += 1;
        }
        assert(args@.subrange(0, i as int) =~= args@);
        m
    }

    /// Maps `key` to `value`, replacing what `key` held.
    pub fn insert(&mut self, key: String, value: Value)
        ensures
            final(self).entries() == insert_entry(old(self).entries(), key@, value@),
            old(self).wf() ==> final(self).wf(),
            final(self).rest() == old(self).rest(),
            final(self).program_name == old(self).program_name,
    {
        set_entry(&mut self.values, key, value);
    }

    /// Whether a value is present under `name`.
    pub fn contains(&self, name: &str) -> (r: bool)
        ensures
            r == has_key(self.entries(), name@),
    {
        let key = name.to_owned();
        match get_entry(&self.values, &key) {
            Some(_) => true,
            None => false,
        }
    }

    /// The value under `name`.
    pub fn get(&self, name: &str) -> (r: Option<&Value>)
        ensures
            match r {
                Some(v) => lookup(self.entries(), name@) == Some(v@),
                None => lookup(self.entries(), name@) is None,
            },
    {
        let key = name.to_owned();
        get_entry(&self.values, &key)
    }

    /// The string under `name`.
    pub fn get_string(&self, name: &str) -> (r: Option<&str>)
        ensures
            match r {
                Some(s) => lookup(self.entries(), name@) == Some(Val::Str(s@)),
                None => !(lookup(self.entries(), name@) matches Some(Val::Str(_))),
            },
    {
        match self.get(name) {
            Some(v) => v.as_str(),
            None => None,
        }
    }

    /// The string under `name`, or `default`.
    pub fn get_string_or(&self, name: &str, default: &str) -> (r: String)
        ensures
            r@ == match lookup(self.entries(), name@) {
                Some(Val::Str(s)) => s,
                _ => default@,
            },
    {
        match self.get_string(name) {
            Some(s) => s.to_owned(),
            None => default.to_owned(),
        }
    }

    /// The integer under `name`.
    pub fn get_integer(&self, name: &str) -> (r: Option<i64>)
        ensures
            r == match lookup(self.entries(), name@) {
                Some(Val::Int(n)) => Some(n as i64),
                _ => None::<i64>,
            },
            r matches Some(n) ==> lookup(self.entries(), name@) == Some(Val::Int(n as int)),
    {
        match self.get(name) {
            Some(v) => v.as_integer(),
            None => None,
        }
    }

    /// The integer under `name`, or `default`.
    pub fn get_integer_or(&self, name: &str, default: i64) -> (r: i64)
        ensures
            r == match lookup(self.entries(), name@) {
                Some(Val::Int(n)) => n as i64,
                _ => default,
            },
    {
        match self.get_integer(name) {
            Some(n) => n,
            None => default,
        }
    }

    /// The text of the floating-point number under `name`.
    pub fn get_float_text(&self, name: &str) -> (r: Option<&str>)
        ensures
            match r {
                Some(s) => lookup(self.entries(), name@) == Some(Val::Float(s@)),
                None => !(lookup(self.entries(), name@) matches Some(Val::Float(_))),
            },
    {
        match self.get(name) {
            Some(Value::Float(s)) => Some(s.as_str()),
            _ => None,
        }
    }

    /// The boolean under `name`; false when absent.
    pub fn get_bool(&self, name: &str) -> (r: bool)
        ensures
            r == (lookup(self.entries(), name@) == Some(Val::Bool(true))),
    {
        match self.get_bool_opt(name) {
            Some(b) => b,
            None => false,
        }
    }

    /// The boolean under `name`.
    pub fn get_bool_opt(&self, name: &str) -> (r: Option<bool>)
        ensures
            r == match lookup(self.entries(), name@) {
                Some(Val::Bool(b)) => Some(b),
                _ => None::<bool>,
            },
    {
        match self.get(name) {
            Some(v) => v.as_bool(),
            None => None,
        }
    }

    /// The array under `name`.
    pub fn get_array(&self, name: &str) -> (r: Option<&Vec<Value>>)
        ensures
            match r {
                Some(a) => lookup(self.entries(), name@) == Some(Val::Arr(arr_view(a@))),
                None => !(lookup(self.entries(), name@) matches Some(Val::Arr(_))),
            },
    {
        match self.get(name) {
            Some(v) => v.as_array(),
            None => None,
        }
    }

    /// The count under `name`; zero when absent.
    pub fn get_count(&self, name: &str) -> (r: i64)
        ensures
            r == match lookup(self.entries(), name@) {
                Some(Val::Int(n)) => n as i64,
                _ => 0,
            },
    {
        self.get_integer_or(name, 0)
    }

    /// The count under `name`.
    pub fn get_count_opt(&self, name: &str) -> (r: Option<i64>)
        ensures
            r == match lookup(self.entries(), name@) {
                Some(Val::Int(n)) => Some(n as i64),
                _ => None::<i64>,
            },
    {
        self.get_integer(name)
    }

    /// The tokens after a `--` terminator.
    pub fn remaining(&self) -> (r: &Vec<String>)
        ensures
            strings_view(r@) == self.rest(),
    {
        &self.remaining
    }

    /// All values, one entry per key.
    pub fn values(&self) -> (r: &Vec<(String, Value)>)
        ensures
            entries_view(r@) == self.entries(),
    {
        &self.values
    }

    /// The nested tree of the mapping: each dotted key becomes a path of tables.
    pub fn to_table(&self) -> (r: Vec<(String, Value)>)
        ensures
            entries_view(r@) == unflatten(self.entries()),
    {
        let ghost m = self.entries();
        let mut table: Vec<(String, Value)> = Vec::new();
        let mut i: usize = 0;
        assert(m.subrange(0, 0) =~= Seq::<(Seq<char>, Val)>::empty());
        while i < self.values.len()
            invariant
                i <= self.values@.len(),
                m == self.entries(),
                entries_view(table@) == unflatten(m.subrange(0, i as int)),
            decreases self.values.len() - i,
        {
            let (key, value) = &self.values[i];
            assert(m.subrange(0, i + 1).drop_last() =~= m.subrange(0, i as int));
            let parts = split_key(key);
            proof {
                lemma_split_dots_len(key@);
            }
            assert(strings_view(parts@).subrange(0, parts@.len() as int) =~= strings_view(parts@));
            store_path(&mut table, &parts, 0, value.duplicate());
            i += 1;
        }
        assert(m.subrange(0, i as int) =~= m);
        table
    }
}

} // verus!
