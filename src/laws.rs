//! Properties of resolution: precedence of the layers, repeated short flags,
//! and round trips between flat mappings and trees.

use vstd::prelude::*;
use crate::arg::{Arg, ArgType};
use crate::entries::{Entries, find_key, has_key, insert_entry, lemma_find_key_range, lemma_lookup_insert, lemma_lookup_insert_absent, lookup};
use crate::parser::{Tally, bump, cluster, run, short_of, tokenize};
use crate::matches::{apply_defaults, default_for, flatten, insert_path, join_key, merge_tree, split_dots, unflatten};
use crate::command::outcome;
use crate::value::Val;

verus! {

/// Merging a tree into a mapping keeps every value the mapping had, and adds for
/// each other key the value that the flattened tree holds.
pub proof fn lemma_merge_lookup(vals: Entries, t: Seq<(Seq<char>, Val)>, p: Seq<char>, k: Seq<char>)
    ensures
        lookup(merge_tree(vals, t, p), k) == if has_key(vals, k) {
            lookup(vals, k)
        } else {
            lookup(merge_tree(Seq::empty(), t, p), k)
        },
    decreases t,
{
    if t.len() > 0 {
        let e: Entries = Seq::empty();
        let d = t.drop_last();
        let full = join_key(p, t.last().0);
        let x = t.last().1;
        lemma_merge_lookup(vals, d, p, k);
        lemma_merge_lookup(vals, d, p, full);
        let v0 = merge_tree(vals, d, p);
        let f0 = merge_tree(e, d, p);
        let (v1, f1) = match x {
            Val::Tbl(inner) => {
                lemma_merge_lookup(v0, inner, full, k);
                lemma_merge_lookup(f0, inner, full, k);
                lemma_merge_lookup(v0, inner, full, full);
                lemma_merge_lookup(f0, inner, full, full);
                (merge_tree(v0, inner, full), merge_tree(f0, inner, full))
            },
            _ => (v0, f0),
        };
        lemma_lookup_insert_absent(v1, full, x, k);
        lemma_lookup_insert_absent(f1, full, x, k);
    }
}

/// Applying defaults keeps every value present and adds the default of each absent name.
pub proof fn lemma_defaults_lookup(vals: Entries, specs: Seq<Arg>, k: Seq<char>)
    ensures
        lookup(apply_defaults(vals, specs), k) == if has_key(vals, k) {
            lookup(vals, k)
        } else {
            default_for(specs, k)
        },
    decreases specs.len(),
{
    if specs.len() > 0 {
        let d = specs.drop_last();
        lemma_defaults_lookup(vals, d, k);
        lemma_defaults_lookup(vals, d, specs.last().name@);
        match specs.last().default {
            Some(x) => {
                lemma_lookup_insert_absent(apply_defaults(vals, d), specs.last().name@, x@, k);
            },
            None => {},
        }
    }
}

/// The layered resolution of a key: the command line first, then the
/// configuration tree, then the declared default.
pub open spec fn resolve(cli: Entries, tree: Seq<(Seq<char>, Val)>, specs: Seq<Arg>) -> Entries {
    apply_defaults(merge_tree(cli, tree, Seq::empty()), specs)
}

/// A value given on the command line is the resolved value, whatever the
/// configuration tree holds for the same key.
pub proof fn lemma_cli_wins(cli: Entries, tree: Seq<(Seq<char>, Val)>, specs: Seq<Arg>, k: Seq<char>)
    requires
        has_key(cli, k),
    ensures
        lookup(resolve(cli, tree, specs), k) == lookup(cli, k),
{
    lemma_merge_lookup(cli, tree, Seq::empty(), k);
    lemma_defaults_lookup(merge_tree(cli, tree, Seq::empty()), specs, k);
}

/// A key absent from the command line and present in the flattened configuration
/// tree resolves to the tree's value, as it stands there.
pub proof fn lemma_config_fills(cli: Entries, tree: Seq<(Seq<char>, Val)>, specs: Seq<Arg>, k: Seq<char>)
    requires
        !has_key(cli, k),
        has_key(flatten(tree), k),
    ensures
        lookup(resolve(cli, tree, specs), k) == lookup(flatten(tree), k),
{
    lemma_merge_lookup(cli, tree, Seq::empty(), k);
    lemma_defaults_lookup(merge_tree(cli, tree, Seq::empty()), specs, k);
}

/// A key absent from the command line and from the configuration tree resolves
/// to the declared default, and is absent where none is declared.
pub proof fn lemma_default_fills(cli: Entries, tree: Seq<(Seq<char>, Val)>, specs: Seq<Arg>, k: Seq<char>)
    requires
        !has_key(cli, k),
        !has_key(flatten(tree), k),
    ensures
        lookup(resolve(cli, tree, specs), k) == default_for(specs, k),
{
    lemma_merge_lookup(cli, tree, Seq::empty(), k);
    lemma_defaults_lookup(merge_tree(cli, tree, Seq::empty()), specs, k);
}

/// The value that a flag given `n` times in one cluster ends with, from `m` before.
pub open spec fn repeated_flag_value(t: ArgType, m: int, n: int) -> Val {
    if t == ArgType::Count {
        Val::Int(m + n)
    } else {
        Val::Bool(true)
    }
}

proof fn lemma_cluster_repeat(
    specs: Seq<Arg>,
    cs: Seq<char>,
    j: int,
    next: Option<Seq<char>>,
    vals: Entries,
    c: char,
    i: int,
    m: int,
)
    requires
        0 <= j < cs.len(),
        forall|q: int| j <= q < cs.len() ==> cs[q] == c,
        short_of(specs, c) == Some(i),
        0 <= i < specs.len(),
        specs[i].arg_type == ArgType::Count || specs[i].arg_type == ArgType::Bool,
        specs[i].arg_type == ArgType::Count ==> lookup(vals, specs[i].name@) == Some(Val::Int(m)) || (m == 0
            && lookup(vals, specs[i].name@) is None),
        0 <= m,
        m + cs.len() - j <= i64::MAX,
    ensures
        cluster(specs, cs, j, next, vals) is Ok,
        lookup(cluster(specs, cs, j, next, vals)->Ok_0.0, specs[i].name@) == Some(
            repeated_flag_value(specs[i].arg_type, m, cs.len() - j),
        ),
    decreases cs.len() - j,
{
    let name = specs[i].name@;
    let v1 = if specs[i].arg_type == ArgType::Count {
        bump(vals, name)
    } else {
        crate::entries::insert_entry(vals, name, Val::Bool(true))
    };
    if specs[i].arg_type == ArgType::Count {
        lemma_lookup_insert(vals, name, Val::Int(m + 1), name);
    } else {
        lemma_lookup_insert(vals, name, Val::Bool(true), name);
    }
    if j + 1 < cs.len() {
        lemma_cluster_repeat(specs, cs, j + 1, next, v1, c, i, m + 1);
    }
}

/// A short flag written `n` times in one cluster (`-vvv`): a count flag counts
/// `n`, and a boolean flag is true however often it is repeated.
pub proof fn lemma_short_cluster(specs: Seq<Arg>, c: char, n: nat)
    requires
        1 <= n <= i64::MAX,
        c != '-',
        short_of(specs, c) is Some,
        specs[short_of(specs, c)->0].arg_type == ArgType::Count || specs[short_of(specs, c)->0].arg_type
            == ArgType::Bool,
    ensures
        ({
            let a = specs[short_of(specs, c)->0];
            let r = tokenize(specs, seq![seq!['-'] + Seq::new(n, |q: int| c)]);
            r is Ok && lookup(r->Ok_0.values, a.name@) == Some(repeated_flag_value(a.arg_type, 0, n as int))
        }),
{
    crate::parser::lemma_short_of_range(specs, c);
    let i = short_of(specs, c)->0;
    let t = seq!['-'] + Seq::new(n, |q: int| c);
    let toks = seq![t];
    let cs = t.subrange(1, t.len() as int);
    assert(cs =~= Seq::new(n, |q: int| c));
    assert(t[1] == c);
    lemma_cluster_repeat(specs, cs, 0, None, Seq::empty(), c, i, 0);
    let st0 = Tally { values: Seq::empty(), remaining: Seq::empty(), next_slot: 0, passthrough: false };
    let out = cluster(specs, cs, 0, None, Seq::empty())->Ok_0;
    assert(run(specs, toks, 1, Tally { values: out.0, ..st0 }) == Ok::<Tally, crate::error::Fault>(
        Tally { values: out.0, ..st0 },
    ));
    assert(t != seq!['-', '-']) by {
        if n == 1 {
            assert(t[1] != '-');
        }
    }
}

/// A flat mapping in which no key repeats, no key holds a dot and no value is a table.
pub open spec fn plain_mapping(m: Entries) -> bool {
    &&& forall|i: int, j: int| 0 <= i < j < m.len() ==> m[i].0 != m[j].0
    &&& forall|i: int, q: int| 0 <= i < m.len() && 0 <= q < m[i].0.len() ==> m[i].0[q] != '.'
    &&& forall|i: int| 0 <= i < m.len() ==> !(m[i].1 is Tbl)
}

pub proof fn lemma_split_no_dot(k: Seq<char>)
    requires
        forall|q: int| 0 <= q < k.len() ==> k[q] != '.',
    ensures
        split_dots(k) == seq![k],
    decreases k.len(),
{
    if k.len() > 0 {
        lemma_split_no_dot(k.drop_last());
        assert(k.drop_last().push(k.last()) =~= k);
    } else {
        assert(k =~= Seq::<char>::empty());
    }
}

proof fn lemma_absent_key(s: Entries, k: Seq<char>)
    requires
        forall|i: int| 0 <= i < s.len() ==> s[i].0 != k,
    ensures
        find_key(s, k) == -1,
{
    lemma_find_key_range(s, k);
}

proof fn lemma_plain_prefix(m: Entries)
    requires
        plain_mapping(m),
        m.len() > 0,
    ensures
        plain_mapping(m.drop_last()),
{
    let d = m.drop_last();
    assert forall|i: int, q: int| 0 <= i < d.len() && 0 <= q < d[i].0.len() implies d[i].0[q] != '.' by {
        assert(d[i] == m[i]);
    }
}

/// Turning a plain flat mapping into a tree and flattening it again gives the
/// mapping back, entry for entry.
pub proof fn lemma_round_trip(m: Entries)
    requires
        plain_mapping(m),
    ensures
        unflatten(m) == m,
        flatten(unflatten(m)) == m,
    decreases m.len(),
{
    if m.len() > 0 {
        let d = m.drop_last();
        let (k, v) = m.last();
        lemma_plain_prefix(m);
        lemma_round_trip(d);
        assert forall|q: int| 0 <= q < k.len() implies k[q] != '.' by {
            assert(m[m.len() - 1].0 == k);
        }
        lemma_split_no_dot(k);
        assert forall|i: int| 0 <= i < d.len() implies d[i].0 != k by {
            assert(d[i] == m[i]);
        }
        lemma_absent_key(d, k);
        assert(insert_path(d, seq![k], v) == insert_entry(d, k, v));
        assert(d.push((k, v)) =~= m);
        assert(join_key(Seq::empty(), k) == k);
        assert(m.drop_last() == d);
        assert(!has_key(d, k));
    } else {
        assert(m =~= Seq::<(Seq<char>, Val)>::empty());
    }
}

/// In a successful parse, each key takes its value from the command line, else
/// from the configuration tree, else from the declared default.
pub proof fn lemma_outcome_layers(
    specs: Seq<Arg>,
    toks: Seq<Seq<char>>,
    tree: Seq<(Seq<char>, Val)>,
    help: bool,
    version: bool,
    help_text: Seq<char>,
    version_text: Seq<char>,
    k: Seq<char>,
)
    requires
        outcome(specs, toks, tree, help, version, help_text, version_text) is Ok,
    ensures
        ({
            let cli = tokenize(specs, toks)->Ok_0.values;
            let r = outcome(specs, toks, tree, help, version, help_text, version_text)->Ok_0;
            &&& tokenize(specs, toks) is Ok
            &&& r == resolve(cli, tree, specs)
            &&& has_key(cli, k) ==> lookup(r, k) == lookup(cli, k)
            &&& !has_key(cli, k) && has_key(flatten(tree), k) ==> lookup(r, k) == lookup(flatten(tree), k)
            &&& !has_key(cli, k) && !has_key(flatten(tree), k) ==> lookup(r, k) == default_for(specs, k)
        }),
{
    let cli = tokenize(specs, toks)->Ok_0.values;
    if has_key(cli, k) {
        lemma_cli_wins(cli, tree, specs, k);
    } else if has_key(flatten(tree), k) {
        lemma_config_fills(cli, tree, specs, k);
    } else {
        lemma_default_fills(cli, tree, specs, k);
    }
}

} // verus!
