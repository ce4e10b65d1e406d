//! Flattening and rebuilding well-formed configuration trees.

use vstd::prelude::*;
use crate::entries::{Entries, unique_keys, find_key, has_key, insert_absent, insert_entry, lemma_find_key_range, lookup};
use crate::laws::lemma_split_no_dot;
use crate::matches::{flatten, insert_path, join_key, merge_tree, split_dots, unflatten};
use crate::value::Val;

verus! {

pub open spec fn no_dot(s: Seq<char>) -> bool {
    forall|q: int| 0 <= q < s.len() ==> s[q] != '.'
}

/// A configuration tree whose keys, at every level, are distinct, non-empty and
/// free of dots.
pub open spec fn wf_tree(t: Seq<(Seq<char>, Val)>) -> bool
    decreases t,
{
    if t.len() == 0 {
        true
    } else {
        &&& wf_tree(t.drop_last())
        &&& t.last().0.len() > 0
        &&& no_dot(t.last().0)
        &&& !has_key(t.drop_last(), t.last().0)
        &&& match t.last().1 {
            Val::Tbl(inner) => wf_tree(inner),
            _ => true,
        }
    }
}

/// The flattening of `t` under `prefix` as a list: for each entry, the
/// flattening of its nested table, then the entry itself under its dotted key.
pub open spec fn flat_seq(t: Seq<(Seq<char>, Val)>, prefix: Seq<char>) -> Entries
    decreases t,
{
    if t.len() == 0 {
        Seq::empty()
    } else {
        let full = join_key(prefix, t.last().0);
        flat_seq(t.drop_last(), prefix) + match t.last().1 {
            Val::Tbl(inner) => flat_seq(inner, full),
            _ => Seq::empty(),
        } + seq![(full, t.last().1)]
    }
}

/// The key path that a prefix stands for.
pub open spec fn base(p: Seq<char>) -> Seq<Seq<char>> {
    if p.len() == 0 {
        Seq::empty()
    } else {
        split_dots(p)
    }
}

proof fn lemma_split_dot_append(x: Seq<char>, a: Seq<char>)
    requires
        no_dot(a),
    ensures
        split_dots(x + seq!['.'] + a) == split_dots(x).push(a),
    decreases a.len(),
{
    let y = x + seq!['.'] + a;
    if a.len() == 0 {
        assert(y.drop_last() =~= x);
        assert(a =~= Seq::<char>::empty());
    } else {
        let a0 = a.drop_last();
        assert(y.drop_last() =~= x + seq!['.'] + a0);
        lemma_split_dot_append(x, a0);
        assert(y.last() == a.last());
        assert(a0.push(a.last()) =~= a);
        assert(split_dots(x).push(a0).update(split_dots(x).len() as int, a0.push(a.last())) =~= split_dots(x).push(a));
    }
}

proof fn lemma_split_join(p: Seq<char>, a: Seq<char>)
    requires
        no_dot(a),
    ensures
        split_dots(join_key(p, a)) == base(p).push(a),
{
    if p.len() == 0 {
        lemma_split_no_dot(a);
        assert(base(p).push(a) =~= seq![a]);
    } else {
        lemma_split_dot_append(p, a);
    }
}

proof fn lemma_wf_parts(t: Seq<(Seq<char>, Val)>)
    requires
        wf_tree(t),
        t.len() > 0,
    ensures
        wf_tree(t.drop_last()),
        t.last().1 matches Val::Tbl(inner) ==> wf_tree(inner),
        forall|k: Seq<char>| has_key(t.drop_last(), k) ==> has_key(t, k),
        has_key(t, t.last().0),
{
    assert forall|k: Seq<char>| has_key(t.drop_last(), k) implies has_key(t, k) by {
        if t.last().0 != k {
        }
    }
}

/// Every key of `flat_seq(t, p)` is a path below `p` whose next part is a key of `t`.
proof fn lemma_flat_paths(t: Seq<(Seq<char>, Val)>, p: Seq<char>)
    requires
        wf_tree(t),
    ensures
        forall|i: int|
            0 <= i < flat_seq(t, p).len() ==> {
                let s = #[trigger] split_dots(flat_seq(t, p)[i].0);
                &&& s.len() > base(p).len()
                &&& s.subrange(0, base(p).len() as int) == base(p)
                &&& has_key(t, s[base(p).len() as int])
            },
    decreases t,
{
    if t.len() > 0 {
        let d = t.drop_last();
        let a = t.last().0;
        let full = join_key(p, a);
        let b = base(p);
        lemma_wf_parts(t);
        lemma_flat_paths(d, p);
        lemma_split_join(p, a);
        let fa = flat_seq(d, p);
        let m = match t.last().1 {
            Val::Tbl(inner) => flat_seq(inner, full),
            _ => Seq::empty(),
        };
        let f = flat_seq(t, p);
        assert(f == fa + m + seq![(full, t.last().1)]);
        assert(base(full) == b.push(a)) by {
            assert(full.len() > 0);
        }
        if let Val::Tbl(inner) = t.last().1 {
            lemma_flat_paths(inner, full);
        }
        assert forall|i: int| 0 <= i < f.len() implies {
            let s = #[trigger] split_dots(f[i].0);
            &&& s.len() > b.len()
            &&& s.subrange(0, b.len() as int) == b
            &&& has_key(t, s[b.len() as int])
        } by {
            let s = split_dots(f[i].0);
            if i < fa.len() {
                assert(f[i] == fa[i]);
            } else if i < fa.len() + m.len() {
                assert(f[i] == m[i - fa.len()]);
                let s2 = split_dots(m[i - fa.len()].0);
                assert(s2.subrange(0, b.len() as int + 1) == b.push(a));
                assert(s2.subrange(0, b.len() as int) =~= b.push(a).subrange(0, b.len() as int));
                assert(b.push(a).subrange(0, b.len() as int) =~= b);
                assert(s2[b.len() as int] == s2.subrange(0, b.len() as int + 1)[b.len() as int]);
            } else {
                assert(f[i] == (full, t.last().1));
                assert(s == b.push(a));
                assert(s.subrange(0, b.len() as int) =~= b);
            }
        }
    }
}


proof fn lemma_flat_unique(t: Seq<(Seq<char>, Val)>, p: Seq<char>)
    requires
        wf_tree(t),
    ensures
        unique_keys(flat_seq(t, p)),
    decreases t,
{
    if t.len() > 0 {
        let d = t.drop_last();
        let a = t.last().0;
        let full = join_key(p, a);
        let b = base(p);
        lemma_wf_parts(t);
        lemma_flat_paths(d, p);
        lemma_flat_unique(d, p);
        lemma_split_join(p, a);
        let fa = flat_seq(d, p);
        let m = match t.last().1 {
            Val::Tbl(inner) => flat_seq(inner, full),
            _ => Seq::empty(),
        };
        let f = flat_seq(t, p);
        assert(f == fa + m + seq![(full, t.last().1)]);
        assert(base(full) == b.push(a)) by {
            assert(full.len() > 0);
        }
        if let Val::Tbl(inner) = t.last().1 {
            lemma_flat_paths(inner, full);
            lemma_flat_unique(inner, full);
        }
        assert forall|i: int, j: int| 0 <= i < j < f.len() implies f[i].0 != f[j].0 by {
            let n = fa.len() as int;
            let k = m.len() as int;
            if j < n {
                assert(f[i] == fa[i] && f[j] == fa[j]);
            } else if i >= n && j < n + k {
                assert(f[i] == m[i - n] && f[j] == m[j - n]);
            } else if i < n {
                assert(f[i] == fa[i]);
                let si = split_dots(fa[i].0);
                assert(has_key(d, si[b.len() as int]));
                if j < n + k {
                    assert(f[j] == m[j - n]);
                    let sj = split_dots(m[j - n].0);
                    assert(sj.subrange(0, b.len() as int + 1) == b.push(a));
                    assert(sj[b.len() as int] == sj.subrange(0, b.len() as int + 1)[b.len() as int]);
                    assert(si != sj);
                } else {
                    assert(f[j] == (full, t.last().1));
                    assert(split_dots(f[j].0) == b.push(a));
                    assert(si[b.len() as int] != b.push(a)[b.len() as int]);
                }
            } else {
                assert(f[i] == m[i - n]);
                assert(f[j] == (full, t.last().1));
                let si = split_dots(m[i - n].0);
                assert(si.len() > b.len() + 1);
                assert(split_dots(f[j].0).len() == b.len() + 1);
            }
        }
    }
}

proof fn lemma_no_key(s: Entries, k: Seq<char>)
    requires
        forall|i: int| 0 <= i < s.len() ==> s[i].0 != k,
    ensures
        !has_key(s, k),
{
    lemma_find_key_range(s, k);
}

/// With keys that are new to `acc` and distinct, merging `t` appends its flattening.
proof fn lemma_merge_appends(acc: Entries, t: Seq<(Seq<char>, Val)>, p: Seq<char>)
    requires
        wf_tree(t),
        forall|i: int, j: int| 0 <= i < acc.len() && 0 <= j < flat_seq(t, p).len() ==> #[trigger] acc[i].0 != #[trigger] flat_seq(t, p)[j].0,
    ensures
        merge_tree(acc, t, p) == acc + flat_seq(t, p),
    decreases t,
{
    let f = flat_seq(t, p);
    if t.len() == 0 {
        assert(acc + f =~= acc);
    } else {
        let d = t.drop_last();
        let a = t.last().0;
        let full = join_key(p, a);
        lemma_wf_parts(t);
        lemma_flat_unique(t, p);
        let fa = flat_seq(d, p);
        let m = match t.last().1 {
            Val::Tbl(inner) => flat_seq(inner, full),
            _ => Seq::empty(),
        };
        assert(f == fa + m + seq![(full, t.last().1)]);
        let n = fa.len() as int;
        let k = m.len() as int;
        assert forall|i: int, j: int| 0 <= i < acc.len() && 0 <= j < fa.len() implies #[trigger] acc[i].0 != #[trigger] fa[j].0 by {
            assert(f[j] == fa[j]);
        }
        lemma_merge_appends(acc, d, p);
        let v0 = acc + fa;
        let v1 = match t.last().1 {
            Val::Tbl(inner) => merge_tree(v0, inner, full),
            _ => v0,
        };
        if let Val::Tbl(inner) = t.last().1 {
            assert forall|i: int, j: int| 0 <= i < v0.len() && 0 <= j < m.len() implies #[trigger] v0[i].0 != #[trigger] m[j].0 by {
                assert(f[n + j] == m[j]);
                if i < acc.len() {
                    assert(v0[i] == acc[i]);
                } else {
                    assert(v0[i] == fa[i - acc.len()]);
                    assert(f[i - acc.len()] == fa[i - acc.len()]);
                }
            }
            lemma_merge_appends(v0, inner, full);
        }
        assert(v1 == v0 + m);
        assert forall|i: int| 0 <= i < v1.len() implies v1[i].0 != full by {
            assert(f[n + k] == (full, t.last().1));
            if i < acc.len() {
                assert(v1[i] == acc[i]);
                assert(acc[i].0 != f[n + k].0);
            } else if i < acc.len() + n {
                assert(v1[i] == fa[i - acc.len()]);
                assert(f[i - acc.len()] == fa[i - acc.len()]);
                assert(f[i - acc.len()].0 != f[n + k].0);
            } else {
                assert(v1[i] == m[i - acc.len() - n]);
                assert(f[i - acc.len()] == m[i - acc.len() - n]);
                assert(f[i - acc.len()].0 != f[n + k].0);
            }
        }
        lemma_no_key(v1, full);
        assert(insert_absent(v1, full, t.last().1) == v1.push((full, t.last().1)));
        assert(v1.push((full, t.last().1)) =~= acc + f);
    }
}



/// `y` stored entry by entry into `cur`, as `unflatten` does.
pub open spec fn fold_paths(cur: Entries, y: Entries) -> Entries
    decreases y.len(),
{
    if y.len() == 0 {
        cur
    } else {
        insert_path(fold_paths(cur, y.drop_last()), split_dots(y.last().0), y.last().1)
    }
}

proof fn lemma_unflatten_concat(x: Entries, y: Entries)
    ensures
        unflatten(x + y) == fold_paths(unflatten(x), y),
    decreases y.len(),
{
    if y.len() == 0 {
        assert(x + y =~= x);
    } else {
        assert((x + y).drop_last() =~= x + y.drop_last());
        assert((x + y).last() == y.last());
        lemma_unflatten_concat(x, y.drop_last());
    }
}

/// Storing paths that all start with `a` (and go deeper) leaves `d` as it was,
/// with at most one entry for `a` after it.
proof fn lemma_fold_under(d: Entries, y: Entries, a: Seq<char>)
    requires
        !has_key(d, a),
        forall|i: int|
            0 <= i < y.len() ==> (#[trigger] split_dots(y[i].0)).len() >= 2 && split_dots(y[i].0)[0] == a,
    ensures
        fold_paths(d, y) == d || (fold_paths(d, y).len() == d.len() + 1 && fold_paths(d, y).subrange(
            0,
            d.len() as int,
        ) == d && fold_paths(d, y).last().0 == a),
    decreases y.len(),
{
    if y.len() > 0 {
        let y0 = y.drop_last();
        assert forall|i: int| 0 <= i < y0.len() implies (#[trigger] split_dots(y0[i].0)).len() >= 2 && split_dots(
            y0[i].0,
        )[0] == a by {
            assert(y0[i] == y[i]);
        }
        lemma_fold_under(d, y0, a);
        let r0 = fold_paths(d, y0);
        let parts = split_dots(y.last().0);
        assert(split_dots(y[y.len() - 1].0).len() >= 2);
        lemma_find_key_range(d, a);
        if r0 == d {
            assert(lookup(r0, a) is None);
        } else {
            assert(r0 =~= d.push(r0.last()));
            lemma_find_key_range(r0, a);
            assert(find_key(r0, a) == d.len()) by {
                if find_key(r0, a) < d.len() {
                    if find_key(r0, a) >= 0 {
                        assert(r0[find_key(r0, a)] == d[find_key(r0, a)]);
                        assert(find_key(d, a) >= find_key(r0, a)) by {
                            lemma_find_key_range(d, a);
                        }
                    }
                }
            }
            if let Some(Val::Tbl(inner)) = lookup(r0, a) {
                let nv = Val::Tbl(insert_path(inner, parts.drop_first(), y.last().1));
                assert(insert_entry(r0, a, nv) =~= d.push((a, nv)));
            }
        }
    }
}

/// Rebuilding the tree from its flattening gives the tree back.
pub proof fn lemma_unflatten_flat(t: Seq<(Seq<char>, Val)>)
    requires
        wf_tree(t),
    ensures
        unflatten(flat_seq(t, Seq::empty())) == t,
    decreases t,
{
    if t.len() > 0 {
        let p = Seq::<char>::empty();
        let d = t.drop_last();
        let a = t.last().0;
        let v = t.last().1;
        lemma_wf_parts(t);
        lemma_unflatten_flat(d);
        assert(join_key(p, a) == a);
        let fa = flat_seq(d, p);
        let m = match v {
            Val::Tbl(inner) => flat_seq(inner, a),
            _ => Seq::empty(),
        };
        let f = flat_seq(t, p);
        assert(f == fa + m + seq![(a, v)]);
        assert(f.drop_last() =~= fa + m);
        lemma_unflatten_concat(fa, m);
        lemma_split_no_dot(a);
        if let Val::Tbl(inner) = v {
            lemma_flat_paths(inner, a);
            assert(base(a) == seq![a]);
            assert forall|i: int| 0 <= i < m.len() implies (#[trigger] split_dots(m[i].0)).len() >= 2 && split_dots(
                m[i].0,
            )[0] == a by {
                let s = split_dots(m[i].0);
                assert(s.subrange(0, 1) == seq![a]);
                assert(s[0] == s.subrange(0, 1)[0]);
            }
        }
        lemma_fold_under(d, m, a);
        let r = fold_paths(d, m);
        assert(unflatten(f) == insert_path(r, seq![a], v));
        assert(insert_path(r, seq![a], v) == insert_entry(r, a, v));
        lemma_find_key_range(d, a);
        if r == d {
            assert(insert_entry(r, a, v) =~= t);
        } else {
            assert(r =~= d.push(r.last()));
            lemma_find_key_range(r, a);
            assert(find_key(r, a) == d.len()) by {
                if find_key(r, a) < d.len() && find_key(r, a) >= 0 {
                    assert(r[find_key(r, a)] == d[find_key(r, a)]);
                }
            }
            assert(insert_entry(r, a, v) =~= t);
        }
    }
}

/// Flattening a well-formed tree, rebuilding a tree from that and merging it
/// into a mapping gives what merging the tree itself gives.
pub proof fn lemma_merge_rebuilt(cli: Entries, t: Seq<(Seq<char>, Val)>)
    requires
        wf_tree(t),
    ensures
        merge_tree(cli, unflatten(flatten(t)), Seq::empty()) == merge_tree(cli, t, Seq::empty()),
        unflatten(flatten(t)) == t,
{
    lemma_merge_appends(Seq::empty(), t, Seq::empty());
    assert(Seq::<(Seq<char>, Val)>::empty() + flat_seq(t, Seq::empty()) =~= flat_seq(t, Seq::empty()));
    lemma_unflatten_flat(t);
}

/// A mapping that is the flattening of a well-formed tree comes back unchanged
/// from a round trip through a tree.
pub proof fn lemma_round_trip_flattened(t: Seq<(Seq<char>, Val)>)
    requires
        wf_tree(t),
    ensures
        flatten(unflatten(flatten(t))) == flatten(t),
{
    lemma_merge_rebuilt(Seq::empty(), t);
}

} // verus!
