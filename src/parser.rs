//! The argument registry and the tokenizer state machine, with its model.

use vstd::prelude::*;
use crate::arg::{Arg, ArgType};
use crate::entries::{Entries, unique_keys, entries_view, get_entry, has_key, insert_entry, lookup, set_entry};
use crate::error::{Error, Fault};
use crate::matches::{Matches, strings_view};
use crate::text::{chars_of, flag_text, float_text, i64_text, is_float_text, is_true_word, lower_of, parse_i64, prefixed, string_of};
use crate::value::{Val, Value, array_push};

verus! {

// ---------------------------------------------------------------------------
// The registry: which declared argument a flag or a slot names.
/// The last non-positional argument whose short alias is `c`.
pub open spec fn short_of(specs: Seq<Arg>, c: char) -> Option<int>
    decreases specs.len(),
{
    if specs.len() == 0 {
        None
    } else if !specs.last().positional && specs.last().short == Some(c) {
        Some(specs.len() - 1)
    } else {
        short_of(specs.drop_last(), c)
    }
}

/// The last non-positional argument whose long alias is `l`.
pub open spec fn long_of(specs: Seq<Arg>, l: Seq<char>) -> Option<int>
    decreases specs.len(),
{
    if specs.len() == 0 {
        None
    } else if !specs.last().positional && specs.last().long is Some && specs.last().long->0@ == l {
        Some(specs.len() - 1)
    } else {
        long_of(specs.drop_last(), l)
    }
}

/// The position of an argument as a sort key: an unset position sorts first.
pub open spec fn pos_key(a: Arg) -> int {
    match a.position {
        Some(p) => p as int,
        None => -1,
    }
}

/// Where index `i` goes among the indices `s`: before the first one, from `q`
/// on, whose position is greater, else at the end.
pub open spec fn insert_from(specs: Seq<Arg>, s: Seq<int>, i: int, q: int) -> int
    decreases s.len() - q,
{
    if q < 0 || q >= s.len() {
        s.len() as int
    } else if pos_key(specs[s[q]]) > pos_key(specs[i]) {
        q
    } else {
        insert_from(specs, s, i, q + 1)
    }
}

/// The positional arguments among the first `n`, sorted by position; those
/// with equal positions stay in declaration order.
pub open spec fn slots_upto(specs: Seq<Arg>, n: int) -> Seq<int>
    decreases n,
{
    if n <= 0 {
        Seq::empty()
    } else {
        let p = slots_upto(specs, n - 1);
        if specs[n - 1].positional {
            p.insert(insert_from(specs, p, n - 1, 0), n - 1)
        } else {
            p
        }
    }
}

/// The positional arguments, by slot: their indices sorted by position.
pub open spec fn slots(specs: Seq<Arg>) -> Seq<int> {
    slots_upto(specs, specs.len() as int)
}

// ---------------------------------------------------------------------------
// Coercion of raw text.
/// The value that `text` coerces to under type `t`.
pub open spec fn coerce(text: Seq<char>, t: ArgType) -> Result<Val, Fault> {
    match t {
        ArgType::Integer | ArgType::Count => match i64_text(text) {
            Some(v) => Ok(Val::Int(v)),
            None => Err(Fault::InvalidValue { name: Seq::empty(), value: text, expected: "an integer"@ }),
        },
        ArgType::Float => if is_float_text(text) {
            Ok(Val::Float(text))
        } else {
            Err(Fault::InvalidValue { name: Seq::empty(), value: text, expected: "a number"@ })
        },
        ArgType::Bool => Ok(Val::Bool(is_true_word(lower_of(text)))),
        ArgType::String | ArgType::Array => Ok(Val::Str(text)),
    }
}

// ---------------------------------------------------------------------------
// Updates of the mapping.
/// `item` appended to the array under `name`; an absent array starts empty.
pub open spec fn append_item(vals: Entries, name: Seq<char>, item: Val) -> Entries {
    match lookup(vals, name) {
        None => insert_entry(vals, name, Val::Arr(seq![item])),
        Some(Val::Arr(s)) => insert_entry(vals, name, Val::Arr(s.push(item))),
        Some(_) => vals,
    }
}

/// The count under `name` plus one; an absent count is zero. It stops at the
/// largest 64-bit integer.
pub open spec fn bump(vals: Entries, name: Seq<char>) -> Entries {
    let cur = match lookup(vals, name) {
        Some(Val::Int(n)) => n,
        _ => 0,
    };
    insert_entry(vals, name, Val::Int(if cur < i64::MAX { cur + 1 } else { cur }))
}

/// Stores the value `text` given for argument `a`.
pub open spec fn store(a: Arg, text: Seq<char>, vals: Entries) -> Result<Entries, Fault> {
    if a.arg_type == ArgType::Array {
        Ok(append_item(vals, a.name@, Val::Str(text)))
    } else if has_key(vals, a.name@) && a.arg_type != ArgType::Count {
        Err(Fault::DuplicateValue { name: a.name@ })
    } else {
        match coerce(text, a.arg_type) {
            Ok(v) => Ok(insert_entry(vals, a.name@, v)),
            Err(e) => Err(e),
        }
    }
}

/// `store`, also telling whether the next token was taken.
pub open spec fn store_taking(a: Arg, text: Seq<char>, vals: Entries, took: bool) -> Result<(Entries, bool), Fault> {
    match store(a, text, vals) {
        Ok(v) => Ok((v, took)),
        Err(e) => Err(e),
    }
}

/// One occurrence of the long flag of `a`, with its inline value if any; `next`
/// is the token after it. Tells whether that token was taken as the value.
pub open spec fn long_flag(a: Arg, inline: Option<Seq<char>>, next: Option<Seq<char>>, vals: Entries) -> Result<
    (Entries, bool),
    Fault,
> {
    match a.arg_type {
        ArgType::Bool => Ok(
            (
                insert_entry(
                    vals,
                    a.name@,
                    Val::Bool(
                        match inline {
                            Some(t) => is_true_word(lower_of(t)),
                            None => true,
                        },
                    ),
                ),
                false,
            ),
        ),
        ArgType::Count => Ok((bump(vals, a.name@), false)),
        _ => match inline {
            Some(t) => store_taking(a, t, vals, false),
            None => match next {
                Some(t) => store_taking(a, t, vals, true),
                None => Err(Fault::MissingValue { name: a.name@ }),
            },
        },
    }
}

/// The characters `cs[j..]` of a short-flag cluster, read left to right.
pub open spec fn cluster(specs: Seq<Arg>, cs: Seq<char>, j: int, next: Option<Seq<char>>, vals: Entries) -> Result<
    (Entries, bool),
    Fault,
>
    decreases cs.len() - j,
{
    if j < 0 || j >= cs.len() {
        Ok((vals, false))
    } else {
        match short_of(specs, cs[j]) {
            None => Err(Fault::UnknownFlag { flag: seq!['-', cs[j]] }),
            Some(i) => {
                let a = specs[i];
                match a.arg_type {
                    ArgType::Bool => cluster(specs, cs, j + 1, next, insert_entry(vals, a.name@, Val::Bool(true))),
                    ArgType::Count => cluster(specs, cs, j + 1, next, bump(vals, a.name@)),
                    _ => if j + 1 < cs.len() {
                        store_taking(a, cs.subrange(j + 1, cs.len() as int), vals, false)
                    } else {
                        match next {
                            Some(t) => store_taking(a, t, vals, true),
                            None => Err(Fault::MissingValue { name: a.name@ }),
                        }
                    },
                }
            },
        }
    }
}

/// The positional value `text`, the `k`-th one (from zero).
pub open spec fn place(specs: Seq<Arg>, text: Seq<char>, k: nat, vals: Entries) -> Result<Entries, Fault> {
    let sl = slots(specs);
    if k < sl.len() {
        let a = specs[sl[k as int]];
        if a.variadic {
            Ok(append_item(vals, a.name@, Val::Str(text)))
        } else {
            match coerce(text, a.arg_type) {
                Ok(v) => Ok(insert_entry(vals, a.name@, v)),
                Err(e) => Err(e),
            }
        }
    } else if sl.len() > 0 && specs[sl.last()].variadic {
        Ok(append_item(vals, specs[sl.last()].name@, Val::Str(text)))
    } else {
        Err(Fault::TooManyPositional { max: sl.len(), got: k + 1 })
    }
}

/// The position of the first `=` in `s`, or -1.
pub open spec fn eq_pos(s: Seq<char>) -> int
    decreases s.len(),
{
    if s.len() == 0 {
        -1
    } else if s[0] == '=' {
        0
    } else {
        let p = eq_pos(s.drop_first());
        if p < 0 {
            -1
        } else {
            p + 1
        }
    }
}

/// The boolean argument that `rest` (a long flag without its dashes) negates:
/// `rest` is `no-` followed by that argument's long alias.
pub open spec fn negated(specs: Seq<Arg>, rest: Seq<char>) -> Option<int> {
    if rest.len() >= 3 && rest[0] == 'n' && rest[1] == 'o' && rest[2] == '-' {
        match long_of(specs, rest.subrange(3, rest.len() as int)) {
            Some(i) => if specs[i].arg_type == ArgType::Bool {
                Some(i)
            } else {
                None
            },
            None => None,
        }
    } else {
        None
    }
}

/// The state of the tokenizer between two tokens.
pub struct Tally {
    pub values: Entries,
    pub remaining: Seq<Seq<char>>,
    pub next_slot: nat,
    pub passthrough: bool,
}

/// The tokenizer: reads `toks[i..]` from state `st`.
pub open spec fn run(specs: Seq<Arg>, toks: Seq<Seq<char>>, i: int, st: Tally) -> Result<Tally, Fault>
    decreases toks.len() - i,
{
    if i < 0 || i >= toks.len() {
        Ok(st)
    } else {
        let t = toks[i];
        let next = if i + 1 < toks.len() {
            Some(toks[i + 1])
        } else {
            None
        };
        if st.passthrough {
            run(specs, toks, i + 1, Tally { remaining: st.remaining.push(t), ..st })
        } else if t == seq!['-', '-'] {
            run(specs, toks, i + 1, Tally { passthrough: true, ..st })
        } else if t.len() >= 2 && t[0] == '-' && t[1] == '-' {
            let rest = t.subrange(2, t.len() as int);
            match negated(specs, rest) {
                Some(n) => run(
                    specs,
                    toks,
                    i + 1,
                    Tally { values: insert_entry(st.values, specs[n].name@, Val::Bool(false)), ..st },
                ),
                None => {
                    let p = eq_pos(rest);
                    let flag = if p >= 0 {
                        rest.subrange(0, p)
                    } else {
                        rest
                    };
                    let inline = if p >= 0 {
                        Some(rest.subrange(p + 1, rest.len() as int))
                    } else {
                        None
                    };
                    match long_of(specs, flag) {
                        None => Err(Fault::UnknownFlag { flag: seq!['-', '-'] + flag }),
                        Some(n) => match long_flag(specs[n], inline, next, st.values) {
                            Ok((v, took)) => run(
                                specs,
                                toks,
                                if took && next is Some {
                                    i + 2
                                } else {
                                    i + 1
                                },
                                Tally { values: v, ..st },
                            ),
                            Err(e) => Err(e),
                        },
                    }
                },
            }
        } else if t.len() >= 2 && t[0] == '-' {
            match cluster(specs, t.subrange(1, t.len() as int), 0, next, st.values) {
                Ok((v, took)) => run(
                    specs,
                    toks,
                    if took && next is Some {
                        i + 2
                    } else {
                        i + 1
                    },
                    Tally { values: v, ..st },
                ),
                Err(e) => Err(e),
            }
        } else {
            match place(specs, t, st.next_slot, st.values) {
                Ok(v) => run(specs, toks, i + 1, Tally { values: v, next_slot: st.next_slot + 1, ..st }),
                Err(e) => Err(e),
            }
        }
    }
}

/// The tokenizer on a whole token list, from the empty state.
pub open spec fn tokenize(specs: Seq<Arg>, toks: Seq<Seq<char>>) -> Result<Tally, Fault> {
    run(specs, toks, 0, Tally { values: Seq::empty(), remaining: Seq::empty(), next_slot: 0, passthrough: false })
}

pub proof fn lemma_short_of_range(specs: Seq<Arg>, c: char)
    ensures
        short_of(specs, c) matches Some(i) ==> 0 <= i < specs.len() && specs[i].short == Some(c)
            && !specs[i].positional,
    decreases specs.len(),
{
    if specs.len() > 0 {
        lemma_short_of_range(specs.drop_last(), c);
    }
}

proof fn lemma_insert_from_range(specs: Seq<Arg>, s: Seq<int>, i: int, q: int)
    requires
        0 <= q <= s.len(),
    ensures
        q <= insert_from(specs, s, i, q) <= s.len(),
    decreases s.len() - q,
{
    if q < s.len() {
        lemma_insert_from_range(specs, s, i, q + 1);
    }
}

proof fn lemma_slots_upto_range(specs: Seq<Arg>, n: int)
    requires
        0 <= n <= specs.len(),
    ensures
        forall|k: int|
            0 <= k < slots_upto(specs, n).len() ==> 0 <= #[trigger] slots_upto(specs, n)[k] < n
                && specs[slots_upto(specs, n)[k]].positional,
    decreases n,
{
    if n > 0 {
        lemma_slots_upto_range(specs, n - 1);
        let p = slots_upto(specs, n - 1);
        if specs[n - 1].positional {
            let q = insert_from(specs, p, n - 1, 0);
            lemma_insert_from_range(specs, p, n - 1, 0);
            p.insert_ensures(q, n - 1);
            let r = p.insert(q, n - 1);
            assert forall|k: int| 0 <= k < r.len() implies 0 <= #[trigger] r[k] < n && specs[r[k]].positional by {
                if k > q {
                    assert(r[k] == p[k - 1]);
                }
            }
        }
    }
}

/// The indices `s` are in order of position.
pub open spec fn by_position(specs: Seq<Arg>, s: Seq<int>) -> bool {
    forall|a: int, b: int| 0 <= a < b < s.len() ==> pos_key(specs[#[trigger] s[a]]) <= pos_key(specs[#[trigger] s[b]])
}

proof fn lemma_insert_from_split(specs: Seq<Arg>, s: Seq<int>, i: int, q: int)
    requires
        0 <= q <= s.len(),
        by_position(specs, s),
        forall|k: int| 0 <= k < q ==> pos_key(specs[#[trigger] s[k]]) <= pos_key(specs[i]),
    ensures
        forall|k: int| 0 <= k < insert_from(specs, s, i, q) ==> pos_key(specs[#[trigger] s[k]]) <= pos_key(specs[i]),
        forall|k: int|
            insert_from(specs, s, i, q) <= k < s.len() ==> pos_key(specs[#[trigger] s[k]]) > pos_key(specs[i]),
    decreases s.len() - q,
{
    if q < s.len() {
        if pos_key(specs[s[q]]) > pos_key(specs[i]) {
            assert forall|k: int| q <= k < s.len() implies pos_key(specs[#[trigger] s[k]]) > pos_key(specs[i]) by {
                if k > q {
                    assert(pos_key(specs[s[q]]) <= pos_key(specs[s[k]]));
                }
            }
        } else {
            lemma_insert_from_split(specs, s, i, q + 1);
        }
    }
}

/// The slots are sorted by position.
pub proof fn lemma_slots_sorted(specs: Seq<Arg>, n: int)
    requires
        0 <= n <= specs.len(),
    ensures
        by_position(specs, slots_upto(specs, n)),
    decreases n,
{
    if n > 0 {
        lemma_slots_sorted(specs, n - 1);
        let p = slots_upto(specs, n - 1);
        if specs[n - 1].positional {
            let q = insert_from(specs, p, n - 1, 0);
            lemma_insert_from_range(specs, p, n - 1, 0);
            lemma_insert_from_split(specs, p, n - 1, 0);
            p.insert_ensures(q, n - 1);
            let r = p.insert(q, n - 1);
            assert forall|a: int, b: int| 0 <= a < b < r.len() implies pos_key(specs[#[trigger] r[a]]) <= pos_key(
                specs[#[trigger] r[b]],
            ) by {
                if a < q {
                    if b < q {
                    } else if b == q {
                    } else {
                        assert(r[b] == p[b - 1]);
                    }
                } else if a == q {
                    assert(r[b] == p[b - 1]);
                } else {
                    assert(r[a] == p[a - 1]);
                    assert(r[b] == p[b - 1]);
                }
            }
        }
    }
}

pub proof fn lemma_slots_range(specs: Seq<Arg>)
    ensures
        forall|k: int| 0 <= k < slots(specs).len() ==> 0 <= #[trigger] slots(specs)[k] < specs.len() && specs[slots(specs)[k]].positional,
{
    lemma_slots_upto_range(specs, specs.len() as int);
}

/// The argument whose short alias is `c`.
pub fn short_index(args: &[Arg], c: char) -> (r: Option<usize>)
    ensures
        match r {
            Some(i) => i < args@.len() && short_of(args@, c) == Some(i as int),
            None => short_of(args@, c) is None,
        },
{
    let mut n: usize = args.len();
    assert(args@.subrange(0, n as int) =~= args@);
    while n > 0
        invariant
            n <= args@.len(),
            short_of(args@, c) == short_of(args@.subrange(0, n as int), c),
        decreases n,
    {
        assert(args@.subrange(0, n as int).drop_last() =~= args@.subrange(0, n - 1));
        if !args[n - 1].positional && args[n - 1].short == Some(c) {
            return Some(n - 1);
        }
        n -= 1;
    }
    None
}

/// The argument whose long alias is `l`.
pub fn long_index(args: &[Arg], l: &String) -> (r: Option<usize>)
    ensures
        match r {
            Some(i) => i < args@.len() && long_of(args@, l@) == Some(i as int),
            None => long_of(args@, l@) is None,
        },
{
    let mut n: usize = args.len();
    assert(args@.subrange(0, n as int) =~= args@);
    while n > 0
        invariant
            n <= args@.len(),
            long_of(args@, l@) == long_of(args@.subrange(0, n as int), l@),
        decreases n,
    {
        assert(args@.subrange(0, n as int).drop_last() =~= args@.subrange(0, n - 1));
        let a = &args[n - 1];
        if !a.positional {
            match &a.long {
                Some(x) => {
                    if *x == *l {
                        return Some(n - 1);
                    }
                },
                None => {},
            }
        }
        n -= 1;
    }
    None
}

/// Whether `a` has a greater position than `b`.
fn pos_after(a: &Arg, b: &Arg) -> (r: bool)
    ensures
        r == (pos_key(*a) > pos_key(*b)),
{
    match (a.position, b.position) {
        (Some(x), Some(y)) => x > y,
        (Some(_), None) => true,
        _ => false,
    }
}

/// The positional arguments, by slot: their indices sorted by position.
pub fn slot_indices(args: &[Arg]) -> (r: Vec<usize>)
    ensures
        r@.map_values(|x: usize| x as int) == slots(args@),
{
    let mut out: Vec<usize> = Vec::new();
    let mut i: usize = 0;
    assert(out@.map_values(|x: usize| x as int) =~= Seq::<int>::empty());
    while i < args.len()
        invariant
            i <= args@.len(),
            out@.map_values(|x: usize| x as int) == slots_upto(args@, i as int),
            forall|k: int| 0 <= k < out@.len() ==> (#[trigger] out@[k]) < i,
        decreases args.len() - i,
    {
        if args[i].positional {
            let ghost p = slots_upto(args@, i as int);
            let mut q: usize = 0;
            while q < out.len() && !pos_after(&args[out[q]], &args[i])
                invariant
                    i < args@.len(),
                    q <= out@.len(),
                    p == out@.map_values(|x: usize| x as int),
                    forall|k: int| 0 <= k < out@.len() ==> (#[trigger] out@[k]) < i,
                    insert_from(args@, p, i as int, 0) == insert_from(args@, p, i as int, q as int),
                decreases out.len() - q,
            {
                q += 1;
            }
            let ghost before = out@;
            out.insert(q, i);
            proof {
                before.insert_ensures(q as int, i);
                p.insert_ensures(q as int, i as int);
                assert(out@.map_values(|x: usize| x as int) =~= p.insert(q as int, i as int));
            }
        }
        i += 1;
    }
    out
}

/// Coerces raw text to a value of type `t`.
pub fn parse_value_as_type(text: &str, t: ArgType) -> (r: Result<Value, Error>)
    ensures
        match r {
            Ok(v) => coerce(text@, t) == Ok::<Val, Fault>(v@),
            Err(e) => coerce(text@, t) == Err::<Val, Fault>(e@),
        },
{
    match t {
        ArgType::Integer | ArgType::Count => match parse_i64(text) {
            Some(v) => Ok(Value::Integer(v)),
            None => Err(
                Error::InvalidValue { name: String::new(), value: text.to_owned(), expected: "an integer".to_owned() },
            ),
        },
        ArgType::Float => if float_text(text) {
            Ok(Value::Float(text.to_owned()))
        } else {
            Err(Error::InvalidValue { name: String::new(), value: text.to_owned(), expected: "a number".to_owned() })
        },
        ArgType::Bool => Ok(Value::Boolean(flag_text(text))),
        ArgType::String | ArgType::Array => Ok(Value::String(text.to_owned())),
    }
}

/// Appends `item` to the array under `name`.
fn append_value(vals: &mut Vec<(String, Value)>, name: &String, item: Value)
    ensures
        entries_view(final(vals)@) == append_item(entries_view(old(vals)@), name@, item@),
        unique_keys(entries_view(old(vals)@)) ==> unique_keys(entries_view(final(vals)@)),
{
    let ghost before = entries_view(vals@);
    match get_entry(vals, name) {
        None => {
            let mut a: Vec<Value> = Vec::new();
            let ghost iv = item@;
            a.push(item);
            proof {
                crate::value::lemma_array_view(a);
                assert(crate::value::arr_view(a@) =~= seq![iv]);
            }
            set_entry(vals, name.clone(), Value::Array(a));
        },
        Some(Value::Array(a)) => {
            proof {
                crate::value::lemma_array_view(*a);
            }
            let v = array_push(a, item);
            set_entry(vals, name.clone(), v);
        },
        Some(_) => {},
    }
}

/// Adds one to the count under `name`.
fn bump_value(vals: &mut Vec<(String, Value)>, name: &String)
    ensures
        entries_view(final(vals)@) == bump(entries_view(old(vals)@), name@),
        unique_keys(entries_view(old(vals)@)) ==> unique_keys(entries_view(final(vals)@)),
{
    let cur: i64 = match get_entry(vals, name) {
        Some(Value::Integer(n)) => *n,
        _ => 0,
    };
    let next: i64 = if cur < i64::MAX {
        cur + 1
    } else {
        cur
    };
    set_entry(vals, name.clone(), Value::Integer(next));
}

/// Stores the value `text` given for argument `a`.
fn store_value(a: &Arg, text: &str, vals: &mut Vec<(String, Value)>) -> (r: Result<(), Error>)
    ensures
        match r {
            Ok(()) => store(*a, text@, entries_view(old(vals)@)) == Ok::<Entries, Fault>(entries_view(final(vals)@)),
            Err(e) => store(*a, text@, entries_view(old(vals)@)) == Err::<Entries, Fault>(e@) && final(vals)@
                == old(vals)@,
        },
        unique_keys(entries_view(old(vals)@)) ==> unique_keys(entries_view(final(vals)@)),
{
    if a.arg_type == ArgType::Array {
        append_value(vals, &a.name, Value::String(text.to_owned()));
        return Ok(());
    }
    let present = match get_entry(vals, &a.name) {
        Some(_) => true,
        None => false,
    };
    if present && a.arg_type != ArgType::Count {
        return Err(Error::DuplicateValue { name: a.name.clone() });
    }
    match parse_value_as_type(text, a.arg_type) {
        Ok(v) => {
            set_entry(vals, a.name.clone(), v);
            Ok(())
        },
        Err(e) => Err(e),
    }
}

/// One occurrence of the long flag of `a`; tells whether `next` was taken.
fn long_flag_value(a: &Arg, inline: Option<String>, next: Option<&String>, vals: &mut Vec<(String, Value)>) -> (r:
    Result<bool, Error>)
    ensures
        match r {
            Ok(took) => long_flag(*a, opt_view(inline), opt_ref_view(next), entries_view(old(vals)@)) == Ok::<
                (Entries, bool),
                Fault,
            >((entries_view(final(vals)@), took)),
            Err(e) => long_flag(*a, opt_view(inline), opt_ref_view(next), entries_view(old(vals)@)) == Err::<
                (Entries, bool),
                Fault,
            >(e@) && final(vals)@ == old(vals)@,
        },
        unique_keys(entries_view(old(vals)@)) ==> unique_keys(entries_view(final(vals)@)),
{
    match a.arg_type {
        ArgType::Bool => {
            let b = match &inline {
                Some(t) => flag_text(t.as_str()),
                None => true,
            };
            set_entry(vals, a.name.clone(), Value::Boolean(b));
            Ok(false)
        },
        ArgType::Count => {
            bump_value(vals, &a.name);
            Ok(false)
        },
        _ => match &inline {
            Some(t) => match store_value(a, t.as_str(), vals) {
                Ok(()) => Ok(false),
                Err(e) => Err(e),
            },
            None => match next {
                Some(t) => match store_value(a, t.as_str(), vals) {
                    Ok(()) => Ok(true),
                    Err(e) => Err(e),
                },
                None => Err(Error::MissingValue { name: a.name.clone() }),
            },
        },
    }
}

pub open spec fn opt_view(o: Option<String>) -> Option<Seq<char>> {
    match o {
        Some(s) => Some(s@),
        None => None,
    }
}

pub open spec fn opt_ref_view(o: Option<&String>) -> Option<Seq<char>> {
    match o {
        Some(s) => Some(s@),
        None => None,
    }
}

/// The short-flag cluster `cs[1..]`; tells whether `next` was taken.
fn cluster_values(args: &[Arg], cs: &Vec<char>, next: Option<&String>, vals: &mut Vec<(String, Value)>) -> (r:
    Result<bool, Error>)
    requires
        cs@.len() >= 1,
    ensures
        match r {
            Ok(took) => cluster(args@, cs@.subrange(1, cs@.len() as int), 0, opt_ref_view(next), entries_view(old(vals)@))
                == Ok::<(Entries, bool), Fault>((entries_view(final(vals)@), took)),
            Err(e) => cluster(args@, cs@.subrange(1, cs@.len() as int), 0, opt_ref_view(next), entries_view(old(vals)@))
                == Err::<(Entries, bool), Fault>(e@),
        },
        unique_keys(entries_view(old(vals)@)) ==> unique_keys(entries_view(final(vals)@)),
{
    let ghost sub = cs@.subrange(1, cs@.len() as int);
    let ghost nx = opt_ref_view(next);
    let ghost goal = cluster(args@, sub, 0, nx, entries_view(vals@));
    let mut j: usize = 1;
    while j < cs.len()
        invariant
            1 <= j <= cs@.len(),
            sub == cs@.subrange(1, cs@.len() as int),
            nx == opt_ref_view(next),
            goal == cluster(args@, sub, j - 1, nx, entries_view(vals@)),
            goal == cluster(args@, sub, 0, nx, entries_view(old(vals)@)),
            unique_keys(entries_view(old(vals)@)) ==> unique_keys(entries_view(vals@)),
        decreases cs.len() - j,
    {
        let c = cs[j];
        assert(sub[j - 1] == c);
        match short_index(args, c) {
            None => {
                let pre: [char; 1] = ['-'];
                let flag = prefixed(pre.as_slice(), cs.as_slice(), j, j + 1);
                assert(flag@ =~= seq!['-', c]);
                return Err(Error::UnknownFlag { flag });
            },
            Some(i) => {
                let a = &args[i];
                match a.arg_type {
                    ArgType::Bool => {
                        set_entry(vals, a.name.clone(), Value::Boolean(true));
                    },
                    ArgType::Count => {
                        bump_value(vals, &a.name);
                    },
                    _ => {
                        if j + 1 < cs.len() {
                            let text = string_of(cs.as_slice(), j + 1, cs.len());
                            assert(text@ =~= sub.subrange(j as int, sub.len() as int));
                            return match store_value(a, text.as_str(), vals) {
                                Ok(()) => Ok(false),
                                Err(e) => Err(e),
                            };
                        } else {
                            return match next {
                                Some(t) => match store_value(a, t.as_str(), vals) {
                                    Ok(()) => Ok(true),
                                    Err(e) => Err(e),
                                },
                                None => Err(Error::MissingValue { name: a.name.clone() }),
                            };
                        }
                    },
                }
            },
        }
        j += 1;
    }
    Ok(false)
}

pub proof fn lemma_eq_pos(s: Seq<char>)
    ensures
        -1 <= eq_pos(s) < s.len(),
        eq_pos(s) >= 0 ==> s[eq_pos(s)] == '=',
        forall|i: int| 0 <= i < s.len() && (eq_pos(s) < 0 || i < eq_pos(s)) ==> s[i] != '=',
    decreases s.len(),
{
    if s.len() > 0 && s[0] != '=' {
        lemma_eq_pos(s.drop_first());
        assert forall|i: int| 0 <= i < s.len() && (eq_pos(s) < 0 || i < eq_pos(s)) implies s[i] != '=' by {
            if i > 0 {
                assert(s[i] == s.drop_first()[i - 1]);
            }
        }
    }
}

/// A registry can be built from `specs`: no two options share a short or a long
/// alias, and only the positional in the last slot may be variadic.
pub open spec fn registry_valid(specs: Seq<Arg>) -> bool {
    &&& forall|i: int, j: int|
        0 <= i < j < specs.len() && !specs[i].positional && !specs[j].positional && #[trigger] specs[i].short
            is Some ==> specs[i].short != #[trigger] specs[j].short
    &&& forall|i: int, j: int|
        0 <= i < j < specs.len() && !specs[i].positional && !specs[j].positional && #[trigger] specs[i].long
            is Some && #[trigger] specs[j].long is Some ==> specs[i].long->0@ != specs[j].long->0@
    &&& forall|k: int| 0 <= k < slots(specs).len() - 1 ==> !specs[#[trigger] slots(specs)[k]].variadic
}

/// Whether a registry can be built from `args`.
pub fn registry_ok(args: &[Arg]) -> (r: bool)
    ensures
        r == registry_valid(args@),
{
    let n = args.len();
    let mut j: usize = 0;
    while j < n
        invariant
            n == args@.len(),
            j <= n,
            forall|i: int, j2: int|
                0 <= i < j2 < j && !args@[i].positional && !args@[j2].positional && #[trigger] args@[i].short
                    is Some ==> args@[i].short != #[trigger] args@[j2].short,
            forall|i: int, j2: int|
                0 <= i < j2 < j && !args@[i].positional && !args@[j2].positional && #[trigger] args@[i].long
                    is Some && #[trigger] args@[j2].long is Some ==> args@[i].long->0@ != args@[j2].long->0@,
        decreases n - j,
    {
        let mut i: usize = 0;
        while i < j
            invariant
                n == args@.len(),
                i <= j < n,
                forall|i2: int, j2: int|
                    0 <= i2 < j2 < j && !args@[i2].positional && !args@[j2].positional && #[trigger] args@[i2].short
                        is Some ==> args@[i2].short != #[trigger] args@[j2].short,
                forall|i2: int, j2: int|
                    0 <= i2 < j2 < j && !args@[i2].positional && !args@[j2].positional && #[trigger] args@[i2].long
                        is Some && #[trigger] args@[j2].long is Some ==> args@[i2].long->0@ != args@[j2].long->0@,
                forall|i2: int|
                    0 <= i2 < i && !args@[i2].positional && !args@[j as int].positional && #[trigger] args@[i2].short
                        is Some ==> args@[i2].short != args@[j as int].short,
                forall|i2: int|
                    0 <= i2 < i && !args@[i2].positional && !args@[j as int].positional && #[trigger] args@[i2].long
                        is Some && args@[j as int].long is Some ==> args@[i2].long->0@ != args@[j as int].long->0@,
            decreases j - i,
        {
            let a = &args[i];
            let b = &args[j];
            if !a.positional && !b.positional {
                if a.short.is_some() && a.short == b.short {
                    return false;
                }
                match (&a.long, &b.long) {
                    (Some(x), Some(y)) => {
                        if *x == *y {
                            return false;
                        }
                    },
                    _ => {},
                }
            }
            i += 1;
        }
        j += 1;
    }
    let slots_v = slot_indices(args);
    proof {
        lemma_slots_range(args@);
    }
    let m = slots_v.len();
    let mut k: usize = 0;
    while k < m && k + 1 < m
        invariant
            k <= m,
            m == slots_v@.len(),
            slots_v@.map_values(|x: usize| x as int) == slots(args@),
            forall|q: int| 0 <= q < slots(args@).len() ==> 0 <= #[trigger] slots(args@)[q] < args@.len(),
            forall|q: int| 0 <= q < k && q < slots(args@).len() - 1 ==> !args@[#[trigger] slots(args@)[q]].variadic,
        decreases m - k,
    {
        assert(slots_v@[k as int] as int == slots(args@)[k as int]);
        if args[slots_v[k]].variadic {
            return false;
        }
        k += 1;
    }
    true
}

/// The registry of declared arguments and the tokenizer over it.
pub struct ArgParser<'a> {
    /// Positional arguments, by slot
    pub positionals: Vec<usize>,
    /// The argument definitions
    pub args: &'a [Arg],
}

impl<'a> ArgParser<'a> {
    /// The slots index the positional arguments in declaration order.
    pub open spec fn wf(&self) -> bool {
        self.positionals@.map_values(|x: usize| x as int) == slots(self.args@)
    }

    /// Builds the registry of `args`.
    pub fn new(args: &'a [Arg]) -> (r: ArgParser<'a>)
        requires
            registry_valid(args@),
        ensures
            r.wf(),
            r.args@ == args@,
            by_position(args@, r.positionals@.map_values(|x: usize| x as int)),
    {
        proof {
            lemma_slots_sorted(args@, args@.len() as int);
        }
        ArgParser { positionals: slot_indices(args), args }
    }

    /// Places the `k`-th positional value `text`.
    fn place_value(&self, text: &String, k: usize, vals: &mut Vec<(String, Value)>) -> (r: Result<(), Error>)
        requires
            self.wf(),
            k < usize::MAX,
        ensures
            match r {
                Ok(()) => place(self.args@, text@, k as nat, entries_view(old(vals)@)) == Ok::<Entries, Fault>(
                    entries_view(final(vals)@),
                ),
                Err(e) => place(self.args@, text@, k as nat, entries_view(old(vals)@)) == Err::<Entries, Fault>(e@)
                    && final(vals)@ == old(vals)@,
            },
            unique_keys(entries_view(old(vals)@)) ==> unique_keys(entries_view(final(vals)@)),
    {
        let ghost sl = slots(self.args@);
        proof {
            lemma_slots_range(self.args@);
            assert(self.positionals@.len() == sl.len());
            assert(forall|q: int| 0 <= q < sl.len() ==> self.positionals@[q] as int == sl[q]);
        }
        let n = self.positionals.len();
        if k < n {
            let a = &self.args[self.positionals[k]];
            if a.variadic {
                append_value(vals, &a.name, Value::String(text.clone()));
                Ok(())
            } else {
                match parse_value_as_type(text.as_str(), a.arg_type) {
                    Ok(v) => {
                        set_entry(vals, a.name.clone(), v);
                        Ok(())
                    },
                    Err(e) => Err(e),
                }
            }
        } else if n > 0 && self.args[self.positionals[n - 1]].variadic {
            let a = &self.args[self.positionals[n - 1]];
            append_value(vals, &a.name, Value::String(text.clone()));
            Ok(())
        } else {
            Err(Error::TooManyPositional { max: n, got: k + 1 })
        }
    }
}

/// The first `=` in `cs[lo..]`, as a position in `cs`, or `cs.len()`.
fn find_eq(cs: &Vec<char>, lo: usize) -> (r: usize)
    requires
        lo <= cs@.len(),
    ensures
        lo <= r <= cs@.len(),
        r < cs@.len() ==> eq_pos(cs@.subrange(lo as int, cs@.len() as int)) == r - lo,
        r == cs@.len() ==> eq_pos(cs@.subrange(lo as int, cs@.len() as int)) == -1,
{
    let ghost rest = cs@.subrange(lo as int, cs@.len() as int);
    proof {
        lemma_eq_pos(rest);
    }
    let mut p: usize = lo;
    while p < cs.len() && cs[p] != '='
        invariant
            lo <= p <= cs@.len(),
            rest == cs@.subrange(lo as int, cs@.len() as int),
            -1 <= eq_pos(rest) < rest.len(),
            eq_pos(rest) >= 0 ==> rest[eq_pos(rest)] == '=',
            eq_pos(rest) < 0 || p - lo <= eq_pos(rest),
        decreases cs.len() - p,
    {
        assert(rest[p - lo] == cs@[p as int]);
        p += 1;
    }
    if p < cs.len() {
        assert(rest[p - lo] == '=');
    }
    p
}

impl<'a> ArgParser<'a> {
    /// Reads the tokens: values by argument name, and what follows a `--`.
    pub fn parse(&self, tokens: Vec<String>) -> (r: Result<Matches, Error>)
        requires
            self.wf(),
        ensures
            match r {
                Ok(m) => tokenize(self.args@, strings_view(tokens@)) is Ok && m.entries() == tokenize(
                    self.args@,
                    strings_view(tokens@),
                )->Ok_0.values && m.rest() == tokenize(self.args@, strings_view(tokens@))->Ok_0.remaining
                    && m.program_name@.len() == 0 && m.wf(),
                Err(e) => tokenize(self.args@, strings_view(tokens@)) == Err::<Tally, Fault>(e@),
            },
    {
        let ghost specs = self.args@;
        let ghost toks = strings_view(tokens@);
        let ghost goal = tokenize(specs, toks);
        let mut m = Matches::new();
        let mut slot: usize = 0;
        let mut passthrough = false;
        let mut i: usize = 0;
        assert(m.entries() =~= Seq::empty());
        assert(m.rest() =~= Seq::empty());
        while i < tokens.len()
            invariant
                self.wf(),
                specs == self.args@,
                toks == strings_view(tokens@),
                goal == tokenize(specs, toks),
                i <= tokens@.len(),
                slot <= i,
                m.program_name@.len() == 0,
                m.wf(),
                goal == run(
                    specs,
                    toks,
                    i as int,
                    Tally { values: m.entries(), remaining: m.rest(), next_slot: slot as nat, passthrough },
                ),
            decreases tokens.len() - i,
        {
            let t = &tokens[i];
            let next: Option<&String> = if i + 1 < tokens.len() {
                Some(&tokens[i + 1])
            } else {
                None
            };
            assert(toks[i as int] == t@);
            assert(opt_ref_view(next) == (if i + 1 < toks.len() {
                Some(toks[i + 1])
            } else {
                None::<Seq<char>>
            }));
            let cs = chars_of(t.as_str());
            let n = cs.len();
            if passthrough {
                let ghost before = m.remaining@;
                m.remaining.push(t.clone());
                assert(m.rest() =~= strings_view(before).push(t@));
                i += 1;
            } else if n == 2 && cs[0] == '-' && cs[1] == '-' {
                assert(cs@ =~= seq!['-', '-']);
                passthrough = true;
                i += 1;
            } else if n >= 2 && cs[0] == '-' && cs[1] == '-' {
                let ghost rest = cs@.subrange(2, n as int);
                let mut negation: Option<usize> = None;
                if n >= 5 && cs[2] == 'n' && cs[3] == 'o' && cs[4] == '-' {
                    let target = string_of(cs.as_slice(), 5, n);
                    assert(target@ =~= rest.subrange(3, rest.len() as int));
                    match long_index(self.args, &target) {
                        Some(k) => {
                            if self.args[k].arg_type == ArgType::Bool {
                                negation = Some(k);
                            }
                        },
                        None => {},
                    }
                }
                assert(negation matches Some(k) ==> negated(specs, rest) == Some(k as int));
                assert(negation is None ==> negated(specs, rest) is None);
                match negation {
                    Some(k) => {
                        set_entry(&mut m.values, self.args[k].name.clone(), Value::Boolean(false));
                        i += 1;
                    },
                    None => {
                        let p = find_eq(&cs, 2);
                        let flag = string_of(cs.as_slice(), 2, p);
                        let inline: Option<String> = if p < n {
                            Some(string_of(cs.as_slice(), p + 1, n))
                        } else {
                            None
                        };
                        proof {
                            if p < n {
                                assert(flag@ =~= rest.subrange(0, p - 2));
                                assert(inline->0@ =~= rest.subrange(p - 2 + 1, rest.len() as int));
                            } else {
                                assert(flag@ =~= rest);
                            }
                        }
                        match long_index(self.args, &flag) {
                            None => {
                                let pre: [char; 2] = ['-', '-'];
                                assert(pre@ =~= seq!['-', '-']);
                                let shown = prefixed(pre.as_slice(), cs.as_slice(), 2, p);
                                return Err(Error::UnknownFlag { flag: shown });
                            },
                            Some(k) => {
                                match long_flag_value(&self.args[k], inline, next, &mut m.values) {
                                    Ok(took) => {
                                        if took && next.is_some() {
                                            i += 2;
                                        } else {
                                            i += 1;
                                        }
                                    },
                                    Err(e) => {
                                        return Err(e);
                                    },
                                }
                            },
                        }
                    },
                }
            } else if n >= 2 && cs[0] == '-' {
                match cluster_values(self.args, &cs, next, &mut m.values) {
                    Ok(took) => {
                        if took && next.is_some() {
                            i += 2;
                        } else {
                            i += 1;
                        }
                    },
                    Err(e) => {
                        return Err(e);
                    },
                }
            } else {
                match self.place_value(t, slot, &mut m.values) {
                    Ok(()) => {
                        slot += 1;
                        i += 1;
                    },
                    Err(e) => {
                        return Err(e);
                    },
                }
            }
        }
        Ok(m)
    }
}

} // verus!
