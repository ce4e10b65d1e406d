//! The program-level builder: automatic flags, the whole resolution, and
//! locating the configuration file among the tokens.

use vstd::prelude::*;
use crate::arg::{Arg, ArgType};
use crate::entries::{Entries, entries_view, has_key, lookup};
use crate::error::{Error, Fault};
use crate::matches::{Matches, apply_defaults, merge_tree, strings_view};
use crate::parser::{ArgParser, registry_valid, tokenize};
use crate::text::{chars_of, prefixed, string_of};
use crate::value::Val;

verus! {

/// Builder for an argument parser: the program's description and its arguments.
#[derive(Debug, Clone)]
pub struct Args {
    /// Program name
    pub name: String,
    /// Program version
    pub version: Option<String>,
    /// Program description
    pub about: Option<String>,
    /// Defined arguments
    pub args: Vec<Arg>,
    /// Positional argument count
    pub positional_count: usize,
    /// Whether to add a help flag
    pub auto_help: bool,
    /// Whether to add a version flag
    pub auto_version: bool,
    /// Whether to add a config file flag (-c/--config)
    pub auto_config: bool,
    /// Default config file path (used if -c/--config is not given)
    pub default_config: Option<String>,
    /// Whether the automatic flags have been added to `args`
    pub auto_added: bool,
}

/// The index of the first required argument with no value in `vals`.
pub open spec fn first_missing(specs: Seq<Arg>, vals: Entries) -> Option<int>
    decreases specs.len(),
{
    if specs.len() == 0 {
        None
    } else {
        let f = first_missing(specs.drop_last(), vals);
        if f is Some {
            f
        } else if specs.last().required && !has_key(vals, specs.last().name@) {
            Some(specs.len() - 1)
        } else {
            None
        }
    }
}

/// The error for a required argument `a` that has no value.
pub open spec fn missing_fault(a: Arg) -> Fault {
    if a.positional {
        Fault::MissingPositional {
            name: a.name@,
            position: match a.position {
                Some(p) => p as nat,
                None => 0,
            },
        }
    } else {
        Fault::MissingRequired { name: a.name@ }
    }
}

/// The whole resolution: tokenize, stop at a help or version request, merge the
/// configuration tree, apply the defaults, and check the required arguments.
pub open spec fn outcome(
    specs: Seq<Arg>,
    toks: Seq<Seq<char>>,
    tree: Seq<(Seq<char>, Val)>,
    help: bool,
    version: bool,
    help_text: Seq<char>,
    version_text: Seq<char>,
) -> Result<Entries, Fault> {
    match tokenize(specs, toks) {
        Err(e) => Err(e),
        Ok(st) => if help && lookup(st.values, "help"@) == Some(Val::Bool(true)) {
            Err(Fault::Help(help_text))
        } else if version && lookup(st.values, "version"@) == Some(Val::Bool(true)) {
            Err(Fault::Version(version_text))
        } else {
            let vals = apply_defaults(merge_tree(st.values, tree, Seq::empty()), specs);
            match first_missing(specs, vals) {
                Some(i) => Err(missing_fault(specs[i])),
                None => Ok(vals),
            }
        },
    }
}

/// The version line: the program name, a space, and the version or `unknown`.
pub open spec fn version_line(name: Seq<char>, version: Option<String>) -> Seq<char> {
    name + seq![' '] + match version {
        Some(v) => v@,
        None => "unknown"@,
    }
}

/// The configuration tree given, or an empty one.
pub open spec fn config_tree(c: Option<Vec<(String, crate::value::Value)>>) -> Seq<(Seq<char>, Val)> {
    match c {
        Some(t) => entries_view(t@),
        None => Seq::empty(),
    }
}

/// The automatic flags that `a` adds: name (also the long alias), short alias and type.
pub open spec fn auto_flags(a: Args) -> Seq<(Seq<char>, char, ArgType)> {
    (if a.auto_config {
        seq![("config"@, 'c', ArgType::String)]
    } else {
        Seq::empty()
    }) + (if a.auto_help {
        seq![("help"@, 'h', ArgType::Bool)]
    } else {
        Seq::empty()
    }) + (if a.auto_version && a.version is Some {
        seq![("version"@, 'V', ArgType::Bool)]
    } else {
        Seq::empty()
    })
}

/// `x` is the automatic flag described by `d`.
pub open spec fn is_auto_flag(x: Arg, d: (Seq<char>, char, ArgType)) -> bool {
    &&& x.name@ == d.0
    &&& x.short == Some(d.1)
    &&& x.long is Some && x.long->0@ == d.0
    &&& x.arg_type == d.2
    &&& x.default == (if d.2 == ArgType::Bool {
        Some(crate::value::Value::Boolean(false))
    } else {
        None
    })
    &&& !x.required && !x.positional && !x.variadic && x.position is None
}

impl Args {
    /// The argument list that parsing uses: the declared arguments, then the automatic flags.
    pub open spec fn prepared(self, specs: Seq<Arg>) -> bool {
        if self.auto_added {
            specs == self.args@
        } else {
            let n = self.args@.len() as int;
            let d = auto_flags(self);
            &&& specs.len() == n + d.len()
            &&& specs.subrange(0, n) == self.args@
            &&& forall|k: int| 0 <= k < d.len() ==> is_auto_flag(#[trigger] specs[n + k], d[k])
        }
    }

    /// Create a new argument parser with the given program name.
    pub fn new(name: &str) -> (r: Args)
        ensures
            r.name@ == name@,
            r.version is None && r.about is None && r.default_config is None,
            r.args@.len() == 0,
            r.positional_count == 0,
            r.auto_help && r.auto_version && !r.auto_config && !r.auto_added,
    {
        Args {
            name: name.to_owned(),
            version: None,
            about: None,
            args: Vec::new(),
            positional_count: 0,
            auto_help: true,
            auto_version: true,
            auto_config: false,
            default_config: None,
            auto_added: false,
        }
    }

    /// Set the program version.
    pub fn version(self, v: &str) -> (r: Args)
        ensures
            r.version is Some && r.version->0@ == v@,
            r == (Args { version: r.version, ..self }),
    {
        Args { version: Some(v.to_owned()), ..self }
    }

    /// Set the program description.
    pub fn about(self, s: &str) -> (r: Args)
        ensures
            r.about is Some && r.about->0@ == s@,
            r == (Args { about: r.about, ..self }),
    {
        Args { about: Some(s.to_owned()), ..self }
    }

    /// Add an argument; a positional one takes the next slot.
    pub fn arg(self, a: Arg) -> (r: Args)
        ensures
            r.args@.len() == self.args@.len() + 1,
            r.args@.subrange(0, self.args@.len() as int) == self.args@,
            r.args@.last() == (if a.positional {
                Arg { position: Some(self.positional_count), ..a }
            } else {
                a
            }),
            r.positional_count == if a.positional && self.positional_count < usize::MAX {
                (self.positional_count + 1) as usize
            } else {
                self.positional_count
            },
            r == (Args { args: r.args, positional_count: r.positional_count, ..self }),
    {
        let mut s = self;
        let mut a = a;
        if a.positional {
            a = Arg { position: Some(s.positional_count), ..a };
            if s.positional_count < usize::MAX {
                s.positional_count = s.positional_count + 1;
            }
        }
        let ghost before = s.args@;
        s.args.push(a);
        assert(s.args@.subrange(0, before.len() as int) =~= before);
        s
    }

    /// Disable the automatic help flag.
    pub fn disable_help(self) -> (r: Args)
        ensures
            r == (Args { auto_help: false, ..self }),
    {
        Args { auto_help: false, ..self }
    }

    /// Disable the automatic version flag.
    pub fn disable_version(self) -> (r: Args)
        ensures
            r == (Args { auto_version: false, ..self }),
    {
        Args { auto_version: false, ..self }
    }

    /// Enable the automatic config file flag (-c/--config).
    pub fn config_arg(self) -> (r: Args)
        ensures
            r == (Args { auto_config: true, ..self }),
    {
        Args { auto_config: true, ..self }
    }

    /// Enable the automatic config file flag, with a path tried when it is not given.
    pub fn config_arg_default(self, path: &str) -> (r: Args)
        ensures
            r.default_config is Some && r.default_config->0@ == path@,
            r == (Args { auto_config: true, default_config: r.default_config, ..self }),
    {
        Args { auto_config: true, default_config: Some(path.to_owned()), ..self }
    }

    /// Adds the automatic flags, once.
    pub fn with_auto_flags(self) -> (r: Args)
        ensures
            self.prepared(r.args@),
            r.auto_added,
            r == (Args { args: r.args, auto_added: true, ..self }),
    {
        if self.auto_added {
            return self;
        }
        let ghost d = auto_flags(self);
        let ghost n = self.args@.len() as int;
        let mut s = self;
        let ghost orig = s.args@;
        if s.auto_config {
            let a = Arg::new("config").short('c').long("config").help("Path to configuration file").value_name(
                "FILE",
            );
            s.args.push(a);
        }
        if s.auto_help {
            let a = Arg::new("help").short('h').long("help").flag().help("Print help information");
            s.args.push(a);
        }
        if s.auto_version && s.version.is_some() {
            let a = Arg::new("version").short('V').long("version").flag().help("Print version information");
            s.args.push(a);
        }
        s.auto_added = true;
        assert(s.args@.subrange(0, n) =~= orig);
        assert forall|k: int| 0 <= k < d.len() implies is_auto_flag(#[trigger] s.args@[n + k], d[k]) by {
            let c = if self.auto_config { 1int } else { 0int };
            let h = if self.auto_help { 1int } else { 0int };
            if k < c {
                assert(d[k] == ("config"@, 'c', ArgType::String));
            } else if k < c + h {
                assert(d[k] == ("help"@, 'h', ArgType::Bool));
            } else {
                assert(d[k] == ("version"@, 'V', ArgType::Bool));
            }
        }
        s
    }

    /// The version line: the program name, a space, and the version or `unknown`.
    pub fn format_version(&self) -> (r: String)
        ensures
            r@ == version_line(self.name@, self.version),
    {
        let tail: &str = match &self.version {
            Some(v) => v.as_str(),
            None => "unknown",
        };
        let mut head = chars_of(self.name.as_str());
        head.push(' ');
        let t = chars_of(tail);
        prefixed(head.as_slice(), t.as_slice(), 0, t.len())
    }

    /// Parses `tokens` against the arguments and the automatic flags, then merges
    /// the configuration tree `config` (already read), applies the defaults and
    /// checks the required arguments. A help request carries `help`.
    pub fn parse_from(self, tokens: Vec<String>, config: Option<Vec<(String, crate::value::Value)>>, help: String) -> (r:
        Result<Matches, Error>)
        requires
            forall|specs: Seq<Arg>| #[trigger] self.prepared(specs) ==> registry_valid(specs),
        ensures
            exists|specs: Seq<Arg>|
                #![trigger self.prepared(specs)]
                {
                    let tree = config_tree(config);
                    let o = outcome(
                        specs,
                        strings_view(tokens@),
                        tree,
                        self.auto_help,
                        self.auto_version,
                        help@,
                        version_line(self.name@, self.version),
                    );
                    &&& self.prepared(specs)
                    &&& match r {
                        Ok(m) => o == Ok::<Entries, Fault>(m.entries()) && m.wf() && m.program_name@ == self.name@ && m.rest()
                            == tokenize(specs, strings_view(tokens@))->Ok_0.remaining,
                        Err(e) => o == Err::<Entries, Fault>(e@),
                    }
                },
    {
        let ghost orig = self;
        let s = self.with_auto_flags();
        let ghost specs = s.args@;
        let ghost toks = strings_view(tokens@);
        let ghost tree = config_tree(config);
        let ghost hv = help@;
        let ghost vv = version_line(orig.name@, orig.version);
        assert(orig.prepared(specs));
        let parser = ArgParser::new(s.args.as_slice());
        let m = match parser.parse(tokens) {
            Ok(m) => m,
            Err(e) => {
                return Err(e);
            },
        };
        if s.auto_help && m.get_bool("help") {
            return Err(Error::Help(help));
        }
        if s.auto_version && m.get_bool("version") {
            return Err(Error::Version(s.format_version()));
        }
        let mut m = m;
        match &config {
            Some(t) => {
                let prefix = String::new();
                m.merge_toml(t, &prefix);
            },
            None => {},
        }
        let mut m = m.with_defaults(s.args.as_slice());
        let ghost vals = m.entries();
        let ghost o = outcome(specs, toks, tree, orig.auto_help, orig.auto_version, hv, vv);
        assert(o == match first_missing(specs, vals) {
            Some(j) => Err(missing_fault(specs[j])),
            None => Ok::<Entries, Fault>(vals),
        });
        let mut i: usize = 0;
        while i < s.args.len()
            invariant
                i <= specs.len(),
                specs == s.args@,
                vals == m.entries(),
                m.wf(),
                first_missing(specs.subrange(0, i as int), vals) is None,
                orig.prepared(specs),
                orig == self,
                tree == config_tree(config),
                toks == strings_view(tokens@),
                hv == help@,
                vv == version_line(orig.name@, orig.version),
                o == outcome(specs, toks, tree, orig.auto_help, orig.auto_version, hv, vv),
                o == match first_missing(specs, vals) {
                    Some(j) => Err(missing_fault(specs[j])),
                    None => Ok::<Entries, Fault>(vals),
                },
            decreases s.args.len() - i,
        {
            let a = &s.args[i];
            assert(specs.subrange(0, i + 1).drop_last() =~= specs.subrange(0, i as int));
            if a.required && !m.contains(a.name.as_str()) {
                let ghost pre = specs.subrange(0, i + 1);
                assert(first_missing(pre, vals) == Some(i as int));
                proof {
                    lemma_first_missing_extend(specs, vals, i as int);
                }
                if a.positional {
                    let position: usize = match a.position {
                        Some(p) => p,
                        None => 0,
                    };
                    return Err(Error::MissingPositional { name: a.name.clone(), position });
                } else {
                    return Err(Error::MissingRequired { name: a.name.clone() });
                }
            }
            i += 1;
        }
        assert(specs.subrange(0, i as int) =~= specs);
        m.program_name = s.name;
        Ok(m)
    }
}

/// Once a required argument is missing, the first one missing stays put as more arguments follow.
pub proof fn lemma_first_missing_extend(specs: Seq<Arg>, vals: Entries, i: int)
    requires
        0 <= i < specs.len(),
        first_missing(specs.subrange(0, i + 1), vals) == Some(i),
    ensures
        first_missing(specs, vals) == Some(i),
    decreases specs.len(),
{
    if specs.len() > i + 1 {
        let d = specs.drop_last();
        assert(d.subrange(0, i + 1) =~= specs.subrange(0, i + 1));
        lemma_first_missing_extend(d, vals, i);
    } else {
        assert(specs.subrange(0, i + 1) =~= specs);
    }
}

/// Convenience function to create a new `Args` builder.
pub fn args(name: &str) -> (r: Args)
    ensures
        r.name@ == name@,
        r.version is None && r.about is None && r.default_config is None,
        r.args@.len() == 0,
        r.positional_count == 0,
        r.auto_help && r.auto_version && !r.auto_config && !r.auto_added,
{
    Args::new(name)
}

/// The position of the first `c` in `t` at or after `from`, or `t.len()`.
pub open spec fn first_c(t: Seq<char>, from: int) -> int
    decreases t.len() - from,
{
    if from < 0 || from >= t.len() {
        t.len() as int
    } else if t[from] == 'c' {
        from
    } else {
        first_c(t, from + 1)
    }
}

/// Whether `t` starts with `p`.
pub open spec fn starts_with(t: Seq<char>, p: Seq<char>) -> bool {
    t.len() >= p.len() && t.subrange(0, p.len() as int) == p
}

/// The configuration path that `toks[i..]` name, read without a full parse:
/// `--config=path`, `--config path`, `-cpath`, `-c path`, or a short cluster
/// holding `c` (the rest of the cluster, or the next token when `c` ends it);
/// else `fallback`.
pub open spec fn config_path(toks: Seq<Seq<char>>, i: int, fallback: Option<Seq<char>>) -> Option<Seq<char>>
    decreases toks.len() - i,
{
    if i < 0 || i >= toks.len() {
        fallback
    } else {
        let t = toks[i];
        let next = if i + 1 < toks.len() {
            Some(toks[i + 1])
        } else {
            None
        };
        let long = "--config"@;
        if starts_with(t, long) && t.len() > 8 && t[8] == '=' {
            Some(t.subrange(9, t.len() as int))
        } else if starts_with(t, long) && t.len() == 8 {
            next
        } else if t.len() >= 2 && t[0] == '-' && t[1] == 'c' {
            if t.len() == 2 {
                next
            } else {
                Some(t.subrange(2, t.len() as int))
            }
        } else if t.len() >= 1 && t[0] == '-' && !(t.len() >= 2 && t[1] == '-') && first_c(t, 1) < t.len() {
            if first_c(t, 1) == t.len() - 1 {
                next
            } else {
                Some(t.subrange(first_c(t, 1) + 1, t.len() as int))
            }
        } else {
            config_path(toks, i + 1, fallback)
        }
    }
}

fn find_c(cs: &Vec<char>, from: usize) -> (r: usize)
    requires
        from <= cs@.len(),
    ensures
        r == first_c(cs@, from as int),
        from <= r <= cs@.len(),
{
    let mut p: usize = from;
    while p < cs.len() && cs[p] != 'c'
        invariant
            from <= p <= cs@.len(),
            first_c(cs@, from as int) == first_c(cs@, p as int),
        decreases cs.len() - p,
    {
        p += 1;
    }
    p
}

impl Args {
    /// The configuration path that the tokens name, read without a full parse;
    /// else the default path.
    pub fn extract_config_path(&self, tokens: &Vec<String>) -> (r: Option<String>)
        ensures
            match r {
                Some(p) => config_path(strings_view(tokens@), 0, opt_string_view(self.default_config)) == Some(p@),
                None => config_path(strings_view(tokens@), 0, opt_string_view(self.default_config)) is None,
            },
    {
        let ghost toks = strings_view(tokens@);
        let ghost goal = config_path(toks, 0, opt_string_view(self.default_config));
        let long: [char; 8] = ['-', '-', 'c', 'o', 'n', 'f', 'i', 'g'];
        assert(long@ =~= "--config"@) by {
            reveal_strlit("--config");
        }
        let mut i: usize = 0;
        while i < tokens.len()
            invariant
                i <= tokens@.len(),
                toks == strings_view(tokens@),
                long@ == "--config"@,
                goal == config_path(toks, 0, opt_string_view(self.default_config)),
                goal == config_path(toks, i as int, opt_string_view(self.default_config)),
            decreases tokens.len() - i,
        {
            let cs = chars_of(tokens[i].as_str());
            let n = cs.len();
            assert(toks[i as int] == cs@);
            let next: Option<String> = if i + 1 < tokens.len() {
                Some(tokens[i + 1].clone())
            } else {
                None
            };
            assert(opt_string_view(next) == (if i + 1 < toks.len() {
                Some(toks[i + 1])
            } else {
                None::<Seq<char>>
            }));
            let mut is_long = n >= 8;
            let mut k: usize = 0;
            while is_long && k < 8
                invariant
                    k <= 8,
                    is_long ==> n >= 8,
                    n == cs@.len(),
                    is_long ==> forall|q: int| 0 <= q < k ==> cs@[q] == long@[q],
                    !is_long ==> !starts_with(cs@, long@),
                decreases 8 - k,
            {
                if cs[k] != long[k] {
                    is_long = false;
                }
                k += 1;
            }
            if is_long {
                assert(cs@.subrange(0, 8) =~= long@);
            }
            if is_long && n > 8 && cs[8] == '=' {
                return Some(string_of(cs.as_slice(), 9, n));
            } else if is_long && n == 8 {
                return next;
            } else if n >= 2 && cs[0] == '-' && cs[1] == 'c' {
                if n == 2 {
                    return next;
                } else {
                    return Some(string_of(cs.as_slice(), 2, n));
                }
            } else if n >= 1 && cs[0] == '-' && !(n >= 2 && cs[1] == '-') {
                let p = find_c(&cs, 1);
                if p < n {
                    if p == n - 1 {
                        return next;
                    } else {
                        return Some(string_of(cs.as_slice(), p + 1, n));
                    }
                }
            }
            i += 1;
        }
        match &self.default_config {
            Some(d) => Some(d.clone()),
            None => None,
        }
    }

    /// Which configuration file is to be read, given whether the path exists:
    /// none without a path, none for a default path that does not exist, and
    /// `MissingConfig` for a path asked for that does not exist.
    pub fn config_file_to_load(&self, path: Option<String>, exists: bool) -> (r: Result<Option<String>, Error>)
        ensures
            match path {
                None => r matches Ok(None),
                Some(p) => if exists {
                    r matches Ok(Some(q)) && q@ == p@
                } else if self.default_config matches Some(d) && d@ == p@ {
                    r matches Ok(None)
                } else {
                    r matches Err(e) && e@ == Fault::MissingConfig { path: p@ }
                },
            },
    {
        match path {
            None => Ok(None),
            Some(p) => {
                if exists {
                    return Ok(Some(p));
                }
                let is_default = match &self.default_config {
                    Some(d) => *d == p,
                    None => false,
                };
                if is_default {
                    Ok(None)
                } else {
                    Err(Error::MissingConfig { path: p })
                }
            },
        }
    }
}

pub open spec fn opt_string_view(o: Option<String>) -> Option<Seq<char>> {
    match o {
        Some(s) => Some(s@),
        None => None,
    }
}

} // verus!
