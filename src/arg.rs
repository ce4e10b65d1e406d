//! Argument definitions and their builders.

use vstd::prelude::*;
use crate::value::Value;

verus! {

/// The type of value an argument accepts.
#[derive(Debug, Clone, Copy, PartialEq, Eq, Structural)]
pub enum ArgType {
    /// A string value
    String,
    /// An integer value
    Integer,
    /// A floating-point value
    Float,
    /// A boolean flag (presence = true, --no-flag = false)
    Bool,
    /// Multiple values (can be specified multiple times)
    Array,
    /// A count (each occurrence increments, e.g., -vvv = 3)
    Count,
}

/// Definition of a single argument.
#[derive(Debug, Clone)]
pub struct Arg {
    /// The primary name (used as key for lookup and configuration matching)
    pub name: String,
    /// Short flag (e.g., 'v' for -v)
    pub short: Option<char>,
    /// Long flag (e.g., "verbose" for --verbose)
    pub long: Option<String>,
    /// The type of value this argument accepts
    pub arg_type: ArgType,
    /// Default value if not provided
    pub default: Option<Value>,
    /// Whether this argument is required
    pub required: bool,
    /// Help description
    pub help: Option<String>,
    /// The configuration key path to look up (defaults to name); dots nest
    pub toml_key: Option<String>,
    /// Value name shown in help (e.g., "FILE" in "--config <FILE>")
    pub value_name: Option<String>,
    /// Whether this is a positional argument
    pub positional: bool,
    /// Position index for positional arguments
    pub position: Option<usize>,
    /// Whether this positional can accept multiple values (must be last)
    pub variadic: bool,
}

impl Arg {
    /// Create a new argument with the given name.
    pub fn new(name: &str) -> (r: Arg)
        ensures
            r.name@ == name@,
            r.short is None,
            r.long is None,
            r.arg_type == ArgType::String,
            r.default is None,
            !r.required,
            r.help is None,
            r.toml_key is None,
            r.value_name is None,
            !r.positional,
            r.position is None,
            !r.variadic,
    {
        Arg {
            name: name.to_owned(),
            short: None,
            long: None,
            arg_type: ArgType::String,
            default: None,
            required: false,
            help: None,
            toml_key: None,
            value_name: None,
            positional: false,
            position: None,
            variadic: false,
        }
    }

    /// Create a new positional argument.
    pub fn positional(name: &str) -> (r: Arg)
        ensures
            r.name@ == name@,
            r.short is None,
            r.long is None,
            r.arg_type == ArgType::String,
            r.default is None,
            !r.required,
            r.help is None,
            r.toml_key is None,
            r.value_name is None,
            r.positional,
            r.position is None,
            !r.variadic,
    {
        Arg {
            name: name.to_owned(),
            short: None,
            long: None,
            arg_type: ArgType::String,
            default: None,
            required: false,
            help: None,
            toml_key: None,
            value_name: None,
            positional: true,
            position: None,
            variadic: false,
        }
    }

    /// Set the short flag (e.g., 'v' for -v).
    pub fn short(self, c: char) -> (r: Arg)
        ensures
            r == (Arg { short: Some(c), ..self }),
    {
        Arg { short: Some(c), ..self }
    }

    /// Set the long flag (e.g., "verbose" for --verbose).
    pub fn long(self, s: &str) -> (r: Arg)
        ensures
            r.long is Some && r.long->0@ == s@,
            r == (Arg { long: r.long, ..self }),
    {
        Arg { long: Some(s.to_owned()), ..self }
    }

    /// Set the argument type.
    pub fn arg_type(self, t: ArgType) -> (r: Arg)
        ensures
            r == (Arg { arg_type: t, ..self }),
    {
        Arg { arg_type: t, ..self }
    }

    /// A boolean flag, false unless given.
    pub fn flag(self) -> (r: Arg)
        ensures
            r.arg_type == ArgType::Bool,
            r.default is Some && r.default->0@ == crate::value::Val::Bool(false),
            r == (Arg { arg_type: ArgType::Bool, default: r.default, ..self }),
    {
        Arg { arg_type: ArgType::Bool, default: Some(Value::Boolean(false)), ..self }
    }

    /// A count flag (-vvv = 3), zero unless given.
    pub fn count(self) -> (r: Arg)
        ensures
            r.arg_type == ArgType::Count,
            r.default is Some && r.default->0@ == crate::value::Val::Int(0),
            r == (Arg { arg_type: ArgType::Count, default: r.default, ..self }),
    {
        Arg { arg_type: ArgType::Count, default: Some(Value::Integer(0)), ..self }
    }

    /// Set the default value.
    pub fn default(self, v: Value) -> (r: Arg)
        ensures
            r == (Arg { default: Some(v), ..self }),
    {
        Arg { default: Some(v), ..self }
    }

    /// Mark this argument as required.
    pub fn required(self) -> (r: Arg)
        ensures
            r == (Arg { required: true, ..self }),
    {
        Arg { required: true, ..self }
    }

    /// Mark this argument as optional, with no default.
    pub fn optional(self) -> (r: Arg)
        ensures
            r == (Arg { required: false, default: None, ..self }),
    {
        Arg { required: false, default: None, ..self }
    }

    /// Set the help description.
    pub fn help(self, s: &str) -> (r: Arg)
        ensures
            r.help is Some && r.help->0@ == s@,
            r == (Arg { help: r.help, ..self }),
    {
        Arg { help: Some(s.to_owned()), ..self }
    }

    /// Set the configuration key path (dots nest: "server.port").
    pub fn toml_key(self, s: &str) -> (r: Arg)
        ensures
            r.toml_key is Some && r.toml_key->0@ == s@,
            r == (Arg { toml_key: r.toml_key, ..self }),
    {
        Arg { toml_key: Some(s.to_owned()), ..self }
    }

    /// Set the value name shown in help.
    pub fn value_name(self, s: &str) -> (r: Arg)
        ensures
            r.value_name is Some && r.value_name->0@ == s@,
            r == (Arg { value_name: r.value_name, ..self }),
    {
        Arg { value_name: Some(s.to_owned()), ..self }
    }

    /// Mark this positional as variadic: it takes every remaining value, as an array.
    pub fn variadic(self) -> (r: Arg)
        ensures
            r == (Arg { variadic: true, arg_type: ArgType::Array, ..self }),
    {
        Arg { variadic: true, arg_type: ArgType::Array, ..self }
    }
}

/// Convenience function to create a new `Arg`.
pub fn arg(name: &str) -> (r: Arg)
    ensures
        r.name@ == name@,
        !r.positional,
        r.arg_type == ArgType::String,
        !r.required && !r.variadic && r.default is None && r.short is None && r.long is None,
{
    Arg::new(name)
}

/// Convenience function to create a positional `Arg`.
pub fn pos(name: &str) -> (r: Arg)
    ensures
        r.name@ == name@,
        r.positional,
        r.arg_type == ArgType::String,
        !r.required && !r.variadic && r.default is None && r.short is None && r.long is None,
{
    Arg::positional(name)
}

} // verus!
