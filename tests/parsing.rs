use stoml_args::parser::registry_ok;
use stoml_args::{arg, args, pos, Arg, ArgParser, ArgType, Error, Matches, Value};

fn toks(v: &[&str]) -> Vec<String> {
    v.iter().map(|s| s.to_string()).collect()
}

fn tokenize(defs: &[Arg], v: &[&str]) -> Result<Matches, Error> {
    let p = ArgParser::new(defs);
    p.parse(toks(v))
}

#[test]
fn port_and_input_scenario() {
    let a = args("app")
        .arg(arg("port").short('p').long("port").arg_type(ArgType::Integer).default(Value::Integer(8080)))
        .arg(pos("input").required());
    let m = a.parse_from(toks(&["--port=9090", "file.txt"]), None, String::new()).unwrap();
    assert_eq!(m.get_integer("port"), Some(9090));
    assert_eq!(m.get_string("input"), Some("file.txt"));
    assert_eq!(m.program_name, "app");
}

#[test]
fn port_default_applies() {
    let a = args("app")
        .arg(arg("port").short('p').long("port").arg_type(ArgType::Integer).default(Value::Integer(8080)))
        .arg(pos("input").required());
    let m = a.parse_from(toks(&["file.txt"]), None, String::new()).unwrap();
    assert_eq!(m.get_integer("port"), Some(8080));
}

#[test]
fn verbose_from_config_and_negation() {
    let config = vec![("verbose".to_string(), Value::Boolean(true))];
    let a = args("app").arg(arg("verbose").long("verbose").arg_type(ArgType::Bool));
    let m = a.parse_from(toks(&[]), Some(config.clone()), String::new()).unwrap();
    assert!(m.get_bool("verbose"));
    let a = args("app").arg(arg("verbose").long("verbose").arg_type(ArgType::Bool));
    let m = a.parse_from(toks(&["--no-verbose"]), Some(config), String::new()).unwrap();
    assert_eq!(m.get_bool_opt("verbose"), Some(false));
}

#[test]
fn too_many_positionals() {
    let a = args("app").arg(pos("a")).arg(pos("b"));
    match a.parse_from(toks(&["x", "y", "z"]), None, String::new()) {
        Err(Error::TooManyPositional { max, got }) => {
            assert_eq!(max, 2);
            assert_eq!(got, 3);
        }
        _ => panic!("expected TooManyPositional"),
    }
}

#[test]
fn missing_required_named() {
    let a = args("app").arg(arg("name").long("name").required());
    match a.parse_from(toks(&[]), None, String::new()) {
        Err(Error::MissingRequired { name }) => assert_eq!(name, "name"),
        _ => panic!("expected MissingRequired"),
    }
}

#[test]
fn missing_positional_reports_slot() {
    let a = args("app").arg(pos("first")).arg(pos("second").required());
    match a.parse_from(toks(&["one"]), None, String::new()) {
        Err(Error::MissingPositional { name, position }) => {
            assert_eq!(name, "second");
            assert_eq!(position, 1);
        }
        _ => panic!("expected MissingPositional"),
    }
}

#[test]
fn count_cluster_counts_three() {
    let defs = vec![arg("verbose").short('v').count()];
    let m = tokenize(&defs, &["-vvv"]).unwrap();
    assert_eq!(m.get_count("verbose"), 3);
}

#[test]
fn bool_cluster_is_idempotent() {
    let defs = vec![arg("quiet").short('q').flag()];
    let m = tokenize(&defs, &["-qqq"]).unwrap();
    assert!(m.get_bool("quiet"));
}

#[test]
fn cluster_with_value_last() {
    let defs = vec![arg("verbose").short('v').flag(), arg("out").short('o')];
    let m = tokenize(&defs, &["-vofile"]).unwrap();
    assert!(m.get_bool("verbose"));
    assert_eq!(m.get_string("out"), Some("file"));
    let m = tokenize(&defs, &["-vo", "next"]).unwrap();
    assert_eq!(m.get_string("out"), Some("next"));
}

#[test]
fn unknown_long_flag() {
    let defs = vec![arg("x").long("x")];
    match tokenize(&defs, &["--nope=1"]) {
        Err(Error::UnknownFlag { flag }) => assert_eq!(flag, "--nope"),
        _ => panic!("expected UnknownFlag"),
    }
}

#[test]
fn unknown_short_flag() {
    let defs = vec![arg("x").short('x').flag()];
    match tokenize(&defs, &["-xz"]) {
        Err(Error::UnknownFlag { flag }) => assert_eq!(flag, "-z"),
        _ => panic!("expected UnknownFlag"),
    }
}

#[test]
fn missing_value_at_end() {
    let defs = vec![arg("out").long("out")];
    match tokenize(&defs, &["--out"]) {
        Err(Error::MissingValue { name }) => assert_eq!(name, "out"),
        _ => panic!("expected MissingValue"),
    }
}

#[test]
fn invalid_integer() {
    let defs = vec![arg("n").long("n").arg_type(ArgType::Integer)];
    match tokenize(&defs, &["--n", "12x"]) {
        Err(Error::InvalidValue { value, expected, .. }) => {
            assert_eq!(value, "12x");
            assert_eq!(expected, "an integer");
        }
        _ => panic!("expected InvalidValue"),
    }
}

#[test]
fn integer_with_sign_and_overflow() {
    let defs = vec![arg("n").long("n").arg_type(ArgType::Integer)];
    let m = tokenize(&defs, &["--n=-42"]).unwrap();
    assert_eq!(m.get_integer("n"), Some(-42));
    let m = tokenize(&defs, &["--n=+7"]).unwrap();
    assert_eq!(m.get_integer("n"), Some(7));
    assert!(tokenize(&defs, &["--n=9223372036854775808"]).is_err());
    let m = tokenize(&defs, &["--n=-9223372036854775808"]).unwrap();
    assert_eq!(m.get_integer("n"), Some(i64::MIN));
}

#[test]
fn float_values() {
    let defs = vec![arg("r").long("r").arg_type(ArgType::Float)];
    let m = tokenize(&defs, &["--r=2.5e-3"]).unwrap();
    assert_eq!(m.get_float_text("r"), Some("2.5e-3"));
    let parsed: f64 = m.get_float_text("r").unwrap().parse().unwrap();
    assert_eq!(parsed, 0.0025);
    assert!(tokenize(&defs, &["--r=.5"]).is_ok());
    assert!(tokenize(&defs, &["--r=-INF"]).is_ok());
    assert!(tokenize(&defs, &["--r=NaN"]).is_ok());
    match tokenize(&defs, &["--r=1.2.3"]) {
        Err(Error::InvalidValue { expected, .. }) => assert_eq!(expected, "a number"),
        _ => panic!("expected InvalidValue"),
    }
    assert!(tokenize(&defs, &["--r=e5"]).is_err());
    assert!(tokenize(&defs, &["--r=."]).is_err());
    assert!(tokenize(&defs, &["--r=1e"]).is_err());
}

#[test]
fn bool_inline_values() {
    let defs = vec![arg("f").long("f").arg_type(ArgType::Bool)];
    assert!(tokenize(&defs, &["--f=TRUE"]).unwrap().get_bool("f"));
    assert!(tokenize(&defs, &["--f=Yes"]).unwrap().get_bool("f"));
    assert!(tokenize(&defs, &["--f=1"]).unwrap().get_bool("f"));
    assert_eq!(tokenize(&defs, &["--f=maybe"]).unwrap().get_bool_opt("f"), Some(false));
}

#[test]
fn duplicate_value_rejected() {
    let defs = vec![arg("name").long("name")];
    match tokenize(&defs, &["--name", "a", "--name", "b"]) {
        Err(Error::DuplicateValue { name }) => assert_eq!(name, "name"),
        _ => panic!("expected DuplicateValue"),
    }
}

#[test]
fn array_accumulates() {
    let defs = vec![arg("inc").short('I').long("include").arg_type(ArgType::Array)];
    let m = tokenize(&defs, &["--include", "a", "-Ib", "--include=c"]).unwrap();
    let arr = m.get_array("inc").unwrap();
    assert_eq!(arr.len(), 3);
    assert_eq!(arr[0].as_str(), Some("a"));
    assert_eq!(arr[1].as_str(), Some("b"));
    assert_eq!(arr[2].as_str(), Some("c"));
}

#[test]
fn variadic_and_terminator() {
    let a = args("app").arg(pos("cmd")).arg(pos("files").variadic());
    let m = a.parse_from(toks(&["run", "a", "-", "b", "--", "--x", "y"]), None, String::new()).unwrap();
    assert_eq!(m.get_string("cmd"), Some("run"));
    let files = m.get_array("files").unwrap();
    assert_eq!(files.len(), 3);
    assert_eq!(files[1].as_str(), Some("-"));
    assert_eq!(m.remaining().clone(), toks(&["--x", "y"]));
}

#[test]
fn help_and_version_requests() {
    let a = args("app").version("1.2");
    match a.parse_from(toks(&["--help"]), None, "usage".to_string()) {
        Err(e) => {
            assert!(e.is_help());
            assert!(e.is_info_request());
        }
        _ => panic!("expected help"),
    }
    let a = args("app").version("1.2");
    match a.parse_from(toks(&["-V"]), None, String::new()) {
        Err(Error::Version(v)) => assert_eq!(v, "app 1.2"),
        _ => panic!("expected version"),
    }
    let a = args("app").disable_help();
    assert!(a.parse_from(toks(&["--help"]), None, String::new()).is_err());
}

#[test]
fn nested_config_flattened_and_cli_wins() {
    let server = vec![
        ("port".to_string(), Value::Integer(7000)),
        ("host".to_string(), Value::String("h".to_string())),
    ];
    let config = vec![("server".to_string(), Value::Table(server)), ("port".to_string(), Value::Integer(1))];
    let a = args("app").arg(arg("port").long("port").arg_type(ArgType::Integer));
    let m = a.parse_from(toks(&["--port", "5"]), Some(config), String::new()).unwrap();
    assert_eq!(m.get_integer("port"), Some(5));
    assert_eq!(m.get_integer("server.port"), Some(7000));
    assert_eq!(m.get_string("server.host"), Some("h"));
    assert!(m.contains("server"));
}

#[test]
fn with_defaults_and_getters_or() {
    let defs = vec![arg("a").default(Value::String("x".to_string())), arg("b").count()];
    let m = tokenize(&defs, &[]).unwrap().with_defaults(&defs);
    assert_eq!(m.get_string_or("a", "z"), "x");
    assert_eq!(m.get_string_or("missing", "z"), "z");
    assert_eq!(m.get_integer_or("missing", 4), 4);
    assert_eq!(m.get_count("b"), 0);
    assert_eq!(m.get_count_opt("nothing"), None);
}

#[test]
fn to_table_nests_dotted_keys() {
    let config = vec![("port".to_string(), Value::Integer(1))];
    let m = Matches::new().with_toml(&config);
    let mut m2 = m;
    m2.insert("server.port".to_string(), Value::Integer(9));
    let t = m2.to_table();
    assert_eq!(t.len(), 2);
    assert_eq!(t[0].0, "port");
    assert_eq!(t[1].0, "server");
    match &t[1].1 {
        Value::Table(inner) => {
            assert_eq!(inner.len(), 1);
            assert_eq!(inner[0].0, "port");
            assert_eq!(inner[0].1.as_integer(), Some(9));
        }
        _ => panic!("expected a table"),
    }
}

#[test]
fn builders_set_fields() {
    let a = arg("x").short('x').long("ex").help("h").toml_key("k.x").value_name("V").required();
    assert_eq!(a.short, Some('x'));
    assert_eq!(a.long.as_deref(), Some("ex"));
    assert_eq!(a.toml_key.as_deref(), Some("k.x"));
    assert!(a.required);
    let a = a.optional();
    assert!(!a.required);
    assert!(a.default.is_none());
    let p = pos("files").variadic();
    assert!(p.variadic && p.positional);
    assert_eq!(p.arg_type, ArgType::Array);
    let b = args("app").arg(pos("a")).arg(arg("o")).arg(pos("b"));
    assert_eq!(b.args[2].position, Some(1));
    assert_eq!(b.positional_count, 2);
}

#[test]
fn config_path_forms() {
    let a = args("app").config_arg_default("default.toml");
    assert_eq!(a.extract_config_path(&toks(&["--config=x.toml"])), Some("x.toml".to_string()));
    assert_eq!(a.extract_config_path(&toks(&["--config", "y.toml"])), Some("y.toml".to_string()));
    assert_eq!(a.extract_config_path(&toks(&["-cz.toml"])), Some("z.toml".to_string()));
    assert_eq!(a.extract_config_path(&toks(&["-c", "w.toml"])), Some("w.toml".to_string()));
    assert_eq!(a.extract_config_path(&toks(&["-vc", "v.toml"])), Some("v.toml".to_string()));
    assert_eq!(a.extract_config_path(&toks(&["-vcu.toml"])), Some("u.toml".to_string()));
    assert_eq!(a.extract_config_path(&toks(&["file", "--verbose"])), Some("default.toml".to_string()));
    assert_eq!(a.extract_config_path(&toks(&["--config"])), None);
    assert!(matches!(a.config_file_to_load(Some("default.toml".to_string()), false), Ok(None)));
    assert_eq!(a.config_file_to_load(Some("default.toml".to_string()), true).unwrap(), Some("default.toml".to_string()));
    match a.config_file_to_load(Some("other.toml".to_string()), false) {
        Err(Error::MissingConfig { path }) => assert_eq!(path, "other.toml"),
        _ => panic!("expected MissingConfig"),
    }
    assert!(matches!(a.config_file_to_load(None, false), Ok(None)));
}

#[test]
fn format_version_line() {
    assert_eq!(args("tool").version("0.3").format_version(), "tool 0.3");
    assert_eq!(args("tool").format_version(), "tool unknown");
}

#[test]
fn plain_mapping_round_trip() {
    let mut m = Matches::new();
    m.insert("a".to_string(), Value::Integer(1));
    m.insert("b".to_string(), Value::String("x".to_string()));
    let t = m.to_table();
    let back = Matches::new().with_toml(&t);
    assert_eq!(back.values.len(), 2);
    assert_eq!(back.values[0].0, "a");
    assert_eq!(back.get_integer("a"), Some(1));
    assert_eq!(back.values[1].0, "b");
    assert_eq!(back.get_string("b"), Some("x"));
}

#[test]
fn merge_same_after_flatten_and_unflatten() {
    let server = vec![("port".to_string(), Value::Integer(7000))];
    let tree = vec![("server".to_string(), Value::Table(server)), ("debug".to_string(), Value::Boolean(true))];
    let flat = Matches::new().with_toml(&tree);
    let rebuilt = flat.to_table();
    let mut cli = Matches::new();
    cli.insert("debug".to_string(), Value::Boolean(false));
    let a = cli.clone().with_toml(&tree);
    let b = cli.with_toml(&rebuilt);
    for key in ["server.port", "debug", "server"] {
        assert_eq!(a.contains(key), b.contains(key));
    }
    assert_eq!(a.get_integer("server.port"), Some(7000));
    assert_eq!(b.get_integer("server.port"), Some(7000));
    assert_eq!(a.get_bool_opt("debug"), Some(false));
    assert_eq!(b.get_bool_opt("debug"), Some(false));
}

#[test]
fn registry_rejects_clashes() {
    assert!(registry_ok(&[arg("a").short('x'), arg("b").long("bee"), pos("p")]));
    assert!(!registry_ok(&[arg("a").short('x'), arg("b").short('x')]));
    assert!(!registry_ok(&[arg("a").long("same"), arg("b").long("same")]));
    assert!(!registry_ok(&[pos("files").variadic(), pos("last")]));
    assert!(registry_ok(&[pos("first"), pos("files").variadic()]));
}

#[test]
fn positionals_follow_position_field() {
    let defs = vec![
        Arg { position: Some(1), ..pos("second") },
        Arg { position: Some(0), ..pos("first") },
    ];
    let m = tokenize(&defs, &["x", "y"]).unwrap();
    assert_eq!(m.get_string("first"), Some("x"));
    assert_eq!(m.get_string("second"), Some("y"));
}

#[test]
fn error_leaves_no_partial_value() {
    let defs = vec![arg("n").long("n").arg_type(ArgType::Integer), pos("a")];
    assert!(matches!(tokenize(&defs, &["--n", "x"]), Err(Error::InvalidValue { .. })));
    assert!(matches!(tokenize(&defs, &["p", "q"]), Err(Error::TooManyPositional { max: 1, got: 2 })));
}

#[test]
fn cli_port_beats_config_port() {
    let config = vec![("port".to_string(), Value::Integer(1))];
    let a = args("app").config_arg().arg(Arg::new("port").long("port").arg_type(ArgType::Integer));
    let m = a.parse_from(toks(&["--config", "p.toml", "--port", "9090"]), Some(config), String::new()).unwrap();
    assert_eq!(m.get_integer("port"), Some(9090));
    assert_eq!(m.get_string("config"), Some("p.toml"));
}
