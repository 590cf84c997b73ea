use tanuki::cli::{parse_args, parse_env_line, skip_reduce, split_dir_list, CliError, EnvLine, SubCommand};

fn args(a: &[&str]) -> Vec<String> {
    a.iter().map(|s| s.to_string()).collect()
}

#[test]
fn no_subcommand_is_help() {
    assert!(matches!(parse_args(&args(&["tanuki"])).ok().unwrap().cmd, SubCommand::Help));
    for h in ["help", "-h", "--help"] {
        assert!(matches!(parse_args(&args(&["tanuki", h])).ok().unwrap().cmd, SubCommand::Help));
    }
}

#[test]
fn compile_defaults() {
    match parse_args(&args(&["tanuki", "compile"])).ok().unwrap().cmd {
        SubCommand::Compile { db_path, src_dirs, config_path, no_reduce } => {
            assert_eq!(db_path, "knowledge.db");
            assert!(src_dirs.is_none());
            assert_eq!(config_path, "config/models_config.json");
            assert!(!no_reduce);
        }
        _ => panic!("expected compile"),
    }
}

#[test]
fn compile_options() {
    let a = args(&["tanuki", "compile", "--db", "x.db", "--src", " a , b,c ", "--config", "m.json", "--no-reduce"]);
    match parse_args(&a).ok().unwrap().cmd {
        SubCommand::Compile { db_path, src_dirs, config_path, no_reduce } => {
            assert_eq!(db_path, "x.db");
            assert_eq!(src_dirs.unwrap(), vec!["a".to_string(), "b".to_string(), "c".to_string()]);
            assert_eq!(config_path, "m.json");
            assert!(no_reduce);
        }
        _ => panic!("expected compile"),
    }
}

#[test]
fn compile_errors() {
    let e = parse_args(&args(&["tanuki", "compile", "--db"])).err().unwrap();
    assert!(matches!(&e, CliError::MissingValue(o) if o == "--db"));
    assert_eq!(e.message(), "Missing value for --db");
    let e = parse_args(&args(&["tanuki", "compile", "--src"])).err().unwrap();
    assert_eq!(e.message(), "Missing value for --src");
    let e = parse_args(&args(&["tanuki", "compile", "--config"])).err().unwrap();
    assert_eq!(e.message(), "Missing value for --config");
    let e = parse_args(&args(&["tanuki", "compile", "--fast"])).err().unwrap();
    assert_eq!(e.message(), "Unknown option: --fast");
}

#[test]
fn query_joins_words() {
    match parse_args(&args(&["tanuki", "query", "rust", "--db", "k.db", "traits"])).ok().unwrap().cmd {
        SubCommand::Query { db_path, query_string } => {
            assert_eq!(db_path, "k.db");
            assert_eq!(query_string, "rust traits");
        }
        _ => panic!("expected query"),
    }
}

#[test]
fn query_errors() {
    let e = parse_args(&args(&["tanuki", "query"])).err().unwrap();
    assert!(matches!(e, CliError::QueryRequired));
    assert_eq!(e.message(), "Query string is required for 'query' subcommand");
    let e = parse_args(&args(&["tanuki", "query", "--db", "k.db"])).err().unwrap();
    assert!(matches!(e, CliError::QueryRequired));
    let e = parse_args(&args(&["tanuki", "query", "x", "--db"])).err().unwrap();
    assert_eq!(e.message(), "Missing value for --db");
}

#[test]
fn unknown_subcommand() {
    let e = parse_args(&args(&["tanuki", "build"])).err().unwrap();
    assert_eq!(e.message(), "Unknown subcommand: build. Use 'compile', 'query' or 'help'");
}

#[test]
fn directory_lists_and_reduce_switch() {
    assert_eq!(split_dir_list("x"), vec!["x".to_string()]);
    assert_eq!(split_dir_list(""), vec!["".to_string()]);
    assert_eq!(split_dir_list("a,,b"), vec!["a".to_string(), "".to_string(), "b".to_string()]);
    assert!(skip_reduce(true, None));
    assert!(skip_reduce(false, Some("1")));
    assert!(!skip_reduce(false, Some("true")));
    assert!(!skip_reduce(false, None));
}

#[test]
fn dotenv_lines() {
    assert!(matches!(parse_env_line("   "), EnvLine::Skip));
    assert!(matches!(parse_env_line("# comment=1"), EnvLine::Skip));
    assert!(matches!(parse_env_line("NOEQUALS"), EnvLine::Skip));
    assert!(matches!(parse_env_line(" KEY = value "), EnvLine::Entry(k, v) if k == "KEY" && v == "value"));
    assert!(matches!(parse_env_line("KEY=\"quoted value\""), EnvLine::Entry(k, v) if k == "KEY" && v == "quoted value"));
    assert!(matches!(parse_env_line("KEY='x'"), EnvLine::Entry(_, v) if v == "x"));
    assert!(matches!(parse_env_line("KEY=\"half"), EnvLine::Entry(_, v) if v == "\"half"));
    assert!(matches!(parse_env_line("KEY=a=b"), EnvLine::Entry(k, v) if k == "KEY" && v == "a=b"));
    assert!(matches!(parse_env_line("KEY=\"\""), EnvLine::Entry(_, v) if v.is_empty()));
    assert!(matches!(parse_env_line("KEY=\""), EnvLine::LoneQuote));
}
