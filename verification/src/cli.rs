//! Command-line arguments of the knowledge compiler.
use vstd::prelude::*;
use crate::text::{
    chars_of, find_chars, find_from, owned, slice_chars, split_chars, split_on, str_eq, string_from_chars, trim,
    trim_chars,
};

verus! {

/// What the compiler was asked to do.
pub enum SubCommand {
    /// Build or update the knowledge base.
    Compile { db_path: String, src_dirs: Option<Vec<String>>, config_path: String, no_reduce: bool },
    /// Search the knowledge base.
    Query { db_path: String, query_string: String },
    /// Print the usage.
    Help,
}

/// The parsed command line.
pub struct CliArgs {
    pub cmd: SubCommand,
}

/// Why a command line was refused.
pub enum CliError {
    /// The option (`--db`, `--src`, `--config`) was the last argument.
    MissingValue(String),
    /// An argument of `compile` that is no known option.
    UnknownOption(String),
    /// `query` was given no query words.
    QueryRequired,
    /// The first argument names no subcommand.
    UnknownSubcommand(String),
}

/// The command line as plain values.
pub enum Command {
    Compile { db: Seq<char>, src: Option<Seq<Seq<char>>>, config: Seq<char>, no_reduce: bool },
    Query { db: Seq<char>, query: Seq<char> },
    Help,
}

/// A refusal as plain values.
pub enum ArgError {
    MissingValue(Seq<char>),
    UnknownOption(Seq<char>),
    QueryRequired,
    UnknownSubcommand(Seq<char>),
}

/// Character sequences of a list of strings.
pub open spec fn arg_views(v: Seq<String>) -> Seq<Seq<char>> {
    v.map_values(|s: String| s@)
}

impl CliArgs {
    pub open spec fn command(&self) -> Command {
        match &self.cmd {
            SubCommand::Compile { db_path, src_dirs, config_path, no_reduce } => Command::Compile {
                db: db_path@,
                src: match src_dirs {
                    Some(d) => Some(arg_views(d@)),
                    None => None,
                },
                config: config_path@,
                no_reduce: *no_reduce,
            },
            SubCommand::Query { db_path, query_string } => Command::Query { db: db_path@, query: query_string@ },
            SubCommand::Help => Command::Help,
        }
    }
}

impl CliError {
    pub open spec fn kind(&self) -> ArgError {
        match self {
            CliError::MissingValue(o) => ArgError::MissingValue(o@),
            CliError::UnknownOption(o) => ArgError::UnknownOption(o@),
            CliError::QueryRequired => ArgError::QueryRequired,
            CliError::UnknownSubcommand(s) => ArgError::UnknownSubcommand(s@),
        }
    }

    /// The message printed for the refusal.
    pub open spec fn text(&self) -> Seq<char> {
        match self {
            CliError::MissingValue(o) => "Missing value for "@ + o@,
            CliError::UnknownOption(o) => "Unknown option: "@ + o@,
            CliError::QueryRequired => "Query string is required for 'query' subcommand"@,
            CliError::UnknownSubcommand(s) => "Unknown subcommand: "@ + s@ + ". Use 'compile', 'query' or 'help'"@,
        }
    }

    /// The message printed for the refusal.
    pub fn message(&self) -> (r: String)
        ensures
            r@ == self.text(),
    {
        match self {
            CliError::MissingValue(o) => {
                let mut r = owned("Missing value for ");
                r.push_str(o.as_str());
                r
            },
            CliError::UnknownOption(o) => {
                let mut r = owned("Unknown option: ");
                r.push_str(o.as_str());
                r
            },
            CliError::QueryRequired => owned("Query string is required for 'query' subcommand"),
            CliError::UnknownSubcommand(s) => {
                let mut r = owned("Unknown subcommand: ");
                r.push_str(s.as_str());
                r.push_str(". Use 'compile', 'query' or 'help'");
                r
            },
        }
    }
}

/// The trimmed comma-separated entries of a directory list.
pub open spec fn dir_list(s: Seq<char>) -> Seq<Seq<char>> {
    split_on(s, ',').map_values(|p: Seq<char>| trim(p))
}

/// The options of `compile` read from argument `i` on.
pub open spec fn compile_scan(
    args: Seq<Seq<char>>,
    i: int,
    db: Seq<char>,
    src: Option<Seq<Seq<char>>>,
    config: Seq<char>,
    no_reduce: bool,
) -> Result<Command, ArgError>
    decreases args.len() - i,
{
    if i < 0 || i >= args.len() {
        Ok(Command::Compile { db, src, config, no_reduce })
    } else {
        let a = args[i];
        if a == "--db"@ {
            if i + 1 < args.len() {
                compile_scan(args, i + 2, args[i + 1], src, config, no_reduce)
            } else {
                Err(ArgError::MissingValue("--db"@))
            }
        } else if a == "--src"@ {
            if i + 1 < args.len() {
                compile_scan(args, i + 2, db, Some(dir_list(args[i + 1])), config, no_reduce)
            } else {
                Err(ArgError::MissingValue("--src"@))
            }
        } else if a == "--config"@ {
            if i + 1 < args.len() {
                compile_scan(args, i + 2, db, src, args[i + 1], no_reduce)
            } else {
                Err(ArgError::MissingValue("--config"@))
            }
        } else if a == "--no-reduce"@ {
            compile_scan(args, i + 1, db, src, config, true)
        } else {
            Err(ArgError::UnknownOption(a))
        }
    }
}

/// The database path and query words of `query` read from argument `i` on:
/// `--db` takes the next argument, every other argument is a query word,
/// joined to the earlier ones by a space.
pub open spec fn query_scan(args: Seq<Seq<char>>, i: int, db: Seq<char>, query: Seq<char>) -> Result<
    (Seq<char>, Seq<char>),
    ArgError,
>
    decreases args.len() - i,
{
    if i < 0 || i >= args.len() {
        Ok((db, query))
    } else if args[i] == "--db"@ {
        if i + 1 < args.len() {
            query_scan(args, i + 2, args[i + 1], query)
        } else {
            Err(ArgError::MissingValue("--db"@))
        }
    } else {
        query_scan(
            args,
            i + 1,
            db,
            if query.len() == 0 {
                args[i]
            } else {
                query.push(' ') + args[i]
            },
        )
    }
}

/// The command named by `args` (`args[0]` is the program name).
pub open spec fn parse_command(args: Seq<Seq<char>>) -> Result<Command, ArgError> {
    if args.len() < 2 {
        Ok(Command::Help)
    } else if args[1] == "compile"@ {
        compile_scan(args, 2, "knowledge.db"@, None, "config/models_config.json"@, false)
    } else if args[1] == "query"@ {
        match query_scan(args, 2, "knowledge.db"@, Seq::empty()) {
            Ok(r) => if r.1.len() == 0 {
                Err(ArgError::QueryRequired)
            } else {
                Ok(Command::Query { db: r.0, query: r.1 })
            },
            Err(e) => Err(e),
        }
    } else if args[1] == "help"@ || args[1] == "-h"@ || args[1] == "--help"@ {
        Ok(Command::Help)
    } else {
        Err(ArgError::UnknownSubcommand(args[1]))
    }
}

/// The trimmed comma-separated entries of `s`.
pub fn split_dir_list(s: &str) -> (r: Vec<String>)
    ensures
        arg_views(r@) == dir_list(s@),
{
    let cs = chars_of(s);
    let parts = split_chars(cs.as_slice(), ',');
    let mut out: Vec<String> = Vec::new();
    let mut k: usize = 0;
    while k < parts.len()
        invariant
            k <= parts@.len(),
            parts@.len() == split_on(s@, ',').len(),
            forall|j: int| 0 <= j < parts@.len() ==> (#[trigger] parts@[j])@ == split_on(s@, ',')[j],
            out@.len() == k,
            forall|j: int| 0 <= j < k ==> (#[trigger] out@[j])@ == trim(split_on(s@, ',')[j]),
        decreases parts@.len() - k,
    {
        out.push(string_from_chars(trim_chars(parts[k].as_slice()).as_slice()));
        k = k + 1;
    }
    assert(arg_views(out@) =~= dir_list(s@));
    out
}

fn parse_compile(args: &Vec<String>) -> (r: Result<CliArgs, CliError>)
    requires
        args@.len() >= 2,
    ensures
        match r {
            Ok(a) => Ok::<Command, ArgError>(a.command()) == compile_scan(
                arg_views(args@),
                2,
                "knowledge.db"@,
                None,
                "config/models_config.json"@,
                false,
            ),
            Err(e) => Err::<Command, ArgError>(e.kind()) == compile_scan(
                arg_views(args@),
                2,
                "knowledge.db"@,
                None,
                "config/models_config.json"@,
                false,
            ),
        },
{
    let ghost av = arg_views(args@);
    let mut db_path = owned("knowledge.db");
    let mut src_dirs: Option<Vec<String>> = None;
    let mut config_path = owned("config/models_config.json");
    let mut no_reduce = false;
    let mut i: usize = 2;
    while i < args.len()
        invariant
            2 <= i <= args@.len() + 1,
            av == arg_views(args@),
            compile_scan(av, 2, "knowledge.db"@, None, "config/models_config.json"@, false) == compile_scan(
                av,
                i as int,
                db_path@,
                match src_dirs {
                    Some(d) => Some(arg_views(d@)),
                    None => None,
                },
                config_path@,
                no_reduce,
            ),
        decreases args@.len() + 1 - i,
    {
        let a = args[i].as_str();
        assert(av[i as int] == a@);
        if str_eq(a, "--db") {
            if i + 1 < args.len() {
                db_path = args[i + 1].clone();
                i = i + 2;
            } else {
                return Err(CliError::MissingValue(owned("--db")));
            }
        } else if str_eq(a, "--src") {
            if i + 1 < args.len() {
                src_dirs = Some(split_dir_list(args[i + 1].as_str()));
                i = i + 2;
            } else {
                return Err(CliError::MissingValue(owned("--src")));
            }
        } else if str_eq(a, "--config") {
            if i + 1 < args.len() {
                config_path = args[i + 1].clone();
                i = i + 2;
            } else {
                return Err(CliError::MissingValue(owned("--config")));
            }
        } else if str_eq(a, "--no-reduce") {
            no_reduce = true;
            i = i + 1;
        } else {
            return Err(CliError::UnknownOption(args[i].clone()));
        }
    }
    Ok(CliArgs { cmd: SubCommand::Compile { db_path, src_dirs, config_path, no_reduce } })
}

fn parse_query(args: &Vec<String>) -> (r: Result<CliArgs, CliError>)
    requires
        args@.len() >= 2,
    ensures
        match r {
            Ok(a) => match query_scan(arg_views(args@), 2, "knowledge.db"@, Seq::empty()) {
                Ok(v) => v.1.len() > 0 && a.command() == (Command::Query { db: v.0, query: v.1 }),
                Err(_) => false,
            },
            Err(e) => match query_scan(arg_views(args@), 2, "knowledge.db"@, Seq::empty()) {
                Ok(v) => v.1.len() == 0 && e.kind() == ArgError::QueryRequired,
                Err(k) => e.kind() == k,
            },
        },
{
    let ghost av = arg_views(args@);
    let mut db_path = owned("knowledge.db");
    let mut query_string = String::new();
    let mut i: usize = 2;
    while i < args.len()
        invariant
            2 <= i <= args@.len() + 1,
            av == arg_views(args@),
            query_scan(av, 2, "knowledge.db"@, Seq::empty()) == query_scan(av, i as int, db_path@, query_string@),
        decreases args@.len() + 1 - i,
    {
        let a = args[i].as_str();
        assert(av[i as int] == a@);
        if str_eq(a, "--db") {
            if i + 1 < args.len() {
                db_path = args[i + 1].clone();
                i = i + 2;
            } else {
                return Err(CliError::MissingValue(owned("--db")));
            }
        } else {
            if query_string.as_str().is_empty() {
                query_string = args[i].clone();
            } else {
                query_string.push(' ');
                query_string.push_str(a);
            }
            i = i + 1;
        }
    }
    if query_string.as_str().is_empty() {
        return Err(CliError::QueryRequired);
    }
    Ok(CliArgs { cmd: SubCommand::Query { db_path, query_string } })
}

/// Parses the command line (`args[0]` is the program name): `compile` with
/// `--db`, `--src`, `--config` and `--no-reduce`; `query` with `--db` and the
/// query words; `help`, `-h` or `--help`; and help when no subcommand is given.
pub fn parse_args(args: &Vec<String>) -> (r: Result<CliArgs, CliError>)
    ensures
        match r {
            Ok(a) => parse_command(arg_views(args@)) == Ok::<Command, ArgError>(a.command()),
            Err(e) => parse_command(arg_views(args@)) == Err::<Command, ArgError>(e.kind()),
        },
{
    let ghost av = arg_views(args@);
    if args.len() < 2 {
        return Ok(CliArgs { cmd: SubCommand::Help });
    }
    let sub = args[1].as_str();
    assert(av[1] == sub@);
    if str_eq(sub, "compile") {
        parse_compile(args)
    } else if str_eq(sub, "query") {
        parse_query(args)
    } else if str_eq(sub, "help") || str_eq(sub, "-h") || str_eq(sub, "--help") {
        Ok(CliArgs { cmd: SubCommand::Help })
    } else {
        Err(CliError::UnknownSubcommand(args[1].clone()))
    }
}

/// Whether the summary phase is skipped: by `--no-reduce`, or by the
/// environment value `1` of `TANUKI_NO_REDUCE`.
pub fn skip_reduce(no_reduce: bool, env_value: Option<&str>) -> (r: bool)
    ensures
        r == (no_reduce || (env_value matches Some(v) && v@ == "1"@)),
{
    let from_env = match env_value {
        Some(v) => str_eq(v, "1"),
        None => false,
    };
    no_reduce || from_env
}

/// What one line of a `.env` file holds.
pub enum EnvLine {
    /// A blank line, a comment, or a line without `=`.
    Skip,
    /// A variable and its value.
    Entry(String, String),
    /// A value that is a single quote character; reading it panics.
    LoneQuote,
}

/// Whether `v` is wrapped in double or single quotes (a single quote
/// character counts as both opening and closing).
pub open spec fn is_quoted(v: Seq<char>) -> bool {
    v.len() > 0 && ((v[0] == '"' && v.last() == '"') || (v[0] == '\'' && v.last() == '\''))
}

/// A `.env` line split into its trimmed key and trimmed raw value: the
/// trimmed line is neither empty nor a `#` comment and holds `=`.
pub open spec fn env_split(line: Seq<char>) -> Option<(Seq<char>, Seq<char>)> {
    let t = trim(line);
    if t.len() == 0 || t[0] == '#' {
        None
    } else {
        match find_from(t, seq!['='], 0) {
            None => None,
            Some(i) => Some((trim(t.take(i)), trim(t.skip(i + 1)))),
        }
    }
}

/// A value without its matching quotes.
pub open spec fn unquote(v: Seq<char>) -> Seq<char> {
    if is_quoted(v) {
        v.subrange(1, v.len() - 1)
    } else {
        v
    }
}

/// The variable and value that a `.env` line sets.
pub open spec fn env_entry(line: Seq<char>) -> Option<(Seq<char>, Seq<char>)> {
    match env_split(line) {
        Some(kv) => Some((kv.0, unquote(kv.1))),
        None => None,
    }
}

/// A line whose value is one quote character.
pub open spec fn lone_quote(line: Seq<char>) -> bool {
    match env_split(line) {
        Some(kv) => is_quoted(kv.1) && kv.1.len() == 1,
        None => false,
    }
}

/// Reads one line of a `.env` file.
pub fn parse_env_line(line: &str) -> (r: EnvLine)
    ensures
        match r {
            EnvLine::Skip => env_split(line@) is None,
            EnvLine::Entry(k, v) => env_entry(line@) == Some((k@, v@)) && !lone_quote(line@),
            EnvLine::LoneQuote => lone_quote(line@),
        },
{
    let t = trim_chars(chars_of(line).as_slice());
    if t.len() == 0 || t[0] == '#' {
        return EnvLine::Skip;
    }
    let mut eq: Vec<char> = Vec::new();
    eq.push('=');
    assert(eq@ =~= seq!['=']);
    match find_chars(t.as_slice(), eq.as_slice(), 0) {
        None => EnvLine::Skip,
        Some(i) => {
            let n = t.len();
            assert(i + 1 <= n);
            let key_part = slice_chars(t.as_slice(), 0, i);
            assert(key_part@ =~= t@.take(i as int));
            let val_part = slice_chars(t.as_slice(), i + 1, n);
            assert(val_part@ =~= t@.skip(i + 1));
            let key = trim_chars(key_part.as_slice());
            let v = trim_chars(val_part.as_slice());
            let m = v.len();
            let quoted = m > 0 && ((v[0] == '"' && v[m - 1] == '"') || (v[0] == '\'' && v[m - 1] == '\''));
            if quoted && m == 1 {
                return EnvLine::LoneQuote;
            }
            let value = if quoted {
                let inner = slice_chars(v.as_slice(), 1, m - 1);
                string_from_chars(inner.as_slice())
            } else {
                string_from_chars(v.as_slice())
            };
            EnvLine::Entry(string_from_chars(key.as_slice()), value)
        },
    }
}

} // verus!
