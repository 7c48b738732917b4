//! Command-line arguments.

use vstd::prelude::*;

use crate::text::parse_i32;
use crate::text::parse_i32_spec;
use crate::text::parse_usize;
use crate::text::parse_usize_spec;

verus! {

/// Parsed CLI arguments.
#[derive(Debug, Default)]
pub struct Args {
    /// Root pid to start tree from (default: 1).
    pub root_pid: i32,
    /// Show only branches containing this pid.
    pub pid_filter: Option<i32>,
    /// Show only branches containing processes owned by this username.
    pub user_filter: Option<String>,
    /// Maximum depth to display.
    pub max_depth: Option<usize>,
    /// Disable line truncation.
    pub wide: bool,
    /// Use ASCII tree characters instead of UTF-8.
    pub ascii: bool,
}

/// The meaning of parsed arguments, with the user name as text.
pub struct ArgsSpec {
    pub root_pid: i32,
    pub pid_filter: Option<i32>,
    pub user_filter: Option<Seq<char>>,
    pub max_depth: Option<usize>,
    pub wide: bool,
    pub ascii: bool,
}

impl View for Args {
    type V = ArgsSpec;

    open spec fn view(&self) -> ArgsSpec {
        ArgsSpec {
            root_pid: self.root_pid,
            pid_filter: self.pid_filter,
            user_filter: match self.user_filter {
                Some(u) => Some(u@),
                None => None,
            },
            max_depth: self.max_depth,
            wide: self.wide,
            ascii: self.ascii,
        }
    }
}

/// An error in the command line, with the message to show.
#[derive(Debug)]
pub struct ParseError(pub String);

/// The help text.
pub const USAGE: &'static str = "Usage: pstree-rs [-w] [--ascii] [-p pid] [-u user] [-l depth] [pid]

Options:
  pid        root pid to start from (default: 1)
  -p pid     show only branches containing pid
  -u user    show only branches containing processes owned by user
  -l depth   limit tree depth
  -w         wide output, no truncation
  --ascii    use ASCII tree characters
  -h         show this help";

/// The help text, as characters.
pub open spec fn usage_text() -> Seq<char> {
    USAGE@
}

/// Returns the help text.
pub fn usage() -> (r: String)
    ensures
        r@ == usage_text(),
{
    USAGE.to_string()
}

/// The arguments before any flag is read: root pid 1, nothing else set.
pub open spec fn default_args() -> ArgsSpec {
    ArgsSpec {
        root_pid: 1,
        pid_filter: None,
        user_filter: None,
        max_depth: None,
        wide: false,
        ascii: false,
    }
}

/// The outcome of reading `argv[i..]` on top of `acc`: flags set fields,
/// `-p`, `-u` and `-l` take the next argument, `-h` asks for the help text,
/// any other argument starting with `-` is unknown, and anything else is
/// the root pid; the first problem ends the parse with its message.
pub open spec fn parse_from(argv: Seq<Seq<char>>, i: int, acc: ArgsSpec) -> Result<ArgsSpec, Seq<char>>
    decreases argv.len() - i,
{
    if i < 0 || i >= argv.len() {
        Ok(acc)
    } else {
        let a = argv[i];
        if a == "-w"@ || a == "--wide"@ {
            parse_from(argv, i + 1, ArgsSpec { wide: true, ..acc })
        } else if a == "--ascii"@ {
            parse_from(argv, i + 1, ArgsSpec { ascii: true, ..acc })
        } else if a == "-p"@ {
            if i + 1 >= argv.len() {
                Err("-p requires a pid"@)
            } else {
                match parse_i32_spec(argv[i + 1]) {
                    Some(v) => parse_from(argv, i + 2, ArgsSpec { pid_filter: Some(v as i32), ..acc }),
                    None => Err("invalid pid: "@ + argv[i + 1]),
                }
            }
        } else if a == "-u"@ {
            if i + 1 >= argv.len() {
                Err("-u requires a username"@)
            } else {
                parse_from(argv, i + 2, ArgsSpec { user_filter: Some(argv[i + 1]), ..acc })
            }
        } else if a == "-l"@ {
            if i + 1 >= argv.len() {
                Err("-l requires a number"@)
            } else {
                match parse_usize_spec(argv[i + 1]) {
                    Some(v) => parse_from(argv, i + 2, ArgsSpec { max_depth: Some(v as usize), ..acc }),
                    None => Err("invalid depth: "@ + argv[i + 1]),
                }
            }
        } else if a == "-h"@ || a == "--help"@ {
            Err(usage_text())
        } else if a.len() > 0 && a[0] == '-' {
            Err("unknown flag: "@ + a + "\n"@ + usage_text())
        } else {
            match parse_i32_spec(a) {
                Some(v) => parse_from(argv, i + 1, ArgsSpec { root_pid: v as i32, ..acc }),
                None => Err("invalid pid: "@ + a),
            }
        }
    }
}

/// The outcome of parsing a whole command line, whose first item is the
/// program name.
pub open spec fn parse_spec(argv: Seq<Seq<char>>) -> Result<ArgsSpec, Seq<char>> {
    parse_from(argv, 1, default_args())
}

/// Reading more arguments after a complete parse goes on from where it
/// ended: the first `argv.len()` items are read the same way.
proof fn lemma_parse_more(argv: Seq<Seq<char>>, rest: Seq<Seq<char>>, i: int, acc: ArgsSpec, a: ArgsSpec)
    requires
        1 <= i <= argv.len(),
        parse_from(argv, i, acc) == Ok::<ArgsSpec, Seq<char>>(a),
    ensures
        parse_from(argv + rest, i, acc) == parse_from(argv + rest, argv.len() as int, a),
    decreases argv.len() - i,
{
    let all = argv + rest;
    if i < argv.len() {
        let x = argv[i];
        assert(all[i] == x);
        if x == "-w"@ || x == "--wide"@ {
            lemma_parse_more(argv, rest, i + 1, ArgsSpec { wide: true, ..acc }, a);
        } else if x == "--ascii"@ {
            lemma_parse_more(argv, rest, i + 1, ArgsSpec { ascii: true, ..acc }, a);
        } else if x == "-p"@ {
            assert(all[i + 1] == argv[i + 1]);
            let v = parse_i32_spec(argv[i + 1]).unwrap();
            lemma_parse_more(argv, rest, i + 2, ArgsSpec { pid_filter: Some(v as i32), ..acc }, a);
        } else if x == "-u"@ {
            assert(all[i + 1] == argv[i + 1]);
            lemma_parse_more(argv, rest, i + 2, ArgsSpec { user_filter: Some(argv[i + 1]), ..acc }, a);
        } else if x == "-l"@ {
            assert(all[i + 1] == argv[i + 1]);
            let v = parse_usize_spec(argv[i + 1]).unwrap();
            lemma_parse_more(argv, rest, i + 2, ArgsSpec { max_depth: Some(v as usize), ..acc }, a);
        } else if x == "-h"@ || x == "--help"@ {
        } else if x.len() > 0 && x[0] == '-' {
        } else {
            let v = parse_i32_spec(x).unwrap();
            lemma_parse_more(argv, rest, i + 1, ArgsSpec { root_pid: v as i32, ..acc }, a);
        }
    }
}

/// Law: each option sets its own field and leaves every other one as it
/// was: appending `-w` or `--wide` to a command line that parses turns on
/// wide output only, `--ascii` turns on ASCII connectors only, `-u name`
/// sets the user filter only, `-p pid` the pid filter only, `-l depth` the
/// depth limit only, and a pid that does not start with `-` the root pid
/// only.
pub proof fn lemma_option_sets_own_field(argv: Seq<Seq<char>>, a: ArgsSpec, v: Seq<char>)
    requires
        argv.len() >= 1,
        parse_spec(argv) == Ok::<ArgsSpec, Seq<char>>(a),
    ensures
        parse_spec(argv.push("-w"@)) == Ok::<ArgsSpec, Seq<char>>(ArgsSpec { wide: true, ..a }),
        parse_spec(argv.push("--wide"@)) == Ok::<ArgsSpec, Seq<char>>(ArgsSpec { wide: true, ..a }),
        parse_spec(argv.push("--ascii"@)) == Ok::<ArgsSpec, Seq<char>>(ArgsSpec { ascii: true, ..a }),
        parse_spec(argv.push("-u"@).push(v)) == Ok::<ArgsSpec, Seq<char>>(ArgsSpec { user_filter: Some(v), ..a }),
        parse_i32_spec(v) is Some ==> parse_spec(argv.push("-p"@).push(v)) == Ok::<ArgsSpec, Seq<char>>(
            ArgsSpec { pid_filter: Some(parse_i32_spec(v).unwrap() as i32), ..a },
        ),
        parse_usize_spec(v) is Some ==> parse_spec(argv.push("-l"@).push(v)) == Ok::<ArgsSpec, Seq<char>>(
            ArgsSpec { max_depth: Some(parse_usize_spec(v).unwrap() as usize), ..a },
        ),
        parse_i32_spec(v) is Some && v.len() > 0 && v[0] != '-' ==> parse_spec(argv.push(v)) == Ok::<
            ArgsSpec,
            Seq<char>,
        >(ArgsSpec { root_pid: parse_i32_spec(v).unwrap() as i32, ..a }),
{
    reveal_strlit("-w");
    reveal_strlit("--wide");
    reveal_strlit("--ascii");
    reveal_strlit("-p");
    reveal_strlit("-u");
    reveal_strlit("-l");
    reveal_strlit("-h");
    reveal_strlit("--help");
    let n = argv.len() as int;
    let d = default_args();
    let w = "-w"@;
    assert(argv.push(w) =~= argv + seq![w]);
    lemma_parse_more(argv, seq![w], 1, d, a);
    assert((argv + seq![w])[n] == w);
    assert(parse_from(argv + seq![w], n + 1, ArgsSpec { wide: true, ..a }) == Ok::<ArgsSpec, Seq<char>>(ArgsSpec { wide: true, ..a }));
    let ww = "--wide"@;
    assert(argv.push(ww) =~= argv + seq![ww]);
    lemma_parse_more(argv, seq![ww], 1, d, a);
    assert((argv + seq![ww])[n] == ww);
    assert(parse_from(argv + seq![ww], n + 1, ArgsSpec { wide: true, ..a }) == Ok::<ArgsSpec, Seq<char>>(ArgsSpec { wide: true, ..a }));
    let asc = "--ascii"@;
    assert(argv.push(asc) =~= argv + seq![asc]);
    lemma_parse_more(argv, seq![asc], 1, d, a);
    assert((argv + seq![asc])[n] == asc);
    assert(asc != w && asc != ww);
    assert(parse_from(argv + seq![asc], n + 1, ArgsSpec { ascii: true, ..a }) == Ok::<ArgsSpec, Seq<char>>(ArgsSpec { ascii: true, ..a }));
    let u = "-u"@;
    assert(argv.push(u).push(v) =~= argv + seq![u, v]);
    lemma_parse_more(argv, seq![u, v], 1, d, a);
    assert((argv + seq![u, v])[n] == u);
    assert((argv + seq![u, v])[n + 1] == v);
    assert(u != w && u != ww && u != asc && u != "-p"@);
    assert(parse_from(argv + seq![u, v], n + 2, ArgsSpec { user_filter: Some(v), ..a }) == Ok::<ArgsSpec, Seq<char>>(ArgsSpec { user_filter: Some(v), ..a }));
    let p = "-p"@;
    assert(argv.push(p).push(v) =~= argv + seq![p, v]);
    lemma_parse_more(argv, seq![p, v], 1, d, a);
    assert((argv + seq![p, v])[n] == p);
    assert((argv + seq![p, v])[n + 1] == v);
    assert(p != w && p != ww && p != asc);
    if parse_i32_spec(v) is Some {
        let pv = ArgsSpec { pid_filter: Some(parse_i32_spec(v).unwrap() as i32), ..a };
        assert(parse_from(argv + seq![p, v], n + 2, pv) == Ok::<ArgsSpec, Seq<char>>(pv));
    }
    let l = "-l"@;
    assert(argv.push(l).push(v) =~= argv + seq![l, v]);
    lemma_parse_more(argv, seq![l, v], 1, d, a);
    assert((argv + seq![l, v])[n] == l);
    assert((argv + seq![l, v])[n + 1] == v);
    assert(l != w && l != ww && l != asc && l != p && l != u);
    if parse_usize_spec(v) is Some {
        let lv = ArgsSpec { max_depth: Some(parse_usize_spec(v).unwrap() as usize), ..a };
        assert(parse_from(argv + seq![l, v], n + 2, lv) == Ok::<ArgsSpec, Seq<char>>(lv));
    }
    assert(argv.push(v) =~= argv + seq![v]);
    lemma_parse_more(argv, seq![v], 1, d, a);
    assert((argv + seq![v])[n] == v);
    if parse_i32_spec(v) is Some && v.len() > 0 && v[0] != '-' {
        assert(v != w && v != ww && v != asc && v != p && v != u && v != l && v != "-h"@ && v != "--help"@) by {
            assert(w[0] == '-' && ww[0] == '-' && asc[0] == '-' && p[0] == '-' && u[0] == '-' && l[0] == '-');
            assert("-h"@[0] == '-' && "--help"@[0] == '-');
        }
        let rv = ArgsSpec { root_pid: parse_i32_spec(v).unwrap() as i32, ..a };
        assert(parse_from(argv + seq![v], n + 1, rv) == Ok::<ArgsSpec, Seq<char>>(rv));
    }
}

/// The command line as texts.
pub open spec fn argv_text(argv: Seq<String>) -> Seq<Seq<char>> {
    argv.map_values(|s: String| s@)
}

/// Whether two strings hold the same characters.
fn str_eq(a: &str, b: &str) -> (r: bool)
    ensures
        r == (a@ == b@),
{
    let n = a.unicode_len();
    if n != b.unicode_len() {
        return false;
    }
    let mut i: usize = 0;
    while i < n
        invariant
            n == a@.len(),
            n == b@.len(),
            i <= n,
            forall|j: int| 0 <= j < i ==> a@[j] == b@[j],
        decreases n - i,
    {
        if a.get_char(i) != b.get_char(i) {
            return false;
        }
        i = i + 1;
    }
    assert(a@ =~= b@);
    true
}

/// `prefix` followed by `rest`.
fn message(prefix: &str, rest: &str) -> (r: String)
    ensures
        r@ == prefix@ + rest@,
{
    let mut m = prefix.to_string();
    m.append(rest);
    m
}

/// Parses the command line `argv`, whose first item is the program name.
pub fn parse_args(argv: Vec<String>) -> (r: Result<Args, ParseError>)
    ensures
        match r {
            Ok(a) => parse_spec(argv_text(argv@)) == Ok::<ArgsSpec, Seq<char>>(a@),
            Err(e) => parse_spec(argv_text(argv@)) == Err::<ArgsSpec, Seq<char>>(e.0@),
        },
{
    let ghost text = argv_text(argv@);
    let mut args = Args {
        root_pid: 1,
        pid_filter: None,
        user_filter: None,
        max_depth: None,
        wide: false,
        ascii: false,
    };
    let n = argv.len();
    let mut i: usize = 1;
    assert(args@ == default_args());
    while i < n
        invariant
            n == argv@.len(),
            text == argv_text(argv@),
            1 <= i,
            parse_spec(text) == parse_from(text, i as int, args@),
        decreases n - i,
    {
        let a = argv[i].as_str();
        assert(a@ == text[i as int]);
        if str_eq(a, "-w") || str_eq(a, "--wide") {
            args.wide = true;
        } else if str_eq(a, "--ascii") {
            args.ascii = true;
        } else if str_eq(a, "-p") {
            i = i + 1;
            if i >= n {
                return Err(ParseError("-p requires a pid".to_string()));
            }
            let val = argv[i].as_str();
            assert(val@ == text[i as int]);
            match parse_i32(val) {
                Some(v) => {
                    args.pid_filter = Some(v);
                },
                None => {
                    return Err(ParseError(message("invalid pid: ", val)));
                },
            }
        } else if str_eq(a, "-u") {
            i = i + 1;
            if i >= n {
                return Err(ParseError("-u requires a username".to_string()));
            }
            assert(argv[i as int]@ == text[i as int]);
            args.user_filter = Some(argv[i].clone());
        } else if str_eq(a, "-l") {
            i = i + 1;
            if i >= n {
                return Err(ParseError("-l requires a number".to_string()));
            }
            let val = argv[i].as_str();
            assert(val@ == text[i as int]);
            match parse_usize(val) {
                Some(v) => {
                    args.max_depth = Some(v);
                },
                None => {
                    return Err(ParseError(message("invalid depth: ", val)));
                },
            }
        } else if str_eq(a, "-h") || str_eq(a, "--help") {
            return Err(ParseError(usage()));
        } else if a.unicode_len() > 0 && a.get_char(0) == '-' {
            let mut m = message("unknown flag: ", a);
            m.append("\n");
            m.append(USAGE);
            return Err(ParseError(m));
        } else {
            match parse_i32(a) {
                Some(v) => {
                    args.root_pid = v;
                },
                None => {
                    return Err(ParseError(message("invalid pid: ", a)));
                },
            }
        }
        i = i + 1;
    }
    Ok(args)
}

} // verus!
