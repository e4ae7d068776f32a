//! The command line.

use vstd::prelude::*;

use crate::text::text_views;

verus! {

/// What the command line says.
#[derive(Debug)]
pub struct Args {
    /// The file of the configuration.
    pub config: String,
    /// The node, in place of the one of the configuration.
    pub node_id: Option<u64>,
    /// The address to listen at, in place of the one of the configuration.
    pub listen: Option<String>,
}

/// Why a command line gives no options.
#[derive(Debug)]
pub struct LineRefusal {
    pub text: String,
    /// The line is wrong; else it asks for help, which the text gives.
    pub is_error: bool,
}

/// How the options are called: one with a short form and a default, one for a number,
/// and one for a text.
#[derive(Clone, Copy, Debug)]
pub struct OptionNames {
    pub program: &'static str,
    pub about: &'static str,
    pub file: &'static str,
    pub file_short: char,
    pub file_default: &'static str,
    pub number: &'static str,
    pub text: &'static str,
}

/// The name can be that of an option: `--help` is taken, and dashes come before names.
pub open spec fn is_option_name(name: Seq<char>) -> bool {
    name.len() > 0 && name[0] != '-' && name != "help"@
}

/// What `clap` reads from a command line with these options: program, option for a file
/// with its short form and default, option for a number, option for a text, and the
/// words of the line; else whether the line is wrong rather than asks for help.
pub uninterp spec fn line_values(
    program: Seq<char>,
    file: (Seq<char>, char, Seq<char>),
    number: Seq<char>,
    text: Seq<char>,
    line: Seq<Seq<char>>,
) -> Result<(Seq<char>, Option<u64>, Option<Seq<char>>), bool>;

/// `clap::Command::try_get_matches_from` on a command with three options, and the values
/// of these.
///
/// A line with no words behind the program's name gives each option its default or
/// nothing.  A refused line is wrong if `clap::Error::use_stderr` says so.  The text for
/// a refused line is left unsaid: it can depend on how the machine writes paths.
#[verifier::external_body]
fn read_line(names: &OptionNames, line: &Vec<String>) -> (r: Result<
    (String, Option<u64>, Option<String>),
    LineRefusal,
>)
    requires
        is_option_name(names.file@) && is_option_name(names.number@) && is_option_name(names.text@),
        names.file@ != names.number@ && names.file@ != names.text@ && names.number@ != names.text@,
        names.file_short != '-' && names.file_short != 'h',
    ensures
        match r {
            Ok(v) => line_values(
                names.program@,
                (names.file@, names.file_short, names.file_default@),
                names.number@,
                names.text@,
                text_views(line@),
            ) == Ok::<_, bool>(
                (
                    v.0@,
                    v.1,
                    match v.2 {
                        Some(t) => Some(t@),
                        None => None,
                    },
                ),
            ),
            Err(e) => line_values(
                names.program@,
                (names.file@, names.file_short, names.file_default@),
                names.number@,
                names.text@,
                text_views(line@),
            ) == Err::<(Seq<char>, Option<u64>, Option<Seq<char>>), bool>(e.is_error),
        },
        line@.len() <= 1 ==> r is Ok && r->Ok_0.0@ == names.file_default@ && r->Ok_0.1 is None
            && r->Ok_0.2 is None,
{
    let number = clap::builder::RangedU64ValueParser::<u64>::new();
    let file = clap::Arg::new(names.file).long(names.file).short(names.file_short);
    let mut m = clap::Command::new(names.program)
        .about(names.about)
        .arg(file.default_value(names.file_default))
        .arg(clap::Arg::new(names.number).long(names.number).value_parser(number))
        .arg(clap::Arg::new(names.text).long(names.text))
        .try_get_matches_from(line)
        .map_err(|e| LineRefusal { text: e.to_string(), is_error: e.use_stderr() })?;
    let file = m.remove_one(names.file).unwrap_or_default();
    Ok((file, m.remove_one(names.number), m.remove_one(names.text)))
}

impl Args {
    /// Reads a command line, whose first word is the program's name.
    pub fn try_parse_from(line: &Vec<String>) -> (r: Result<Args, LineRefusal>)
        ensures
            match r {
                Ok(a) => line_values(
                    "eventstored"@,
                    ("config"@, 'c', "config.toml"@),
                    "node-id"@,
                    "listen"@,
                    text_views(line@),
                ) == Ok::<_, bool>(
                    (
                        a.config@,
                        a.node_id,
                        match a.listen {
                            Some(t) => Some(t@),
                            None => None,
                        },
                    ),
                ),
                Err(e) => line_values(
                    "eventstored"@,
                    ("config"@, 'c', "config.toml"@),
                    "node-id"@,
                    "listen"@,
                    text_views(line@),
                ) == Err::<(Seq<char>, Option<u64>, Option<Seq<char>>), bool>(e.is_error),
            },
            line@.len() <= 1 ==> (r matches Ok(a) && a.config@ == "config.toml"@ && a.node_id is None
                && a.listen is None),
    {
        let names = OptionNames {
            program: "eventstored",
            about: "EventStore 分布式事件存储服务器",
            file: "config",
            file_short: 'c',
            file_default: "config.toml",
            number: "node-id",
            text: "listen",
        };
        proof {
            reveal_strlit("config");
            reveal_strlit("node-id");
            reveal_strlit("listen");
            reveal_strlit("help");
            assert("config"@[0] == 'c');
            assert("node-id"@[0] == 'n');
            assert("listen"@[0] == 'l');
            assert("help"@[0] == 'h');
        }
        match read_line(&names, line) {
            Ok((config, node_id, listen)) => Ok(Args { config, node_id, listen }),
            Err(e) => Err(e),
        }
    }
}


/// A command line says the same however often it is read; one that holds nothing but the
/// program's name says what goes without saying.
pub proof fn law_line_is_read_the_same_every_time(
    line: Vec<String>,
    again: Vec<String>,
    a: Args,
    b: Args,
)
    requires
        text_views(line@) == text_views(again@),
        call_ensures(Args::try_parse_from, (&line,), Ok::<Args, LineRefusal>(a)),
        call_ensures(Args::try_parse_from, (&again,), Ok::<Args, LineRefusal>(b)),
    ensures
        a.config@ == b.config@,
        a.node_id == b.node_id,
        a.listen is Some <==> b.listen is Some,
        a.listen matches Some(x) ==> x@ == b.listen->0@,
        line@.len() <= 1 ==> a.config@ == "config.toml"@ && a.node_id is None && a.listen is None,
{
}

} // verus!
