//! Splits the command line of a JVM invocation into what boots the JVM and
//! what the program running on it is given.
//!
//! A command line is accepted when it reads: any arguments that are not a
//! classpath flag; a classpath flag (`-cp` or `-classpath`); the classpath,
//! which is not a flag; any flags other than a classpath flag; the main
//! class, which is not a flag; and then whatever the program is given.
//! A flag is an argument that begins with `-` or `@`.

use crate::text;
use vstd::prelude::*;

verus! {

/// `arg` is a flag: it begins with `-` or with `@`.
pub open spec fn is_flag(arg: Seq<char>) -> bool {
    arg.len() > 0 && (arg[0] == '-' || arg[0] == '@')
}

/// `arg` is one of the two flags that announce the classpath.
pub open spec fn is_classpath_flag(arg: Seq<char>) -> bool {
    arg == "-cp"@ || arg == "-classpath"@
}

/// `arg` is a flag for the JVM other than a classpath flag.
pub open spec fn is_jvm_flag(arg: Seq<char>) -> bool {
    is_flag(arg) && !is_classpath_flag(arg)
}

/// The first position from `from` on that holds a classpath flag, or the
/// length of `args` if there is none.
pub open spec fn classpath_flag_index(args: Seq<Seq<char>>, from: int) -> int
    decreases args.len() - from,
{
    if from < 0 || from >= args.len() {
        args.len() as int
    } else if is_classpath_flag(args[from]) {
        from
    } else {
        classpath_flag_index(args, from + 1)
    }
}

/// The first position from `from` on that does not hold a JVM flag, or the
/// length of `args` if there is none.
pub open spec fn jvm_flags_end(args: Seq<Seq<char>>, from: int) -> int
    decreases args.len() - from,
{
    if from < 0 || from >= args.len() {
        args.len() as int
    } else if !is_jvm_flag(args[from]) {
        from
    } else {
        jvm_flags_end(args, from + 1)
    }
}

/// The model of [`ParsedJVMCommandLines`].
pub struct ParsedView {
    pub nailgun_args: Seq<Seq<char>>,
    pub client_args: Seq<Seq<char>>,
    pub client_main_class: Seq<char>,
}

/// The model of [`ParseError`].
pub enum ParseErrorView {
    NoClasspathFlag,
    NoClasspathValue,
    MalformedClasspathValue(Seq<char>),
    NoMainClass,
}

/// Why a command line was not split.
#[derive(Debug, PartialEq, Eq)]
pub enum ParseError {
    /// No argument is `-cp` or `-classpath`.
    NoClasspathFlag,
    /// The classpath flag is the last argument.
    NoClasspathValue,
    /// What follows the classpath flag is itself a flag.
    MalformedClasspathValue(String),
    /// After the JVM flags there is no argument left, or a second classpath
    /// flag, where the main class should be.
    NoMainClass,
}

impl View for ParseError {
    type V = ParseErrorView;

    open spec fn view(&self) -> ParseErrorView {
        match self {
            ParseError::NoClasspathFlag => ParseErrorView::NoClasspathFlag,
            ParseError::NoClasspathValue => ParseErrorView::NoClasspathValue,
            ParseError::MalformedClasspathValue(v) => ParseErrorView::MalformedClasspathValue(v@),
            ParseError::NoMainClass => ParseErrorView::NoMainClass,
        }
    }
}

/// What the message of an error reads.
pub open spec fn parse_error_message(e: ParseErrorView) -> Seq<char> {
    match e {
        ParseErrorView::NoClasspathFlag => "No classpath flag found."@,
        ParseErrorView::NoClasspathValue => "No classpath value found!"@,
        ParseErrorView::MalformedClasspathValue(v) => "Classpath value has incorrect formatting "@
            + v + "."@,
        ParseErrorView::NoMainClass => "No main class provided."@,
    }
}

impl ParseError {
    /// The error in words.
    pub fn message(&self) -> (m: String)
        ensures
            m@ == parse_error_message(self@),
    {
        match self {
            ParseError::NoClasspathFlag => String::from_str("No classpath flag found."),
            ParseError::NoClasspathValue => String::from_str("No classpath value found!"),
            ParseError::MalformedClasspathValue(v) => {
                let mut m = text::join("Classpath value has incorrect formatting ", v.as_str());
                m.append(".");
                m
            },
            ParseError::NoMainClass => String::from_str("No main class provided."),
        }
    }
}

/// The result of splitting `args`, or the reason why they cannot be split.
pub open spec fn parse(args: Seq<Seq<char>>) -> Result<ParsedView, ParseErrorView> {
    let c = classpath_flag_index(args, 0);
    let m = jvm_flags_end(args, c + 2);
    if c >= args.len() {
        Err(ParseErrorView::NoClasspathFlag)
    } else if c + 1 >= args.len() {
        Err(ParseErrorView::NoClasspathValue)
    } else if is_flag(args[c + 1]) {
        Err(ParseErrorView::MalformedClasspathValue(args[c + 1]))
    } else if m >= args.len() || is_flag(args[m]) {
        Err(ParseErrorView::NoMainClass)
    } else {
        Ok(
            ParsedView {
                nailgun_args: args.take(m),
                client_args: args.skip(m + 1),
                client_main_class: args[m],
            },
        )
    }
}

/// `args` reads as the grammar asks, with the classpath flag at `c` and the
/// main class at `m`.
pub open spec fn splits_at(args: Seq<Seq<char>>, c: int, m: int) -> bool {
    &&& 0 <= c
    &&& c + 1 < m < args.len()
    &&& forall|i: int| 0 <= i < c ==> !is_classpath_flag(#[trigger] args[i])
    &&& is_classpath_flag(args[c])
    &&& !is_flag(args[c + 1])
    &&& forall|j: int| c + 1 < j < m ==> is_jvm_flag(#[trigger] args[j])
    &&& !is_flag(args[m])
}

/// A command line split into the arguments that boot the nailgun server,
/// the main class to run, and the arguments for that class.
#[derive(Debug, PartialEq, Eq)]
pub struct ParsedJVMCommandLines {
    pub nailgun_args: Vec<String>,
    pub client_args: Vec<String>,
    pub client_main_class: String,
}

impl View for ParsedJVMCommandLines {
    type V = ParsedView;

    open spec fn view(&self) -> ParsedView {
        ParsedView {
            nailgun_args: self.nailgun_args.deep_view(),
            client_args: self.client_args.deep_view(),
            client_main_class: self.client_main_class@,
        }
    }
}

/// The models of a result of splitting.
pub open spec fn parsed_result_view(
    r: Result<ParsedJVMCommandLines, ParseError>,
) -> Result<ParsedView, ParseErrorView> {
    match r {
        Ok(p) => Ok(p@),
        Err(e) => Err(e@),
    }
}

/// A classpath flag is a flag.
pub proof fn lemma_classpath_flag_is_flag(arg: Seq<char>)
    requires
        is_classpath_flag(arg),
    ensures
        is_flag(arg),
{
    reveal_strlit("-cp");
    reveal_strlit("-classpath");
}

/// Where the search for a classpath flag ends: at the first one, with none
/// before it, or at the end.
pub proof fn lemma_classpath_flag_index(args: Seq<Seq<char>>, from: int)
    requires
        0 <= from <= args.len(),
    ensures
        from <= classpath_flag_index(args, from) <= args.len(),
        forall|i: int|
            from <= i < classpath_flag_index(args, from) ==> !is_classpath_flag(
                #[trigger] args[i],
            ),
        classpath_flag_index(args, from) < args.len() ==> is_classpath_flag(
            args[classpath_flag_index(args, from)],
        ),
    decreases args.len() - from,
{
    if from < args.len() && !is_classpath_flag(args[from]) {
        lemma_classpath_flag_index(args, from + 1);
    }
}

/// Where the run of JVM flags ends: at the first argument that is none,
/// with only JVM flags before it, or at the end.
pub proof fn lemma_jvm_flags_end(args: Seq<Seq<char>>, from: int)
    requires
        0 <= from <= args.len(),
    ensures
        from <= jvm_flags_end(args, from) <= args.len(),
        forall|j: int| from <= j < jvm_flags_end(args, from) ==> is_jvm_flag(#[trigger] args[j]),
        jvm_flags_end(args, from) < args.len() ==> !is_jvm_flag(args[jvm_flags_end(args, from)]),
    decreases args.len() - from,
{
    if from < args.len() && is_jvm_flag(args[from]) {
        lemma_jvm_flags_end(args, from + 1);
    }
}

/// A command line is split exactly when it reads as the grammar asks, and
/// then in the one way the grammar allows: the server gets everything
/// before the main class, the client everything after it.
pub proof fn lemma_parse_follows_grammar(args: Seq<Seq<char>>)
    ensures
        parse(args) is Ok <==> exists|c: int, m: int| splits_at(args, c, m),
        forall|c: int, m: int| #[trigger]
            splits_at(args, c, m) ==> parse(args) == Ok::<ParsedView, ParseErrorView>(
                ParsedView {
                    nailgun_args: args.take(m),
                    client_args: args.skip(m + 1),
                    client_main_class: args[m],
                },
            ),
{
    let c0 = classpath_flag_index(args, 0);
    lemma_classpath_flag_index(args, 0);
    if c0 + 2 <= args.len() {
        lemma_jvm_flags_end(args, c0 + 2);
    }
    let m0 = jvm_flags_end(args, c0 + 2);
    assert forall|c: int, m: int| #[trigger] splits_at(args, c, m) implies c == c0 && m == m0 by {
        if c0 < c {
            assert(!is_classpath_flag(args[c0]));
        }
        if c < c0 {
            assert(!is_classpath_flag(args[c]));
        }
        lemma_jvm_flags_end(args, c0 + 2);
        if m0 < m {
            assert(is_jvm_flag(args[m0]));
        }
        if m < m0 {
            assert(is_jvm_flag(args[m]));
        }
    }
    if parse(args) is Ok {
        if m0 < args.len() && is_classpath_flag(args[m0]) {
            lemma_classpath_flag_is_flag(args[m0]);
        }
        assert(splits_at(args, c0, m0));
    }
}

/// Splitting loses nothing and adds nothing: the server's arguments, the
/// main class and the client's arguments, in this order, are the command
/// line that was split.
pub proof fn lemma_parse_reassembles(args: Seq<Seq<char>>)
    requires
        parse(args) is Ok,
    ensures
        ({
            let p = parse(args)->Ok_0;
            p.nailgun_args.push(p.client_main_class) + p.client_args == args
        }),
{
    let c = classpath_flag_index(args, 0);
    lemma_classpath_flag_index(args, 0);
    lemma_jvm_flags_end(args, c + 2);
    let p = parse(args)->Ok_0;
    assert(p.nailgun_args.push(p.client_main_class) + p.client_args =~= args);
}

fn arg_is_flag(arg: &str) -> (b: bool)
    ensures
        b == is_flag(arg@),
{
    text::begins_with(arg, '-') || text::begins_with(arg, '@')
}

fn arg_is_classpath_flag(arg: &str) -> (b: bool)
    ensures
        b == is_classpath_flag(arg@),
{
    text::equal(arg, "-cp") || text::equal(arg, "-classpath")
}

/// Copies the arguments from `from` up to `to`.
fn copy_range(args: &[String], from: usize, to: usize) -> (part: Vec<String>)
    requires
        from <= to <= args@.len(),
    ensures
        part.deep_view() == args.deep_view().subrange(from as int, to as int),
{
    let mut part: Vec<String> = Vec::new();
    let mut i: usize = from;
    while i < to
        invariant
            from <= i <= to <= args@.len(),
            part.len() == i - from,
            forall|j: int| 0 <= j < i - from ==> part@[j]@ == args@[from + j]@,
        decreases to - i,
    {
        part.push(args[i].clone());
        i = i + 1;
    }
    assert(part.deep_view() =~= args.deep_view().subrange(from as int, to as int));
    part
}

impl ParsedJVMCommandLines {
    /// Splits the command line of a JVM invocation. Everything before the
    /// main class boots the server, everything after it goes to the client.
    pub fn parse_command_lines(args: &[String]) -> (r: Result<ParsedJVMCommandLines, ParseError>)
        ensures
            parsed_result_view(r) == parse(args.deep_view()),
    {
        let ghost model = args.deep_view();
        let n = args.len();
        let mut c: usize = 0;
        while c < n && !arg_is_classpath_flag(args[c].as_str())
            invariant
                c <= n,
                n == args@.len(),
                model == args.deep_view(),
                classpath_flag_index(model, c as int) == classpath_flag_index(model, 0),
            decreases n - c,
        {
            c = c + 1;
        }
        if c >= n {
            return Err(ParseError::NoClasspathFlag);
        }
        if n - c < 2 {
            return Err(ParseError::NoClasspathValue);
        }
        if arg_is_flag(args[c + 1].as_str()) {
            return Err(ParseError::MalformedClasspathValue(args[c + 1].clone()));
        }
        let mut m: usize = c + 2;
        while m < n && arg_is_flag(args[m].as_str()) && !arg_is_classpath_flag(args[m].as_str())
            invariant
                c + 2 <= m <= n,
                n == args@.len(),
                model == args.deep_view(),
                jvm_flags_end(model, m as int) == jvm_flags_end(model, c + 2),
            decreases n - m,
        {
            m = m + 1;
        }
        if m >= n || arg_is_flag(args[m].as_str()) {
            return Err(ParseError::NoMainClass);
        }
        let nailgun_args = copy_range(args, 0, m);
        let client_args = copy_range(args, m + 1, n);
        Ok(ParsedJVMCommandLines { nailgun_args, client_args, client_main_class: args[m].clone() })
    }
}

} // verus!
