//! Turning the command line into the set of counters to report and the input
//! to read.
use vstd::prelude::*;

verus! {

/// Where the text is read from.
#[derive(Debug)]
pub enum Source {
    /// The named file.
    File(String),
    /// The standard input stream.
    Stdin,
}

impl View for Source {
    type V = Option<Seq<char>>;

    open spec fn view(&self) -> Option<Seq<char>> {
        match self {
            Source::File(name) => Some(name@),
            Source::Stdin => None,
        }
    }
}

/// Which counters to report, and from which input.
#[derive(Debug)]
pub struct Options {
    pub bytes: bool,
    pub lines: bool,
    pub words: bool,
    pub chars: bool,
    pub source: Source,
}

/// The model of [`Options`]: the four switches and the file name, if any.
pub struct OptionsModel {
    pub bytes: bool,
    pub lines: bool,
    pub words: bool,
    pub chars: bool,
    pub source: Option<Seq<char>>,
}

impl View for Options {
    type V = OptionsModel;

    open spec fn view(&self) -> OptionsModel {
        OptionsModel {
            bytes: self.bytes,
            lines: self.lines,
            words: self.words,
            chars: self.chars,
            source: self.source@,
        }
    }
}

pub open spec fn flag_bytes() -> Seq<char> {
    seq!['-', 'c']
}

pub open spec fn flag_lines() -> Seq<char> {
    seq!['-', 'l']
}

pub open spec fn flag_words() -> Seq<char> {
    seq!['-', 'w']
}

pub open spec fn flag_chars() -> Seq<char> {
    seq!['-', 'm']
}

/// One of the four recognised flags; anything else names the input file.
pub open spec fn is_flag(a: Seq<char>) -> bool {
    a == flag_bytes() || a == flag_lines() || a == flag_words() || a == flag_chars()
}

/// The arguments as character sequences.
pub open spec fn arg_views(args: Seq<String>) -> Seq<Seq<char>> {
    args.map_values(|a: String| a@)
}

/// No flag is given: at most one argument after the program name, and that
/// one names a file. Lines, words and bytes are then reported.
pub open spec fn default_mode(args: Seq<Seq<char>>) -> bool {
    args.len() < 3 && forall|j: int| 1 <= j < args.len() ==> !is_flag(#[trigger] args[j])
}

/// `f` occurs among the arguments after the program name.
pub open spec fn mentions(args: Seq<Seq<char>>, f: Seq<char>) -> bool {
    exists|j: int| 1 <= j < args.len() && args[j] == f
}

/// The last argument among `args[1..n]` that is not a flag, if there is one.
pub open spec fn last_name(args: Seq<Seq<char>>, n: int) -> Option<Seq<char>>
    decreases n,
{
    if n <= 1 {
        None
    } else if is_flag(args[n - 1]) {
        last_name(args, n - 1)
    } else {
        Some(args[n - 1])
    }
}

/// What the command line `args` (program name first) asks for.
pub open spec fn options_of(args: Seq<Seq<char>>) -> OptionsModel {
    OptionsModel {
        bytes: default_mode(args) || mentions(args, flag_bytes()),
        lines: default_mode(args) || mentions(args, flag_lines()),
        words: default_mode(args) || mentions(args, flag_words()),
        chars: mentions(args, flag_chars()),
        source: last_name(args, args.len() as int),
    }
}

proof fn lemma_last_name_before(args: Seq<Seq<char>>, k: int, f: Seq<char>, n: int)
    requires
        1 <= k <= args.len(),
        0 <= n <= k,
    ensures
        last_name(args.insert(k, f), n) == last_name(args, n),
    decreases n,
{
    if n > 1 {
        lemma_last_name_before(args, k, f, n - 1);
    }
}

proof fn lemma_last_name_after(args: Seq<Seq<char>>, k: int, f: Seq<char>, n: int)
    requires
        1 <= k <= n <= args.len(),
        is_flag(f),
    ensures
        last_name(args.insert(k, f), n + 1) == last_name(args, n),
    decreases n,
{
    let u = args.insert(k, f);
    if n == k {
        assert(u[k] == f);
        lemma_last_name_before(args, k, f, k);
    } else {
        assert(u[n] == args[n - 1]);
        lemma_last_name_after(args, k, f, n - 1);
    }
}

proof fn lemma_mentions_insert(args: Seq<Seq<char>>, k: int, f: Seq<char>, g: Seq<char>)
    requires
        1 <= k <= args.len(),
        mentions(args, f),
    ensures
        mentions(args.insert(k, f), g) == mentions(args, g),
{
    let u = args.insert(k, f);
    if mentions(args, g) {
        let j = choose|j: int| 1 <= j < args.len() && args[j] == g;
        if j < k {
            assert(u[j] == g);
        } else {
            assert(u[j + 1] == g);
        }
    }
    if mentions(u, g) {
        let j = choose|j: int| 1 <= j < u.len() && u[j] == g;
        if j < k {
            assert(args[j] == g);
        } else if j > k {
            assert(args[j - 1] == g);
        }
    }
}

/// Giving a flag a second time has the same effect as giving it once: a
/// copy of a flag already on the command line, put anywhere after the
/// program name, changes nothing.
pub proof fn lemma_repeated_flag(args: Seq<Seq<char>>, f: Seq<char>, k: int)
    requires
        1 <= k <= args.len(),
        is_flag(f),
        mentions(args, f),
    ensures
        options_of(args.insert(k, f)) == options_of(args),
{
    let u = args.insert(k, f);
    let j = choose|j: int| 1 <= j < args.len() && args[j] == f;
    assert(is_flag(args[j]));
    assert(is_flag(u[k]));
    lemma_mentions_insert(args, k, f, flag_bytes());
    lemma_mentions_insert(args, k, f, flag_lines());
    lemma_mentions_insert(args, k, f, flag_words());
    lemma_mentions_insert(args, k, f, flag_chars());
    lemma_last_name_after(args, k, f, args.len() as int);
}

impl Options {
    /// Reads the command line `args`, the program name first.
    pub fn new(args: &Vec<String>) -> (r: Options)
        ensures
            r@ == options_of(arg_views(args@)),
    {
        let ghost a = arg_views(args@);
        let dash_c = "-c".to_owned();
        let dash_l = "-l".to_owned();
        let dash_w = "-w".to_owned();
        let dash_m = "-m".to_owned();
        proof {
            reveal_strlit("-c");
            reveal_strlit("-l");
            reveal_strlit("-w");
            reveal_strlit("-m");
            assert(dash_c@ =~= flag_bytes());
            assert(dash_l@ =~= flag_lines());
            assert(dash_w@ =~= flag_words());
            assert(dash_m@ =~= flag_chars());
        }
        let default = if args.len() >= 3 {
            false
        } else if args.len() == 2 {
            let first = &args[1];
            !(*first == dash_c || *first == dash_l || *first == dash_w || *first == dash_m)
        } else {
            true
        };
        proof {
            if args.len() == 2 {
                assert(a[1] == args@[1]@);
            }
        }
        let mut bytes = default;
        let mut lines = default;
        let mut words = default;
        let mut chars = false;
        let mut source = Source::Stdin;
        let mut i: usize = if args.len() == 0 {
            0
        } else {
            1
        };
        while i < args.len()
            invariant
                i <= args.len(),
                1 <= i || args.len() == 0,
                a == arg_views(args@),
                a.len() == args.len(),
                dash_c@ == flag_bytes(),
                dash_l@ == flag_lines(),
                dash_w@ == flag_words(),
                dash_m@ == flag_chars(),
                default == default_mode(a),
                bytes == (default || exists|j: int| 1 <= j < i && a[j] == flag_bytes()),
                lines == (default || exists|j: int| 1 <= j < i && a[j] == flag_lines()),
                words == (default || exists|j: int| 1 <= j < i && a[j] == flag_words()),
                chars == (exists|j: int| 1 <= j < i && a[j] == flag_chars()),
                source@ == last_name(a, i as int),
            decreases args.len() - i,
        {
            let arg = &args[i];
            assert(a[i as int] == arg@);
            if *arg == dash_c {
                bytes = true;
            } else if *arg == dash_l {
                lines = true;
            } else if *arg == dash_w {
                words = true;
            } else if *arg == dash_m {
                chars = true;
            } else {
                source = Source::File(arg.clone());
            }
            i = i + 1;
        }
        Options { bytes, lines, words, chars, source }
    }
}

} // verus!
