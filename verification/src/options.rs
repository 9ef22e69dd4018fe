//! The `grc` launcher's command line: getopt-style options (`-s`, `-e`,
//! `-c name`, clusters such as `-se`, and the long forms `--stdout`,
//! `--stderr`, `--pty`, `--config[=]name`, `--colour[=]on|off|auto`), which
//! stop at the first argument that is not an option or after `--`.

use vstd::prelude::*;
use crate::text::{chars_of, string_of, chars_eq_str, split_once, split_once_chars, sub_chars};
use crate::config::string_views;

verus! {

/// Parsed command-line state.
pub struct Opts {
    pub stdoutf: bool,
    pub stderrf: bool,
    pub cfile: String,
    pub colour: bool,
    pub use_pty: bool,
    pub args: Vec<String>,
}

/// The options as plain values.
pub struct OptsView {
    pub stdoutf: bool,
    pub stderrf: bool,
    pub cfile: Seq<char>,
    pub colour: bool,
    pub use_pty: bool,
    pub args: Seq<Seq<char>>,
}

impl View for Opts {
    type V = OptsView;

    open spec fn view(&self) -> OptsView {
        OptsView {
            stdoutf: self.stdoutf,
            stderrf: self.stderrf,
            cfile: self.cfile@,
            colour: self.colour,
            use_pty: self.use_pty,
            args: string_views(self.args@),
        }
    }
}

/// The options before any argument is read: colour when standard output is
/// a terminal (`tty`), everything else off.
pub open spec fn initial_opts(tty: bool) -> OptsView {
    OptsView {
        stdoutf: false,
        stderrf: false,
        cfile: Seq::empty(),
        colour: tty,
        use_pty: false,
        args: Seq::empty(),
    }
}

/// Whether `s` begins with `p`.
pub open spec fn has_prefix(s: Seq<char>, p: Seq<char>) -> bool {
    p.len() <= s.len() && s.subrange(0, p.len() as int) == p
}

/// The value of an option that takes one: its inline value, else the next
/// argument (and how many further arguments that consumed); `None` when
/// there is none.
pub open spec fn option_value(argv: Seq<Seq<char>>, i: int, inline: Option<Seq<char>>) -> Option<
    (Seq<char>, nat),
> {
    match inline {
        Some(v) => Some((v, 0)),
        None => if i + 1 < argv.len() {
            Some((argv[i + 1], 1))
        } else {
            None
        },
    }
}

/// A long option `--name` or `--name=value` at argument `i`: the options it
/// leaves and the further arguments it consumed, or `None` (usage) for an
/// unknown name, a missing value, or a `--colour` word other than `on`,
/// `off` and `auto`.
pub open spec fn long_option(argv: Seq<Seq<char>>, i: int, o: OptsView, tty: bool) -> Option<
    (OptsView, nat),
> {
    let long = argv[i].subrange(2, argv[i].len() as int);
    let name = match split_once(long, '=') {
        Some((n, v)) => n,
        None => long,
    };
    let inline = match split_once(long, '=') {
        Some((n, v)) => Some(v),
        None => None,
    };
    if name == "stdout"@ {
        Some((OptsView { stdoutf: true, ..o }, 0))
    } else if name == "stderr"@ {
        Some((OptsView { stderrf: true, ..o }, 0))
    } else if name == "pty"@ {
        Some((OptsView { use_pty: true, ..o }, 0))
    } else if name == "config"@ {
        match option_value(argv, i, inline) {
            Some((v, k)) => Some((OptsView { cfile: v, ..o }, k)),
            None => None,
        }
    } else if name == "colour"@ {
        match option_value(argv, i, inline) {
            Some((v, k)) => if v == "on"@ {
                Some((OptsView { colour: true, ..o }, k))
            } else if v == "off"@ {
                Some((OptsView { colour: false, ..o }, k))
            } else if v == "auto"@ {
                Some((OptsView { colour: tty, ..o }, k))
            } else {
                None
            },
            None => None,
        }
    } else {
        None
    }
}

/// The letters `cs[j..]` of a cluster `-...` at argument `i`: `s` and `e`
/// set their flags, `c` takes the rest of the cluster, or else the next
/// argument, as the config name; any other letter is a usage error.
pub open spec fn short_options(argv: Seq<Seq<char>>, i: int, cs: Seq<char>, j: int, o: OptsView) -> Option<
    (OptsView, nat),
>
    decreases cs.len() - j,
{
    if j < 0 || j >= cs.len() {
        Some((o, 0))
    } else if cs[j] == 's' {
        short_options(argv, i, cs, j + 1, OptsView { stdoutf: true, ..o })
    } else if cs[j] == 'e' {
        short_options(argv, i, cs, j + 1, OptsView { stderrf: true, ..o })
    } else if cs[j] == 'c' {
        let rest = cs.subrange(j + 1, cs.len() as int);
        if rest.len() > 0 {
            Some((OptsView { cfile: rest, ..o }, 0))
        } else {
            match option_value(argv, i, None) {
                Some((v, k)) => Some((OptsView { cfile: v, ..o }, k)),
                None => None,
            }
        }
    } else {
        None
    }
}

/// Reading the arguments from `i` on: `--` ends the options, `--...` is a
/// long option, `-` followed by letters is a cluster, and any other
/// argument is the command, which with everything after it becomes `args`.
/// `None` when the usage text is due.
pub open spec fn parse_from(argv: Seq<Seq<char>>, i: int, o: OptsView, tty: bool) -> Option<OptsView>
    decreases argv.len() - i,
{
    if i < 0 || i >= argv.len() {
        Some(OptsView { args: Seq::empty(), ..o })
    } else {
        let tok = argv[i];
        if tok == "--"@ {
            Some(OptsView { args: argv.subrange(i + 1, argv.len() as int), ..o })
        } else if has_prefix(tok, "--"@) {
            match long_option(argv, i, o, tty) {
                Some((o2, k)) => if i + 1 + k <= argv.len() {
                    parse_from(argv, i + 1 + k, o2, tty)
                } else {
                    Some(OptsView { args: Seq::empty(), ..o2 })
                },
                None => None,
            }
        } else if tok.len() > 1 && tok[0] == '-' {
            match short_options(argv, i, tok.subrange(1, tok.len() as int), 0, o) {
                Some((o2, k)) => if i + 1 + k <= argv.len() {
                    parse_from(argv, i + 1 + k, o2, tty)
                } else {
                    Some(OptsView { args: Seq::empty(), ..o2 })
                },
                None => None,
            }
        } else {
            Some(OptsView { args: argv.subrange(i, argv.len() as int), ..o })
        }
    }
}

/// The options a command line gives, `None` when the usage text is due.
pub open spec fn opts_of(argv: Seq<Seq<char>>, tty: bool) -> Option<OptsView> {
    parse_from(argv, 0, initial_opts(tty), tty)
}

/// Consume the next argument as an option value, advancing the index;
/// `None` (the index unchanged) when there is no next argument.
pub fn take_value(argv: &[String], i: &mut usize) -> (r: Option<String>)
    ensures
        *old(i) + 1 < argv@.len() ==> (r matches Some(v) && v@ == argv@[*old(i) + 1]@ && *final(i)
            == *old(i) + 1),
        *old(i) + 1 >= argv@.len() ==> r is None && *final(i) == *old(i),
{
    if *i < argv.len() && *i + 1 < argv.len() {
        *i += 1;
        Some(argv[*i].clone())
    } else {
        None
    }
}


/// A copy of `argv[from..]`.
fn strings_from(argv: &[String], from: usize) -> (r: Vec<String>)
    requires
        from <= argv@.len(),
    ensures
        string_views(r@) == string_views(argv@).subrange(from as int, argv@.len() as int),
{
    let mut r: Vec<String> = Vec::new();
    let mut i = from;
    while i < argv.len()
        invariant
            from <= i <= argv@.len(),
            string_views(r@) == string_views(argv@).subrange(from as int, i as int),
        decreases argv@.len() - i,
    {
        let ghost before = r@;
        let t = argv[i].clone();
        r.push(t);
        proof {
            crate::config::lemma_string_views_push(before, t);
            assert(string_views(argv@).subrange(from as int, i + 1) =~= string_views(argv@).subrange(
                from as int,
                i as int,
            ).push(string_views(argv@)[i as int]));
        }
        i += 1;
    }
    r
}

/// Exec form of [`long_option`] for the argument `tok` at `i` (which begins
/// with `--`): updates the options and returns how many further arguments
/// it consumed.
fn long_exec(argv: &[String], i: usize, tok: &Vec<char>, o: &mut Opts, tty: bool) -> (r: Option<usize>)
    requires
        i < argv@.len(),
        tok@ == argv@[i as int]@,
        tok@.len() >= 2,
    ensures
        match long_option(string_views(argv@), i as int, old(o)@, tty) {
            Some((o2, k)) => k <= 1 && r == Some(k as usize) && final(o)@ == o2,
            None => r is None,
        },
        r matches Some(k) ==> i + 1 + k <= argv@.len(),
{
    let ghost av = string_views(argv@);
    assert(av[i as int] == tok@);
    let long = sub_chars(tok.as_slice(), 2, tok.len());
    let (name, inline) = match split_once_chars(long.as_slice(), '=') {
        Some((n, v)) => (n, Some(v)),
        None => (long, None),
    };
    let ghost inl: Option<Seq<char>> = match &inline {
        Some(v) => Some(v@),
        None => None,
    };
    proof {
        let l = av[i as int].subrange(2, av[i as int].len() as int);
        assert(long@ == l);
        assert(name@ == match split_once(l, '=') {
            Some((n, v)) => n,
            None => l,
        });
        assert(inl == match split_once(l, '=') {
            Some((n, v)) => Some(v),
            None => None::<Seq<char>>,
        });
    }
    let ns = name.as_slice();
    if chars_eq_str(ns, "stdout") {
        o.stdoutf = true;
        return Some(0);
    }
    if chars_eq_str(ns, "stderr") {
        o.stderrf = true;
        return Some(0);
    }
    if chars_eq_str(ns, "pty") {
        o.use_pty = true;
        return Some(0);
    }
    let is_config = chars_eq_str(ns, "config");
    let is_colour = chars_eq_str(ns, "colour");
    if !is_config && !is_colour {
        return None;
    }
    let mut j = i;
    let (value, k): (String, usize) = match inline {
        Some(v) => (string_of(v.as_slice()), 0),
        None => match take_value(argv, &mut j) {
            Some(v) => (v, 1),
            None => {
                return None;
            },
        },
    };
    assert(option_value(av, i as int, inl) == Some((value@, k as nat)));
    if is_config {
        o.cfile = value;
        return Some(k);
    }
    let vc = chars_of(value.as_str());
    if chars_eq_str(vc.as_slice(), "on") {
        o.colour = true;
        Some(k)
    } else if chars_eq_str(vc.as_slice(), "off") {
        o.colour = false;
        Some(k)
    } else if chars_eq_str(vc.as_slice(), "auto") {
        o.colour = tty;
        Some(k)
    } else {
        None
    }
}

/// Exec form of [`short_options`] for the cluster letters `cs` of the
/// argument at `i`.
fn short_exec(argv: &[String], i: usize, cs: &Vec<char>, o: &mut Opts) -> (r: Option<usize>)
    requires
        i < argv@.len(),
    ensures
        match short_options(string_views(argv@), i as int, cs@, 0, old(o)@) {
            Some((o2, k)) => k <= 1 && r == Some(k as usize) && final(o)@ == o2,
            None => r is None,
        },
        r matches Some(k) ==> i + 1 + k <= argv@.len(),
{
    let ghost av = string_views(argv@);
    let ghost target = short_options(av, i as int, cs@, 0, o@);
    let mut j: usize = 0;
    while j < cs.len()
        invariant
            i < argv@.len(),
            av == string_views(argv@),
            j <= cs@.len(),
            short_options(av, i as int, cs@, j as int, o@) == target,
            target == short_options(string_views(argv@), i as int, cs@, 0, old(o)@),
        decreases cs@.len() - j,
    {
        let c = cs[j];
        if c == 's' {
            o.stdoutf = true;
        } else if c == 'e' {
            o.stderrf = true;
        } else if c == 'c' {
            let rest = sub_chars(cs.as_slice(), j + 1, cs.len());
            if rest.len() > 0 {
                o.cfile = string_of(rest.as_slice());
                return Some(0);
            }
            let mut ii = i;
            match take_value(argv, &mut ii) {
                Some(v) => {
                    o.cfile = v;
                    return Some(1);
                },
                None => {
                    return None;
                },
            }
        } else {
            return None;
        }
        j += 1;
    }
    Some(0)
}

/// getopt-style parser: short `-sec`, long `--stdout/--stderr/--config/--colour/--pty`.
/// Option scanning stops at the first non-option argument (the command).
/// `tty` is whether standard output is a terminal, which `--colour=auto`
/// and the default follow. `None` when the usage text is due.
pub fn parse_opts(argv: &[String], tty: bool) -> (r: Option<Opts>)
    ensures
        match r {
            Some(o) => opts_of(string_views(argv@), tty) == Some(o@),
            None => opts_of(string_views(argv@), tty) is None,
        },
{
    let ghost av = string_views(argv@);
    let mut o = Opts {
        stdoutf: false,
        stderrf: false,
        cfile: String::new(),
        colour: tty,
        use_pty: false,
        args: Vec::new(),
    };
    proof {
        assert(o@ == initial_opts(tty)) by {
            assert(string_views(o.args@) =~= Seq::<Seq<char>>::empty());
        }
        reveal_strlit("--");
    }
    let mut i: usize = 0;
    loop
        invariant
            av == string_views(argv@),
            i <= argv@.len(),
            "--"@ == seq!['-', '-'],
            parse_from(av, i as int, o@, tty) == opts_of(av, tty),
        decreases argv@.len() - i,
    {
        if i >= argv.len() {
            o.args = Vec::new();
            assert(string_views(o.args@) =~= Seq::<Seq<char>>::empty());
            return Some(o);
        }
        let tok = chars_of(argv[i].as_str());
        assert(av[i as int] == tok@);
        if chars_eq_str(tok.as_slice(), "--") {
            o.args = strings_from(argv, i + 1);
            return Some(o);
        }
        if tok.len() >= 2 && tok[0] == '-' && tok[1] == '-' {
            assert(has_prefix(tok@, "--"@)) by {
                assert(tok@.subrange(0, 2) =~= seq!['-', '-']);
            }
            match long_exec(argv, i, &tok, &mut o, tty) {
                Some(k) => {
                    i = i + 1 + k;
                },
                None => {
                    return None;
                },
            }
        } else {
            assert(!has_prefix(tok@, "--"@));
            if tok.len() > 1 && tok[0] == '-' {
                let cs = sub_chars(tok.as_slice(), 1, tok.len());
                match short_exec(argv, i, &cs, &mut o) {
                    Some(k) => {
                        i = i + 1 + k;
                    },
                    None => {
                        return None;
                    },
                }
            } else {
                o.args = strings_from(argv, i);
                return Some(o);
            }
        }
    }
}

/// Which streams go through the colouriser: standard output unless only
/// `-e` was given, standard error when `-e` was.
pub fn redirect_flags(stdoutf: bool, stderrf: bool) -> (r: (bool, bool))
    ensures
        r == (stdoutf || !stderrf, stderrf),
{
    let mut stdoutff = true;
    let mut stderrff = false;
    if stderrf {
        stdoutff = false;
        stderrff = true;
    }
    if stdoutf {
        stdoutff = true;
    }
    (stdoutff, stderrff)
}


/// The colourfile a run uses: the one named with `-c`/`--config`, else the
/// one `grc.conf` matched (`found`). `None` when the command runs without
/// the colouriser: colour is off, or there is no colourfile.
pub fn chosen_config(o: &Opts, found: &str) -> (r: Option<String>)
    ensures
        ({
            let cfile = if o.cfile@.len() == 0 { found@ } else { o.cfile@ };
            match r {
                Some(c) => cfile.len() > 0 && o.colour && c@ == cfile,
                None => !(cfile.len() > 0 && o.colour),
            }
        }),
{
    let cfile = if o.cfile.as_str().is_empty() {
        found.to_owned()
    } else {
        o.cfile.clone()
    };
    if !cfile.as_str().is_empty() && o.colour {
        Some(cfile)
    } else {
        None
    }
}

/// A cluster reads only its own letters and the argument after it.
proof fn lemma_short_options_same_tail(
    a: Seq<Seq<char>>,
    b: Seq<Seq<char>>,
    i: int,
    cs: Seq<char>,
    j: int,
    o: OptsView,
)
    requires
        a.len() == b.len(),
        0 <= i,
        i + 1 < a.len() ==> a[i + 1] == b[i + 1],
    ensures
        short_options(a, i, cs, j, o) == short_options(b, i, cs, j, o),
    decreases cs.len() - j,
{
    if 0 <= j < cs.len() {
        if cs[j] == 's' {
            lemma_short_options_same_tail(a, b, i, cs, j + 1, OptsView { stdoutf: true, ..o });
        } else if cs[j] == 'e' {
            lemma_short_options_same_tail(a, b, i, cs, j + 1, OptsView { stderrf: true, ..o });
        }
    }
}

/// Reading the arguments from `i` on looks at nothing before `i`.
proof fn lemma_parse_from_same_tail(a: Seq<Seq<char>>, b: Seq<Seq<char>>, i: int, o: OptsView, tty: bool)
    requires
        a.len() == b.len(),
        1 <= i,
        forall|j: int| 1 <= j < a.len() ==> #[trigger] a[j] == b[j],
    ensures
        parse_from(a, i, o, tty) == parse_from(b, i, o, tty),
    decreases a.len() - i,
{
    if i < a.len() {
        assert(a[i] == b[i]);
        if i + 1 < a.len() {
            assert(a[i + 1] == b[i + 1]);
        }
        assert(a.subrange(i, a.len() as int) =~= b.subrange(i, b.len() as int));
        assert(a.subrange(i + 1, a.len() as int) =~= b.subrange(i + 1, b.len() as int));
        let tok = a[i];
        if tok.len() > 1 && tok[0] == '-' {
            lemma_short_options_same_tail(a, b, i, tok.subrange(1, tok.len() as int), 0, o);
        }
        assert(long_option(a, i, o, tty) == long_option(b, i, o, tty));
        match long_option(a, i, o, tty) {
            Some((o2, k)) => {
                if i + 1 + k <= a.len() {
                    lemma_parse_from_same_tail(a, b, i + 1 + k, o2, tty);
                }
            },
            None => {},
        }
        match short_options(a, i, tok.subrange(1, tok.len() as int), 0, o) {
            Some((o2, k)) => {
                if i + 1 + k <= a.len() {
                    lemma_parse_from_same_tail(a, b, i + 1 + k, o2, tty);
                }
            },
            None => {},
        }
    }
}

/// `--stdout` means the same as `-s`: it turns on the redirection of
/// standard output, touches nothing else, and the rest of the command line
/// is read the same after either.
pub proof fn law_long_stdout_is_short_s(rest: Seq<Seq<char>>, o: OptsView, tty: bool)
    ensures
        parse_from(seq!["--stdout"@] + rest, 0, o, tty) == parse_from(seq!["-s"@] + rest, 0, o, tty),
        parse_from(seq!["--stdout"@] + rest, 0, o, tty) == parse_from(
            seq!["--stdout"@] + rest,
            1,
            OptsView { stdoutf: true, ..o },
            tty,
        ),
        opts_of(seq!["--stdout"@] + rest, tty) == opts_of(seq!["-s"@] + rest, tty),
{
    lemma_long_stdout(rest, o, tty);
    lemma_long_stdout(rest, initial_opts(tty), tty);
}

proof fn lemma_long_stdout(rest: Seq<Seq<char>>, o: OptsView, tty: bool)
    ensures
        parse_from(seq!["--stdout"@] + rest, 0, o, tty) == parse_from(seq!["-s"@] + rest, 0, o, tty),
        parse_from(seq!["--stdout"@] + rest, 0, o, tty) == parse_from(
            seq!["--stdout"@] + rest,
            1,
            OptsView { stdoutf: true, ..o },
            tty,
        ),
{
    reveal_strlit("--stdout");
    reveal_strlit("-s");
    reveal_strlit("--");
    reveal_strlit("stdout");
    let a = seq!["--stdout"@] + rest;
    let b = seq!["-s"@] + rest;
    assert(a[0] == "--stdout"@);
    assert(b[0] == "-s"@);
    assert(a[0] != "--"@) by {
        assert(a[0].len() != 2);
    }
    assert(has_prefix(a[0], "--"@)) by {
        assert(a[0].subrange(0, 2) =~= "--"@);
    }
    let long = a[0].subrange(2, a[0].len() as int);
    assert(long =~= "stdout"@);
    crate::text::lemma_find_char(long, '=');
    assert(split_once(long, '=') is None);
    assert(b[0] != "--"@) by {
        assert(b[0][1] != "--"@[1]);
    }
    assert(!has_prefix(b[0], "--"@)) by {
        if has_prefix(b[0], "--"@) {
            assert(b[0].subrange(0, 2)[1] == '-');
        }
    }
    let cs = b[0].subrange(1, b[0].len() as int);
    assert(cs =~= seq!['s']);
    assert(short_options(b, 0, cs, 1, OptsView { stdoutf: true, ..o }) == Some(
        (OptsView { stdoutf: true, ..o }, 0nat),
    ));
    assert forall|j: int| 1 <= j < a.len() implies #[trigger] a[j] == b[j] by {
        assert(a[j] == rest[j - 1]);
        assert(b[j] == rest[j - 1]);
    }
    lemma_parse_from_same_tail(a, b, 1, OptsView { stdoutf: true, ..o }, tty);
}

/// `--stderr` means the same as `-e`: it turns on the redirection of
/// standard error, touches nothing else, and the rest of the command line
/// is read the same after either.
pub proof fn law_long_stderr_is_short_e(rest: Seq<Seq<char>>, o: OptsView, tty: bool)
    ensures
        parse_from(seq!["--stderr"@] + rest, 0, o, tty) == parse_from(seq!["-e"@] + rest, 0, o, tty),
        parse_from(seq!["--stderr"@] + rest, 0, o, tty) == parse_from(
            seq!["--stderr"@] + rest,
            1,
            OptsView { stderrf: true, ..o },
            tty,
        ),
        opts_of(seq!["--stderr"@] + rest, tty) == opts_of(seq!["-e"@] + rest, tty),
{
    lemma_long_stderr(rest, o, tty);
    lemma_long_stderr(rest, initial_opts(tty), tty);
}

proof fn lemma_long_stderr(rest: Seq<Seq<char>>, o: OptsView, tty: bool)
    ensures
        parse_from(seq!["--stderr"@] + rest, 0, o, tty) == parse_from(seq!["-e"@] + rest, 0, o, tty),
        parse_from(seq!["--stderr"@] + rest, 0, o, tty) == parse_from(
            seq!["--stderr"@] + rest,
            1,
            OptsView { stderrf: true, ..o },
            tty,
        ),
{
    reveal_strlit("--stderr");
    reveal_strlit("-e");
    reveal_strlit("--");
    reveal_strlit("stderr");
    reveal_strlit("stdout");
    let a = seq!["--stderr"@] + rest;
    let b = seq!["-e"@] + rest;
    assert(a[0] == "--stderr"@);
    assert(b[0] == "-e"@);
    assert(a[0] != "--"@) by {
        assert(a[0].len() != 2);
    }
    assert(has_prefix(a[0], "--"@)) by {
        assert(a[0].subrange(0, 2) =~= "--"@);
    }
    let long = a[0].subrange(2, a[0].len() as int);
    assert(long =~= "stderr"@);
    assert(long[3] != "stdout"@[3]);
    crate::text::lemma_find_char(long, '=');
    assert(split_once(long, '=') is None);
    assert(b[0] != "--"@) by {
        assert(b[0][1] != "--"@[1]);
    }
    assert(!has_prefix(b[0], "--"@)) by {
        if has_prefix(b[0], "--"@) {
            assert(b[0].subrange(0, 2)[1] == '-');
        }
    }
    let cs = b[0].subrange(1, b[0].len() as int);
    assert(cs =~= seq!['e']);
    assert(short_options(b, 0, cs, 1, OptsView { stderrf: true, ..o }) == Some(
        (OptsView { stderrf: true, ..o }, 0nat),
    ));
    assert forall|j: int| 1 <= j < a.len() implies #[trigger] a[j] == b[j] by {
        assert(a[j] == rest[j - 1]);
        assert(b[j] == rest[j - 1]);
    }
    lemma_parse_from_same_tail(a, b, 1, OptsView { stderrf: true, ..o }, tty);
}

/// `--config=name` means the same as `-cname` (for a non-empty name): it
/// sets the colourfile to the name, touches nothing else, and the rest of
/// the command line is read the same after either.
pub proof fn law_long_config_is_short_c(x: Seq<char>, rest: Seq<Seq<char>>, o: OptsView, tty: bool)
    requires
        x.len() > 0,
    ensures
        parse_from(seq!["--config="@ + x] + rest, 0, o, tty) == parse_from(
            seq!["-c"@ + x] + rest,
            0,
            o,
            tty,
        ),
        parse_from(seq!["--config="@ + x] + rest, 0, o, tty) == parse_from(
            seq!["--config="@ + x] + rest,
            1,
            OptsView { cfile: x, ..o },
            tty,
        ),
{
    reveal_strlit("--config=");
    reveal_strlit("-c");
    reveal_strlit("--");
    reveal_strlit("config");
    reveal_strlit("stdout");
    reveal_strlit("stderr");
    reveal_strlit("pty");
    let a = seq!["--config="@ + x] + rest;
    let b = seq!["-c"@ + x] + rest;
    assert(a[0] == "--config="@ + x);
    assert(b[0] == "-c"@ + x);
    assert(a[0] != "--"@) by {
        assert(a[0].len() != 2);
    }
    assert(has_prefix(a[0], "--"@)) by {
        assert(a[0].subrange(0, 2) =~= "--"@);
    }
    let long = a[0].subrange(2, a[0].len() as int);
    assert(long =~= seq!['c', 'o', 'n', 'f', 'i', 'g', '='] + x);
    crate::text::lemma_find_char(long, '=');
    assert(long[6] == '=');
    assert(crate::text::find_char(long, '=') == Some(6int));
    assert(long.take(6) =~= "config"@);
    assert(long.take(6)[0] != "stdout"@[0]);
    assert(long.take(6)[0] != "stderr"@[0]);
    assert(long.skip(7) =~= x);
    assert(b[0] != "--"@) by {
        assert(b[0][1] != "--"@[1]);
    }
    assert(!has_prefix(b[0], "--"@)) by {
        if has_prefix(b[0], "--"@) {
            assert(b[0].subrange(0, 2)[1] == '-');
        }
    }
    let cs = b[0].subrange(1, b[0].len() as int);
    assert(cs =~= seq!['c'] + x);
    assert(cs.subrange(1, cs.len() as int) =~= x);
    assert forall|j: int| 1 <= j < a.len() implies #[trigger] a[j] == b[j] by {
        assert(a[j] == rest[j - 1]);
        assert(b[j] == rest[j - 1]);
    }
    lemma_parse_from_same_tail(a, b, 1, OptsView { cfile: x, ..o }, tty);
}

/// `--pty` turns on running under a pseudo-terminal and touches nothing
/// else.
pub proof fn law_long_pty(rest: Seq<Seq<char>>, o: OptsView, tty: bool)
    ensures
        parse_from(seq!["--pty"@] + rest, 0, o, tty) == parse_from(
            seq!["--pty"@] + rest,
            1,
            OptsView { use_pty: true, ..o },
            tty,
        ),
{
    reveal_strlit("--pty");
    reveal_strlit("--");
    reveal_strlit("pty");
    reveal_strlit("stdout");
    reveal_strlit("stderr");
    let a = seq!["--pty"@] + rest;
    assert(a[0] == "--pty"@);
    assert(a[0] != "--"@) by {
        assert(a[0].len() != 2);
    }
    assert(has_prefix(a[0], "--"@)) by {
        assert(a[0].subrange(0, 2) =~= "--"@);
    }
    let long = a[0].subrange(2, a[0].len() as int);
    assert(long =~= "pty"@);
    crate::text::lemma_find_char(long, '=');
    assert(split_once(long, '=') is None);
}

/// Everything after a leading `--` is the command, even words that look
/// like options.
pub proof fn law_double_dash_ends_options(rest: Seq<Seq<char>>, tty: bool)
    ensures
        opts_of(seq!["--"@] + rest, tty) == Some(OptsView { args: rest, ..initial_opts(tty) }),
{
    let argv = seq!["--"@] + rest;
    assert(argv[0] == "--"@);
    assert(argv.subrange(1, argv.len() as int) =~= rest);
}

/// Option scanning stops at the first argument that is not an option: a
/// command line that starts with one is taken whole as the command.
pub proof fn law_command_ends_options(argv: Seq<Seq<char>>, tty: bool)
    requires
        argv.len() > 0,
        !(argv[0].len() > 1 && argv[0][0] == '-'),
    ensures
        opts_of(argv, tty) == Some(OptsView { args: argv, ..initial_opts(tty) }),
{
    reveal_strlit("--");
    assert(argv[0] != "--"@) by {
        if argv[0] == "--"@ {
            assert(argv[0].len() == 2 && argv[0][0] == '-');
        }
    }
    assert(!has_prefix(argv[0], "--"@)) by {
        if has_prefix(argv[0], "--"@) {
            assert(argv[0].subrange(0, 2)[0] == '-');
        }
    }
    assert(argv.subrange(0, argv.len() as int) =~= argv);
}

} // verus!
