//! Choosing configuration: where `grc.conf` and the colourfiles are looked
//! for, and which colourfile `grc.conf` names for a command line.

use vstd::prelude::*;
use crate::text::{chars_of, string_of, str_concat, trim, trim_chars, lines_of, lines_chars};
use crate::escape::{translated, translate_regex};
use crate::regex::{compile, regex_compiles, regex_is_match};
use crate::config::{string_views, opt_view};

verus! {

/// The words joined with single spaces (`args.join(" ")`).
pub open spec fn joined_words(args: Seq<Seq<char>>) -> Seq<char>
    decreases args.len(),
{
    if args.len() == 0 {
        Seq::empty()
    } else if args.len() == 1 {
        args[0]
    } else {
        joined_words(args.drop_last()) + seq![' '] + args.last()
    }
}

/// The command line `grc` matches `grc.conf` against: the command and its
/// arguments joined with spaces.
pub fn join_args(args: &[String]) -> (r: String)
    ensures
        r@ == joined_words(string_views(args@)),
{
    let ghost av = string_views(args@);
    let mut out: Vec<char> = Vec::new();
    let mut i: usize = 0;
    while i < args.len()
        invariant
            i <= args@.len(),
            av == string_views(args@),
            out@ == joined_words(av.take(i as int)),
        decreases args@.len() - i,
    {
        if i > 0 {
            out.push(' ');
        }
        let w = chars_of(args[i].as_str());
        let ghost before = out@;
        let mut j: usize = 0;
        while j < w.len()
            invariant
                j <= w@.len(),
                out@ == before + w@.take(j as int),
            decreases w@.len() - j,
        {
            out.push(w[j]);
            j += 1;
            assert(out@ =~= before + w@.take(j as int));
        }
        proof {
            assert(w@.take(j as int) =~= w@);
            assert(av.take(i + 1).drop_last() =~= av.take(i as int));
            assert(av.take(i + 1).last() == w@);
            if i == 0 {
                assert(av.take(1) =~= seq![w@]);
                assert(out@ =~= w@);
            }
        }
        i += 1;
    }
    assert(av.take(i as int) =~= av);
    string_of(out.as_slice())
}

/// Whether a `grc.conf` line is skipped: a comment or blank.
pub open spec fn is_comment_or_blank(l: Seq<char>) -> bool {
    l.len() == 0 || l[0] == '#'
}

/// Scanning the lines of `grc.conf` from line `k`: the first line that is
/// not a comment or blank and whose trimmed, translated text compiles and
/// matches the command line names, on the line after it (trimmed; empty if
/// there is none), the colourfile. `None` when no line matches.
pub open spec fn grc_conf_match(lines: Seq<Seq<char>>, k: int, cmdline: Seq<char>) -> Option<Seq<char>>
    decreases lines.len() - k,
{
    if k < 0 || k >= lines.len() {
        None
    } else if is_comment_or_blank(lines[k]) {
        grc_conf_match(lines, k + 1, cmdline)
    } else {
        let src = translated(trim(lines[k]));
        if regex_compiles(src) && regex_is_match(src, cmdline) == Some(true) {
            Some(
                if k + 1 < lines.len() {
                    trim(lines[k + 1])
                } else {
                    Seq::empty()
                },
            )
        } else {
            grc_conf_match(lines, k + 1, cmdline)
        }
    }
}

/// Search the text of one `grc.conf` for a regexp matching the command line
/// and return the colourfile it names (empty when it is the last line);
/// `None` when no regexp in it matches.
pub fn match_grc_conf(text: &str, cmdline: &str) -> (r: Option<String>)
    ensures
        match r {
            Some(s) => grc_conf_match(lines_of(text@), 0, cmdline@) == Some(s@),
            None => grc_conf_match(lines_of(text@), 0, cmdline@) is None,
        },
{
    let tc = chars_of(text);
    let lines = lines_chars(tc.as_slice());
    let ghost ls = lines_of(text@);
    assert(crate::text::views(lines@) == ls);
    let mut idx: usize = 0;
    while idx < lines.len()
        invariant
            idx <= lines@.len(),
            crate::text::views(lines@) == ls,
            ls == lines_of(text@),
            grc_conf_match(ls, idx as int, cmdline@) == grc_conf_match(ls, 0, cmdline@),
        decreases lines@.len() - idx,
    {
        let l = &lines[idx];
        assert(ls[idx as int] == l@);
        idx += 1;
        if l.len() == 0 || l[0] == '#' {
            continue;
        }
        let t = trim_chars(l.as_slice());
        let ts = string_of(t.as_slice());
        let regexp = translate_regex(ts.as_str());
        match compile(regexp.as_str()) {
            Ok(re) => {
                match re.is_match(cmdline) {
                    Ok(true) => {
                        if idx < lines.len() {
                            assert(ls[idx as int] == lines@[idx as int]@);
                            let nt = trim_chars(lines[idx].as_slice());
                            return Some(string_of(nt.as_slice()));
                        }
                        return Some(String::new());
                    },
                    _ => {},
                }
            },
            Err(_) => {},
        }
    }
    None
}

/// The `grc.conf` files `grc` reads, in order, given `$HOME` and
/// `$XDG_CONFIG_HOME` (which defaults to `$HOME/.config`).
pub open spec fn grc_conf_paths(home: Option<Seq<char>>, xdg_config: Option<Seq<char>>) -> Seq<Seq<char>> {
    let xdg = match xdg_config {
        Some(x) => Some(x),
        None => match home {
            Some(h) => Some(h + "/.config"@),
            None => None,
        },
    };
    let fixed = seq!["/etc/grc.conf"@, "/usr/local/etc/grc.conf"@, "/opt/homebrew/etc/grc.conf"@];
    let with_xdg = match xdg {
        Some(x) => fixed.push(x + "/grc/grc.conf"@),
        None => fixed,
    };
    match home {
        Some(h) => with_xdg.push(h + "/.grc/grc.conf"@),
        None => with_xdg,
    }
}

/// The `grc.conf` files to search, in order.
pub fn grc_conf_files(home: Option<String>, xdg_config: Option<String>) -> (r: Vec<String>)
    ensures
        string_views(r@) == grc_conf_paths(opt_view(home), opt_view(xdg_config)),
{
    let xdg: Option<String> = match &xdg_config {
        Some(x) => Some(x.clone()),
        None => match &home {
            Some(h) => Some(str_concat(h.as_str(), "/.config")),
            None => None,
        },
    };
    let mut files: Vec<String> = Vec::new();
    files.push("/etc/grc.conf".to_owned());
    files.push("/usr/local/etc/grc.conf".to_owned());
    files.push("/opt/homebrew/etc/grc.conf".to_owned());
    proof {
        assert(string_views(files@) =~= seq![
            "/etc/grc.conf"@,
            "/usr/local/etc/grc.conf"@,
            "/opt/homebrew/etc/grc.conf"@,
        ]);
    }
    if let Some(x) = &xdg {
        let ghost before = files@;
        let p = str_concat(x.as_str(), "/grc/grc.conf");
        files.push(p);
        proof {
            crate::config::lemma_string_views_push(before, p);
        }
    }
    if let Some(h) = &home {
        let ghost before = files@;
        let p = str_concat(h.as_str(), "/.grc/grc.conf");
        files.push(p);
        proof {
            crate::config::lemma_string_views_push(before, p);
        }
    }
    files
}

/// The directories (as prefixes) a colourfile name is looked up in, in
/// order, given `$HOME`, `$XDG_CONFIG_HOME` and `$XDG_DATA_HOME` (which
/// default, when `$HOME` is set, to `$HOME/.config` and
/// `$HOME/.local/share`): first the name as given, then the per-user
/// directories, then the system ones.
pub open spec fn search_path(
    home: Option<Seq<char>>,
    xdg_config: Option<Seq<char>>,
    xdg_data: Option<Seq<char>>,
) -> Seq<Seq<char>> {
    let config = match (xdg_config, home) {
        (Some(c), _) => Some(c),
        (None, Some(h)) => Some(h + "/.config"@),
        (None, None) => None,
    };
    let data = match (xdg_data, home) {
        (Some(d), _) => Some(d),
        (None, Some(h)) => Some(h + "/.local/share"@),
        (None, None) => None,
    };
    let p0: Seq<Seq<char>> = seq![Seq::empty()];
    let p1 = match data {
        Some(d) => p0.push(d + "/grc/"@),
        None => p0,
    };
    let p2 = match config {
        Some(c) => p1.push(c + "/grc/"@),
        None => p1,
    };
    let p3 = match home {
        Some(h) => p2.push(h + "/.grc/"@),
        None => p2,
    };
    p3 + seq!["/usr/local/share/grc/"@, "/usr/share/grc/"@, "/opt/homebrew/share/grc/"@]
}

/// Build the ordered search path grcat uses to locate a config file by name.
pub fn conf_search_path(home: Option<String>, xdg_config: Option<String>, xdg_data: Option<String>) -> (r: Vec<
    String,
>)
    ensures
        string_views(r@) == search_path(opt_view(home), opt_view(xdg_config), opt_view(xdg_data)),
{
    let mut xc = xdg_config;
    let mut xd = xdg_data;
    if let Some(h) = &home {
        if xc.is_none() {
            xc = Some(str_concat(h.as_str(), "/.config"));
        }
        if xd.is_none() {
            xd = Some(str_concat(h.as_str(), "/.local/share"));
        }
    }
    let mut path: Vec<String> = Vec::new();
    path.push(String::new());
    proof {
        assert(string_views(path@) =~= seq![Seq::<char>::empty()]);
    }
    if let Some(d) = &xd {
        let ghost before = path@;
        let p = str_concat(d.as_str(), "/grc/");
        path.push(p);
        proof {
            crate::config::lemma_string_views_push(before, p);
        }
    }
    if let Some(c) = &xc {
        let ghost before = path@;
        let p = str_concat(c.as_str(), "/grc/");
        path.push(p);
        proof {
            crate::config::lemma_string_views_push(before, p);
        }
    }
    if let Some(h) = &home {
        let ghost before = path@;
        let p = str_concat(h.as_str(), "/.grc/");
        path.push(p);
        proof {
            crate::config::lemma_string_views_push(before, p);
        }
    }
    let ghost mid = string_views(path@);
    path.push("/usr/local/share/grc/".to_owned());
    path.push("/usr/share/grc/".to_owned());
    path.push("/opt/homebrew/share/grc/".to_owned());
    proof {
        assert(string_views(path@) =~= mid + seq![
            "/usr/local/share/grc/"@,
            "/usr/share/grc/"@,
            "/opt/homebrew/share/grc/"@,
        ]);
    }
    path
}

} // verus!
