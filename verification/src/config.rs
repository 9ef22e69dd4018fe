//! The colourfile grammar: blocks of `keyword=value` lines, each with a
//! `regexp` becoming one [`Pattern`].

use vstd::prelude::*;
use crate::text::{
    chars_of, chars_eq_str, string_of, views, split_on, split_chars, ws_tokens, split_ws, trim,
    trim_chars, split_once, split_once_chars, ascii_lower, lower_chars, trim_end_newlines,
    trim_end_newlines_chars, parse_usize, parse_usize_chars, lines_of, lines_chars,
};
use crate::escape::{translate_regex, translated, convert_backrefs, backrefs_converted};
use crate::colour::{ColourTable, get_colour, colour_of};
use crate::regex::{Regexp, compile, regex_compiles};

verus! {

/// Resolved colours for the three motions of a `trend=` directive. An empty
/// string means "no colour for this motion" (the group falls back to default).
pub struct TrendSpec {
    pub rising: String,
    pub falling: String,
    pub steady: String,
}

/// One parsed configuration block: a compiled regexp plus its directives.
pub struct Pattern {
    pub regexp: Regexp,
    /// One resolved colour string per comma-separated group, or `None`.
    pub colours: Option<Vec<String>>,
    /// Loop directive: "more" (default), "once", "stop", "block", "unblock", "previous".
    pub count: String,
    pub command: Option<String>,
    pub skip: Option<String>,
    /// Replacement string, converted from `\N` backrefs to `${N}`.
    pub replace: Option<String>,
    pub concat: Option<String>,
    /// Streaming delta-driven colour for a numeric group.
    pub trend: Option<TrendSpec>,
    /// Capture group whose text keys the per-key last-value map.
    pub key: Option<usize>,
    /// Capture group whose text is parsed as the tracked metric.
    pub metric: Option<usize>,
}

/// Why a colourfile was refused.
#[derive(Debug)]
pub enum ConfigError {
    /// A line inside a block that has no `=`.
    MissingEquals(String),
    /// A keyword that is not one of the known ones.
    InvalidKeyword,
    /// A colour token that is neither a table name nor a quoted literal.
    BadColour(String),
    /// A `regexp` the engine refused, with the engine's error.
    BadRegexp(String, fancy_regex::Error),
    /// A `trend` entry without a `:`.
    BadTrendSpec(String),
    /// A `trend` direction other than `rising`, `falling` or `steady`.
    UnknownTrendDirection(String),
    /// A `key` that is not a group number.
    BadKeyGroup(String),
    /// A `metric` that is not a group number.
    BadMetricGroup(String),
}

/// The mathematical content of a [`ConfigError`].
pub enum ConfigErrorView {
    MissingEquals(Seq<char>),
    InvalidKeyword,
    BadColour(Seq<char>),
    BadRegexp(Seq<char>),
    BadTrendSpec(Seq<char>),
    UnknownTrendDirection(Seq<char>),
    BadKeyGroup(Seq<char>),
    BadMetricGroup(Seq<char>),
}

impl View for ConfigError {
    type V = ConfigErrorView;

    open spec fn view(&self) -> ConfigErrorView {
        match self {
            ConfigError::MissingEquals(s) => ConfigErrorView::MissingEquals(s@),
            ConfigError::InvalidKeyword => ConfigErrorView::InvalidKeyword,
            ConfigError::BadColour(s) => ConfigErrorView::BadColour(s@),
            ConfigError::BadRegexp(s, _) => ConfigErrorView::BadRegexp(s@),
            ConfigError::BadTrendSpec(s) => ConfigErrorView::BadTrendSpec(s@),
            ConfigError::UnknownTrendDirection(s) => ConfigErrorView::UnknownTrendDirection(s@),
            ConfigError::BadKeyGroup(s) => ConfigErrorView::BadKeyGroup(s@),
            ConfigError::BadMetricGroup(s) => ConfigErrorView::BadMetricGroup(s@),
        }
    }
}

/// The mathematical content of a [`Pattern`]: its regexp source as compiled
/// and its directives.
pub struct PatternView {
    pub regexp: Seq<char>,
    pub colours: Option<Seq<Seq<char>>>,
    pub count: Seq<char>,
    pub command: Option<Seq<char>>,
    pub skip: Option<Seq<char>>,
    pub replace: Option<Seq<char>>,
    pub concat: Option<Seq<char>>,
    pub trend: Option<(Seq<char>, Seq<char>, Seq<char>)>,
    pub key: Option<usize>,
    pub metric: Option<usize>,
}

/// The views of a sequence of strings.
pub open spec fn string_views(v: Seq<String>) -> Seq<Seq<char>> {
    v.map_values(|s: String| s@)
}

/// Viewing a list after a push is viewing the list and pushing the view.
pub proof fn lemma_string_views_push(a: Seq<String>, x: String)
    ensures
        string_views(a.push(x)) == string_views(a).push(x@),
{
    assert(string_views(a.push(x)) =~= string_views(a).push(x@));
}

/// The view of an optional string.
pub open spec fn opt_view(o: Option<String>) -> Option<Seq<char>> {
    match o {
        Some(s) => Some(s@),
        None => None,
    }
}

impl View for Pattern {
    type V = PatternView;

    open spec fn view(&self) -> PatternView {
        PatternView {
            regexp: self.regexp@,
            colours: match self.colours {
                Some(v) => Some(string_views(v@)),
                None => None,
            },
            count: self.count@,
            command: opt_view(self.command),
            skip: opt_view(self.skip),
            replace: opt_view(self.replace),
            concat: opt_view(self.concat),
            trend: match self.trend {
                Some(t) => Some((t.rising@, t.falling@, t.steady@)),
                None => None,
            },
            key: self.key,
            metric: self.metric,
        }
    }
}

/// The views of a sequence of patterns.
pub open spec fn pattern_views(v: Seq<Pattern>) -> Seq<PatternView> {
    v.map_values(|p: Pattern| p@)
}


/// The values a block has collected, one per keyword.
pub struct BlockView {
    pub regexp: Option<Seq<char>>,
    pub colours: Option<Seq<char>>,
    pub count: Seq<char>,
    pub command: Option<Seq<char>>,
    pub skip: Option<Seq<char>>,
    pub replace: Option<Seq<char>>,
    pub concat: Option<Seq<char>>,
    pub trend: Option<Seq<char>>,
    pub key: Option<Seq<char>>,
    pub metric: Option<Seq<char>>,
}

/// A block before any line: only `count`, set to `more`.
pub open spec fn empty_block() -> BlockView {
    BlockView {
        regexp: None,
        colours: None,
        count: "more"@,
        command: None,
        skip: None,
        replace: None,
        concat: None,
        trend: None,
        key: None,
        metric: None,
    }
}

/// The keyword a line's key stands for: ASCII-lowercased, with the spellings
/// `colors`, `colour` and `color` meaning `colours`.
pub open spec fn keyword_of(kw: Seq<char>) -> Seq<char> {
    let k = ascii_lower(kw);
    if k == "colors"@ || k == "colour"@ || k == "color"@ {
        "colours"@
    } else {
        k
    }
}

/// One of the ten keywords a block may set.
pub open spec fn is_keyword(k: Seq<char>) -> bool {
    ||| k == "regexp"@
    ||| k == "colours"@
    ||| k == "count"@
    ||| k == "command"@
    ||| k == "skip"@
    ||| k == "replace"@
    ||| k == "concat"@
    ||| k == "trend"@
    ||| k == "key"@
    ||| k == "metric"@
}

/// The block with keyword `k` set to `v` (a later line overrides an earlier one).
pub open spec fn block_set(b: BlockView, k: Seq<char>, v: Seq<char>) -> BlockView {
    if k == "regexp"@ {
        BlockView { regexp: Some(v), ..b }
    } else if k == "colours"@ {
        BlockView { colours: Some(v), ..b }
    } else if k == "count"@ {
        BlockView { count: v, ..b }
    } else if k == "command"@ {
        BlockView { command: Some(v), ..b }
    } else if k == "skip"@ {
        BlockView { skip: Some(v), ..b }
    } else if k == "replace"@ {
        BlockView { replace: Some(v), ..b }
    } else if k == "concat"@ {
        BlockView { concat: Some(v), ..b }
    } else if k == "trend"@ {
        BlockView { trend: Some(v), ..b }
    } else if k == "key"@ {
        BlockView { key: Some(v), ..b }
    } else {
        BlockView { metric: Some(v), ..b }
    }
}

/// An ASCII letter.
pub open spec fn is_ascii_alpha(c: char) -> bool {
    ('a' <= c && c <= 'z') || ('A' <= c && c <= 'Z')
}

/// What one colourfile line means inside a block.
pub enum LineKind {
    /// A comment or blank line, ignored.
    Ignored,
    /// A line not starting with an ASCII letter: it ends the block.
    Separator,
    /// `keyword=value`.
    Entry(Seq<char>, Seq<char>),
    /// A line the grammar refuses.
    Refused(ConfigErrorView),
}

proof fn lemma_trim_end_newlines_after(p: Seq<char>, v: Seq<char>)
    requires
        p.len() > 0,
        p.last() != '\r' && p.last() != '\n',
    ensures
        trim_end_newlines(p + v) == p + trim_end_newlines(v),
    decreases v.len(),
{
    if v.len() == 0 {
        assert(p + v =~= p);
        assert(p + Seq::<char>::empty() =~= p);
    } else {
        assert((p + v).last() == v.last());
        if v.last() == '\r' || v.last() == '\n' {
            assert((p + v).drop_last() =~= p + v.drop_last());
            lemma_trim_end_newlines_after(p, v.drop_last());
        }
    }
}

/// The spellings `colour`, `color` and `colors` are read exactly as
/// `colours`: a line `w=v` with any of the four is the entry `colours` with
/// the value `v` (trailing carriage returns and newlines dropped).
pub proof fn law_colour_spellings_read_as_colours(w: Seq<char>, v: Seq<char>)
    requires
        w == "colour"@ || w == "color"@ || w == "colors"@ || w == "colours"@,
    ensures
        classify_line(w + seq!['='] + v) == LineKind::Entry("colours"@, trim_end_newlines(v)),
{
    reveal_strlit("colour");
    reveal_strlit("color");
    reveal_strlit("colors");
    reveal_strlit("colours");
    let p = w + seq!['='];
    let l = p + v;
    assert(l[0] == 'c');
    lemma_trim_end_newlines_after(p, v);
    let line = trim_end_newlines(l);
    assert(line == p + trim_end_newlines(v));
    assert(line[w.len() as int] == '=');
    crate::text::lemma_find_char(line, '=');
    assert(forall|j: int| 0 <= j < w.len() ==> #[trigger] line[j] == w[j]);
    assert(crate::text::find_char(line, '=') == Some(w.len() as int));
    assert(line.take(w.len() as int) =~= w);
    assert(line.skip(w.len() as int + 1) =~= trim_end_newlines(v));
    assert(ascii_lower(w) =~= w);
    assert(keyword_of(w) == "colours"@);
}

/// Each of the ten keywords is read as itself: a line `w=v` is the entry
/// `w` with the value `v` (trailing carriage returns and newlines dropped).
pub proof fn law_keywords_read_as_themselves(w: Seq<char>, v: Seq<char>)
    requires
        w == "regexp"@ || w == "colours"@ || w == "count"@ || w == "command"@ || w == "skip"@
            || w == "replace"@ || w == "concat"@ || w == "trend"@ || w == "key"@ || w == "metric"@,
    ensures
        classify_line(w + seq!['='] + v) == LineKind::Entry(w, trim_end_newlines(v)),
{
    reveal_strlit("regexp");
    reveal_strlit("colours");
    reveal_strlit("count");
    reveal_strlit("command");
    reveal_strlit("skip");
    reveal_strlit("replace");
    reveal_strlit("concat");
    reveal_strlit("trend");
    reveal_strlit("key");
    reveal_strlit("metric");
    reveal_strlit("colour");
    reveal_strlit("color");
    reveal_strlit("colors");
    let p = w + seq!['='];
    let l = p + v;
    assert(l[0] == w[0]);
    lemma_trim_end_newlines_after(p, v);
    let line = trim_end_newlines(l);
    assert(line == p + trim_end_newlines(v));
    assert(line[w.len() as int] == '=');
    crate::text::lemma_find_char(line, '=');
    assert(forall|j: int| 0 <= j < w.len() ==> #[trigger] line[j] == w[j]);
    assert(crate::text::find_char(line, '=') == Some(w.len() as int));
    assert(line.take(w.len() as int) =~= w);
    assert(line.skip(w.len() as int + 1) =~= trim_end_newlines(v));
    assert(ascii_lower(w) =~= w);
    assert(w != "colour"@ && w != "color"@ && w != "colors"@) by {
        if w.len() == 5 {
            assert(w[0] != 'c' || w[1] != 'o' || w[2] != 'l');
        }
        if w.len() == 6 {
            assert(w[0] != 'c' || w[2] != 'l');
        }
    }
    assert(keyword_of(w) == w);
}

/// How a line is read: comments (`#...`) and blank lines are ignored, a line
/// whose first character is not an ASCII letter separates blocks, and any
/// other line (with trailing `'\r'`s dropped) must be `keyword=value` with a
/// known keyword.
pub open spec fn classify_line(l: Seq<char>) -> LineKind {
    if l.len() == 0 || l[0] == '#' {
        LineKind::Ignored
    } else if !is_ascii_alpha(l[0]) {
        LineKind::Separator
    } else {
        let line = trim_end_newlines(l);
        match split_once(line, '=') {
            None => LineKind::Refused(ConfigErrorView::MissingEquals(line)),
            Some((kw, val)) => {
                let k = keyword_of(kw);
                if is_keyword(k) {
                    LineKind::Entry(k, val)
                } else {
                    LineKind::Refused(ConfigErrorView::InvalidKeyword)
                }
            },
        }
    }
}

/// Reading a block from line `i`: the block collected, the index of the line
/// after it, and whether the text ended inside it.
pub open spec fn read_block(lines: Seq<Seq<char>>, i: int, b: BlockView) -> Result<
    (BlockView, int, bool),
    ConfigErrorView,
>
    decreases lines.len() - i,
{
    if i >= lines.len() || i < 0 {
        Ok((b, lines.len() as int, true))
    } else {
        match classify_line(lines[i]) {
            LineKind::Ignored => read_block(lines, i + 1, b),
            LineKind::Separator => Ok((b, i + 1, false)),
            LineKind::Refused(e) => Err(e),
            LineKind::Entry(k, v) => read_block(lines, i + 1, block_set(b, k, v)),
        }
    }
}

/// A block that does not reach the end of the text moves past its separator.
pub proof fn lemma_read_block_advances(lines: Seq<Seq<char>>, i: int, b: BlockView)
    requires
        0 <= i,
    ensures
        read_block(lines, i, b) matches Ok((_, j, last)) ==> (!last ==> i < j <= lines.len()),
    decreases lines.len() - i,
{
    if i < lines.len() {
        match classify_line(lines[i]) {
            LineKind::Ignored => lemma_read_block_advances(lines, i + 1, b),
            LineKind::Entry(k, v) => lemma_read_block_advances(lines, i + 1, block_set(b, k, v)),
            _ => {},
        }
    }
}

/// The exec form of a block being collected.
struct Block {
    regexp: Option<Vec<char>>,
    colours: Option<Vec<char>>,
    count: Vec<char>,
    command: Option<Vec<char>>,
    skip: Option<Vec<char>>,
    replace: Option<Vec<char>>,
    concat: Option<Vec<char>>,
    trend: Option<Vec<char>>,
    key: Option<Vec<char>>,
    metric: Option<Vec<char>>,
}

spec fn ov(o: Option<Vec<char>>) -> Option<Seq<char>> {
    match o {
        Some(v) => Some(v@),
        None => None,
    }
}

impl View for Block {
    type V = BlockView;

    closed spec fn view(&self) -> BlockView {
        BlockView {
            regexp: ov(self.regexp),
            colours: ov(self.colours),
            count: self.count@,
            command: ov(self.command),
            skip: ov(self.skip),
            replace: ov(self.replace),
            concat: ov(self.concat),
            trend: ov(self.trend),
            key: ov(self.key),
            metric: ov(self.metric),
        }
    }
}

impl Block {
    fn new() -> (b: Block)
        ensures
            b@ == empty_block(),
    {
        let b = Block {
            regexp: None,
            colours: None,
            count: chars_of("more"),
            command: None,
            skip: None,
            replace: None,
            concat: None,
            trend: None,
            key: None,
            metric: None,
        };
        b
    }

    /// Sets keyword `k` (one of the ten) to `v`.
    fn set(&mut self, k: &Vec<char>, v: Vec<char>)
        requires
            is_keyword(k@),
        ensures
            final(self)@ == block_set(old(self)@, k@, v@),
    {
        let ks = k.as_slice();
        if chars_eq_str(ks, "regexp") {
            self.regexp = Some(v);
        } else if chars_eq_str(ks, "colours") {
            self.colours = Some(v);
        } else if chars_eq_str(ks, "count") {
            self.count = v;
        } else if chars_eq_str(ks, "command") {
            self.command = Some(v);
        } else if chars_eq_str(ks, "skip") {
            self.skip = Some(v);
        } else if chars_eq_str(ks, "replace") {
            self.replace = Some(v);
        } else if chars_eq_str(ks, "concat") {
            self.concat = Some(v);
        } else if chars_eq_str(ks, "trend") {
            self.trend = Some(v);
        } else if chars_eq_str(ks, "key") {
            self.key = Some(v);
        } else {
            self.metric = Some(v);
        }
    }
}

/// What a line means, computed.
fn classify(l: &Vec<char>) -> (r: Result<Option<(Vec<char>, Vec<char>)>, Option<ConfigError>>)
    ensures
        match r {
            Ok(None) => classify_line(l@) == LineKind::Ignored,
            Err(None) => classify_line(l@) == LineKind::Separator,
            Ok(Some((k, v))) => classify_line(l@) == LineKind::Entry(k@, v@),
            Err(Some(e)) => classify_line(l@) == LineKind::Refused(e@),
        },
{
    if l.len() == 0 || l[0] == '#' {
        return Ok(None);
    }
    let c = l[0];
    if !(('a' <= c && c <= 'z') || ('A' <= c && c <= 'Z')) {
        return Err(None);
    }
    let line = trim_end_newlines_chars(l.as_slice());
    match split_once_chars(line.as_slice(), '=') {
        None => Err(Some(ConfigError::MissingEquals(string_of(line.as_slice())))),
        Some((kw, val)) => {
            let lower = lower_chars(kw.as_slice());
            let ls = lower.as_slice();
            let k = if chars_eq_str(ls, "colors") || chars_eq_str(ls, "colour") || chars_eq_str(
                ls,
                "color",
            ) {
                chars_of("colours")
            } else {
                lower
            };
            assert(k@ == keyword_of(kw@));
            let ks = k.as_slice();
            if chars_eq_str(ks, "regexp") || chars_eq_str(ks, "colours") || chars_eq_str(ks, "count")
                || chars_eq_str(ks, "command") || chars_eq_str(ks, "skip") || chars_eq_str(
                ks,
                "replace",
            ) || chars_eq_str(ks, "concat") || chars_eq_str(ks, "trend") || chars_eq_str(ks, "key")
                || chars_eq_str(ks, "metric") {
                Ok(Some((k, val)))
            } else {
                Err(Some(ConfigError::InvalidKeyword))
            }
        },
    }
}

/// Reads one block starting at line `i`.
fn read_block_exec(lines: &Vec<Vec<char>>, i: usize) -> (r: Result<(Block, usize, bool), ConfigError>)
    requires
        i <= lines@.len(),
    ensures
        match r {
            Ok((b, j, last)) => read_block(views(lines@), i as int, empty_block()) == Ok::<
                (BlockView, int, bool),
                ConfigErrorView,
            >((b@, j as int, last)),
            Err(e) => read_block(views(lines@), i as int, empty_block()) == Err::<
                (BlockView, int, bool),
                ConfigErrorView,
            >(e@),
        },
{
    let ghost ls = views(lines@);
    let mut b = Block::new();
    let mut j = i;
    let n = lines.len();
    while j < n
        invariant
            ls == views(lines@),
            n == lines@.len(),
            i <= j <= n,
            read_block(ls, i as int, empty_block()) == read_block(ls, j as int, b@),
        decreases n - j,
    {
        assert(ls[j as int] == lines@[j as int]@);
        match classify(&lines[j]) {
            Ok(None) => {},
            Err(None) => {
                return Ok((b, j + 1, false));
            },
            Err(Some(e)) => {
                return Err(e);
            },
            Ok(Some((k, v))) => {
                b.set(&k, v);
            },
        }
        j += 1;
    }
    Ok((b, n, true))
}


/// The escape strings of a run of colour tokens, joined; the first token
/// that does not resolve is the error.
pub open spec fn colours_joined(table: Seq<(Seq<char>, Seq<char>)>, toks: Seq<Seq<char>>) -> Result<
    Seq<char>,
    Seq<char>,
>
    decreases toks.len(),
{
    if toks.len() == 0 {
        Ok(Seq::empty())
    } else {
        match colour_of(table, toks[0]) {
            None => Err(toks[0]),
            Some(v) => match colours_joined(table, toks.drop_first()) {
                Ok(r) => Ok(v + r),
                Err(e) => Err(e),
            },
        }
    }
}

/// One resolved colour string per comma-separated group of `cv`; each group
/// is the join of its whitespace-separated tokens.
pub open spec fn colour_groups(table: Seq<(Seq<char>, Seq<char>)>, groups: Seq<Seq<char>>) -> Result<
    Seq<Seq<char>>,
    Seq<char>,
>
    decreases groups.len(),
{
    if groups.len() == 0 {
        Ok(Seq::empty())
    } else {
        match colours_joined(table, ws_tokens(groups[0])) {
            Err(e) => Err(e),
            Ok(v) => match colour_groups(table, groups.drop_first()) {
                Ok(r) => Ok(seq![v] + r),
                Err(e) => Err(e),
            },
        }
    }
}

/// Joins the colours of whitespace-separated tokens of `spec`.
fn join_colours(spec: &Vec<char>, table: &ColourTable) -> (r: Result<String, String>)
    ensures
        match r {
            Ok(v) => colours_joined(table@, ws_tokens(spec@)) == Ok::<Seq<char>, Seq<char>>(v@),
            Err(t) => colours_joined(table@, ws_tokens(spec@)) == Err::<Seq<char>, Seq<char>>(t@),
        },
{
    let toks = split_ws(spec.as_slice());
    let ghost ts = ws_tokens(spec@);
    let mut out: Vec<char> = Vec::new();
    let mut i: usize = 0;
    assert(ts.skip(0) =~= ts);
    while i < toks.len()
        invariant
            ts == views(toks@),
            ts == ws_tokens(spec@),
            i <= toks@.len(),
            colours_joined(table@, ts) == match colours_joined(table@, ts.skip(i as int)) {
                Ok(r) => Ok::<Seq<char>, Seq<char>>(out@ + r),
                Err(e) => Err(e),
            },
        decreases toks@.len() - i,
    {
        assert(ts[i as int] == toks@[i as int]@);
        assert(ts.skip(i as int)[0] == ts[i as int]);
        assert(ts.skip(i as int).drop_first() =~= ts.skip(i + 1));
        let tok = string_of(toks[i].as_slice());
        match get_colour(tok.as_str(), table) {
            Ok(v) => {
                let vc = chars_of(v.as_str());
                let ghost old_out = out@;
                let mut j: usize = 0;
                while j < vc.len()
                    invariant
                        j <= vc@.len(),
                        out@ == old_out + vc@.take(j as int),
                    decreases vc@.len() - j,
                {
                    out.push(vc[j]);
                    j += 1;
                    assert(out@ =~= old_out + vc@.take(j as int));
                }
                assert(vc@.take(j as int) =~= vc@);
                proof {
                    match colours_joined(table@, ts.skip(i + 1)) {
                        Ok(r) => {
                            assert(old_out + (vc@ + r) =~= out@ + r);
                        },
                        Err(_) => {},
                    }
                }
            },
            Err(_) => {
                assert(colours_joined(table@, ts.skip(i as int)) == Err::<Seq<char>, Seq<char>>(tok@));
                return Err(tok);
            },
        }
        i += 1;
    }
    assert(ts.skip(i as int) =~= Seq::<Seq<char>>::empty());
    assert(out@ + Seq::<char>::empty() =~= out@);
    Ok(string_of(out.as_slice()))
}

/// Resolves a `colours=` value into one colour string per group.
fn resolve_colours(cv: &Vec<char>, table: &ColourTable) -> (r: Result<Vec<String>, String>)
    ensures
        match r {
            Ok(v) => colour_groups(table@, split_on(cv@, ',')) == Ok::<Seq<Seq<char>>, Seq<char>>(
                string_views(v@),
            ),
            Err(t) => colour_groups(table@, split_on(cv@, ',')) == Err::<Seq<Seq<char>>, Seq<char>>(t@),
        },
{
    let groups = split_chars(cv.as_slice(), ',');
    let ghost gs = split_on(cv@, ',');
    let mut out: Vec<String> = Vec::new();
    let mut i: usize = 0;
    assert(gs.skip(0) =~= gs);
    while i < groups.len()
        invariant
            gs == views(groups@),
            gs == split_on(cv@, ','),
            i <= groups@.len(),
            colour_groups(table@, gs) == match colour_groups(table@, gs.skip(i as int)) {
                Ok(r) => Ok::<Seq<Seq<char>>, Seq<char>>(string_views(out@) + r),
                Err(e) => Err(e),
            },
        decreases groups@.len() - i,
    {
        assert(gs[i as int] == groups@[i as int]@);
        assert(gs.skip(i as int)[0] == gs[i as int]);
        assert(gs.skip(i as int).drop_first() =~= gs.skip(i + 1));
        let v = match join_colours(&groups[i], table) {
            Ok(v) => v,
            Err(t) => {
                return Err(t);
            },
        };
        let ghost old_out = string_views(out@);
        out.push(v);
        proof {
            assert(string_views(out@) =~= old_out.push(v@));
            match colour_groups(table@, gs.skip(i + 1)) {
                Ok(r) => {
                    assert(old_out + (seq![v@] + r) =~= string_views(out@) + r);
                },
                Err(_) => {},
            }
        }
        i += 1;
    }
    assert(gs.skip(i as int) =~= Seq::<Seq<char>>::empty());
    assert(string_views(out@) + Seq::<Seq<char>>::empty() =~= string_views(out@));
    Ok(out)
}


/// One `direction:colours` entry of a `trend=` value applied to the colours
/// collected so far (rising, falling, steady).
pub open spec fn trend_entry(
    table: Seq<(Seq<char>, Seq<char>)>,
    pair: Seq<char>,
    acc: (Seq<char>, Seq<char>, Seq<char>),
) -> Result<(Seq<char>, Seq<char>, Seq<char>), ConfigErrorView> {
    match split_once(pair, ':') {
        None => Err(ConfigErrorView::BadTrendSpec(pair)),
        Some((dir, colspec)) => match colours_joined(table, ws_tokens(colspec)) {
            Err(t) => Err(ConfigErrorView::BadColour(t)),
            Ok(c) => {
                let d = trim(dir);
                if d == "rising"@ {
                    Ok((c, acc.1, acc.2))
                } else if d == "falling"@ {
                    Ok((acc.0, c, acc.2))
                } else if d == "steady"@ {
                    Ok((acc.0, acc.1, c))
                } else {
                    Err(ConfigErrorView::UnknownTrendDirection(d))
                }
            },
        },
    }
}

/// The comma-separated entries of a `trend=` value applied in order.
pub open spec fn trend_fold(
    table: Seq<(Seq<char>, Seq<char>)>,
    pairs: Seq<Seq<char>>,
    acc: (Seq<char>, Seq<char>, Seq<char>),
) -> Result<(Seq<char>, Seq<char>, Seq<char>), ConfigErrorView>
    decreases pairs.len(),
{
    if pairs.len() == 0 {
        Ok(acc)
    } else {
        match trend_entry(table, pairs[0], acc) {
            Err(e) => Err(e),
            Ok(a) => trend_fold(table, pairs.drop_first(), a),
        }
    }
}

/// The colours a `trend=` value gives each motion (empty where unset).
pub open spec fn trend_of(table: Seq<(Seq<char>, Seq<char>)>, tv: Seq<char>) -> Result<
    (Seq<char>, Seq<char>, Seq<char>),
    ConfigErrorView,
> {
    trend_fold(table, split_on(tv, ','), (Seq::empty(), Seq::empty(), Seq::empty()))
}

/// Parses a `trend=` value.
fn parse_trend(tv: &Vec<char>, table: &ColourTable) -> (r: Result<TrendSpec, ConfigError>)
    ensures
        match r {
            Ok(t) => trend_of(table@, tv@) == Ok::<_, ConfigErrorView>((t.rising@, t.falling@, t.steady@)),
            Err(e) => trend_of(table@, tv@) == Err::<(Seq<char>, Seq<char>, Seq<char>), _>(e@),
        },
{
    let pairs = split_chars(tv.as_slice(), ',');
    let ghost ps = split_on(tv@, ',');
    let mut spec = TrendSpec { rising: String::new(), falling: String::new(), steady: String::new() };
    let mut i: usize = 0;
    assert(ps.skip(0) =~= ps);
    while i < pairs.len()
        invariant
            ps == views(pairs@),
            ps == split_on(tv@, ','),
            i <= pairs@.len(),
            trend_of(table@, tv@) == trend_fold(
                table@,
                ps.skip(i as int),
                (spec.rising@, spec.falling@, spec.steady@),
            ),
        decreases pairs@.len() - i,
    {
        assert(ps[i as int] == pairs@[i as int]@);
        assert(ps.skip(i as int)[0] == ps[i as int]);
        assert(ps.skip(i as int).drop_first() =~= ps.skip(i + 1));
        let pair = &pairs[i];
        match split_once_chars(pair.as_slice(), ':') {
            None => {
                return Err(ConfigError::BadTrendSpec(string_of(pair.as_slice())));
            },
            Some((dir, colspec)) => {
                let c = match join_colours(&colspec, table) {
                    Ok(c) => c,
                    Err(t) => {
                        return Err(ConfigError::BadColour(t));
                    },
                };
                let d = trim_chars(dir.as_slice());
                let ds = d.as_slice();
                if chars_eq_str(ds, "rising") {
                    spec.rising = c;
                } else if chars_eq_str(ds, "falling") {
                    spec.falling = c;
                } else if chars_eq_str(ds, "steady") {
                    spec.steady = c;
                } else {
                    return Err(ConfigError::UnknownTrendDirection(string_of(ds)));
                }
            },
        }
        i += 1;
    }
    assert(ps.skip(i as int) =~= Seq::<Seq<char>>::empty());
    Ok(spec)
}

/// A group number: the value, trimmed, parsed as a `usize`.
pub open spec fn group_number(v: Seq<char>) -> Option<usize> {
    parse_usize(trim(v))
}

/// The pattern a collected block yields: colours are resolved first (even in
/// a block without `regexp`); a block without `regexp` yields none; then the
/// regexp is translated and compiled, and the `trend`, `key` and `metric`
/// directives are parsed.
pub open spec fn resolve_block(table: Seq<(Seq<char>, Seq<char>)>, b: BlockView) -> Result<
    Option<PatternView>,
    ConfigErrorView,
> {
    let colours: Result<Option<Seq<Seq<char>>>, ConfigErrorView> = match b.colours {
        None => Ok(None),
        Some(cv) => match colour_groups(table, split_on(cv, ',')) {
            Ok(g) => Ok(Some(g)),
            Err(t) => Err(ConfigErrorView::BadColour(t)),
        },
    };
    match colours {
        Err(e) => Err(e),
        Ok(cols) => match b.regexp {
            None => Ok(None),
            Some(src) => {
                let t = translated(src);
                if !regex_compiles(t) {
                    Err(ConfigErrorView::BadRegexp(src))
                } else {
                    let trend: Result<Option<(Seq<char>, Seq<char>, Seq<char>)>, ConfigErrorView> =
                        match b.trend {
                        None => Ok(None),
                        Some(tv) => match trend_of(table, tv) {
                            Ok(x) => Ok(Some(x)),
                            Err(e) => Err(e),
                        },
                    };
                    match trend {
                        Err(e) => Err(e),
                        Ok(trend) => {
                            let key: Result<Option<usize>, ConfigErrorView> = match b.key {
                                None => Ok(None),
                                Some(kv) => match group_number(kv) {
                                    Some(k) => Ok(Some(k)),
                                    None => Err(ConfigErrorView::BadKeyGroup(kv)),
                                },
                            };
                            match key {
                                Err(e) => Err(e),
                                Ok(key) => {
                                    let metric: Result<Option<usize>, ConfigErrorView> = match b.metric {
                                        None => Ok(None),
                                        Some(mv) => match group_number(mv) {
                                            Some(m) => Ok(Some(m)),
                                            None => Err(ConfigErrorView::BadMetricGroup(mv)),
                                        },
                                    };
                                    match metric {
                                        Err(e) => Err(e),
                                        Ok(metric) => Ok(
                                            Some(
                                                PatternView {
                                                    regexp: t,
                                                    colours: cols,
                                                    count: b.count,
                                                    command: b.command,
                                                    skip: b.skip,
                                                    replace: match b.replace {
                                                        Some(r) => Some(backrefs_converted(r)),
                                                        None => None,
                                                    },
                                                    concat: b.concat,
                                                    trend,
                                                    key,
                                                    metric,
                                                },
                                            ),
                                        ),
                                    }
                                },
                            }
                        },
                    }
                }
            },
        },
    }
}

fn string_of_opt(o: &Option<Vec<char>>) -> (r: Option<String>)
    ensures
        opt_view(r) == ov(*o),
{
    match o {
        Some(v) => Some(string_of(v.as_slice())),
        None => None,
    }
}

fn parse_group(v: &Vec<char>) -> (r: Option<usize>)
    ensures
        r == group_number(v@),
{
    let t = trim_chars(v.as_slice());
    parse_usize_chars(t.as_slice())
}

/// Turns a collected block into its pattern, if it has a `regexp`.
fn resolve_block_exec(b: Block, table: &ColourTable) -> (r: Result<Option<Pattern>, ConfigError>)
    ensures
        match r {
            Ok(Some(p)) => resolve_block(table@, b@) == Ok::<_, ConfigErrorView>(Some(p@)),
            Ok(None) => resolve_block(table@, b@) == Ok::<_, ConfigErrorView>(None::<PatternView>),
            Err(e) => resolve_block(table@, b@) == Err::<Option<PatternView>, _>(e@),
        },
{
    let colours = match &b.colours {
        None => None,
        Some(cv) => match resolve_colours(cv, table) {
            Ok(g) => Some(g),
            Err(t) => {
                return Err(ConfigError::BadColour(t));
            },
        },
    };
    let src = match &b.regexp {
        None => {
            return Ok(None);
        },
        Some(src) => src,
    };
    let src_s = string_of(src.as_slice());
    let t = translate_regex(src_s.as_str());
    let regexp = match compile(t.as_str()) {
        Ok(re) => re,
        Err(e) => {
            return Err(ConfigError::BadRegexp(src_s, e));
        },
    };
    let trend = match &b.trend {
        None => None,
        Some(tv) => match parse_trend(tv, table) {
            Ok(t) => Some(t),
            Err(e) => {
                return Err(e);
            },
        },
    };
    let key = match &b.key {
        None => None,
        Some(kv) => match parse_group(kv) {
            Some(k) => Some(k),
            None => {
                return Err(ConfigError::BadKeyGroup(string_of(kv.as_slice())));
            },
        },
    };
    let metric = match &b.metric {
        None => None,
        Some(mv) => match parse_group(mv) {
            Some(m) => Some(m),
            None => {
                return Err(ConfigError::BadMetricGroup(string_of(mv.as_slice())));
            },
        },
    };
    let replace = match &b.replace {
        None => None,
        Some(r) => {
            let rs = string_of(r.as_slice());
            Some(convert_backrefs(rs.as_str()))
        },
    };
    let p = Pattern {
        regexp,
        colours,
        count: string_of(b.count.as_slice()),
        command: string_of_opt(&b.command),
        skip: string_of_opt(&b.skip),
        replace,
        concat: string_of_opt(&b.concat),
        trend,
        key,
        metric,
    };
    Ok(Some(p))
}


/// The patterns of the blocks from line `i` on: each block is read up to its
/// separator or the end of the text, and yields its pattern if it has a
/// `regexp`; the first refused line or directive is the error.
pub open spec fn parse_blocks(table: Seq<(Seq<char>, Seq<char>)>, lines: Seq<Seq<char>>, i: int) -> Result<
    Seq<PatternView>,
    ConfigErrorView,
>
    decreases lines.len() - i,
{
    if i < 0 {
        Ok(Seq::empty())
    } else {
        match read_block(lines, i, empty_block()) {
            Err(e) => Err(e),
            Ok((b, j, last)) => match resolve_block(table, b) {
                Err(e) => Err(e),
                Ok(p) => {
                    let here = match p {
                        Some(x) => seq![x],
                        None => Seq::empty(),
                    };
                    if last {
                        Ok(here)
                    } else {
                        proof {
                            lemma_read_block_advances(lines, i, empty_block());
                        }
                        match parse_blocks(table, lines, j) {
                            Ok(rest) => Ok(here + rest),
                            Err(e) => Err(e),
                        }
                    }
                },
            },
        }
    }
}

/// The patterns a colourfile's text describes, in order, or why it is refused.
pub open spec fn config_patterns(table: Seq<(Seq<char>, Seq<char>)>, text: Seq<char>) -> Result<
    Seq<PatternView>,
    ConfigErrorView,
> {
    parse_blocks(table, lines_of(text), 0)
}

/// Parse a config file into an ordered list of patterns. Blocks are separated
/// by any line not starting with `#`, a letter, or being blank.
pub fn parse_config(text: &str, table: &ColourTable) -> (r: Result<Vec<Pattern>, ConfigError>)
    ensures
        match r {
            Ok(ps) => config_patterns(table@, text@) == Ok::<_, ConfigErrorView>(pattern_views(ps@)),
            Err(e) => config_patterns(table@, text@) == Err::<Seq<PatternView>, _>(e@),
        },
{
    let tc = chars_of(text);
    let lines = lines_chars(tc.as_slice());
    let ghost ls = views(lines@);
    let mut patterns: Vec<Pattern> = Vec::new();
    let mut i: usize = 0;
    loop
        invariant
            ls == views(lines@),
            ls == lines_of(text@),
            i <= lines@.len(),
            config_patterns(table@, text@) == match parse_blocks(table@, ls, i as int) {
                Ok(rest) => Ok::<_, ConfigErrorView>(pattern_views(patterns@) + rest),
                Err(e) => Err(e),
            },
        decreases lines@.len() - i,
    {
        proof {
            lemma_read_block_advances(ls, i as int, empty_block());
        }
        let (b, j, last) = match read_block_exec(&lines, i) {
            Ok(x) => x,
            Err(e) => {
                return Err(e);
            },
        };
        let ghost old_views = pattern_views(patterns@);
        let ghost bv = b@;
        let ghost here: Seq<PatternView>;
        match resolve_block_exec(b, table) {
            Ok(Some(p)) => {
                proof {
                    here = seq![p@];
                }
                patterns.push(p);
                assert(pattern_views(patterns@) =~= old_views + here);
            },
            Ok(None) => {
                proof {
                    here = Seq::empty();
                }
                assert(pattern_views(patterns@) =~= old_views + here);
            },
            Err(e) => {
                return Err(e);
            },
        }
        if last {
            proof {
                match parse_blocks(table@, ls, i as int) {
                    Ok(rest) => {
                        assert(rest == here);
                    },
                    Err(_) => {},
                }
            }
            return Ok(patterns);
        }
        proof {
            assert(parse_blocks(table@, ls, i as int) == match parse_blocks(table@, ls, j as int) {
                Ok(rest) => Ok::<_, ConfigErrorView>(here + rest),
                Err(e) => Err(e),
            });
            match parse_blocks(table@, ls, j as int) {
                Ok(rest) => {
                    assert(old_views + (here + rest) =~= pattern_views(patterns@) + rest);
                },
                Err(_) => {},
            }
        }
        i = j;
    }
}

} // verus!
