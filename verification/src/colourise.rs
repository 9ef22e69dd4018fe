//! The per-line matching engine: which spans of a line each pattern paints,
//! what trend colours and outside actions its matches ask for, and how the
//! `count` directives and the `block` state carry across matches and lines.

use vstd::prelude::*;
use crate::text::{chars_of, string_of, chars_eq_str};
use crate::units::{char_at_byte, byte_len, char_index_of, byte_len_of};
use crate::config::{string_views, Pattern, PatternView, pattern_views, opt_view};
use crate::regex::{regex_captures, regex_replace_all, spans_ok, has_keepout, has_keepout_exec};

verus! {

/// The character index a byte offset is converted to once it is clamped to
/// the line's length (`None` when the clamped offset is not a boundary).
pub open spec fn clamp_char(line: Seq<char>, b: usize) -> Option<nat> {
    char_at_byte(line, if b < byte_len(line) { b as int } else { byte_len(line) as int })
}

/// The colour a capture group is painted with: its own entry of the colour
/// list, or the first entry for groups beyond the list.
pub open spec fn group_colour(cols: Seq<Seq<char>>, g: int) -> Seq<char> {
    if g < cols.len() {
        cols[g]
    } else {
        cols[0]
    }
}

/// Every participating group's offsets convert to character indices.
pub open spec fn spans_convert(line: Seq<char>, groups: Seq<Option<(usize, usize)>>) -> bool {
    forall|g: int|
        0 <= g < groups.len() ==> (#[trigger] groups[g] matches Some((s, e)) ==> clamp_char(line, s)
            is Some && clamp_char(line, e) is Some)
}

/// The spans (character start, character end, colour) the participating
/// groups add, in group order.
pub open spec fn spans_for(
    line: Seq<char>,
    groups: Seq<Option<(usize, usize)>>,
    cols: Seq<Seq<char>>,
) -> Seq<(usize, usize, Seq<char>)>
    decreases groups.len(),
{
    if groups.len() == 0 {
        Seq::empty()
    } else {
        let r = spans_for(line, groups.drop_last(), cols);
        let g = groups.len() - 1;
        match groups[g] {
            None => r,
            Some((s, e)) => r.push(
                (clamp_char(line, s)->0 as usize, clamp_char(line, e)->0 as usize, group_colour(cols, g)),
            ),
        }
    }
}

/// How many of the first `k` groups take part in the match.
pub open spec fn participating(groups: Seq<Option<(usize, usize)>>, k: int) -> nat
    decreases k,
{
    if k <= 0 || groups.len() == 0 {
        0
    } else if k > groups.len() {
        participating(groups, groups.len() as int)
    } else {
        participating(groups, k - 1) + if groups[k - 1] is Some {
            1nat
        } else {
            0nat
        }
    }
}

/// The views of a list of spans.
pub open spec fn span_views(v: Seq<(usize, usize, String)>) -> Seq<(usize, usize, Seq<char>)> {
    v.map_values(|t: (usize, usize, String)| (t.0, t.1, t.2@))
}

/// Append every capture group to `clist` as (char_start, char_end, colour).
/// Groups beyond the colour list reuse colour 0; non-participating groups are
/// skipped.
pub fn add2list(
    clist: &mut Vec<(usize, usize, String)>,
    groups: &[Option<(usize, usize)>],
    cols: &[String],
    line: &str,
)
    requires
        byte_len(line@) <= usize::MAX,
        spans_convert(line@, groups@),
        cols@.len() > 0 || forall|g: int| 0 <= g < groups@.len() ==> #[trigger] groups@[g] is None,
    ensures
        span_views(final(clist)@) == span_views(old(clist)@) + spans_for(
            line@,
            groups@,
            string_views(cols@),
        ),
{
    let lc = chars_of(line);
    let len = byte_len_of(lc.as_slice());
    let ghost base = span_views(clist@);
    let mut g: usize = 0;
    assert(groups@.take(0) =~= Seq::<Option<(usize, usize)>>::empty());
    while g < groups.len()
        invariant
            lc@ == line@,
            len == byte_len(line@),
            g <= groups@.len(),
            spans_convert(line@, groups@),
            cols@.len() > 0 || forall|h: int| 0 <= h < groups@.len() ==> #[trigger] groups@[h] is None,
            span_views(clist@) == base + spans_for(line@, groups@.take(g as int), string_views(cols@)),
        decreases groups@.len() - g,
    {
        let ghost prev = span_views(clist@);
        assert(groups@.take(g + 1).drop_last() =~= groups@.take(g as int));
        assert(groups@.take(g + 1)[g as int] == groups@[g as int]);
        if let Some((start, end)) = groups[g] {
            assert(groups@[g as int] matches Some((s, e)) && clamp_char(line@, s) is Some);
            let cs = if start < len { start } else { len };
            let ce = if end < len { end } else { len };
            let a = match char_index_of(lc.as_slice(), cs) {
                Some(a) => a,
                None => 0,
            };
            let b = match char_index_of(lc.as_slice(), ce) {
                Some(b) => b,
                None => 0,
            };
            let colour = if g < cols.len() {
                cols[g].clone()
            } else {
                cols[0].clone()
            };
            assert(colour@ == group_colour(string_views(cols@), g as int));
            clist.push((a, b, colour));
            assert(span_views(clist@) =~= prev.push((a, b, colour@)));
        }
        g += 1;
        assert(span_views(clist@) =~= base + spans_for(line@, groups@.take(g as int), string_views(cols@)));
    }
    assert(groups@.take(g as int) =~= groups@);
}

/// The text of group `idx` as a byte slice of `line`: `Some(None)` when the
/// group does not exist or did not take part, `None` when its offsets do not
/// slice the line (a panic in `&line[a..b]`).
pub open spec fn group_text_of(line: Seq<char>, groups: Seq<Option<(usize, usize)>>, idx: int) -> Option<
    Option<Seq<char>>,
> {
    if idx < 0 || idx >= groups.len() {
        Some(None)
    } else {
        match groups[idx] {
            None => Some(None),
            Some((a, b)) => match (char_at_byte(line, a as int), char_at_byte(line, b as int)) {
                (Some(ca), Some(cb)) => if a <= b {
                    Some(Some(line.subrange(ca as int, cb as int)))
                } else {
                    None
                },
                _ => None,
            },
        }
    }
}

/// Byte-span text of capture group `idx`, or `None` if it did not participate.
pub fn group_text<'a>(line: &'a str, groups: &[Option<(usize, usize)>], idx: usize) -> (r: Option<&'a str>)
    requires
        group_text_of(line@, groups@, idx as int) is Some,
    ensures
        match r {
            Some(t) => group_text_of(line@, groups@, idx as int) == Some(Some(t@)),
            None => group_text_of(line@, groups@, idx as int) == Some(None::<Seq<char>>),
        },
{
    if idx >= groups.len() {
        return None;
    }
    match groups[idx] {
        None => None,
        Some((a, b)) => {
            let lc = chars_of(line);
            let ca = match char_index_of(lc.as_slice(), a) {
                Some(x) => x,
                None => 0,
            };
            let cb = match char_index_of(lc.as_slice(), b) {
                Some(x) => x,
                None => 0,
            };
            proof {
                crate::units::lemma_char_at_byte_bound(line@, a as int);
                crate::units::lemma_char_at_byte_bound(line@, b as int);
                lemma_char_index_order(line@, a as int, b as int);
            }
            Some(line.substring_char(ca, cb))
        },
    }
}

/// Character indices are ordered as the byte offsets they come from.
pub proof fn lemma_char_index_order(s: Seq<char>, a: int, b: int)
    requires
        char_at_byte(s, a) is Some,
        char_at_byte(s, b) is Some,
        a <= b,
    ensures
        char_at_byte(s, a)->0 <= char_at_byte(s, b)->0,
{
    let i = char_at_byte(s, a)->0;
    let j = char_at_byte(s, b)->0;
    crate::units::lemma_char_at_byte_bound(s, a);
    crate::units::lemma_char_at_byte_bound(s, b);
    crate::units::lemma_char_at_byte(s, a, i);
    crate::units::lemma_char_at_byte(s, b, j);
    if i > j {
        crate::units::lemma_prefix_len_mono(s, j as int, i as int);
    }
}


/// The escape string that resets all attributes (`default` in the table).
pub open spec fn default_colour() -> Seq<char> {
    "\x1b[0m"@
}

/// Exec form of [`default_colour`].
pub fn default_colour_string() -> (s: String)
    ensures
        s@ == default_colour(),
{
    let v = chars_of("\x1b[0m");
    string_of(v.as_slice())
}

/// How the previous match left the `count` directive, for `previous`.
#[derive(Clone, Copy, PartialEq, Eq, Structural, Debug)]
pub enum PrevCount {
    More,
    Once,
    Stop,
}

/// A `count` directive as it drives the matching loop: `more`, `stop`,
/// `block`, `unblock`, `previous`, or any other word (which acts as `once`).
#[derive(Clone, Copy, PartialEq, Eq, Structural, Debug)]
pub enum CountMode {
    More,
    Stop,
    Block,
    Unblock,
    Previous,
    Other,
}

/// The mode a `count` value names.
pub open spec fn count_mode(s: Seq<char>) -> CountMode {
    if s == "more"@ {
        CountMode::More
    } else if s == "stop"@ {
        CountMode::Stop
    } else if s == "block"@ {
        CountMode::Block
    } else if s == "unblock"@ {
        CountMode::Unblock
    } else if s == "previous"@ {
        CountMode::Previous
    } else {
        CountMode::Other
    }
}

/// The `count` words name their modes: `more`, `stop`, `block`, `unblock`
/// and `previous` each their own, and any other word (such as `once`)
/// searches once more from the end of the line.
pub proof fn law_count_words()
    ensures
        count_mode("more"@) == CountMode::More,
        count_mode("stop"@) == CountMode::Stop,
        count_mode("block"@) == CountMode::Block,
        count_mode("unblock"@) == CountMode::Unblock,
        count_mode("previous"@) == CountMode::Previous,
        count_mode("once"@) == CountMode::Other,
{
    reveal_strlit("more");
    reveal_strlit("stop");
    reveal_strlit("block");
    reveal_strlit("unblock");
    reveal_strlit("previous");
    reveal_strlit("once");
    assert("more"@.len() == 4 && "stop"@.len() == 4 && "block"@.len() == 5);
    assert("unblock"@.len() == 7 && "previous"@.len() == 8 && "once"@.len() == 4);
    assert("stop"@[0] != "more"@[0]);
    assert("once"@[0] != "more"@[0] && "once"@[0] != "stop"@[0]);
}

/// The mode `previous` takes over from the previous match.
pub open spec fn count_after_previous(p: PrevCount) -> CountMode {
    match p {
        PrevCount::More => CountMode::More,
        PrevCount::Once => CountMode::Other,
        PrevCount::Stop => CountMode::Stop,
    }
}

/// Whether a `skip` value turns skipping on.
pub open spec fn is_yes(s: Seq<char>) -> bool {
    s == "yes"@ || s == "1"@ || s == "true"@
}

/// Where the matching loop stands: the pattern, the byte position the next
/// search starts from, the current `count` mode, and whether the pattern's
/// `replace` has been applied.
pub struct Cursor {
    pub pat: int,
    pub pos: int,
    pub count: CountMode,
    pub replaced: bool,
}

/// A metric value whose colour depends on the values seen before it.
pub struct RequestView {
    pub pattern: usize,
    pub key: Seq<char>,
    pub metric: Seq<char>,
    pub span: usize,
}

/// Outside work a match asks for.
pub enum ActionView {
    /// Append the line to the file at the path.
    Concat(Seq<char>, Seq<char>),
    /// Run the shell command.
    Command(Seq<char>),
}

/// The state of a line being scanned, including the stream state it carries.
pub struct ScanView {
    pub line: Seq<char>,
    pub modified: bool,
    pub prevcount: PrevCount,
    pub blockflag: bool,
    pub blockcolour: Seq<char>,
    pub spans: Seq<(usize, usize, Seq<char>)>,
    pub requests: Seq<RequestView>,
    pub actions: Seq<ActionView>,
    pub skip: bool,
}

/// One step of the matching loop.
pub enum Step {
    Next(ScanView, Cursor),
    Finished(ScanView),
    Panicked(ScanView),
}

/// The cursor at the start of pattern `i`.
pub open spec fn start_cursor(pats: Seq<PatternView>, i: int) -> Cursor {
    Cursor {
        pat: i,
        pos: 0,
        count: if 0 <= i < pats.len() {
            count_mode(pats[i].count)
        } else {
            CountMode::More
        },
        replaced: false,
    }
}

/// Leaving pattern `pat`'s loop: a loop that matched and ends in `stop`
/// stops all later patterns (and records `stop` for `previous`); otherwise
/// the next pattern starts.
pub open spec fn end_pattern(
    pats: Seq<PatternView>,
    sh: ScanView,
    pat: int,
    count: CountMode,
    present: bool,
) -> Step {
    if present && count == CountMode::Stop {
        Step::Finished(ScanView { prevcount: PrevCount::Stop, ..sh })
    } else {
        Step::Next(sh, start_cursor(pats, pat + 1))
    }
}

/// The first character boundary at or after byte `p` (or `p` itself once
/// past the end).
pub open spec fn next_boundary(line: Seq<char>, p: int) -> int
    decreases byte_len(line) - p,
{
    if p >= byte_len(line) || char_at_byte(line, p) is Some {
        p
    } else {
        next_boundary(line, p + 1)
    }
}

/// After a match: `concat` records the line, `command` records the command,
/// `skip` sets whether the line is dropped; a pattern without colours stops
/// its loop at the first of these it has.
pub open spec fn post_stage(pats: Seq<PatternView>, p: PatternView, sh: ScanView, cur: Cursor) -> Step {
    let coloured = p.colours is Some;
    let sh1 = match p.concat {
        Some(path) => ScanView { actions: sh.actions.push(ActionView::Concat(path, sh.line)), ..sh },
        None => sh,
    };
    if p.concat is Some && !coloured {
        end_pattern(pats, sh1, cur.pat, cur.count, true)
    } else {
        let sh2 = match p.command {
            Some(c) => ScanView { actions: sh1.actions.push(ActionView::Command(c)), ..sh1 },
            None => sh1,
        };
        if p.command is Some && !coloured {
            end_pattern(pats, sh2, cur.pat, cur.count, true)
        } else {
            let sh3 = match p.skip {
                Some(s) => ScanView { skip: is_yes(s), ..sh2 },
                None => sh2,
            };
            if p.skip is Some && !coloured {
                end_pattern(pats, sh3, cur.pat, cur.count, true)
            } else {
                Step::Next(sh3, cur)
            }
        }
    }
}

/// The spans a match paints, and for a `trend` pattern whose metric group
/// took part, a request for the metric's colour (which will replace the
/// colour of that group's span). `None` when a group's offsets do not slice
/// the line (which can only happen after `replace` changed it).
pub open spec fn paint(p: PatternView, pidx: int, sh: ScanView, groups: Seq<Option<(usize, usize)>>) -> Option<
    ScanView,
> {
    let cols = p.colours->0;
    let line = sh.line;
    let spans = sh.spans + spans_for(line, groups, cols);
    let key: Option<Seq<char>> = match p.key {
        None => Some(Seq::empty()),
        Some(k) => match group_text_of(line, groups, k as int) {
            None => None,
            Some(None) => Some(Seq::empty()),
            Some(Some(t)) => Some(t),
        },
    };
    if p.trend is Some && p.metric is Some {
        let mi = p.metric->0;
        match key {
            None => None,
            Some(kt) => match group_text_of(line, groups, mi as int) {
                None => None,
                Some(None) => if spans_convert(line, groups) {
                    Some(ScanView { spans, ..sh })
                } else {
                    None
                },
                Some(Some(t)) => if spans_convert(line, groups) {
                    Some(
                        ScanView {
                            spans,
                            requests: sh.requests.push(
                                RequestView {
                                    pattern: pidx as usize,
                                    key: kt,
                                    metric: t,
                                    span: (sh.spans.len() + participating(groups, mi as int)) as usize,
                                },
                            ),
                            ..sh
                        },
                    )
                } else {
                    None
                },
            },
        }
    } else if spans_convert(line, groups) {
        Some(ScanView { spans, ..sh })
    } else {
        None
    }
}

/// What a match does for a pattern with colours: `block` and `unblock` set
/// the block state (and act as `stop`), the groups are painted, `previous`
/// takes the mode of the previous match, `stop` ends the loop, `more`
/// searches on from the end of the match (one character on after an empty
/// match), and any other mode searches once more from the end of the line.
pub open spec fn colour_stage(
    pats: Seq<PatternView>,
    p: PatternView,
    sh: ScanView,
    cur: Cursor,
    groups: Seq<Option<(usize, usize)>>,
    mend: int,
) -> Step {
    let cols = p.colours->0;
    if cols.len() == 0 {
        Step::Panicked(sh)
    } else if cur.count == CountMode::Block {
        end_pattern(
            pats,
            ScanView { blockflag: true, blockcolour: cols[0], ..sh },
            cur.pat,
            CountMode::Stop,
            true,
        )
    } else {
        let sh_a = if cur.count == CountMode::Unblock {
            ScanView { blockflag: false, blockcolour: default_colour(), ..sh }
        } else {
            sh
        };
        let count_a = if cur.count == CountMode::Unblock {
            CountMode::Stop
        } else {
            cur.count
        };
        match paint(p, cur.pat, sh_a, groups) {
            None => Step::Panicked(sh_a),
            Some(sh_b) => {
                let count_b = if count_a == CountMode::Previous {
                    count_after_previous(sh_b.prevcount)
                } else {
                    count_a
                };
                if count_b == CountMode::Stop {
                    end_pattern(pats, sh_b, cur.pat, CountMode::Stop, true)
                } else if count_b == CountMode::More {
                    let pos2 = if mend == cur.pos {
                        next_boundary(sh_b.line, cur.pos + 1)
                    } else {
                        mend
                    };
                    post_stage(
                        pats,
                        p,
                        ScanView { prevcount: PrevCount::More, ..sh_b },
                        Cursor { pos: pos2, count: CountMode::More, ..cur },
                    )
                } else {
                    post_stage(
                        pats,
                        p,
                        ScanView { prevcount: PrevCount::Once, ..sh_b },
                        Cursor { pos: byte_len(sh_b.line) as int, count: count_b, ..cur },
                    )
                }
            },
        }
    }
}

/// The end byte of a match's group 0.
pub open spec fn match_end(groups: Seq<Option<(usize, usize)>>) -> int {
    match groups[0] {
        Some((_, e)) => e as int,
        None => 0,
    }
}

/// What a search from the cursor found: no match (including a search
/// position past the end of the line, or one that is not a character
/// boundary, or an engine error), or a match's group spans together with,
/// for a pattern whose `replace` is still to be applied, the outcome of
/// the replacement (`None` when the engine failed, or when the pattern
/// holds `\K`, with which the replacement may not survive).
pub enum FoundView {
    Nothing,
    Match(Seq<Option<(usize, usize)>>, Option<Option<Seq<char>>>),
}

/// The search a cursor makes on a line: the engine's captures from the
/// cursor's position and, where a `replace` is due, its replacement.
pub open spec fn found(pats: Seq<PatternView>, line: Seq<char>, cur: Cursor) -> FoundView {
    if cur.pat < 0 || cur.pat >= pats.len() || cur.pos < 0 || cur.pos > byte_len(line) || char_at_byte(
        line,
        cur.pos,
    ) is None {
        FoundView::Nothing
    } else {
        let p = pats[cur.pat];
        match regex_captures(p.regexp, line, cur.pos as usize) {
            Some(Some(groups)) => FoundView::Match(
                groups,
                if p.replace is Some && !cur.replaced {
                    if has_keepout(p.regexp) {
                        Some(None)
                    } else {
                        Some(regex_replace_all(p.regexp, line, p.replace->0))
                    }
                } else {
                    None
                },
            ),
            _ => FoundView::Nothing,
        }
    }
}

/// What an iteration of a pattern's matching loop does with what its search
/// found: no match ends the pattern's loop; a pattern with `replace`
/// rewrites the line on its first match (an engine failure there, or a
/// pattern with `\K`, cannot be gone on from) and stops at its second; then the colours are applied,
/// or, for a pattern without colours, the other directives.
pub open spec fn advance(pats: Seq<PatternView>, sh: ScanView, cur: Cursor, f: FoundView) -> Step {
    if cur.pat < 0 || cur.pat >= pats.len() {
        Step::Finished(sh)
    } else {
        let p = pats[cur.pat];
        match f {
            FoundView::Nothing => end_pattern(pats, sh, cur.pat, cur.count, false),
            FoundView::Match(groups, rep) => {
                let mend = match_end(groups);
                if p.replace is Some && cur.replaced {
                    end_pattern(pats, sh, cur.pat, cur.count, true)
                } else {
                    let replaced: Option<(ScanView, Cursor)> = if p.replace is Some {
                        match rep {
                            Some(Some(nl)) => Some(
                                (
                                    ScanView { line: nl, modified: true, ..sh },
                                    Cursor { replaced: true, ..cur },
                                ),
                            ),
                            _ => None,
                        }
                    } else {
                        Some((sh, cur))
                    };
                    match replaced {
                        None => Step::Panicked(sh),
                        Some((sh1, cur1)) => if p.colours is Some {
                            colour_stage(pats, p, sh1, cur1, groups, mend)
                        } else {
                            post_stage(pats, p, sh1, cur1)
                        },
                    }
                }
            },
        }
    }
}

/// One iteration of a pattern's matching loop: a search, and what follows
/// from what it found.
pub open spec fn step(pats: Seq<PatternView>, sh: ScanView, cur: Cursor) -> Step {
    advance(pats, sh, cur, found(pats, sh.line, cur))
}

/// How scanning a line ends.
pub enum ScanEnd {
    /// Every pattern ran (or one stopped the rest).
    Done(ScanView),
    /// A line slice at offsets that are not boundaries panicked, the engine
    /// failed inside `replace`, or a `replace` was due on a pattern with `\K`.
    Panicked(ScanView),
    /// A pattern's loop repeats the same iteration forever; the second
    /// sequence holds the actions each further iteration performs again.
    Diverged(ScanView, Seq<ActionView>),
}

/// Running the matching loop for at most `fuel` iterations: `None` if it has
/// not ended by then. An iteration that leaves the loop exactly where it was
/// (same pattern, position, mode, `replace` state, line and previous mode)
/// repeats forever.
pub open spec fn run(pats: Seq<PatternView>, sh: ScanView, cur: Cursor, fuel: nat) -> Option<ScanEnd>
    decreases fuel,
{
    if fuel == 0 {
        None
    } else {
        match step(pats, sh, cur) {
            Step::Finished(s2) => Some(ScanEnd::Done(s2)),
            Step::Panicked(s2) => Some(ScanEnd::Panicked(s2)),
            Step::Next(s2, c2) => if c2 == cur && s2.line == sh.line && s2.prevcount == sh.prevcount {
                Some(ScanEnd::Diverged(s2, s2.actions.subrange(sh.actions.len() as int, s2.actions.len() as int)))
            } else {
                run(pats, s2, c2, (fuel - 1) as nat)
            },
        }
    }
}


/// Once the matching loop has ended within some number of iterations, more
/// iterations change nothing: the outcome of a line does not depend on the
/// bound it is looked at with.
pub proof fn law_run_settles(pats: Seq<PatternView>, sh: ScanView, cur: Cursor, f1: nat, f2: nat)
    requires
        run(pats, sh, cur, f1) is Some,
        f1 <= f2,
    ensures
        run(pats, sh, cur, f2) == run(pats, sh, cur, f1),
    decreases f1,
{
    if f1 > 0 {
        match step(pats, sh, cur) {
            Step::Next(s2, c2) => {
                if !(c2 == cur && s2.line == sh.line && s2.prevcount == sh.prevcount) {
                    law_run_settles(pats, s2, c2, (f1 - 1) as nat, (f2 - 1) as nat);
                }
            },
            _ => {},
        }
    }
}

/// A `skip` value of `yes`, `1` or `true` turns skipping on, and any other
/// value turns it off: after a match of a pattern whose `skip` is `v`, the
/// line is dropped exactly when `v` is one of those three words (for a
/// pattern without colours, provided no `concat` or `command` ended its loop
/// first).
pub proof fn law_skip_words(pats: Seq<PatternView>, p: PatternView, sh: ScanView, cur: Cursor, v: Seq<char>)
    requires
        p.skip == Some(v),
        p.colours is Some || (p.concat is None && p.command is None),
    ensures
        (v == "yes"@ || v == "1"@ || v == "true"@) ==> step_state(post_stage(pats, p, sh, cur)).skip,
        !(v == "yes"@ || v == "1"@ || v == "true"@) ==> !step_state(post_stage(pats, p, sh, cur)).skip,
{
}

/// Every trend request names one of the spans already painted.
pub open spec fn requests_in_range(sh: ScanView) -> bool {
    forall|i: int| 0 <= i < sh.requests.len() ==> (#[trigger] sh.requests[i]).span < sh.spans.len()
}

/// The state a step leaves.
pub open spec fn step_state(s: Step) -> ScanView {
    match s {
        Step::Next(sh, _) => sh,
        Step::Finished(sh) => sh,
        Step::Panicked(sh) => sh,
    }
}

proof fn lemma_post_stage_keeps_requests(pats: Seq<PatternView>, p: PatternView, sh: ScanView, cur: Cursor)
    ensures
        step_state(post_stage(pats, p, sh, cur)).spans == sh.spans,
        step_state(post_stage(pats, p, sh, cur)).requests == sh.requests,
{
}

proof fn lemma_paint_keeps_requests_in_range(p: PatternView, pidx: int, sh: ScanView, groups: Seq<Option<(usize, usize)>>)
    requires
        requests_in_range(sh),
        p.colours is Some,
    ensures
        paint(p, pidx, sh, groups) matches Some(sh2) ==> requests_in_range(sh2) && sh.spans.len()
            <= sh2.spans.len(),
{
    let cols = p.colours->0;
    lemma_spans_for_len(sh.line, groups, cols);
    if let Some(sh2) = paint(p, pidx, sh, groups) {
        assert(sh2.spans == sh.spans + spans_for(sh.line, groups, cols));
        if sh2.requests.len() > sh.requests.len() {
            let mi = p.metric->0 as int;
            assert(group_text_of(sh.line, groups, mi) matches Some(Some(t)));
            assert(0 <= mi < groups.len() && groups[mi] is Some);
            lemma_participating_mono(groups, mi, groups.len() as int);
            assert forall|i: int| 0 <= i < sh2.requests.len() implies (#[trigger] sh2.requests[i]).span
                < sh2.spans.len() by {
                if i < sh.requests.len() {
                    assert(sh2.requests[i] == sh.requests[i]);
                }
            }
        } else {
            assert(sh2.requests == sh.requests);
        }
    }
}

/// A step keeps every trend request pointing at a painted span.
proof fn lemma_step_keeps_requests_in_range(pats: Seq<PatternView>, sh: ScanView, cur: Cursor)
    requires
        requests_in_range(sh),
    ensures
        requests_in_range(step_state(step(pats, sh, cur))),
{
    if 0 <= cur.pat < pats.len() {
        let p = pats[cur.pat];
        let line = sh.line;
        if !(cur.pos < 0 || cur.pos > byte_len(line) || char_at_byte(line, cur.pos) is None) {
            if let Some(Some(groups)) = regex_captures(p.regexp, line, cur.pos as usize) {
                let mend = match_end(groups);
                if !(p.replace is Some && cur.replaced) {
                    let replaced: Option<(ScanView, Cursor)> = if p.replace is Some {
                        match regex_replace_all(p.regexp, line, p.replace->0) {
                            None => None,
                            Some(nl) => Some(
                                (
                                    ScanView { line: nl, modified: true, ..sh },
                                    Cursor { replaced: true, ..cur },
                                ),
                            ),
                        }
                    } else {
                        Some((sh, cur))
                    };
                    if let Some((sh1, cur1)) = replaced {
                        assert(requests_in_range(sh1));
                        if p.colours is Some {
                            let cols = p.colours->0;
                            if cols.len() > 0 && cur1.count != CountMode::Block {
                                let sh_a = if cur1.count == CountMode::Unblock {
                                    ScanView { blockflag: false, blockcolour: default_colour(), ..sh1 }
                                } else {
                                    sh1
                                };
                                lemma_paint_keeps_requests_in_range(p, cur1.pat, sh_a, groups);
                                if let Some(sh_b) = paint(p, cur1.pat, sh_a, groups) {
                                    let sh_m = ScanView { prevcount: PrevCount::More, ..sh_b };
                                    let sh_o = ScanView { prevcount: PrevCount::Once, ..sh_b };
                                    lemma_post_stage_keeps_requests(
                                        pats,
                                        p,
                                        sh_m,
                                        Cursor {
                                            pos: if mend == cur1.pos {
                                                next_boundary(sh_b.line, cur1.pos + 1)
                                            } else {
                                                mend
                                            },
                                            count: CountMode::More,
                                            ..cur1
                                        },
                                    );
                                    lemma_post_stage_keeps_requests(
                                        pats,
                                        p,
                                        sh_o,
                                        Cursor {
                                            pos: byte_len(sh_b.line) as int,
                                            count: if cur1.count == CountMode::Unblock {
                                                CountMode::Stop
                                            } else if cur1.count == CountMode::Previous {
                                                count_after_previous(sh_b.prevcount)
                                            } else {
                                                cur1.count
                                            },
                                            ..cur1
                                        },
                                    );
                                }
                            }
                        } else {
                            lemma_post_stage_keeps_requests(pats, p, sh1, cur1);
                        }
                    }
                }
            }
        }
    }
}

/// Every trend request of a line, however its scan ends, names one of the
/// line's spans, so each trend answer has a span to recolour.
pub proof fn law_requests_name_painted_spans(pats: Seq<PatternView>, sh: ScanView, cur: Cursor, fuel: nat)
    requires
        requests_in_range(sh),
    ensures
        run(pats, sh, cur, fuel) matches Some(e) ==> requests_in_range(
            match e {
                ScanEnd::Done(s2) => s2,
                ScanEnd::Panicked(s2) => s2,
                ScanEnd::Diverged(s2, _) => s2,
            },
        ),
    decreases fuel,
{
    if fuel > 0 {
        lemma_step_keeps_requests_in_range(pats, sh, cur);
        match step(pats, sh, cur) {
            Step::Next(s2, c2) => {
                if !(c2 == cur && s2.line == sh.line && s2.prevcount == sh.prevcount) {
                    law_requests_name_painted_spans(pats, s2, c2, (fuel - 1) as nat);
                }
            },
            _ => {},
        }
    }
}

/// A metric value whose colour depends on the values seen before it: the
/// pattern it belongs to, the text of its key group, the metric text, and
/// the index of the span whose colour the answer replaces.
pub struct TrendRequest {
    pub pattern: usize,
    pub key: String,
    pub metric: String,
    pub span: usize,
}

impl View for TrendRequest {
    type V = RequestView;

    open spec fn view(&self) -> RequestView {
        RequestView { pattern: self.pattern, key: self.key@, metric: self.metric@, span: self.span }
    }
}

/// Outside work a match asks for.
pub enum Action {
    /// Append `line` and a newline to the file at `path`.
    Concat { path: String, line: String },
    /// Run the command with `sh -c`.
    Command(String),
}

impl View for Action {
    type V = ActionView;

    open spec fn view(&self) -> ActionView {
        match self {
            Action::Concat { path, line } => ActionView::Concat(path@, line@),
            Action::Command(c) => ActionView::Command(c@),
        }
    }
}

/// The views of a list of actions.
pub open spec fn action_views(v: Seq<Action>) -> Seq<ActionView> {
    v.map_values(|a: Action| a@)
}

/// The views of a list of requests.
pub open spec fn request_views(v: Seq<TrendRequest>) -> Seq<RequestView> {
    v.map_values(|r: TrendRequest| r@)
}

/// The state carried from one line to the next.
pub struct StreamState {
    pub prevcolour: String,
    pub prevcount: PrevCount,
    pub blockflag: bool,
    pub blockcolour: String,
}

impl StreamState {
    /// The state before the first line: default colours, `more`, no block.
    pub fn new() -> (s: StreamState)
        ensures
            s.prevcolour@ == default_colour(),
            s.prevcount == PrevCount::More,
            !s.blockflag,
            s.blockcolour@ == default_colour(),
    {
        StreamState {
            prevcolour: default_colour_string(),
            prevcount: PrevCount::More,
            blockflag: false,
            blockcolour: default_colour_string(),
        }
    }
}

/// A line being scanned: the line (after any `replace`), its characters
/// and byte length, whether a `replace` changed it, and what its matches
/// have produced so far.
pub struct LineWork {
    line: String,
    chars: Vec<char>,
    blen: usize,
    modified: bool,
    spans: Vec<(usize, usize, String)>,
    requests: Vec<TrendRequest>,
    actions: Vec<Action>,
    skip: bool,
}

impl LineWork {
    /// The characters and byte length are those of the line, and the line
    /// fits in memory.
    pub closed spec fn wf(&self) -> bool {
        &&& self.chars@ == self.line@
        &&& self.blen == byte_len(self.line@)
        &&& byte_len(self.line@) <= isize::MAX
    }
}

/// The scan state a line and the stream state make.
pub closed spec fn scan_view(w: LineWork, st: StreamState) -> ScanView {
    ScanView {
        line: w.line@,
        modified: w.modified,
        prevcount: st.prevcount,
        blockflag: st.blockflag,
        blockcolour: st.blockcolour@,
        spans: span_views(w.spans@),
        requests: request_views(w.requests@),
        actions: action_views(w.actions@),
        skip: w.skip,
    }
}

/// Where the matching loop stands (see [`Cursor`]).
pub struct MatchCursor {
    pat: usize,
    pos: usize,
    count: CountMode,
    replaced: bool,
}

/// The cursor a [`MatchCursor`] stands for.
pub closed spec fn cur_view(c: MatchCursor) -> Cursor {
    Cursor { pat: c.pat as int, pos: c.pos as int, count: c.count, replaced: c.replaced }
}

impl LineWork {
    /// A line about to be scanned: nothing painted, asked for or skipped yet.
    pub fn new(line: String) -> (w: LineWork)
        requires
            byte_len(line@) <= isize::MAX,
        ensures
            w.wf(),
            forall|st: StreamState| #[trigger] scan_view(w, st) == scan_start(st, line@),
    {
        let chars = chars_of(line.as_str());
        let blen = byte_len_of(chars.as_slice());
        let w = LineWork {
            line,
            chars,
            blen,
            modified: false,
            spans: Vec::new(),
            requests: Vec::new(),
            actions: Vec::new(),
            skip: false,
        };
        proof {
            assert(span_views(w.spans@) =~= Seq::<(usize, usize, Seq<char>)>::empty());
            assert(request_views(w.requests@) =~= Seq::<RequestView>::empty());
            assert(action_views(w.actions@) =~= Seq::<ActionView>::empty());
        }
        w
    }

    /// What the scan of the line has produced.
    pub fn finish(self) -> (ls: LineScan)
        ensures
            forall|st: StreamState| #[trigger] scan_view(self, st).line == ls.line@,
            forall|st: StreamState| #[trigger] scan_view(self, st).modified == ls.modified,
            forall|st: StreamState| #[trigger] scan_view(self, st).spans == span_views(ls.spans@),
            forall|st: StreamState| #[trigger] scan_view(self, st).requests == request_views(ls.requests@),
            forall|st: StreamState| #[trigger] scan_view(self, st).actions == action_views(ls.actions@),
            forall|st: StreamState| #[trigger] scan_view(self, st).skip == ls.skip,
    {
        LineScan {
            line: self.line,
            modified: self.modified,
            spans: self.spans,
            requests: self.requests,
            actions: self.actions,
            skip: self.skip,
        }
    }
}

impl MatchCursor {
    /// The cursor at the start of the first pattern.
    pub fn start(pats: &Vec<Pattern>) -> (c: MatchCursor)
        ensures
            cur_view(c) == start_cursor(pattern_views(pats@), 0),
    {
        let count0 = if pats.len() > 0 {
            count_mode_of(&pats[0].count)
        } else {
            CountMode::More
        };
        proof {
            if pats@.len() > 0 {
                assert(pattern_views(pats@)[0] == pats@[0]@);
            }
        }
        MatchCursor { pat: 0, pos: 0, count: count0, replaced: false }
    }
}

/// The mode a `count` value names, computed.
fn count_mode_of(s: &String) -> (m: CountMode)
    ensures
        m == count_mode(s@),
{
    let c = chars_of(s.as_str());
    let cs = c.as_slice();
    if chars_eq_str(cs, "more") {
        CountMode::More
    } else if chars_eq_str(cs, "stop") {
        CountMode::Stop
    } else if chars_eq_str(cs, "block") {
        CountMode::Block
    } else if chars_eq_str(cs, "unblock") {
        CountMode::Unblock
    } else if chars_eq_str(cs, "previous") {
        CountMode::Previous
    } else {
        CountMode::Other
    }
}

/// Whether a `skip` value turns skipping on, computed.
fn is_yes_exec(s: &String) -> (b: bool)
    ensures
        b == is_yes(s@),
{
    let c = chars_of(s.as_str());
    let cs = c.as_slice();
    chars_eq_str(cs, "yes") || chars_eq_str(cs, "1") || chars_eq_str(cs, "true")
}

/// The next character boundary at or after `p`, computed.
fn next_boundary_exec(w: &LineWork, p: usize) -> (r: usize)
    requires
        w.wf(),
    ensures
        r == next_boundary(w.line@, p as int),
        p <= r,
        r <= w.blen || r == p,
{
    let mut q = p;
    while q < w.blen && char_index_of(w.chars.as_slice(), q).is_none()
        invariant
            w.wf(),
            p <= q,
            q <= w.blen || q == p,
            next_boundary(w.line@, p as int) == next_boundary(w.line@, q as int),
        decreases w.blen - q,
    {
        q += 1;
    }
    q
}

/// Whether group `idx`'s offsets slice the line, computed.
fn group_text_ok(w: &LineWork, groups: &Vec<Option<(usize, usize)>>, idx: usize) -> (b: bool)
    requires
        w.wf(),
    ensures
        b == group_text_of(w.line@, groups@, idx as int) is Some,
{
    if idx >= groups.len() {
        return true;
    }
    match groups[idx] {
        None => true,
        Some((a, b)) => a <= b && char_index_of(w.chars.as_slice(), a).is_some() && char_index_of(
            w.chars.as_slice(),
            b,
        ).is_some(),
    }
}

/// Whether every participating group's offsets convert, computed.
fn spans_convert_exec(w: &LineWork, groups: &Vec<Option<(usize, usize)>>) -> (b: bool)
    requires
        w.wf(),
    ensures
        b == spans_convert(w.line@, groups@),
{
    let mut g: usize = 0;
    while g < groups.len()
        invariant
            w.wf(),
            g <= groups@.len(),
            forall|h: int|
                0 <= h < g ==> (#[trigger] groups@[h] matches Some((s, e)) ==> clamp_char(w.line@, s)
                    is Some && clamp_char(w.line@, e) is Some),
        decreases groups@.len() - g,
    {
        if let Some((s, e)) = groups[g] {
            let cs = if s < w.blen { s } else { w.blen };
            let ce = if e < w.blen { e } else { w.blen };
            if char_index_of(w.chars.as_slice(), cs).is_none() || char_index_of(w.chars.as_slice(), ce).is_none() {
                return false;
            }
        }
        g += 1;
    }
    true
}

/// The spans of a match number its participating groups.
proof fn lemma_spans_for_len(line: Seq<char>, groups: Seq<Option<(usize, usize)>>, cols: Seq<Seq<char>>)
    ensures
        spans_for(line, groups, cols).len() == participating(groups, groups.len() as int),
    decreases groups.len(),
{
    if groups.len() > 0 {
        lemma_spans_for_len(line, groups.drop_last(), cols);
        lemma_participating_prefix(groups, groups.len() - 1);
    }
}

/// Counting participating groups only looks at the prefix counted.
proof fn lemma_participating_prefix(groups: Seq<Option<(usize, usize)>>, k: int)
    requires
        0 <= k <= groups.len(),
    ensures
        participating(groups.take(k), k) == participating(groups, k),
        k == groups.len() - 1 ==> participating(groups.drop_last(), k) == participating(groups, k),
    decreases k,
{
    if k > 0 {
        lemma_participating_prefix(groups, k - 1);
        lemma_participating_take(groups, k, k - 1);
        assert(groups.take(k)[k - 1] == groups[k - 1]);
        if k == groups.len() - 1 {
            lemma_participating_take(groups, k, k);
            assert(groups.drop_last() =~= groups.take(k));
        }
    } else {
        if k == groups.len() - 1 {
            assert(groups.drop_last().len() == 0);
        }
    }
}

proof fn lemma_participating_take(groups: Seq<Option<(usize, usize)>>, n: int, k: int)
    requires
        0 <= k <= n <= groups.len(),
    ensures
        participating(groups.take(n), k) == participating(groups, k),
    decreases k,
{
    if k > 0 {
        lemma_participating_take(groups, n, k - 1);
        assert(groups.take(n)[k - 1] == groups[k - 1]);
    }
}

/// Participating counts grow with the prefix.
proof fn lemma_participating_mono(groups: Seq<Option<(usize, usize)>>, i: int, j: int)
    requires
        0 <= i <= j <= groups.len(),
    ensures
        participating(groups, i) <= participating(groups, j),
        i < j && groups[i] is Some ==> participating(groups, i) < participating(groups, j),
    decreases j - i,
{
    if i < j {
        lemma_participating_mono(groups, i, j - 1);
        if i < j - 1 {
            lemma_participating_mono(groups, i + 1, j - 1);
        }
    }
}


/// A copy of a string slice.
fn owned(t: &str) -> (r: String)
    ensures
        r@ == t@,
{
    let c = chars_of(t);
    string_of(c.as_slice())
}

/// How many of the first `k` groups take part, computed.
fn participating_exec(groups: &Vec<Option<(usize, usize)>>, k: usize) -> (r: usize)
    requires
        k <= groups@.len(),
    ensures
        r == participating(groups@, k as int),
{
    let mut i: usize = 0;
    let mut r: usize = 0;
    while i < k
        invariant
            i <= k <= groups@.len(),
            r == participating(groups@, i as int),
            r <= i,
        decreases k - i,
    {
        if groups[i].is_some() {
            r += 1;
        }
        i += 1;
    }
    r
}

/// Paints a match's groups, or reports (changing nothing) that a group's
/// offsets do not slice the line.
fn paint_exec(p: &Pattern, pidx: usize, w: &mut LineWork, st: &StreamState, groups: &Vec<Option<(usize, usize)>>) -> (ok: bool)
    requires
        old(w).wf(),
        p.colours is Some,
        p.colours->0@.len() > 0,
    ensures
        final(w).wf(),
        final(w).line == old(w).line,
        final(w).modified == old(w).modified,
        final(w).blen == old(w).blen,
        action_views(final(w).actions@) == action_views(old(w).actions@),
        final(w).skip == old(w).skip,
        match paint(p@, pidx as int, scan_view(*old(w), *st), groups@) {
            None => !ok && scan_view(*final(w), *st) == scan_view(*old(w), *st),
            Some(sh2) => ok && scan_view(*final(w), *st) == sh2,
        },
{
    let ghost sh = scan_view(*w, *st);
    let cols = match &p.colours {
        Some(c) => c,
        None => {
            return false;
        },
    };
    let mut req_parts: Option<(String, String)> = None;
    let mut mi: usize = 0;
    if p.trend.is_some() && p.metric.is_some() {
        mi = match p.metric {
            Some(m) => m,
            None => 0,
        };
        let key_text = match p.key {
            None => String::new(),
            Some(k) => {
                if !group_text_ok(w, groups, k) {
                    return false;
                }
                match group_text(w.line.as_str(), groups, k) {
                    Some(t) => owned(t),
                    None => String::new(),
                }
            },
        };
        if !group_text_ok(w, groups, mi) {
            return false;
        }
        match group_text(w.line.as_str(), groups, mi) {
            Some(t) => {
                assert(mi < groups@.len() && groups@[mi as int] is Some);
                req_parts = Some((key_text, owned(t)));
            },
            None => {},
        }
    }
    assert(req_parts is Some ==> mi < groups@.len() && groups@[mi as int] is Some);
    if !spans_convert_exec(w, groups) {
        return false;
    }
    let old_len = w.spans.len();
    let ghost old_spans = span_views(w.spans@);
    proof {
        assert(cols@.len() > 0);
    }
    add2list(&mut w.spans, groups.as_slice(), cols.as_slice(), w.line.as_str());
    proof {
        lemma_spans_for_len(w.line@, groups@, string_views(cols@));
        assert(span_views(w.spans@).len() == old_spans.len() + participating(groups@, groups@.len() as int));
    }
    match req_parts {
        Some((kt, mt)) => {
            proof {
                lemma_participating_mono(groups@, mi as int, groups@.len() as int);
            }
            let before = participating_exec(groups, mi);
            assert(w.spans@.len() == old_len + participating(groups@, groups@.len() as int));
            assert(before < participating(groups@, groups@.len() as int));
            let new_len = w.spans.len();
            assert(old_len + before < new_len);
            let idx = old_len + before;
            let ghost old_reqs = request_views(w.requests@);
            w.requests.push(TrendRequest { pattern: pidx, key: kt, metric: mt, span: idx });
            assert(request_views(w.requests@) =~= old_reqs.push(
                RequestView { pattern: pidx, key: kt@, metric: mt@, span: idx },
            ));
        },
        None => {},
    }
    true
}


/// How an iteration of the matching loop ended.
pub enum StepKind {
    Next,
    Finished,
    Panicked,
}

/// The step an iteration's outcome and the resulting state make.
pub open spec fn step_of(k: StepKind, w: LineWork, st: StreamState, c: MatchCursor) -> Step {
    match k {
        StepKind::Next => Step::Next(scan_view(w, st), cur_view(c)),
        StepKind::Finished => Step::Finished(scan_view(w, st)),
        StepKind::Panicked => Step::Panicked(scan_view(w, st)),
    }
}

/// Leaves pattern `c.pat`'s loop.
fn end_pattern_exec(
    pats: &Vec<Pattern>,
    w: &LineWork,
    st: &mut StreamState,
    c: &mut MatchCursor,
    count: CountMode,
    present: bool,
) -> (k: StepKind)
    requires
        old(c).pat < pats@.len(),
    ensures
        end_pattern(pattern_views(pats@), scan_view(*w, *old(st)), old(c).pat as int, count, present)
            == step_of(k, *w, *final(st), *final(c)),
        k is Next ==> final(c).pat == old(c).pat + 1,
        k is Next ==> final(st).prevcount == old(st).prevcount,
        final(st).prevcolour == old(st).prevcolour,
        final(st).blockflag == old(st).blockflag,
        final(st).blockcolour == old(st).blockcolour,
        !(k is Panicked),
{
    if present && count == CountMode::Stop {
        st.prevcount = PrevCount::Stop;
        return StepKind::Finished;
    }
    assert(c.pat < pats.len());
    c.pat = c.pat + 1;
    c.pos = 0;
    c.replaced = false;
    c.count = if c.pat < pats.len() {
        count_mode_of(&pats[c.pat].count)
    } else {
        CountMode::More
    };
    StepKind::Next
}

/// The post-match directives (`concat`, `command`, `skip`).
fn post_stage_exec(
    pats: &Vec<Pattern>,
    p: &Pattern,
    w: &mut LineWork,
    st: &mut StreamState,
    c: &mut MatchCursor,
) -> (k: StepKind)
    requires
        old(w).wf(),
        old(c).pat < pats@.len(),
    ensures
        final(w).wf(),
        final(w).line == old(w).line,
        post_stage(pattern_views(pats@), p@, scan_view(*old(w), *old(st)), cur_view(*old(c)))
            == step_of(k, *final(w), *final(st), *final(c)),
        k is Next && final(c).pat == old(c).pat ==> cur_view(*final(c)) == cur_view(*old(c)),
        k is Next ==> final(c).pat == old(c).pat || final(c).pat == old(c).pat + 1,
        k is Next ==> final(st).prevcount == old(st).prevcount,
        final(st).prevcolour == old(st).prevcolour,
        !(k is Panicked),
{
    let coloured = p.colours.is_some();
    if let Some(path) = &p.concat {
        let ghost before = action_views(w.actions@);
        w.actions.push(Action::Concat { path: path.clone(), line: w.line.clone() });
        assert(action_views(w.actions@) =~= before.push(ActionView::Concat(path@, w.line@)));
        if !coloured {
            let cnt = c.count;
            return end_pattern_exec(pats, w, st, c, cnt, true);
        }
    }
    if let Some(cmd) = &p.command {
        let ghost before = action_views(w.actions@);
        w.actions.push(Action::Command(cmd.clone()));
        assert(action_views(w.actions@) =~= before.push(ActionView::Command(cmd@)));
        if !coloured {
            let cnt = c.count;
            return end_pattern_exec(pats, w, st, c, cnt, true);
        }
    }
    if let Some(sk) = &p.skip {
        w.skip = is_yes_exec(sk);
        if !coloured {
            let cnt = c.count;
            return end_pattern_exec(pats, w, st, c, cnt, true);
        }
    }
    StepKind::Next
}


/// The loop measure within one pattern: a `replace` still to apply, a
/// `previous` mode still to resolve, the bytes left to search, and whether
/// the previous mode is not yet `once`.
pub closed spec fn measure(pats: Seq<PatternView>, c: Cursor, line: Seq<char>, prev: PrevCount) -> (int, int, int, int) {
    let p = pats[c.pat];
    (
        if p.replace is Some && !c.replaced { 1int } else { 0int },
        if c.count == CountMode::Previous { 1int } else { 0int },
        if c.pos <= byte_len(line) + 1 { byte_len(line) + 1 - c.pos } else { 0int },
        if prev != PrevCount::Once { 1int } else { 0int },
    )
}

pub closed spec fn lex_lt4(a: (int, int, int, int), b: (int, int, int, int)) -> bool {
    ||| a.0 < b.0
    ||| a.0 == b.0 && a.1 < b.1
    ||| a.0 == b.0 && a.1 == b.1 && a.2 < b.2
    ||| a.0 == b.0 && a.1 == b.1 && a.2 == b.2 && a.3 < b.3
}

/// A step that stays in the loop either leaves the pattern, lowers the
/// measure, or leaves everything the loop depends on as it was.
pub closed spec fn progress(pats: Seq<PatternView>, c0: Cursor, sh0: ScanView, c1: Cursor, sh1: ScanView) -> bool {
    ||| c1.pat == c0.pat + 1
    ||| c1.pat == c0.pat && lex_lt4(
        measure(pats, c1, sh1.line, sh1.prevcount),
        measure(pats, c0, sh0.line, sh0.prevcount),
    )
    ||| c1 == c0 && sh1.line == sh0.line && sh1.prevcount == sh0.prevcount
}

/// What a search found, as plain values.
pub enum Search {
    Nothing,
    Match(Vec<Option<(usize, usize)>>, Option<Option<String>>),
}

/// The view of a search.
pub open spec fn search_view(s: Search) -> FoundView {
    match s {
        Search::Nothing => FoundView::Nothing,
        Search::Match(g, rep) => FoundView::Match(
            g@,
            match rep {
                None => None,
                Some(None) => Some(None),
                Some(Some(nl)) => Some(Some(nl@)),
            },
        ),
    }
}

/// What the engine guarantees of a search from `cur` on `line`: a match
/// comes from a search at a character boundary of the line, with spans as
/// [`spans_ok`] says, and a replacement result fits in memory.
pub open spec fn search_ok(line: Seq<char>, cur: Cursor, f: FoundView) -> bool {
    match f {
        FoundView::Nothing => true,
        FoundView::Match(groups, rep) => {
            &&& 0 <= cur.pos <= byte_len(line)
            &&& char_at_byte(line, cur.pos) is Some
            &&& spans_ok(line, groups, cur.pos)
            &&& (rep matches Some(Some(nl)) ==> byte_len(nl) <= isize::MAX)
        },
    }
}

/// The search of one iteration: the engine's captures from the cursor's
/// position and, where a `replace` is due, the replacement.
fn search(pats: &Vec<Pattern>, w: &LineWork, c: &MatchCursor) -> (r: Search)
    requires
        w.wf(),
    ensures
        search_view(r) == found(pattern_views(pats@), w.line@, cur_view(*c)),
        search_ok(w.line@, cur_view(*c), search_view(r)),
{
    let ghost pv = pattern_views(pats@);
    if c.pat >= pats.len() || c.pos > w.blen {
        return Search::Nothing;
    }
    if char_index_of(w.chars.as_slice(), c.pos).is_none() {
        return Search::Nothing;
    }
    let p = &pats[c.pat];
    assert(pv[c.pat as int] == p@);
    match p.regexp.captures_from(w.line.as_str(), c.pos) {
        Ok(Some(g)) => {
            let rep = match &p.replace {
                Some(r) => if !c.replaced {
                    if has_keepout_exec(p.regexp.source_str()) {
                        Some(None)
                    } else {
                        match p.regexp.replace_all(w.line.as_str(), r.as_str()) {
                            Ok(nl) => Some(Some(nl)),
                            Err(_) => Some(None),
                        }
                    }
                } else {
                    None
                },
                None => None,
            };
            Search::Match(g, rep)
        },
        _ => Search::Nothing,
    }
}

/// One iteration of the matching loop, given what its search found: what
/// [`advance`] says, carried out on the line and the stream state.
#[verifier::rlimit(80)]
#[verifier::spinoff_prover]
pub fn take_step(
    pats: &Vec<Pattern>,
    w: &mut LineWork,
    st: &mut StreamState,
    c: &mut MatchCursor,
    found: Search,
) -> (k: StepKind)
    requires
        old(w).wf(),
        cur_view(*old(c)).pat <= pats@.len(),
        cur_view(*old(c)).pos <= isize::MAX + 1,
        search_ok(scan_view(*old(w), *old(st)).line, cur_view(*old(c)), search_view(found)),
    ensures
        final(w).wf(),
        advance(
            pattern_views(pats@),
            scan_view(*old(w), *old(st)),
            cur_view(*old(c)),
            search_view(found),
        ) == step_of(k, *final(w), *final(st), *final(c)),
        k is Next ==> cur_view(*final(c)).pat <= pats@.len() && cur_view(*final(c)).pos <= isize::MAX + 1,
        k is Next && cur_view(*final(c)) == cur_view(*old(c)) ==> scan_view(*final(w), *final(st)).line
            == scan_view(*old(w), *old(st)).line,
        final(st).prevcolour == old(st).prevcolour,
        k is Next ==> progress(
            pattern_views(pats@),
            cur_view(*old(c)),
            scan_view(*old(w), *old(st)),
            cur_view(*final(c)),
            scan_view(*final(w), *final(st)),
        ),
{
    let ghost pv = pattern_views(pats@);
    let ghost sh0 = scan_view(*w, *st);
    let ghost c0 = cur_view(*c);
    if c.pat >= pats.len() {
        return StepKind::Finished;
    }
    let p = &pats[c.pat];
    assert(pv[c.pat as int] == p@);
    let (groups, rep) = match found {
        Search::Nothing => {
            let cnt = c.count;
            return end_pattern_exec(pats, w, st, c, cnt, false);
        },
        Search::Match(g, r) => (g, r),
    };
    let mend = match groups[0] {
        Some((_, e)) => e,
        None => 0,
    };
    proof {
        crate::units::lemma_char_at_byte_bound(w.line@, mend as int);
        assert(c.pos <= mend <= w.blen);
        assert(mend as int == match_end(groups@));
    }
    if p.replace.is_some() && c.replaced {
        let cnt = c.count;
        return end_pattern_exec(pats, w, st, c, cnt, true);
    }
    if p.replace.is_some() {
        match rep {
            Some(Some(nl)) => {
                w.chars = chars_of(nl.as_str());
                w.blen = byte_len_of(w.chars.as_slice());
                w.line = nl;
                w.modified = true;
                c.replaced = true;
            },
            _ => {
                return StepKind::Panicked;
            },
        }
    }
    let ghost sh1 = scan_view(*w, *st);
    let ghost c1 = cur_view(*c);
    match &p.colours {
        None => post_stage_exec(pats, p, w, st, c),
        Some(cols) => {
            if cols.len() == 0 {
                return StepKind::Panicked;
            }
            if c.count == CountMode::Block {
                st.blockflag = true;
                st.blockcolour = cols[0].clone();
                assert(string_views(cols@)[0] == cols@[0]@);
                return end_pattern_exec(pats, w, st, c, CountMode::Stop, true);
            }
            let count_a = if c.count == CountMode::Unblock {
                st.blockflag = false;
                st.blockcolour = default_colour_string();
                CountMode::Stop
            } else {
                c.count
            };
            if !paint_exec(p, c.pat, w, st, &groups) {
                return StepKind::Panicked;
            }
            let count_b = if count_a == CountMode::Previous {
                match st.prevcount {
                    PrevCount::More => CountMode::More,
                    PrevCount::Once => CountMode::Other,
                    PrevCount::Stop => CountMode::Stop,
                }
            } else {
                count_a
            };
            if count_b == CountMode::Stop {
                return end_pattern_exec(pats, w, st, c, CountMode::Stop, true);
            }
            if count_b == CountMode::More {
                st.prevcount = PrevCount::More;
                let pos2 = if mend == c.pos {
                    next_boundary_exec(w, c.pos + 1)
                } else {
                    mend
                };
                c.pos = pos2;
                c.count = CountMode::More;
            } else {
                st.prevcount = PrevCount::Once;
                c.pos = w.blen;
                c.count = count_b;
            }
            post_stage_exec(pats, p, w, st, c)
        },
    }
}


/// A scanned line: the line (after any `replace`), whether a `replace`
/// changed it, the coloured spans, the trend requests, the actions asked
/// for, and whether `skip` drops the line.
pub struct LineScan {
    pub line: String,
    pub modified: bool,
    pub spans: Vec<(usize, usize, String)>,
    pub requests: Vec<TrendRequest>,
    pub actions: Vec<Action>,
    pub skip: bool,
}

/// How scanning a line ended.
pub enum ScanOutcome {
    /// Every pattern ran (or one stopped the rest).
    Done(LineScan),
    /// The line cannot be finished (a slice of it at offsets that are not
    /// character boundaries, an empty colour list, an engine error in
    /// `replace`, or a `replace` on a pattern with `\K`, which the engine may
    /// not survive), which aborts the program; the actions were asked for
    /// before that.
    Panicked(Vec<Action>),
    /// A pattern's loop repeats forever: `once` holds the actions asked for
    /// up to and including the first repetition, `cycle` those each further
    /// repetition asks for again.
    Diverged { once: Vec<Action>, cycle: Vec<Action> },
}

/// The scan state a line starts in.
pub open spec fn scan_start(st: StreamState, line: Seq<char>) -> ScanView {
    ScanView {
        line,
        modified: false,
        prevcount: st.prevcount,
        blockflag: st.blockflag,
        blockcolour: st.blockcolour@,
        spans: Seq::empty(),
        requests: Seq::empty(),
        actions: Seq::empty(),
        skip: false,
    }
}

/// The stream state a scan state leaves (the previous colour is untouched).
pub open spec fn state_after(sh: ScanView, st0: StreamState, st: StreamState) -> bool {
    &&& st.prevcount == sh.prevcount
    &&& st.blockflag == sh.blockflag
    &&& st.blockcolour@ == sh.blockcolour
    &&& st.prevcolour@ == st0.prevcolour@
}

/// What a scan outcome and the final stream state say, for a given end.
pub open spec fn scan_matches(e: ScanEnd, r: ScanOutcome, st0: StreamState, st: StreamState) -> bool {
    match e {
        ScanEnd::Done(sh) => state_after(sh, st0, st) && match r {
            ScanOutcome::Done(ls) => {
                &&& ls.line@ == sh.line
                &&& ls.modified == sh.modified
                &&& span_views(ls.spans@) == sh.spans
                &&& request_views(ls.requests@) == sh.requests
                &&& action_views(ls.actions@) == sh.actions
                &&& ls.skip == sh.skip
            },
            _ => false,
        },
        ScanEnd::Panicked(sh) => state_after(sh, st0, st) && match r {
            ScanOutcome::Panicked(acts) => action_views(acts@) == sh.actions,
            _ => false,
        },
        ScanEnd::Diverged(sh, cyc) => state_after(sh, st0, st) && match r {
            ScanOutcome::Diverged { once, cycle } => action_views(once@) == sh.actions && action_views(
                cycle@,
            ) == cyc,
            _ => false,
        },
    }
}

proof fn lemma_scan_witness(
    pv: Seq<PatternView>,
    sh: ScanView,
    c: Cursor,
    f: nat,
    r: ScanOutcome,
    st0: StreamState,
    st: StreamState,
)
    requires
        run(pv, sh, c, f) matches Some(e) && scan_matches(e, r, st0, st),
    ensures
        exists|fuel: nat| #[trigger] run(pv, sh, c, fuel) matches Some(e) && scan_matches(e, r, st0, st),
{
}

/// A copy of `acts[from..]`.
fn copy_actions(acts: &Vec<Action>, from: usize) -> (r: Vec<Action>)
    requires
        from <= acts@.len(),
    ensures
        action_views(r@) == action_views(acts@).subrange(from as int, acts@.len() as int),
{
    let mut cycle: Vec<Action> = Vec::new();
    let mut i = from;
    let ghost av = action_views(acts@);
    while i < acts.len()
        invariant
            from <= i <= acts@.len(),
            av == action_views(acts@),
            action_views(cycle@) == av.subrange(from as int, i as int),
        decreases acts@.len() - i,
    {
        let a = clone_action(&acts[i]);
        assert(av[i as int] == acts@[i as int]@);
        let ghost before = action_views(cycle@);
        cycle.push(a);
        assert(action_views(cycle@) =~= before.push(av[i as int]));
        assert(av.subrange(from as int, i + 1) =~= av.subrange(from as int, i as int).push(av[i as int]));
        i += 1;
    }
    cycle
}

fn clone_action(a: &Action) -> (b: Action)
    ensures
        b@ == a@,
{
    match a {
        Action::Concat { path, line } => Action::Concat { path: path.clone(), line: line.clone() },
        Action::Command(c) => Action::Command(c.clone()),
    }
}

/// Runs every pattern over one line, from the stream state `st`; returns the
/// outcome and the stream state the line leaves.
#[verifier::spinoff_prover]
fn scan_owned(patterns: &Vec<Pattern>, st: StreamState, line: String) -> (res: (ScanOutcome, StreamState))
    requires
        byte_len(line@) <= isize::MAX,
    ensures
        exists|fuel: nat| #[trigger]
            run(
                pattern_views(patterns@),
                scan_start(st, line@),
                start_cursor(pattern_views(patterns@), 0),
                fuel,
            ) matches Some(e) && scan_matches(e, res.0, st, res.1),
{
    let ghost pv = pattern_views(patterns@);
    let ghost st0 = st;
    let mut stv = st;
    let ghost line0 = line@;
    let mut w = LineWork::new(line);
    let mut c = MatchCursor::start(patterns);
    let ghost sh0 = scan_view(w, stv);
    let ghost c0 = cur_view(c);
    let ghost mut k: nat = 0;
    loop
        invariant
            w.wf(),
            c.pat <= patterns@.len(),
            c.pos <= isize::MAX + 1,
            pv == pattern_views(patterns@),
            st0 == st,
            line0 == line@,
            sh0 == scan_start(st0, line0),
            c0 == start_cursor(pv, 0),
            st0.prevcolour@ == stv.prevcolour@,
            forall|f: nat| #[trigger] run(pv, sh0, c0, f + k) == run(pv, scan_view(w, stv), cur_view(c), f),
        decreases
            patterns@.len() - c.pat,
            measure(pv, cur_view(c), w.line@, stv.prevcount).0,
            measure(pv, cur_view(c), w.line@, stv.prevcount).1,
            measure(pv, cur_view(c), w.line@, stv.prevcount).2,
            measure(pv, cur_view(c), w.line@, stv.prevcount).3,
    {
        let ghost shb = scan_view(w, stv);
        let ghost cb = cur_view(c);
        let old_pat = c.pat;
        let old_pos = c.pos;
        let old_count = c.count;
        let old_repl = c.replaced;
        let old_prev = stv.prevcount;
        let old_n = w.actions.len();
        let found = search(patterns, &w, &c);
        let kind = take_step(patterns, &mut w, &mut stv, &mut c, found);
        match kind {
            StepKind::Finished => {
                proof {
                    assert(run(pv, shb, cb, 1) == Some(ScanEnd::Done(scan_view(w, stv))));
                    assert(run(pv, sh0, c0, 1 + k) == run(pv, shb, cb, 1));
                }
                let ghost shf = scan_view(w, stv);
                let ls = w.finish();
                let r = ScanOutcome::Done(ls);
                proof {
                    assert(run(pv, sh0, c0, 1 + k) matches Some(e) && scan_matches(e, r, st0, stv));
                    lemma_scan_witness(pv, sh0, c0, 1 + k, r, st0, stv);
                }
                return (r, stv);
            },
            StepKind::Panicked => {
                proof {
                    assert(run(pv, shb, cb, 1) == Some(ScanEnd::Panicked(scan_view(w, stv))));
                    assert(run(pv, sh0, c0, 1 + k) == run(pv, shb, cb, 1));
                }
                let r = ScanOutcome::Panicked(w.actions);
                proof {
                    assert(run(pv, sh0, c0, 1 + k) matches Some(e) && scan_matches(e, r, st0, stv));
                    lemma_scan_witness(pv, sh0, c0, 1 + k, r, st0, stv);
                }
                return (r, stv);
            },
            StepKind::Next => {
                if c.pat == old_pat && c.pos == old_pos && c.count == old_count && c.replaced == old_repl
                    && stv.prevcount == old_prev {
                    proof {
                        assert(shb.actions.len() == old_n);
                    }
                    let cycle = copy_actions(&w.actions, old_n);
                    proof {
                        let sh2 = scan_view(w, stv);
                        assert(cur_view(c) == cb);
                        assert(run(pv, shb, cb, 1) == Some(
                            ScanEnd::Diverged(sh2, sh2.actions.subrange(shb.actions.len() as int, sh2.actions.len() as int)),
                        ));
                        assert(run(pv, sh0, c0, 1 + k) == run(pv, shb, cb, 1));
                    }
                    let r = ScanOutcome::Diverged { once: w.actions, cycle };
                    proof {
                        lemma_scan_witness(pv, sh0, c0, 1 + k, r, st0, stv);
                    }
                    return (r, stv);
                }
                proof {
                    assert forall|f: nat| #[trigger] run(pv, sh0, c0, f + (k + 1)) == run(
                        pv,
                        scan_view(w, stv),
                        cur_view(c),
                        f,
                    ) by {
                        assert(run(pv, sh0, c0, (f + 1) + k) == run(pv, shb, cb, f + 1));
                        assert(f + (k + 1) == (f + 1) + k);
                    }
                    k = k + 1;
                }
            },
        }
    }
}

/// Runs every pattern over one line: the stream state and the line in, the
/// spans, trend requests and actions out, and the stream state updated.
///
/// The result is what the matching loop reaches in finitely many iterations
/// from the line and the stream state; the loop always ends, either normally,
/// at a point where the program cannot go on, or at an iteration that would
/// repeat for ever.
pub fn scan_line(patterns: &Vec<Pattern>, state: &mut StreamState, line: String) -> (r: ScanOutcome)
    requires
        byte_len(line@) <= isize::MAX,
    ensures
        exists|fuel: nat| #[trigger]
            run(
                pattern_views(patterns@),
                scan_start(*old(state), line@),
                start_cursor(pattern_views(patterns@), 0),
                fuel,
            ) matches Some(e) && scan_matches(e, r, *old(state), *final(state)),
{
    let mut st = StreamState::new();
    std::mem::swap(state, &mut st);
    let (r, st2) = scan_owned(patterns, st, line);
    *state = st2;
    r
}

} // verus!
