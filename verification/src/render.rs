//! Turning a scanned line into output: the trend colours substituted into
//! the spans, the colour in force at every character, the previous colour
//! carried to the next line, and the bytes written.

use vstd::prelude::*;
use vstd::utf8::*;
use crate::text::{chars_of, chars_eq_str, str_concat};
use crate::units::{ch_bytes, byte_views};
use crate::config::{string_views, opt_view};
use crate::colourise::{
    default_colour, default_colour_string, span_views, StreamState, TrendRequest, RequestView,
    request_views,
};

verus! {

broadcast use vstd::string::group_string_axioms;

/// The views of a list of optional strings.
pub open spec fn opt_views(v: Seq<Option<String>>) -> Seq<Option<Seq<char>>> {
    v.map_values(|o: Option<String>| opt_view(o))
}

/// The spans after the first `k` trend answers: an answer replaces the
/// colour of the span its request names (when there is such a span).
pub open spec fn trend_applied(
    spans: Seq<(usize, usize, Seq<char>)>,
    reqs: Seq<RequestView>,
    answers: Seq<Option<Seq<char>>>,
    k: int,
) -> Seq<(usize, usize, Seq<char>)>
    decreases k,
{
    if k <= 0 {
        spans
    } else {
        let s = trend_applied(spans, reqs, answers, k - 1);
        let i = reqs[k - 1].span as int;
        match answers[k - 1] {
            Some(c) => if i < s.len() {
                s.update(i, (s[i].0, s[i].1, c))
            } else {
                s
            },
            None => s,
        }
    }
}

/// Puts the answers to the trend requests into the spans: each `Some`
/// answer becomes the colour of the span its request names.
pub fn apply_trend(
    spans: &mut Vec<(usize, usize, String)>,
    requests: &Vec<TrendRequest>,
    answers: &Vec<Option<String>>,
)
    requires
        answers@.len() == requests@.len(),
    ensures
        span_views(final(spans)@) == trend_applied(
            span_views(old(spans)@),
            request_views(requests@),
            opt_views(answers@),
            requests@.len() as int,
        ),
{
    let ghost base = span_views(spans@);
    let mut k: usize = 0;
    while k < requests.len()
        invariant
            answers@.len() == requests@.len(),
            k <= requests@.len(),
            span_views(spans@) == trend_applied(
                base,
                request_views(requests@),
                opt_views(answers@),
                k as int,
            ),
        decreases requests@.len() - k,
    {
        let i = requests[k].span;
        assert(request_views(requests@)[k as int].span == i);
        match &answers[k] {
            Some(c) => {
                assert(opt_views(answers@)[k as int] == Some(c@));
                if i < spans.len() {
                    let a = spans[i].0;
                    let b = spans[i].1;
                    let ghost before = span_views(spans@);
                    spans.set(i, (a, b, c.clone()));
                    assert(span_views(spans@) =~= before.update(i as int, (a, b, c@)));
                }
            },
            None => {
                assert(opt_views(answers@)[k as int] == None::<Seq<char>>);
            },
        }
        k += 1;
    }
}

/// `s` with the entries at `a..b` set to `v`.
pub open spec fn fill(s: Seq<Seq<char>>, a: int, b: int, v: Seq<char>) -> Seq<Seq<char>> {
    Seq::new(s.len(), |i: int| if a <= i < b { v } else { s[i] })
}

/// The colouring of a line as its spans are laid on: the colour before each
/// character (and one past the end), the previous colour, and whether a span
/// started at the first character and one ended at the last.
pub struct Paint {
    pub cline: Seq<Seq<char>>,
    pub prev: Seq<char>,
    pub first: bool,
    pub last: bool,
}

/// A character index clamped to `n`.
pub open spec fn clamp_to(x: usize, n: nat) -> int {
    if x < n {
        x as int
    } else {
        n as int
    }
}

/// Laying one span on: `previous` paints with the previous colour,
/// `unchanged` paints nothing, any other colour paints itself (each after
/// a reset); a span from the first character sets the previous colour
/// (unless it is `previous` itself).
pub open spec fn paint_span(p: Paint, sp: (usize, usize, Seq<char>), n: nat) -> Paint {
    let cs = clamp_to(sp.0, n);
    let ce = clamp_to(sp.1, n);
    let col = sp.2;
    Paint {
        cline: if col == "prev"@ {
            fill(p.cline, cs, ce, default_colour() + p.prev)
        } else if col == "unchanged"@ {
            p.cline
        } else {
            fill(p.cline, cs, ce, default_colour() + col)
        },
        prev: if sp.0 == 0 && col != "prev"@ {
            col
        } else {
            p.prev
        },
        first: p.first || sp.0 == 0,
        last: p.last || sp.1 == n,
    }
}

/// Laying all the spans on, in order, over a line of `n` characters.
pub open spec fn paint_all(spans: Seq<(usize, usize, Seq<char>)>, n: nat, prev0: Seq<char>) -> Paint
    decreases spans.len(),
{
    if spans.len() == 0 {
        Paint {
            cline: Seq::new(n + 1, |i: int| default_colour()),
            prev: prev0,
            first: false,
            last: false,
        }
    } else {
        paint_span(paint_all(spans.drop_last(), n, prev0), spans.last(), n)
    }
}

/// The colour before each character of a line of `n` characters (and one
/// past the end), and the previous colour the line leaves. A line without
/// spans resets the previous colour; in block mode every character takes
/// the block colour; otherwise the previous colour survives only when spans
/// reached both the first and the last character.
pub open spec fn line_colours(
    spans: Seq<(usize, usize, Seq<char>)>,
    n: nat,
    blockflag: bool,
    blockcolour: Seq<char>,
    prevcolour: Seq<char>,
) -> (Seq<Seq<char>>, Seq<char>) {
    let p1 = if spans.len() == 0 {
        default_colour()
    } else {
        prevcolour
    };
    if !blockflag {
        let p = paint_all(spans, n, p1);
        (
            p.cline,
            if !p.first || !p.last {
                default_colour()
            } else {
                p.prev
            },
        )
    } else {
        (Seq::new(n + 1, |i: int| blockcolour), p1)
    }
}

/// The colour in force before character `i`: none before the first.
pub open spec fn colour_before(cline: Seq<Seq<char>>, i: int) -> Seq<char> {
    if i == 0 {
        Seq::empty()
    } else {
        cline[i - 1]
    }
}

/// The bytes of the first `k` characters: each character's bytes, preceded
/// by its colour's escape whenever the colour changes.
pub open spec fn emit(cline: Seq<Seq<char>>, units: Seq<Seq<u8>>, k: int) -> Seq<u8>
    decreases k,
{
    if k <= 0 {
        Seq::empty()
    } else {
        emit(cline, units, k - 1) + (if cline[k - 1] != colour_before(cline, k - 1) {
            encode_utf8(cline[k - 1])
        } else {
            Seq::empty()
        }) + units[k - 1]
    }
}

/// The bytes each character is written as: its source bytes, or, once a
/// `replace` changed the line, its UTF-8 encoding.
pub open spec fn line_units(chars: Seq<char>, orig: Seq<Seq<u8>>, modified: bool) -> Seq<Seq<u8>> {
    if modified {
        Seq::new(chars.len(), |i: int| encode_scalar(chars[i] as u32))
    } else {
        orig
    }
}

/// The bytes written for a line: the coloured characters, a reset and a
/// newline.
pub open spec fn rendered(cline: Seq<Seq<char>>, units: Seq<Seq<u8>>, n: nat) -> Seq<u8> {
    emit(cline, units, n as int) + encode_utf8(default_colour()) + seq![10u8]
}

proof fn lemma_string_views_update(a: Seq<String>, i: int, x: String)
    requires
        0 <= i < a.len(),
    ensures
        string_views(a.update(i, x)) == string_views(a).update(i, x@),
{
    assert(string_views(a.update(i, x)) =~= string_views(a).update(i, x@));
}

/// Appends bytes to a buffer.
fn push_bytes(out: &mut Vec<u8>, b: &[u8])
    ensures
        final(out)@ == old(out)@ + b@,
{
    let mut i: usize = 0;
    while i < b.len()
        invariant
            i <= b@.len(),
            out@ == old(out)@ + b@.take(i as int),
        decreases b@.len() - i,
    {
        out.push(b[i]);
        i += 1;
        assert(out@ =~= old(out)@ + b@.take(i as int));
    }
    assert(b@.take(i as int) =~= b@);
}

/// `n` copies of a string.
fn copies(s: &String, n: usize) -> (v: Vec<String>)
    ensures
        string_views(v@) == Seq::new(n as nat, |i: int| s@),
{
    let mut v: Vec<String> = Vec::new();
    let mut i: usize = 0;
    while i < n
        invariant
            i <= n,
            string_views(v@) == Seq::new(i as nat, |j: int| s@),
        decreases n - i,
    {
        let ghost before = v@;
        let t = s.clone();
        v.push(t);
        proof {
            crate::config::lemma_string_views_push(before, t);
            assert(Seq::new((i + 1) as nat, |j: int| s@) =~= Seq::new(i as nat, |j: int| s@).push(s@));
        }
        i += 1;
    }
    v
}

/// Sets the entries at `a..b` (clamped to the vector) to `v`.
fn fill_exec(cline: &mut Vec<String>, a: usize, b: usize, v: &String)
    requires
        a <= b <= old(cline)@.len(),
    ensures
        string_views(final(cline)@) == fill(string_views(old(cline)@), a as int, b as int, v@),
{
    let ghost base = string_views(cline@);
    let mut i = a;
    while i < b
        invariant
            a <= i <= b,
            b <= cline@.len(),
            string_views(cline@) == fill(base, a as int, i as int, v@),
        decreases b - i,
    {
        let ghost before = cline@;
        let t = v.clone();
        cline.set(i, t);
        proof {
            lemma_string_views_update(before, i as int, t);
        }
        i += 1;
        assert(string_views(cline@) =~= fill(base, a as int, i as int, v@));
    }
    assert(string_views(cline@) =~= fill(base, a as int, b as int, v@));
}


/// Lays the spans on a line of `n` characters, in order, starting from the
/// previous colour `prev0`.
fn paint_exec(spans: &Vec<(usize, usize, String)>, n: usize, prev0: String) -> (r: (Vec<String>, String, bool, bool))
    requires
        n < usize::MAX,
    ensures
        ({
            let p = paint_all(span_views(spans@), n as nat, prev0@);
            string_views(r.0@) == p.cline && r.1@ == p.prev && r.2 == p.first && r.3 == p.last
        }),
{
    let d = default_colour_string();
    let mut cline = copies(&d, n + 1);
    let mut prev = prev0;
    let mut first = false;
    let mut last = false;
    let ghost sv = span_views(spans@);
    let mut j: usize = 0;
    proof {
        assert(sv.take(0) =~= Seq::<(usize, usize, Seq<char>)>::empty());
    }
    while j < spans.len()
        invariant
            n < usize::MAX,
            j <= spans@.len(),
            sv == span_views(spans@),
            d@ == default_colour(),
            ({
                let p = paint_all(sv.take(j as int), n as nat, prev0@);
                string_views(cline@) == p.cline && prev@ == p.prev && first == p.first && last == p.last
            }),
        decreases spans@.len() - j,
    {
        proof {
            assert(sv.take(j + 1).drop_last() =~= sv.take(j as int));
            assert(sv.take(j + 1).last() == sv[j as int]);
            assert(paint_all(sv.take(j as int), n as nat, prev0@).cline.len() == n + 1) by {
                lemma_paint_len(sv.take(j as int), n as nat, prev0@);
            }
        }
        let s0 = spans[j].0;
        let e0 = spans[j].1;
        let col = &spans[j].2;
        assert(sv[j as int] == (s0, e0, col@));
        let cs = if s0 < n { s0 } else { n };
        let ce = if e0 < n { e0 } else { n };
        let cc = chars_of(col.as_str());
        let is_prev = chars_eq_str(cc.as_slice(), "prev");
        if is_prev {
            let v = str_concat(d.as_str(), prev.as_str());
            if cs < ce {
                fill_exec(&mut cline, cs, ce, &v);
            } else {
                assert(fill(string_views(cline@), cs as int, ce as int, v@) =~= string_views(cline@));
            }
        } else if !chars_eq_str(cc.as_slice(), "unchanged") {
            let v = str_concat(d.as_str(), col.as_str());
            if cs < ce {
                fill_exec(&mut cline, cs, ce, &v);
            } else {
                assert(fill(string_views(cline@), cs as int, ce as int, v@) =~= string_views(cline@));
            }
        }
        if s0 == 0 {
            first = true;
            if !is_prev {
                prev = col.clone();
            }
        }
        if e0 == n {
            last = true;
        }
        j += 1;
    }
    proof {
        assert(sv.take(j as int) =~= sv);
    }
    (cline, prev, first, last)
}

/// Painting keeps one colour per character and one past the end.
proof fn lemma_paint_len(spans: Seq<(usize, usize, Seq<char>)>, n: nat, prev0: Seq<char>)
    ensures
        paint_all(spans, n, prev0).cline.len() == n + 1,
    decreases spans.len(),
{
    if spans.len() > 0 {
        lemma_paint_len(spans.drop_last(), n, prev0);
    }
}


/// Writes out one scanned line: works out the colour before every
/// character and the previous colour the line leaves (updating `state`),
/// then, unless `skip` drops the line, the bytes to write: each character's
/// bytes (its source bytes `orig`, or its UTF-8 encoding once `modified`),
/// each colour change's escape before the character it starts at, and a
/// reset and a newline at the end.
pub fn render_line(
    line: &str,
    orig: &Vec<Vec<u8>>,
    modified: bool,
    spans: &Vec<(usize, usize, String)>,
    skip: bool,
    state: &mut StreamState,
) -> (r: Option<Vec<u8>>)
    requires
        modified || orig@.len() == line@.len(),
        line@.len() < usize::MAX,
    ensures
        ({
            let lc = line_colours(
                span_views(spans@),
                line@.len(),
                old(state).blockflag,
                old(state).blockcolour@,
                old(state).prevcolour@,
            );
            &&& final(state).prevcolour@ == lc.1
            &&& final(state).prevcount == old(state).prevcount
            &&& final(state).blockflag == old(state).blockflag
            &&& final(state).blockcolour == old(state).blockcolour
            &&& match r {
                None => skip,
                Some(b) => !skip && b@ == rendered(
                    lc.0,
                    line_units(line@, byte_views(orig@), modified),
                    line@.len(),
                ),
            }
        }),
{
    let chars = chars_of(line);
    let n = chars.len();
    let d = default_colour_string();
    let p1 = if spans.len() == 0 {
        d.clone()
    } else {
        state.prevcolour.clone()
    };
    let cline: Vec<String>;
    if !state.blockflag {
        let (cl, pv, first, last) = paint_exec(spans, n, p1);
        cline = cl;
        state.prevcolour = if !first || !last {
            d.clone()
        } else {
            pv
        };
    } else {
        cline = copies(&state.blockcolour, n + 1);
        state.prevcolour = p1;
    }
    proof {
        lemma_paint_len(span_views(spans@), n as nat, p1@);
    }
    if skip {
        return None;
    }
    let ghost clv = string_views(cline@);
    let ghost units = line_units(line@, byte_views(orig@), modified);
    let mut out: Vec<u8> = Vec::new();
    let mut i: usize = 0;
    while i < n
        invariant
            i <= n,
            n == line@.len(),
            chars@ == line@,
            clv == string_views(cline@),
            clv.len() == n + 1,
            units == line_units(line@, byte_views(orig@), modified),
            modified || orig@.len() == n,
            out@ == emit(clv, units, i as int),
        decreases n - i,
    {
        let changed = if i == 0 {
            let e = cline[0].as_str().is_empty();
            proof {
                assert(clv[0] == cline@[0]@);
                if e {
                    assert(clv[0] =~= Seq::<char>::empty());
                }
            }
            !e
        } else {
            let same = cline[i] == cline[i - 1];
            assert(clv[i as int] == cline@[i as int]@ && clv[i - 1] == cline@[i - 1]@);
            !same
        };
        assert(changed == (clv[i as int] != colour_before(clv, i as int)));
        let ghost before = out@;
        if changed {
            push_bytes(&mut out, cline[i].as_str().as_bytes());
        }
        if modified {
            let b = ch_bytes(chars[i]);
            push_bytes(&mut out, b.as_slice());
        } else {
            push_bytes(&mut out, orig[i].as_slice());
        }
        assert(units[i as int] == if modified { encode_scalar(chars@[i as int] as u32) } else { orig@[i as int]@ });
        i += 1;
        assert(out@ =~= emit(clv, units, i as int));
    }
    push_bytes(&mut out, d.as_str().as_bytes());
    out.push(10u8);
    Some(out)
}


/// The escape written before character `i`: its colour's, when the colour
/// changes there, else nothing.
pub open spec fn escape_before(cline: Seq<Seq<char>>, i: int) -> Seq<u8> {
    if cline[i] != colour_before(cline, i) {
        encode_utf8(cline[i])
    } else {
        Seq::empty()
    }
}

/// A line is written as its characters' bytes in order, each preceded by
/// nothing or by the escape of the colour it starts: colouring inserts
/// escapes and never changes, drops or reorders the line's own bytes.
pub proof fn law_line_bytes_kept_in_order(cline: Seq<Seq<char>>, units: Seq<Seq<u8>>, k: int)
    requires
        0 <= k <= cline.len(),
        k <= units.len(),
    ensures
        emit(cline, units, k) == Seq::new(k as nat, |i: int| escape_before(cline, i) + units[i]).flatten(),
        forall|i: int|
            0 <= i < k ==> (#[trigger] escape_before(cline, i) == Seq::<u8>::empty() || escape_before(cline, i)
                == encode_utf8(cline[i])),
    decreases k,
{
    broadcast use Seq::lemma_flatten_push;

    let pieces = Seq::new(k as nat, |i: int| escape_before(cline, i) + units[i]);
    if k == 0 {
        assert(pieces =~= Seq::<Seq<u8>>::empty());
        assert(pieces.flatten() =~= Seq::<u8>::empty());
    } else {
        law_line_bytes_kept_in_order(cline, units, k - 1);
        let prev = Seq::new((k - 1) as nat, |i: int| escape_before(cline, i) + units[i]);
        assert(pieces =~= prev.push(escape_before(cline, k - 1) + units[k - 1]));
        assert(emit(cline, units, k) =~= pieces.flatten());
    }
}

/// In block mode every character of a line, and the position past its end,
/// takes the block colour, whatever the spans.
pub proof fn law_block_paints_every_character(
    spans: Seq<(usize, usize, Seq<char>)>,
    n: nat,
    blockcolour: Seq<char>,
    prevcolour: Seq<char>,
)
    ensures
        forall|i: int|
            0 <= i <= n ==> #[trigger] line_colours(spans, n, true, blockcolour, prevcolour).0[i]
                == blockcolour,
        line_colours(spans, n, true, blockcolour, prevcolour).0.len() == n + 1,
{
}

/// Characters that all share one (non-empty) colour are written as that
/// colour's escape followed by their bytes in order.
pub proof fn law_one_colour_emits_one_escape(cline: Seq<Seq<char>>, units: Seq<Seq<u8>>, c: Seq<char>, k: int)
    requires
        0 < k <= cline.len(),
        k <= units.len(),
        c.len() > 0,
        forall|i: int| 0 <= i < k ==> #[trigger] cline[i] == c,
    ensures
        emit(cline, units, k) == encode_utf8(c) + units.take(k).flatten(),
    decreases k,
{
    broadcast use Seq::lemma_flatten_push;

    if k == 1 {
        assert(cline[0] != colour_before(cline, 0)) by {
            assert(colour_before(cline, 0).len() == 0);
        }
        assert(emit(cline, units, 0) =~= Seq::<u8>::empty());
        assert(units.take(1) =~= Seq::<Seq<u8>>::empty().push(units[0]));
        assert(Seq::<Seq<u8>>::empty().flatten() =~= Seq::<u8>::empty());
        assert(emit(cline, units, 1) =~= encode_utf8(c) + units.take(1).flatten());
    } else {
        law_one_colour_emits_one_escape(cline, units, c, k - 1);
        assert(cline[k - 1] == colour_before(cline, k - 1));
        assert(units.take(k) =~= units.take(k - 1).push(units[k - 1]));
        assert(emit(cline, units, k) =~= encode_utf8(c) + units.take(k).flatten());
    }
}

/// A line no span paints, outside block mode, is written as its own bytes
/// (invalid UTF-8 included) between two resets, and leaves the previous
/// colour reset.
pub proof fn law_uncoloured_line_passes_through(raw: Seq<u8>, blockcolour: Seq<char>, prevcolour: Seq<char>)
    requires
        raw.len() > 0,
    ensures
        ({
            let chars = crate::units::lossless_chars(raw);
            let n = chars.len();
            let lc = line_colours(Seq::empty(), n, false, blockcolour, prevcolour);
            &&& rendered(lc.0, line_units(chars, crate::units::lossless_units(raw), false), n)
                == encode_utf8(default_colour()) + raw + encode_utf8(default_colour()) + seq![10u8]
            &&& lc.1 == default_colour()
        }),
{
    let chars = crate::units::lossless_chars(raw);
    let units = crate::units::lossless_units(raw);
    let n = chars.len();
    crate::units::lemma_lossless_roundtrip(raw);
    let lc = line_colours(Seq::empty(), n, false, blockcolour, prevcolour);
    assert(n > 0) by {
        if n == 0 {
            assert(units =~= Seq::<Seq<u8>>::empty());
            assert(units.flatten() =~= Seq::<u8>::empty());
        }
    }
    assert(default_colour().len() > 0) by {
        reveal_strlit("\x1b[0m");
    }
    assert(units.take(n as int) =~= units);
    law_one_colour_emits_one_escape(lc.0, units, default_colour(), n as int);
}

/// A line in block mode is written as the block colour's escape, the line's
/// own bytes, a reset and a newline (when the block colour is not empty).
pub proof fn law_block_line_is_one_colour(
    raw: Seq<u8>,
    spans: Seq<(usize, usize, Seq<char>)>,
    blockcolour: Seq<char>,
    prevcolour: Seq<char>,
)
    requires
        raw.len() > 0,
        blockcolour.len() > 0,
    ensures
        ({
            let chars = crate::units::lossless_chars(raw);
            let n = chars.len();
            let lc = line_colours(spans, n, true, blockcolour, prevcolour);
            rendered(lc.0, line_units(chars, crate::units::lossless_units(raw), false), n)
                == encode_utf8(blockcolour) + raw + encode_utf8(default_colour()) + seq![10u8]
        }),
{
    let chars = crate::units::lossless_chars(raw);
    let units = crate::units::lossless_units(raw);
    let n = chars.len();
    crate::units::lemma_lossless_roundtrip(raw);
    let lc = line_colours(spans, n, true, blockcolour, prevcolour);
    assert(n > 0) by {
        if n == 0 {
            assert(units =~= Seq::<Seq<u8>>::empty());
            assert(units.flatten() =~= Seq::<u8>::empty());
        }
    }
    assert(units.take(n as int) =~= units);
    law_one_colour_emits_one_escape(lc.0, units, blockcolour, n as int);
}

/// Trend answers change only colours: the spans keep their number and their
/// start and end positions.
pub proof fn law_trend_keeps_span_positions(
    spans: Seq<(usize, usize, Seq<char>)>,
    reqs: Seq<RequestView>,
    answers: Seq<Option<Seq<char>>>,
    k: int,
)
    requires
        0 <= k <= reqs.len(),
        k <= answers.len(),
    ensures
        trend_applied(spans, reqs, answers, k).len() == spans.len(),
        forall|i: int|
            0 <= i < spans.len() ==> (#[trigger] trend_applied(spans, reqs, answers, k)[i]).0 == spans[i].0
                && trend_applied(spans, reqs, answers, k)[i].1 == spans[i].1,
    decreases k,
{
    if k > 0 {
        law_trend_keeps_span_positions(spans, reqs, answers, k - 1);
    }
}

} // verus!
