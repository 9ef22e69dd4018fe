//! Source-text rewriting: Python string-literal escapes, the Python-`re` to
//! fancy-regex dialect fix for `\<`/`\>`, and `\N` backreferences in
//! replacement strings.

use vstd::prelude::*;
use crate::text::{chars_of, string_of, is_digit, digit_value, lower_char};

verus! {

/// `char::from_u32`: the `char` with the given scalar value, or `None` for a
/// value that is not a Unicode scalar (a surrogate or above `0x10FFFF`).
pub assume_specification[ char::from_u32 ](i: u32) -> (r: Option<char>)
    ensures
        r == (if vstd::utf8::is_scalar(i) { Some(i as char) } else { None }),
;

/// An octal digit `0`-`7`.
pub open spec fn is_octal(c: char) -> bool {
    '0' <= c && c <= '7'
}

/// An ASCII hexadecimal digit.
pub open spec fn is_hex(c: char) -> bool {
    is_digit(c) || ('a' <= c && c <= 'f') || ('A' <= c && c <= 'F')
}

/// The value of a hexadecimal digit.
pub open spec fn hex_digit_value(c: char) -> nat {
    if is_digit(c) {
        digit_value(c)
    } else if 'a' <= c && c <= 'f' {
        ((c as u32) - ('a' as u32) + 10) as nat
    } else {
        ((c as u32) - ('A' as u32) + 10) as nat
    }
}

/// How many of the first (at most `max`) characters of `s` are octal digits.
pub open spec fn octal_run(s: Seq<char>, max: nat) -> nat
    decreases max,
{
    if max == 0 || s.len() == 0 || !is_octal(s[0]) {
        0
    } else {
        1 + octal_run(s.drop_first(), (max - 1) as nat)
    }
}

/// How many of the first (at most `max`) characters of `s` are hex digits.
pub open spec fn hex_run(s: Seq<char>, max: nat) -> nat
    decreases max,
{
    if max == 0 || s.len() == 0 || !is_hex(s[0]) {
        0
    } else {
        1 + hex_run(s.drop_first(), (max - 1) as nat)
    }
}

/// How many of the first characters of `s` are decimal digits.
pub open spec fn digit_run(s: Seq<char>) -> nat
    decreases s.len(),
{
    if s.len() == 0 || !is_digit(s[0]) {
        0
    } else {
        1 + digit_run(s.drop_first())
    }
}

pub proof fn lemma_octal_run(s: Seq<char>, max: nat)
    ensures
        octal_run(s, max) <= s.len(),
        octal_run(s, max) <= max,
        forall|j: int| 0 <= j < octal_run(s, max) ==> is_octal(#[trigger] s[j]),
        octal_run(s, max) < max && octal_run(s, max) < s.len() ==> !is_octal(s[octal_run(s, max) as int]),
    decreases max,
{
    if !(max == 0 || s.len() == 0 || !is_octal(s[0])) {
        lemma_octal_run(s.drop_first(), (max - 1) as nat);
        assert forall|j: int| 0 <= j < octal_run(s, max) implies is_octal(#[trigger] s[j]) by {
            if j > 0 {
                assert(s[j] == s.drop_first()[j - 1]);
            }
        }
    }
}

pub proof fn lemma_hex_run(s: Seq<char>, max: nat)
    ensures
        hex_run(s, max) <= s.len(),
        hex_run(s, max) <= max,
        forall|j: int| 0 <= j < hex_run(s, max) ==> is_hex(#[trigger] s[j]),
        hex_run(s, max) < max && hex_run(s, max) < s.len() ==> !is_hex(s[hex_run(s, max) as int]),
    decreases max,
{
    if !(max == 0 || s.len() == 0 || !is_hex(s[0])) {
        lemma_hex_run(s.drop_first(), (max - 1) as nat);
        assert forall|j: int| 0 <= j < hex_run(s, max) implies is_hex(#[trigger] s[j]) by {
            if j > 0 {
                assert(s[j] == s.drop_first()[j - 1]);
            }
        }
    }
}

pub proof fn lemma_digit_run(s: Seq<char>)
    ensures
        digit_run(s) <= s.len(),
        forall|j: int| 0 <= j < digit_run(s) ==> is_digit(#[trigger] s[j]),
        digit_run(s) < s.len() ==> !is_digit(s[digit_run(s) as int]),
    decreases s.len(),
{
    if !(s.len() == 0 || !is_digit(s[0])) {
        lemma_digit_run(s.drop_first());
        assert forall|j: int| 0 <= j < digit_run(s) implies is_digit(#[trigger] s[j]) by {
            if j > 0 {
                assert(s[j] == s.drop_first()[j - 1]);
            }
        }
    }
}

/// The value of a run of octal digits.
pub open spec fn octal_value(s: Seq<char>) -> nat
    decreases s.len(),
{
    if s.len() == 0 {
        0
    } else {
        octal_value(s.drop_last()) * 8 + digit_value(s.last())
    }
}

/// The value of a run of hexadecimal digits.
pub open spec fn hex_value(s: Seq<char>) -> nat
    decreases s.len(),
{
    if s.len() == 0 {
        0
    } else {
        hex_value(s.drop_last()) * 16 + hex_digit_value(s.last())
    }
}

/// The character a single-character escape `\c` stands for, if `c` names one.
pub open spec fn simple_escape(c: char) -> Option<char> {
    if c == 'n' {
        Some('\n')
    } else if c == 'r' {
        Some('\r')
    } else if c == 't' {
        Some('\t')
    } else if c == 'a' {
        Some('\u{7}')
    } else if c == 'b' {
        Some('\u{8}')
    } else if c == 'f' {
        Some('\u{c}')
    } else if c == 'v' {
        Some('\u{b}')
    } else if c == '\\' {
        Some('\\')
    } else if c == '"' {
        Some('"')
    } else if c == '\'' {
        Some('\'')
    } else {
        None
    }
}

/// The decoding of the escapes a Python string literal would decode: the
/// single-character escapes, octal `\ooo` (one to three digits) and hex
/// `\xhh` (up to two digits). A backslash before anything else, or at the
/// very end, stays a backslash.
pub open spec fn unescaped(s: Seq<char>) -> Seq<char>
    decreases s.len(),
{
    if s.len() == 0 {
        Seq::empty()
    } else if s[0] == '\\' && s.len() >= 2 {
        let c = s[1];
        if simple_escape(c) is Some {
            seq![simple_escape(c)->0] + unescaped(s.skip(2))
        } else if is_octal(c) {
            let k = octal_run(s.skip(1), 3) as int;
            proof {
                lemma_octal_run(s.skip(1), 3);
            }
            seq![(octal_value(s.subrange(1, 1 + k)) as u32) as char] + unescaped(s.skip(1 + k))
        } else if c == 'x' {
            let k = hex_run(s.skip(2), 2) as int;
            proof {
                lemma_hex_run(s.skip(2), 2);
            }
            seq![(hex_value(s.subrange(2, 2 + k)) as u32) as char] + unescaped(s.skip(2 + k))
        } else {
            seq!['\\'] + unescaped(s.skip(1))
        }
    } else {
        seq![s[0]] + unescaped(s.skip(1))
    }
}

proof fn lemma_octal_value_bound(s: Seq<char>)
    requires
        forall|j: int| 0 <= j < s.len() ==> is_octal(#[trigger] s[j]),
    ensures
        octal_value(s) < pow8(s.len()),
    decreases s.len(),
{
    if s.len() > 0 {
        lemma_octal_value_bound(s.drop_last());
        assert(is_octal(s[s.len() - 1]));
        let v = octal_value(s.drop_last());
        let p = pow8((s.len() - 1) as nat);
        assert(v * 8 + digit_value(s.last()) < p * 8) by (nonlinear_arith)
            requires
                v < p,
                digit_value(s.last()) < 8,
        ;
    }
}

spec fn pow8(n: nat) -> nat
    decreases n,
{
    if n == 0 {
        1
    } else {
        8 * pow8((n - 1) as nat)
    }
}

proof fn lemma_hex_value_bound(s: Seq<char>)
    requires
        s.len() <= 2,
        forall|j: int| 0 <= j < s.len() ==> is_hex(#[trigger] s[j]),
    ensures
        hex_value(s) < 256,
{
    if s.len() > 0 {
        assert(is_hex(s[s.len() - 1]));
        assert(hex_digit_value(s.last()) < 16);
        assert(hex_value(s) == hex_value(s.drop_last()) * 16 + hex_digit_value(s.last()));
        if s.len() == 2 {
            let p = s.drop_last();
            assert(is_hex(p[0]));
            assert(p.drop_last().len() == 0);
            assert(hex_value(p) == hex_value(p.drop_last()) * 16 + hex_digit_value(p.last()));
            assert(hex_digit_value(p.last()) < 16);
            assert(hex_value(p) < 16);
            let a = hex_value(p);
            let b = hex_digit_value(s.last());
            assert(a * 16 + b < 256) by (nonlinear_arith)
                requires
                    a < 16,
                    b < 16,
            ;
        } else {
            assert(s.drop_last().len() == 0);
            assert(hex_value(s.drop_last()) == 0);
        }
    }
}

/// A value below 512 is a Unicode scalar.
proof fn lemma_small_scalar(v: u32)
    requires
        v < 512,
    ensures
        vstd::utf8::is_scalar(v),
{
}

/// The character for a scalar value known to be below 512.
fn small_char(v: u32) -> (c: char)
    requires
        v < 512,
    ensures
        c == v as char,
{
    proof {
        lemma_small_scalar(v);
    }
    match char::from_u32(v) {
        Some(c) => c,
        None => '\u{FFFD}',
    }
}

/// Exec value of a hex digit.
fn hex_digit_of(c: char) -> (v: u32)
    requires
        is_hex(c),
    ensures
        v == hex_digit_value(c),
        v < 16,
{
    if '0' <= c && c <= '9' {
        (c as u32) - ('0' as u32)
    } else if 'a' <= c && c <= 'f' {
        (c as u32) - ('a' as u32) + 10
    } else {
        (c as u32) - ('A' as u32) + 10
    }
}

/// Decode the escape sequences a Python string literal would (octal `\033`,
/// hex `\xNN`, and the common single-char escapes).
pub fn unescape(s: &str) -> (r: String)
    ensures
        r@ == unescaped(s@),
{
    let cs = chars_of(s);
    let n = cs.len();
    let mut out: Vec<char> = Vec::new();
    let mut i: usize = 0;
    assert(cs@.skip(0) =~= cs@);
    while i < n
        invariant
            n == cs@.len(),
            i <= n,
            out@ + unescaped(cs@.skip(i as int)) == unescaped(cs@),
        decreases n - i,
    {
        let ghost rest = cs@.skip(i as int);
        let ghost old_out = out@;
        if cs[i] == '\\' && i + 1 < n {
            let c = cs[i + 1];
            assert(rest[1] == c);
            let simple: Option<char> = if c == 'n' {
                Some('\n')
            } else if c == 'r' {
                Some('\r')
            } else if c == 't' {
                Some('\t')
            } else if c == 'a' {
                Some('\u{7}')
            } else if c == 'b' {
                Some('\u{8}')
            } else if c == 'f' {
                Some('\u{c}')
            } else if c == 'v' {
                Some('\u{b}')
            } else if c == '\\' {
                Some('\\')
            } else if c == '"' {
                Some('"')
            } else if c == '\'' {
                Some('\'')
            } else {
                None
            };
            assert(simple == simple_escape(c));
            if let Some(e) = simple {
                out.push(e);
                assert(rest.skip(2) =~= cs@.skip(i + 2));
                i += 2;
                assert(old_out + unescaped(rest) =~= out@ + unescaped(cs@.skip(i as int)));
            } else if '0' <= c && c <= '7' {
                let mut j = i + 1;
                let mut val: u32 = 0;
                let mut k: usize = 0;
                let ghost tail = rest.skip(1);
                proof {
                    lemma_octal_run(tail, 3);
                    assert(tail =~= cs@.skip(i + 1));
                }
                while j < n && k < 3 && '0' <= cs[j] && cs[j] <= '7'
                    invariant
                        n == cs@.len(),
                        j == i + 1 + k,
                        j <= n,
                        k <= 3,
                        tail == cs@.skip(i + 1),
                        k <= octal_run(tail, 3),
                        forall|m: int| 0 <= m < k ==> is_octal(#[trigger] tail[m]),
                        val == octal_value(tail.take(k as int)),
                        val < pow8(k as nat),
                    decreases n - j,
                {
                    assert(tail[k as int] == cs[j as int]);
                    proof {
                        reveal_with_fuel(pow8, 4);
                        lemma_pow8_mono(k as nat, 2);
                        assert(pow8(2) == 64);
                        lemma_run_step(tail, k as nat);
                        assert(tail.take(k + 1).drop_last() =~= tail.take(k as int));
                        lemma_octal_value_bound(tail.take(k + 1));
                        assert(tail.take(k + 1).len() == k + 1);
                    }
                    val = val * 8 + ((cs[j] as u32) - ('0' as u32));
                    j += 1;
                    k += 1;
                }
                proof {
                    lemma_run_exact(tail, k as nat, n - (i + 1));
                    assert(k == octal_run(tail, 3));
                    assert(tail.take(k as int) =~= rest.subrange(1, 1 + k as int));
                    assert(rest.skip(1 + k as int) =~= cs@.skip(j as int));
                    reveal_with_fuel(pow8, 4);
                    assert(pow8(3) == 512);
                    if k < 3 {
                        lemma_pow8_mono(k as nat, 3);
                    }
                }
                let ch = small_char(val);
                out.push(ch);
                i = j;
                assert(old_out + unescaped(rest) =~= out@ + unescaped(cs@.skip(i as int)));
            } else if c == 'x' {
                let mut j = i + 2;
                let mut val: u32 = 0;
                let mut k: usize = 0;
                let ghost tail = rest.skip(2);
                proof {
                    lemma_hex_run(tail, 2);
                    assert(tail =~= cs@.skip(i + 2));
                }
                while j < n && k < 2 && (('0' <= cs[j] && cs[j] <= '9') || ('a' <= cs[j] && cs[j] <= 'f')
                    || ('A' <= cs[j] && cs[j] <= 'F'))
                    invariant
                        n == cs@.len(),
                        j == i + 2 + k,
                        j <= n,
                        k <= 2,
                        tail == cs@.skip(i + 2),
                        k <= hex_run(tail, 2),
                        forall|m: int| 0 <= m < k ==> is_hex(#[trigger] tail[m]),
                        val == hex_value(tail.take(k as int)),
                        val < 256,
                    decreases n - j,
                {
                    assert(tail[k as int] == cs[j as int]);
                    proof {
                        lemma_hex_run_step(tail, k as nat);
                        assert(tail.take(k + 1).drop_last() =~= tail.take(k as int));
                        lemma_hex_value_bound(tail.take(k + 1));
                    }
                    let d = hex_digit_of(cs[j]);
                    val = val * 16 + d;
                    j += 1;
                    k += 1;
                }
                proof {
                    lemma_hex_run_exact(tail, k as nat, n - (i + 2));
                    assert(k == hex_run(tail, 2));
                    assert(tail.take(k as int) =~= rest.subrange(2, 2 + k));
                    assert(rest.skip(2 + k) =~= cs@.skip(j as int));
                }
                let ch = small_char(val);
                out.push(ch);
                i = j;
                assert(old_out + unescaped(rest) =~= out@ + unescaped(cs@.skip(i as int)));
            } else {
                out.push('\\');
                i += 1;
                assert(rest.skip(1) =~= cs@.skip(i as int));
                assert(old_out + unescaped(rest) =~= out@ + unescaped(cs@.skip(i as int)));
            }
        } else {
            out.push(cs[i]);
            i += 1;
            assert(rest.skip(1) =~= cs@.skip(i as int));
            assert(old_out + unescaped(rest) =~= out@ + unescaped(cs@.skip(i as int)));
        }
    }
    assert(cs@.skip(i as int) =~= Seq::<char>::empty());
    assert(out@ + unescaped(cs@.skip(i as int)) =~= out@);
    string_of(out.as_slice())
}

proof fn lemma_pow8_mono(a: nat, b: nat)
    requires
        a <= b,
    ensures
        pow8(a) <= pow8(b),
    decreases b,
{
    if a < b {
        lemma_pow8_mono(a, (b - 1) as nat);
    }
}

proof fn lemma_run_step(s: Seq<char>, k: nat)
    requires
        k < 3,
        k < s.len(),
        is_octal(s[k as int]),
        forall|m: int| 0 <= m < k ==> is_octal(#[trigger] s[m]),
    ensures
        k + 1 <= octal_run(s, 3),
{
    lemma_octal_run_prefix(s, 3, (k + 1) as nat);
}

proof fn lemma_octal_run_prefix(s: Seq<char>, max: nat, k: nat)
    requires
        k <= max,
        k <= s.len(),
        forall|m: int| 0 <= m < k ==> is_octal(#[trigger] s[m]),
    ensures
        k <= octal_run(s, max),
    decreases k,
{
    if k > 0 {
        assert(is_octal(s[0]));
        assert forall|m: int| 0 <= m < k - 1 implies is_octal(#[trigger] s.drop_first()[m]) by {
            assert(s.drop_first()[m] == s[m + 1]);
        }
        lemma_octal_run_prefix(s.drop_first(), (max - 1) as nat, (k - 1) as nat);
    }
}

proof fn lemma_run_exact(s: Seq<char>, k: nat, avail: int)
    requires
        avail == s.len(),
        k <= octal_run(s, 3),
        k <= 3,
        k == 3 || k == s.len() || !is_octal(s[k as int]),
    ensures
        k == octal_run(s, 3),
{
    lemma_octal_run(s, 3);
}

proof fn lemma_hex_run_step(s: Seq<char>, k: nat)
    requires
        k < 2,
        k < s.len(),
        is_hex(s[k as int]),
        forall|m: int| 0 <= m < k ==> is_hex(#[trigger] s[m]),
    ensures
        k + 1 <= hex_run(s, 2),
{
    lemma_hex_run_prefix(s, 2, (k + 1) as nat);
}

proof fn lemma_hex_run_prefix(s: Seq<char>, max: nat, k: nat)
    requires
        k <= max,
        k <= s.len(),
        forall|m: int| 0 <= m < k ==> is_hex(#[trigger] s[m]),
    ensures
        k <= hex_run(s, max),
    decreases k,
{
    if k > 0 {
        assert(is_hex(s[0]));
        assert forall|m: int| 0 <= m < k - 1 implies is_hex(#[trigger] s.drop_first()[m]) by {
            assert(s.drop_first()[m] == s[m + 1]);
        }
        lemma_hex_run_prefix(s.drop_first(), (max - 1) as nat, (k - 1) as nat);
    }
}

proof fn lemma_hex_run_exact(s: Seq<char>, k: nat, avail: int)
    requires
        avail == s.len(),
        k <= hex_run(s, 2),
        k <= 2,
        k == 2 || k == s.len() || !is_hex(s[k as int]),
    ensures
        k == hex_run(s, 2),
{
    lemma_hex_run(s, 2);
}


/// Python-`re` source rewritten for fancy-regex: `\<` and `\>` become the
/// literal characters `<` and `>`; any other backslash pair is kept as is.
pub open spec fn translated(s: Seq<char>) -> Seq<char>
    decreases s.len(),
{
    if s.len() == 0 {
        Seq::empty()
    } else if s[0] == '\\' && s.len() >= 2 {
        if s[1] == '<' || s[1] == '>' {
            seq![s[1]] + translated(s.skip(2))
        } else {
            seq!['\\', s[1]] + translated(s.skip(2))
        }
    } else {
        seq![s[0]] + translated(s.skip(1))
    }
}

/// Translate Python-`re` regexp source to fancy-regex dialect.
///
/// Python treats `\<` and `\>` as the literal characters `<`/`>` (it has no
/// word-boundary form for them), whereas fancy-regex reads them as GNU-style
/// word boundaries. Rewrite them to literals so grc configs behave as authored.
pub fn translate_regex(src: &str) -> (r: String)
    ensures
        r@ == translated(src@),
{
    let cs = chars_of(src);
    let n = cs.len();
    let mut out: Vec<char> = Vec::new();
    let mut i: usize = 0;
    assert(cs@.skip(0) =~= cs@);
    while i < n
        invariant
            n == cs@.len(),
            i <= n,
            out@ + translated(cs@.skip(i as int)) == translated(cs@),
        decreases n - i,
    {
        let ghost rest = cs@.skip(i as int);
        let ghost old_out = out@;
        if cs[i] == '\\' && i + 1 < n {
            let c = cs[i + 1];
            assert(rest[1] == c);
            if c == '<' || c == '>' {
                out.push(c);
            } else {
                out.push('\\');
                out.push(c);
            }
            assert(rest.skip(2) =~= cs@.skip(i + 2));
            i += 2;
        } else {
            out.push(cs[i]);
            assert(rest.skip(1) =~= cs@.skip(i + 1));
            i += 1;
        }
        assert(old_out + translated(rest) =~= out@ + translated(cs@.skip(i as int)));
    }
    assert(out@ + translated(cs@.skip(i as int)) =~= out@);
    string_of(out.as_slice())
}

/// A replacement string with Python `\N` backreferences written as `${N}`
/// (all the digits that follow the backslash) and each literal `$` doubled.
pub open spec fn backrefs_converted(s: Seq<char>) -> Seq<char>
    decreases s.len(),
{
    if s.len() == 0 {
        Seq::empty()
    } else if s[0] == '\\' && s.len() >= 2 && is_digit(s[1]) {
        let k = digit_run(s.skip(1)) as int;
        proof {
            lemma_digit_run(s.skip(1));
        }
        seq!['$', '{'] + s.subrange(1, 1 + k) + seq!['}'] + backrefs_converted(s.skip(1 + k))
    } else if s[0] == '$' {
        seq!['$', '$'] + backrefs_converted(s.skip(1))
    } else {
        seq![s[0]] + backrefs_converted(s.skip(1))
    }
}

/// Convert Python-style `\1` backrefs in a replacement to the `${1}` form the
/// regex engine expects. Literal `$` is escaped to `$$`.
pub fn convert_backrefs(s: &str) -> (r: String)
    ensures
        r@ == backrefs_converted(s@),
{
    let cs = chars_of(s);
    let n = cs.len();
    let mut out: Vec<char> = Vec::new();
    let mut i: usize = 0;
    assert(cs@.skip(0) =~= cs@);
    while i < n
        invariant
            n == cs@.len(),
            i <= n,
            out@ + backrefs_converted(cs@.skip(i as int)) == backrefs_converted(cs@),
        decreases n - i,
    {
        let ghost rest = cs@.skip(i as int);
        let ghost old_out = out@;
        if cs[i] == '\\' && i + 1 < n && '0' <= cs[i + 1] && cs[i + 1] <= '9' {
            assert(rest[1] == cs@[i + 1]);
            let ghost tail = rest.skip(1);
            proof {
                lemma_digit_run(tail);
                assert(tail =~= cs@.skip(i + 1));
            }
            out.push('$');
            out.push('{');
            let mut j = i + 1;
            while j < n && '0' <= cs[j] && cs[j] <= '9'
                invariant
                    n == cs@.len(),
                    i + 1 <= j <= n,
                    tail == cs@.skip(i + 1),
                    forall|m: int| 0 <= m < j - (i + 1) ==> is_digit(#[trigger] tail[m]),
                    out@ == old_out + seq!['$', '{'] + cs@.subrange(i + 1, j as int),
                decreases n - j,
            {
                out.push(cs[j]);
                j += 1;
                assert(out@ =~= old_out + seq!['$', '{'] + cs@.subrange(i + 1, j as int));
            }
            proof {
                let k = (j - (i + 1)) as nat;
                lemma_digit_run_exact(tail, k);
                assert(cs@.subrange(i + 1, j as int) =~= rest.subrange(1, 1 + k as int));
                assert(rest.skip(1 + k as int) =~= cs@.skip(j as int));
            }
            out.push('}');
            i = j;
        } else if cs[i] == '$' {
            out.push('$');
            out.push('$');
            assert(rest.skip(1) =~= cs@.skip(i + 1));
            i += 1;
        } else {
            out.push(cs[i]);
            assert(rest.skip(1) =~= cs@.skip(i + 1));
            i += 1;
        }
        assert(old_out + backrefs_converted(rest) =~= out@ + backrefs_converted(cs@.skip(i as int)));
    }
    assert(out@ + backrefs_converted(cs@.skip(i as int)) =~= out@);
    string_of(out.as_slice())
}

proof fn lemma_digit_run_exact(s: Seq<char>, k: nat)
    requires
        k <= s.len(),
        forall|m: int| 0 <= m < k ==> is_digit(#[trigger] s[m]),
        k == s.len() || !is_digit(s[k as int]),
    ensures
        k == digit_run(s),
    decreases k,
{
    if k > 0 {
        assert forall|m: int| 0 <= m < k - 1 implies is_digit(#[trigger] s.drop_first()[m]) by {
            assert(s.drop_first()[m] == s[m + 1]);
        }
        if k < s.len() {
            assert(s.drop_first()[k - 1] == s[k as int]);
        }
        lemma_digit_run_exact(s.drop_first(), (k - 1) as nat);
    } else {
        assert(s.len() == 0 || !is_digit(s[0]));
    }
}


/// Text without a backslash decodes to itself.
pub proof fn law_unescape_plain_text(s: Seq<char>)
    requires
        !s.contains('\\'),
    ensures
        unescaped(s) == s,
    decreases s.len(),
{
    if s.len() > 0 {
        assert(s[0] != '\\') by {
            assert(s.contains(s[0]));
        }
        assert(!s.skip(1).contains('\\')) by {
            if s.skip(1).contains('\\') {
                let j = choose|j: int| 0 <= j < s.skip(1).len() && s.skip(1)[j] == '\\';
                assert(s[j + 1] == '\\');
            }
        }
        law_unescape_plain_text(s.skip(1));
        assert(seq![s[0]] + s.skip(1) =~= s);
    }
}

/// A regexp source with no `<` or `>` in it is left exactly as written.
pub proof fn law_translate_keeps_sources_without_angles(s: Seq<char>)
    requires
        !s.contains('<'),
        !s.contains('>'),
    ensures
        translated(s) == s,
    decreases s.len(),
{
    if s.len() > 0 {
        let step: int = if s[0] == '\\' && s.len() >= 2 { 2 } else { 1 };
        assert(s.contains(s[0]));
        if step == 2 {
            assert(s.contains(s[1]));
        }
        assert(!s.skip(step).contains('<') && !s.skip(step).contains('>')) by {
            if s.skip(step).contains('<') {
                let j = choose|j: int| 0 <= j < s.skip(step).len() && s.skip(step)[j] == '<';
                assert(s[j + step] == '<');
            }
            if s.skip(step).contains('>') {
                let j = choose|j: int| 0 <= j < s.skip(step).len() && s.skip(step)[j] == '>';
                assert(s[j + step] == '>');
            }
        }
        law_translate_keeps_sources_without_angles(s.skip(step));
        if step == 2 {
            assert(seq!['\\', s[1]] + s.skip(2) =~= s);
        } else {
            assert(seq![s[0]] + s.skip(1) =~= s);
        }
    }
}

/// A replacement with no backslash and no `$` is left exactly as written.
pub proof fn law_backrefs_keep_plain_text(s: Seq<char>)
    requires
        !s.contains('\\'),
        !s.contains('$'),
    ensures
        backrefs_converted(s) == s,
    decreases s.len(),
{
    if s.len() > 0 {
        assert(s.contains(s[0]));
        assert(!s.skip(1).contains('\\') && !s.skip(1).contains('$')) by {
            if s.skip(1).contains('\\') {
                let j = choose|j: int| 0 <= j < s.skip(1).len() && s.skip(1)[j] == '\\';
                assert(s[j + 1] == '\\');
            }
            if s.skip(1).contains('$') {
                let j = choose|j: int| 0 <= j < s.skip(1).len() && s.skip(1)[j] == '$';
                assert(s[j + 1] == '$');
            }
        }
        law_backrefs_keep_plain_text(s.skip(1));
        assert(seq![s[0]] + s.skip(1) =~= s);
    }
}


/// The number a hexadecimal digit stands for, with letters read in lower
/// case: `0`-`9` are 0-9, and `a`-`f` and `A`-`F` alike are 10-15.
pub open spec fn hex_number(c: char) -> int {
    if '0' <= c && c <= '9' {
        c as int - '0' as int
    } else {
        lower_char(c) as int - 'a' as int + 10
    }
}

/// A two-digit hex escape `\xHH` decodes to the character whose code is
/// sixteen times the first digit's number plus the second's, whatever the
/// case of the letters.
pub proof fn law_hex_escape_value(h1: char, h2: char)
    requires
        is_hex(h1),
        is_hex(h2),
    ensures
        unescaped(seq!['\\', 'x', h1, h2]) == seq![((16 * hex_number(h1) + hex_number(h2)) as u32) as char],
{
    let s = seq!['\\', 'x', h1, h2];
    let t = s.skip(2);
    assert(t =~= seq![h1, h2]);
    assert(t.drop_first() =~= seq![h2]);
    assert(t.drop_first().drop_first() =~= Seq::<char>::empty());
    assert(hex_run(t.drop_first().drop_first(), 0) == 0);
    assert(t.drop_first()[0] == h2);
    assert(hex_run(t.drop_first(), 1) == 1);
    assert(t[0] == h1);
    assert(hex_run(t, 2) == 2);
    assert(s.subrange(2, 4) =~= seq![h1, h2]);
    let d = seq![h1, h2];
    assert(d.drop_last() =~= seq![h1]);
    assert(seq![h1].drop_last() =~= Seq::<char>::empty());
    assert(hex_value(Seq::<char>::empty()) == 0);
    assert(seq![h1].last() == h1);
    assert(hex_value(seq![h1]) == hex_digit_value(h1));
    assert(d.last() == h2);
    assert(hex_value(d) == hex_digit_value(h1) * 16 + hex_digit_value(h2));
    assert(hex_digit_value(h1) == hex_number(h1));
    assert(hex_digit_value(h2) == hex_number(h2));
    assert(s.skip(4) =~= Seq::<char>::empty());
    assert(unescaped(s.skip(4)) =~= Seq::<char>::empty());
    assert(unescaped(s) =~= seq![((hex_value(s.subrange(2, 4))) as u32) as char] + unescaped(s.skip(4)));
}

/// Hex escapes ignore the case of their letters: `\xHH` decodes the same as
/// the escape with its digits in lower case.
pub proof fn law_hex_escape_ignores_case(h1: char, h2: char)
    requires
        is_hex(h1),
        is_hex(h2),
    ensures
        unescaped(seq!['\\', 'x', h1, h2]) == unescaped(seq!['\\', 'x', lower_char(h1), lower_char(h2)]),
{
    law_hex_escape_value(h1, h2);
    law_hex_escape_value(lower_char(h1), lower_char(h2));
}


/// A three-digit octal escape `\ooo` decodes to the character whose code is
/// 64, 8 and 1 times the digits, summed (so `\033` is ESC).
pub proof fn law_octal_escape_value(o1: char, o2: char, o3: char)
    requires
        '0' <= o1 <= '7',
        '0' <= o2 <= '7',
        '0' <= o3 <= '7',
    ensures
        unescaped(seq!['\\', o1, o2, o3]) == seq![
            ((64 * (o1 as int - '0' as int) + 8 * (o2 as int - '0' as int) + (o3 as int - '0' as int))
                as u32) as char,
        ],
{
    let s = seq!['\\', o1, o2, o3];
    let t = s.skip(1);
    assert(t =~= seq![o1, o2, o3]);
    assert(t.drop_first() =~= seq![o2, o3]);
    assert(t.drop_first().drop_first() =~= seq![o3]);
    assert(t.drop_first().drop_first().drop_first() =~= Seq::<char>::empty());
    assert(octal_run(t.drop_first().drop_first().drop_first(), 0) == 0);
    assert(octal_run(t.drop_first().drop_first(), 1) == 1);
    assert(octal_run(t.drop_first(), 2) == 2);
    assert(octal_run(t, 3) == 3);
    let d = s.subrange(1, 4);
    assert(d =~= seq![o1, o2, o3]);
    assert(d.drop_last() =~= seq![o1, o2]);
    assert(seq![o1, o2].drop_last() =~= seq![o1]);
    assert(seq![o1].drop_last() =~= Seq::<char>::empty());
    assert(octal_value(Seq::<char>::empty()) == 0);
    assert(octal_value(seq![o1]) == digit_value(o1));
    assert(octal_value(seq![o1, o2]) == digit_value(o1) * 8 + digit_value(o2));
    assert(octal_value(d) == (digit_value(o1) * 8 + digit_value(o2)) * 8 + digit_value(o3));
    assert(s.skip(4) =~= Seq::<char>::empty());
    assert(unescaped(s.skip(4)) =~= Seq::<char>::empty());
    assert(unescaped(s) =~= seq![((octal_value(d)) as u32) as char] + unescaped(s.skip(4)));
}

/// The single-character escapes decode to the characters Python gives them:
/// newline, carriage return, tab, bell, backspace, form feed, vertical tab,
/// backslash and the two quotes.
pub proof fn law_single_character_escapes()
    ensures
        unescaped(seq!['\\', 'n']) == seq!['\n'],
        unescaped(seq!['\\', 'r']) == seq!['\r'],
        unescaped(seq!['\\', 't']) == seq!['\t'],
        unescaped(seq!['\\', 'a']) == seq!['\u{7}'],
        unescaped(seq!['\\', 'b']) == seq!['\u{8}'],
        unescaped(seq!['\\', 'f']) == seq!['\u{c}'],
        unescaped(seq!['\\', 'v']) == seq!['\u{b}'],
        unescaped(seq!['\\', '\\']) == seq!['\\'],
        unescaped(seq!['\\', '"']) == seq!['"'],
        unescaped(seq!['\\', '\'']) == seq!['\''],
{
    let e = Seq::<char>::empty();
    assert(unescaped(e) =~= e);
    assert forall|c: char| #![trigger simple_escape(c)] simple_escape(c) is Some implies unescaped(seq!['\\', c])
        == seq![simple_escape(c)->0] by {
        assert(seq!['\\', c].skip(2) =~= e);
        assert(unescaped(seq!['\\', c]) =~= seq![simple_escape(c)->0] + unescaped(seq!['\\', c].skip(2)));
    }
    assert(simple_escape('n') is Some);
    assert(simple_escape('r') is Some);
    assert(simple_escape('t') is Some);
    assert(simple_escape('a') is Some);
    assert(simple_escape('b') is Some);
    assert(simple_escape('f') is Some);
    assert(simple_escape('v') is Some);
    assert(simple_escape('\\') is Some);
    assert(simple_escape('"') is Some);
    assert(simple_escape('\'') is Some);
}

} // verus!
