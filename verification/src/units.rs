//! Byte-level views of lines: UTF-8 widths, byte-offset to character-index
//! conversion, and the lossless decoding that keeps every input byte.

use vstd::prelude::*;
use vstd::utf8::*;
use crate::text::chars_of;

verus! {

broadcast use vstd::string::group_string_axioms;

/// The number of bytes in the UTF-8 encoding of `c`.
pub open spec fn char_width(c: char) -> nat {
    encode_scalar(c as u32).len()
}

/// The byte length of the UTF-8 encoding of `s`.
pub open spec fn byte_len(s: Seq<char>) -> nat {
    encode_utf8(s).len()
}

/// The character index of byte offset `b` in the UTF-8 encoding of `s`, or
/// `None` when `b` is not the offset of a character boundary.
pub open spec fn char_at_byte(s: Seq<char>, b: int) -> Option<nat>
    decreases s.len(),
{
    if b == 0 {
        Some(0)
    } else if s.len() == 0 || b < char_width(s[0]) {
        None
    } else {
        match char_at_byte(s.drop_first(), b - char_width(s[0])) {
            Some(k) => Some(k + 1),
            None => None,
        }
    }
}

/// Encoding distributes over concatenation.
pub proof fn lemma_encode_concat(a: Seq<char>, b: Seq<char>)
    ensures
        encode_utf8(a + b) == encode_utf8(a) + encode_utf8(b),
    decreases a.len(),
{
    if a.len() == 0 {
        assert(a + b =~= b);
        assert(encode_utf8(a) =~= Seq::<u8>::empty());
        assert(encode_utf8(a) + encode_utf8(b) =~= encode_utf8(b));
    } else {
        lemma_encode_concat(a.drop_first(), b);
        assert((a + b).drop_first() =~= a.drop_first() + b);
        assert((a + b)[0] == a[0]);
        assert(encode_utf8(a + b) =~= encode_scalar(a[0] as u32) + encode_utf8(a.drop_first() + b));
    }
}

/// The encoding of a single character is that character's scalar encoding.
pub proof fn lemma_encode_single(c: char)
    ensures
        encode_utf8(seq![c]) == encode_scalar(c as u32),
{
    let s = seq![c];
    assert(s.drop_first() =~= Seq::<char>::empty());
    assert(encode_utf8(s.drop_first()) =~= Seq::<u8>::empty());
    assert(s[0] == c);
    assert(encode_utf8(s) =~= encode_scalar(s[0] as u32) + encode_utf8(s.drop_first()));
    assert(encode_utf8(s) =~= encode_scalar(c as u32));
}

/// The encoding of a one-character extension of a prefix.
pub proof fn lemma_encode_take_step(s: Seq<char>, k: int)
    requires
        0 <= k < s.len(),
    ensures
        encode_utf8(s.take(k + 1)) == encode_utf8(s.take(k)) + encode_scalar(s[k] as u32),
        byte_len(s.take(k + 1)) == byte_len(s.take(k)) + char_width(s[k]),
{
    assert(s.take(k + 1) =~= s.take(k) + seq![s[k]]);
    lemma_encode_concat(s.take(k), seq![s[k]]);
    lemma_encode_single(s[k]);
}

/// Every character takes between one and four bytes.
pub proof fn lemma_char_width(c: char)
    ensures
        1 <= char_width(c) <= 4,
{
    char_is_scalar(c);
}

/// `char_at_byte` finds `k` exactly when the first `k` characters take `b` bytes.
pub proof fn lemma_char_at_byte(s: Seq<char>, b: int, k: nat)
    requires
        k <= s.len(),
    ensures
        (char_at_byte(s, b) == Some(k)) <==> byte_len(s.take(k as int)) == b,
    decreases s.len(),
{
    if s.len() == 0 {
        assert(s.take(k as int) =~= Seq::<char>::empty());
    } else {
        let w = char_width(s[0]);
        lemma_char_width(s[0]);
        if k == 0 {
            assert(s.take(0) =~= Seq::<char>::empty());
        } else {
            assert(s.take(k as int) =~= seq![s[0]] + s.drop_first().take(k - 1));
            lemma_encode_concat(seq![s[0]], s.drop_first().take(k - 1));
            lemma_encode_single(s[0]);
            lemma_char_at_byte(s.drop_first(), b - w, (k - 1) as nat);
        }
    }
}

/// Offsets with a character index are exactly the character boundaries of
/// the encoding, and they are at most the byte length.
pub proof fn lemma_char_at_byte_bound(s: Seq<char>, b: int)
    ensures
        char_at_byte(s, b) matches Some(k) ==> k <= s.len() && 0 <= b <= byte_len(s),
    decreases s.len(),
{
    if b != 0 && s.len() > 0 && b >= char_width(s[0]) {
        lemma_char_at_byte_bound(s.drop_first(), b - char_width(s[0]));
        assert(encode_utf8(s) =~= encode_scalar(s[0] as u32) + encode_utf8(s.drop_first()));
    }
}

/// The UTF-8 width of `c`, computed.
pub fn utf8_width(c: char) -> (w: usize)
    ensures
        w == char_width(c),
{
    proof {
        char_is_scalar(c);
    }
    let v = c as u32;
    if v <= 0x7f {
        1
    } else if v <= 0x7ff {
        2
    } else if v <= 0xffff {
        3
    } else {
        4
    }
}

/// Convert a byte offset within `line` to a character index, clamping to the
/// string length. Match offsets always land on char boundaries.
pub fn byte_to_char(line: &str, b: usize) -> (r: usize)
    requires
        byte_len(line@) <= usize::MAX,
        char_at_byte(line@, if b < byte_len(line@) { b as int } else { byte_len(line@) as int }) is Some,
    ensures
        Some(r as nat) == char_at_byte(
            line@,
            if b < byte_len(line@) { b as int } else { byte_len(line@) as int },
        ),
{
    let len = line.len();
    let target = if b < len { b } else { len };
    let cs = chars_of(line);
    let ghost s = line@;
    let mut k: usize = 0;
    let mut acc: usize = 0;
    assert(s.take(0) =~= Seq::<char>::empty());
    proof {
        lemma_char_at_byte_bound(s, target as int);
    }
    let ghost goal = char_at_byte(s, target as int)->0;
    proof {
        lemma_char_at_byte(s, target as int, goal);
    }
    while acc < target
        invariant
            cs@ == s,
            k <= goal <= s.len(),
            acc == byte_len(s.take(k as int)),
            byte_len(s.take(goal as int)) == target,
            target <= len,
            len == byte_len(s),
        decreases s.len() - k,
    {
        proof {
            if k == goal {
                assert(false);
            }
            lemma_encode_take_step(s, k as int);
            lemma_prefix_len_mono(s, (k + 1) as int, goal as int);
        }
        assert(k < cs.len());
        let w = utf8_width(cs[k]);
        acc = acc + w;
        k = k + 1;
    }
    proof {
        if k < goal {
            lemma_encode_take_step(s, k as int);
            lemma_char_width(s[k as int]);
            lemma_prefix_len_mono(s, (k + 1) as int, goal as int);
        }
        lemma_char_at_byte(s, target as int, k as nat);
    }
    k
}

/// Longer prefixes take more bytes.
pub proof fn lemma_prefix_len_mono(s: Seq<char>, i: int, j: int)
    requires
        0 <= i <= j <= s.len(),
    ensures
        byte_len(s.take(i)) <= byte_len(s.take(j)),
        i < j ==> byte_len(s.take(i)) < byte_len(s.take(j)),
    decreases j - i,
{
    if i < j {
        lemma_prefix_len_mono(s, i, j - 1);
        lemma_encode_take_step(s, j - 1);
        lemma_char_width(s[j - 1]);
    }
}

/// The UTF-8 bytes of a single `char`.
pub fn ch_bytes(ch: char) -> (v: Vec<u8>)
    ensures
        v@ == encode_scalar(ch as u32),
{
    let c = ch as u32;
    let mut v: Vec<u8> = Vec::new();
    if c <= 0x7f {
        v.push((c & 0x7f) as u8);
    } else if c <= 0x7ff {
        v.push(0xc0 | ((c >> 6) & 0x1f) as u8);
        v.push(0x80 | (c & 0x3f) as u8);
    } else if c <= 0xffff {
        v.push(0xe0 | ((c >> 12) & 0x0f) as u8);
        v.push(0x80 | ((c >> 6) & 0x3f) as u8);
        v.push(0x80 | (c & 0x3f) as u8);
    } else {
        v.push(0xf0 | ((c >> 18) & 0x7) as u8);
        v.push(0x80 | ((c >> 12) & 0x3f) as u8);
        v.push(0x80 | ((c >> 6) & 0x3f) as u8);
        v.push(0x80 | (c & 0x3f) as u8);
    }
    proof {
        char_is_scalar(ch);
    }
    assert(v@ =~= encode_scalar(c));
    v
}


/// The bytes the unit at the front of `raw` takes: a whole well-formed
/// scalar, or else the single byte at the front.
pub open spec fn unit_len(raw: Seq<u8>) -> int {
    if valid_first_scalar(raw) {
        length_of_first_scalar(raw)
    } else {
        1
    }
}

/// The character the unit at the front of `raw` decodes to: the scalar, or
/// U+FFFD for a byte that does not begin a well-formed scalar.
pub open spec fn unit_char(raw: Seq<u8>) -> char {
    if valid_first_scalar(raw) {
        decode_first_scalar(raw) as char
    } else {
        '\u{FFFD}'
    }
}

/// A unit takes at least one byte and no more than there are.
pub proof fn lemma_unit_len(raw: Seq<u8>)
    requires
        raw.len() > 0,
    ensures
        1 <= unit_len(raw) <= raw.len(),
        unit_len(raw) <= 4,
{
}

/// Lenient decoding of a byte line: each well-formed UTF-8 scalar becomes its
/// character together with its bytes, and each byte that does not begin one
/// becomes one U+FFFD together with that byte, so that every input byte is
/// kept and each character has its source bytes.
pub open spec fn decode_lossless(raw: Seq<u8>) -> Seq<(char, Seq<u8>)>
    decreases raw.len(),
{
    if raw.len() == 0 {
        Seq::empty()
    } else {
        let n = unit_len(raw);
        proof {
            lemma_unit_len(raw);
        }
        seq![(unit_char(raw), raw.take(n))] + decode_lossless(raw.skip(n))
    }
}

/// The characters of [`decode_lossless`].
pub open spec fn lossless_chars(raw: Seq<u8>) -> Seq<char> {
    decode_lossless(raw).map_values(|p: (char, Seq<u8>)| p.0)
}

/// The source bytes of each character of [`decode_lossless`].
pub open spec fn lossless_units(raw: Seq<u8>) -> Seq<Seq<u8>> {
    decode_lossless(raw).map_values(|p: (char, Seq<u8>)| p.1)
}

/// The views of a sequence of byte vectors.
pub open spec fn byte_views(v: Seq<Vec<u8>>) -> Seq<Seq<u8>> {
    v.map_values(|x: Vec<u8>| x@)
}

proof fn lemma_scalar_bits(b1: u8, b2: u8, b3: u8, b4: u8)
    ensures
        ((((b1 & 0x1f) as u32) << 6) | ((b2 & 0x3f) as u32)) <= 0x7ff,
        ((((b1 & 0x0f) as u32) << 12) | (((b2 & 0x3f) as u32) << 6) | ((b3 & 0x3f) as u32)) <= 0xffff,
        (b1 & 0x7f) as u32 <= 0x7f,
        b1 <= 0x7f ==> (b1 & 0x7f) == b1,
{
    assert(((((b1 & 0x1f) as u32) << 6) | ((b2 & 0x3f) as u32)) <= 0x7ff) by (bit_vector);
    assert(((((b1 & 0x0f) as u32) << 12) | (((b2 & 0x3f) as u32) << 6) | ((b3 & 0x3f) as u32))
        <= 0xffff) by (bit_vector);
    assert((b1 & 0x7f) as u32 <= 0x7f) by (bit_vector);
    assert(b1 <= 0x7f ==> (b1 & 0x7f) == b1) by (bit_vector);
}

/// The scalar that starts at byte `i` of `raw`, with its length, if a
/// well-formed one does.
fn scalar_at(raw: &[u8], i: usize) -> (r: Option<(char, usize)>)
    requires
        i < raw@.len(),
    ensures
        ({
            let rest = raw@.skip(i as int);
            match r {
                Some((c, n)) => valid_first_scalar(rest) && c == unit_char(rest) && n == unit_len(rest),
                None => !valid_first_scalar(rest),
            }
        }),
{
    let ghost rest = raw@.skip(i as int);
    let len = raw.len();
    let b1 = raw[i];
    assert(rest[0] == b1);
    let avail = len - i;
    let b2: u8 = if avail > 1 { raw[i + 1] } else { 0 };
    let b3: u8 = if avail > 2 { raw[i + 2] } else { 0 };
    let b4: u8 = if avail > 3 { raw[i + 3] } else { 0 };
    proof {
        lemma_scalar_bits(b1, b2, b3, b4);
        if avail > 1 {
            assert(rest[1] == b2);
        }
        if avail > 2 {
            assert(rest[2] == b3);
        }
        if avail > 3 {
            assert(rest[3] == b4);
        }
    }
    let cont2 = avail > 1 && 0x80 <= b2 && b2 <= 0xbf;
    let cont3 = avail > 2 && 0x80 <= b3 && b3 <= 0xbf;
    let cont4 = avail > 3 && 0x80 <= b4 && b4 <= 0xbf;
    let cp: u32;
    let n: usize;
    if b1 <= 0x7f {
        cp = (b1 & 0x7f) as u32;
        n = 1;
    } else if 0xc0 <= b1 && b1 <= 0xdf {
        if !cont2 {
            return None;
        }
        cp = (((b1 & 0x1f) as u32) << 6) | ((b2 & 0x3f) as u32);
        if cp < 0x80 {
            return None;
        }
        n = 2;
    } else if 0xe0 <= b1 && b1 <= 0xef {
        if !(cont2 && cont3) {
            return None;
        }
        cp = (((b1 & 0x0f) as u32) << 12) | (((b2 & 0x3f) as u32) << 6) | ((b3 & 0x3f) as u32);
        if cp < 0x800 || (0xd800 <= cp && cp <= 0xdfff) {
            return None;
        }
        n = 3;
    } else if 0xf0 <= b1 && b1 <= 0xf7 {
        if !(cont2 && cont3 && cont4) {
            return None;
        }
        cp = (((b1 & 0x07) as u32) << 18) | (((b2 & 0x3f) as u32) << 12) | (((b3 & 0x3f) as u32) << 6)
            | ((b4 & 0x3f) as u32);
        if cp < 0x10000 || cp > 0x10ffff {
            return None;
        }
        n = 4;
    } else {
        return None;
    }
    assert(cp == decode_first_scalar(rest));
    assert(valid_first_scalar(rest));
    assert(is_scalar(cp));
    match char::from_u32(cp) {
        Some(c) => Some((c, n)),
        None => None,
    }
}

/// Decode raw line bytes the way Python's `surrogateescape` handler does, so invalid
/// bytes survive round-trip. Returns a matching string with exactly one `char`
/// per input unit — each undecodable byte becomes a single U+FFFD, matching
/// Python's one-code-point-per-byte behaviour so char indices line up — plus the
/// source bytes for each char position, so output can re-emit invalid
/// bytes unchanged instead of the lossy replacement character.
pub fn decode_units(raw: &[u8]) -> (r: (String, Vec<Vec<u8>>))
    ensures
        r.0@ == lossless_chars(raw@),
        byte_views(r.1@) == lossless_units(raw@),
{
    let n = raw.len();
    let mut chars: Vec<char> = Vec::new();
    let mut units: Vec<Vec<u8>> = Vec::new();
    let mut i: usize = 0;
    assert(raw@.skip(0) =~= raw@);
    while i < n
        invariant
            n == raw@.len(),
            i <= n,
            chars@ + lossless_chars(raw@.skip(i as int)) == lossless_chars(raw@),
            byte_views(units@) + lossless_units(raw@.skip(i as int)) == lossless_units(raw@),
        decreases n - i,
    {
        let ghost rest = raw@.skip(i as int);
        let ghost old_c = chars@;
        let ghost old_u = byte_views(units@);
        let (c, w) = match scalar_at(raw, i) {
            Some((c, w)) => (c, w),
            None => ('\u{FFFD}', 1),
        };
        proof {
            lemma_unit_len(rest);
            assert(decode_lossless(rest) =~= seq![(unit_char(rest), rest.take(unit_len(rest)))]
                + decode_lossless(rest.skip(unit_len(rest))));
            assert(rest.skip(w as int) =~= raw@.skip(i + w));
        }
        let mut u: Vec<u8> = Vec::new();
        let mut j: usize = 0;
        while j < w
            invariant
                i + w <= n,
                n == raw@.len(),
                j <= w,
                u@ == raw@.subrange(i as int, i + j),
            decreases w - j,
        {
            u.push(raw[i + j]);
            j += 1;
            assert(u@ =~= raw@.subrange(i as int, i + j));
        }
        assert(u@ =~= rest.take(w as int));
        chars.push(c);
        units.push(u);
        i += w;
        assert(chars@ + lossless_chars(raw@.skip(i as int)) =~= old_c + lossless_chars(rest));
        assert(byte_views(units@) =~= old_u.push(rest.take(w as int)));
        assert(byte_views(units@) + lossless_units(raw@.skip(i as int)) =~= old_u + lossless_units(rest));
    }
    assert(raw@.skip(i as int) =~= Seq::<u8>::empty());
    assert(chars@ + lossless_chars(raw@.skip(i as int)) =~= chars@);
    assert(byte_views(units@) + lossless_units(raw@.skip(i as int)) =~= byte_views(units@));
    let s = crate::text::string_of(chars.as_slice());
    (s, units)
}


/// Lossless decoding keeps every byte: the source bytes of the characters,
/// joined in order, are the input line.
pub proof fn lemma_lossless_roundtrip(raw: Seq<u8>)
    ensures
        lossless_units(raw).flatten() == raw,
        lossless_chars(raw).len() == lossless_units(raw).len(),
    decreases raw.len(),
{
    if raw.len() > 0 {
        let n = unit_len(raw);
        lemma_unit_len(raw);
        lemma_lossless_roundtrip(raw.skip(n));
        let us = lossless_units(raw);
        assert(decode_lossless(raw) =~= seq![(unit_char(raw), raw.take(n))] + decode_lossless(raw.skip(n)));
        assert(us =~= seq![raw.take(n)] + lossless_units(raw.skip(n)));
        assert(us.first() == raw.take(n));
        assert(us.drop_first() =~= lossless_units(raw.skip(n)));
        assert(raw.take(n) + raw.skip(n) =~= raw);
    } else {
        assert(lossless_units(raw) =~= Seq::<Seq<u8>>::empty());
    }
}

/// On well-formed UTF-8, lossless decoding agrees with ordinary decoding.
pub proof fn lemma_lossless_valid(raw: Seq<u8>)
    requires
        valid_utf8(raw),
    ensures
        lossless_chars(raw) == decode_utf8(raw),
    decreases raw.len(),
{
    if raw.len() > 0 {
        let n = unit_len(raw);
        lemma_unit_len(raw);
        assert(raw.skip(n) =~= pop_first_scalar(raw));
        lemma_lossless_valid(raw.skip(n));
        assert(decode_lossless(raw) =~= seq![(unit_char(raw), raw.take(n))] + decode_lossless(raw.skip(n)));
        assert(lossless_chars(raw) =~= seq![unit_char(raw)] + lossless_chars(raw.skip(n)));
    } else {
        assert(lossless_chars(raw) =~= Seq::<char>::empty());
    }
}


/// The unit at the front of a line: a well-formed scalar's bytes are that
/// character's encoding; anything else is one byte, read as U+FFFD.
proof fn lemma_unit_front(raw: Seq<u8>)
    requires
        raw.len() > 0,
    ensures
        valid_first_scalar(raw) ==> raw.take(unit_len(raw)) == encode_scalar(unit_char(raw) as u32),
        !valid_first_scalar(raw) ==> unit_len(raw) == 1 && unit_char(raw) == '\u{FFFD}',
{
    lemma_unit_len(raw);
    if valid_first_scalar(raw) {
        let n = length_of_first_scalar(raw);
        let t = raw.take(n);
        assert(forall|j: int| 0 <= j < n ==> #[trigger] t[j] == raw[j]);
        assert(decode_first_codepoint(t) == decode_first_codepoint(raw));
        assert(length_of_first_codepoint(t) == n);
        assert(valid_first_scalar(t));
        assert(pop_first_scalar(t) =~= Seq::<u8>::empty());
        assert(valid_utf8(pop_first_scalar(t)));
        assert(valid_utf8(t));
        decode_utf8_first_scalar(t);
        assert(take_first_scalar(t) =~= t);
    }
}

/// Where the `i`-th unit of the lossless decoding starts in the line.
pub open spec fn unit_offset(raw: Seq<u8>, i: int) -> int {
    lossless_units(raw).take(i).flatten().len() as int
}

/// What a unit of the lossless decoding is: the UTF-8 encoding of its
/// character, or a single byte that begins no well-formed scalar, read as
/// U+FFFD (`rest` is the line from the unit on).
pub open spec fn unit_is_faithful(c: char, u: Seq<u8>, rest: Seq<u8>) -> bool {
    ||| u == encode_scalar(c as u32)
    ||| (c == '\u{FFFD}' && u == seq![rest[0]] && rest.len() > 0 && !valid_first_scalar(rest))
}

/// Each unit of the lossless decoding is either the encoding of its
/// character, or one byte that starts no well-formed UTF-8 scalar, paired
/// with U+FFFD.
pub proof fn law_lossless_units_are_faithful(raw: Seq<u8>)
    ensures
        forall|i: int|
            0 <= i < lossless_units(raw).len() ==> unit_is_faithful(
                #[trigger] lossless_chars(raw)[i],
                lossless_units(raw)[i],
                raw.skip(unit_offset(raw, i)),
            ),
    decreases raw.len(),
{
    if raw.len() > 0 {
        let n = unit_len(raw);
        lemma_unit_len(raw);
        lemma_unit_front(raw);
        let rest = raw.skip(n);
        law_lossless_units_are_faithful(rest);
        let us = lossless_units(raw);
        let cs = lossless_chars(raw);
        assert(decode_lossless(raw) =~= seq![(unit_char(raw), raw.take(n))] + decode_lossless(rest));
        assert(us =~= seq![raw.take(n)] + lossless_units(rest));
        assert(cs =~= seq![unit_char(raw)] + lossless_chars(rest));
        assert forall|i: int| 0 <= i < us.len() implies unit_is_faithful(
            #[trigger] cs[i],
            us[i],
            raw.skip(unit_offset(raw, i)),
        ) by {
            if i == 0 {
                assert(us.take(0) =~= Seq::<Seq<u8>>::empty());
                assert(us.take(0).flatten() =~= Seq::<u8>::empty());
                assert(raw.skip(0) =~= raw);
                if !valid_first_scalar(raw) {
                    assert(raw.take(1) =~= seq![raw[0]]);
                }
            } else {
                let k = i - 1;
                assert(us.take(i) =~= seq![raw.take(n)] + lossless_units(rest).take(k));
                seq![raw.take(n)].lemma_flatten_one_element();
                vstd::seq_lib::lemma_flatten_concat(seq![raw.take(n)], lossless_units(rest).take(k));
                assert(us.take(i).flatten() =~= raw.take(n) + lossless_units(rest).take(k).flatten());
                assert(unit_offset(raw, i) == n + unit_offset(rest, k));
                let ur = lossless_units(rest);
                lemma_lossless_roundtrip(rest);
                assert(ur.take(k) + ur.skip(k) =~= ur);
                vstd::seq_lib::lemma_flatten_concat(ur.take(k), ur.skip(k));
                assert(unit_offset(rest, k) <= rest.len());
                assert(raw.skip(unit_offset(raw, i)) =~= rest.skip(unit_offset(rest, k)));
                assert(cs[i] == lossless_chars(rest)[k]);
                assert(us[i] == lossless_units(rest)[k]);
            }
        }
    }
}

/// On well-formed UTF-8 every unit is the encoding of its character: the
/// units are exactly the encodings of the decoded characters.
pub proof fn law_lossless_units_on_valid_utf8(raw: Seq<u8>)
    requires
        valid_utf8(raw),
    ensures
        lossless_units(raw) == decode_utf8(raw).map_values(|c: char| encode_scalar(c as u32)),
    decreases raw.len(),
{
    if raw.len() > 0 {
        let n = unit_len(raw);
        lemma_unit_len(raw);
        lemma_unit_front(raw);
        let rest = raw.skip(n);
        assert(rest =~= pop_first_scalar(raw));
        law_lossless_units_on_valid_utf8(rest);
        lemma_lossless_valid(raw);
        lemma_lossless_valid(rest);
        assert(decode_lossless(raw) =~= seq![(unit_char(raw), raw.take(n))] + decode_lossless(rest));
        assert(lossless_units(raw) =~= seq![raw.take(n)] + lossless_units(rest));
        assert(lossless_chars(raw) =~= seq![unit_char(raw)] + lossless_chars(rest));
        assert(lossless_units(raw) =~= decode_utf8(raw).map_values(|c: char| encode_scalar(c as u32)));
    } else {
        assert(lossless_units(raw) =~= Seq::<Seq<u8>>::empty());
        assert(decode_utf8(raw).map_values(|c: char| encode_scalar(c as u32)) =~= Seq::<Seq<u8>>::empty());
    }
}

/// The character index of byte offset `b` in the encoding of `cs`, if `b` is
/// a character boundary, computed.
pub fn char_index_of(cs: &[char], b: usize) -> (r: Option<usize>)
    ensures
        match r {
            Some(k) => char_at_byte(cs@, b as int) == Some(k as nat),
            None => char_at_byte(cs@, b as int) is None,
        },
{
    let ghost s = cs@;
    let n = cs.len();
    let mut k: usize = 0;
    let mut acc: usize = 0;
    assert(s.take(0) =~= Seq::<char>::empty());
    while acc < b && k < n
        invariant
            s == cs@,
            n == s.len(),
            k <= n,
            acc == byte_len(s.take(k as int)),
            acc <= b,
        decreases n - k,
    {
        proof {
            lemma_encode_take_step(s, k as int);
        }
        let w = utf8_width(cs[k]);
        if w > b - acc {
            proof {
                lemma_no_boundary_between(s, k as int, b as int);
            }
            return None;
        }
        acc = acc + w;
        k = k + 1;
    }
    if acc == b {
        proof {
            lemma_char_at_byte(s, b as int, k as nat);
        }
        Some(k)
    } else {
        proof {
            assert(k == n);
            assert(s.take(k as int) =~= s);
            lemma_char_at_byte_bound(s, b as int);
        }
        None
    }
}

/// No character boundary lies strictly inside the encoding of character `k`.
proof fn lemma_no_boundary_between(s: Seq<char>, k: int, b: int)
    requires
        0 <= k < s.len(),
        byte_len(s.take(k)) <= b < byte_len(s.take(k + 1)),
        byte_len(s.take(k)) < b,
    ensures
        char_at_byte(s, b) is None,
{
    if char_at_byte(s, b) is Some {
        let j = char_at_byte(s, b)->0;
        lemma_char_at_byte_bound(s, b);
        lemma_char_at_byte(s, b, j);
        if j <= k {
            lemma_prefix_len_mono(s, j as int, k);
        } else {
            lemma_prefix_len_mono(s, k + 1, j as int);
        }
    }
}

/// The byte length of the encoding of `cs`, computed.
pub fn byte_len_of(cs: &[char]) -> (n: usize)
    requires
        byte_len(cs@) <= usize::MAX,
    ensures
        n == byte_len(cs@),
{
    let ghost s = cs@;
    let mut k: usize = 0;
    let mut acc: usize = 0;
    assert(s.take(0) =~= Seq::<char>::empty());
    while k < cs.len()
        invariant
            s == cs@,
            k <= s.len(),
            acc == byte_len(s.take(k as int)),
            byte_len(s) <= usize::MAX,
        decreases s.len() - k,
    {
        proof {
            lemma_encode_take_step(s, k as int);
            lemma_prefix_len_mono(s, k + 1, s.len() as int);
            assert(s.take(s.len() as int) =~= s);
        }
        let w = utf8_width(cs[k]);
        acc = acc + w;
        k = k + 1;
    }
    assert(s.take(k as int) =~= s);
    acc
}


/// A line read up to and including its newline, with one trailing `\n` or
/// `\r` byte removed.
pub open spec fn line_end_stripped(raw: Seq<u8>) -> Seq<u8> {
    if raw.len() > 0 && (raw.last() == 10u8 || raw.last() == 13u8) {
        raw.drop_last()
    } else {
        raw
    }
}

/// Strip a single trailing newline byte (or carriage return) from a line.
pub fn strip_line_end(raw: &mut Vec<u8>)
    ensures
        final(raw)@ == line_end_stripped(old(raw)@),
{
    let n = raw.len();
    if n > 0 && (raw[n - 1] == 10u8 || raw[n - 1] == 13u8) {
        raw.pop();
    }
}

} // verus!
