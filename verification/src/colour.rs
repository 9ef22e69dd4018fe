//! The ANSI colour and attribute table and colour-token resolution.

use vstd::prelude::*;
use crate::text::{chars_of, chars_eq_str, sub_chars, string_of};
use crate::escape::{unescape, unescaped};

verus! {

/// Why a colour token could not be resolved: it is neither a name in the
/// table nor a `"..."` quoted literal.
#[derive(Debug)]
pub struct BadColour(pub String);

/// The static table of colour and attribute names, in order.
pub open spec fn colour_entries() -> Seq<(Seq<char>, Seq<char>)> {
    seq![
        ("none"@, ""@),
        ("default"@, "\x1b[0m"@),
        ("bold"@, "\x1b[1m"@),
        ("underline"@, "\x1b[4m"@),
        ("blink"@, "\x1b[5m"@),
        ("reverse"@, "\x1b[7m"@),
        ("concealed"@, "\x1b[8m"@),
        ("black"@, "\x1b[30m"@),
        ("red"@, "\x1b[31m"@),
        ("green"@, "\x1b[32m"@),
        ("yellow"@, "\x1b[33m"@),
        ("blue"@, "\x1b[34m"@),
        ("magenta"@, "\x1b[35m"@),
        ("cyan"@, "\x1b[36m"@),
        ("white"@, "\x1b[37m"@),
        ("on_black"@, "\x1b[40m"@),
        ("on_red"@, "\x1b[41m"@),
        ("on_green"@, "\x1b[42m"@),
        ("on_yellow"@, "\x1b[43m"@),
        ("on_blue"@, "\x1b[44m"@),
        ("on_magenta"@, "\x1b[45m"@),
        ("on_cyan"@, "\x1b[46m"@),
        ("on_white"@, "\x1b[47m"@),
        ("beep"@, "\x07"@),
        ("previous"@, "prev"@),
        ("unchanged"@, "unchanged"@),
        ("dark"@, "\x1b[2m"@),
        ("italic"@, "\x1b[3m"@),
        ("rapidblink"@, "\x1b[6m"@),
        ("strikethrough"@, "\x1b[9m"@),
        ("bright_black"@, "\x1b[30;90m"@),
        ("bright_red"@, "\x1b[31;91m"@),
        ("bright_green"@, "\x1b[32;92m"@),
        ("bright_yellow"@, "\x1b[33;93m"@),
        ("bright_blue"@, "\x1b[34;94m"@),
        ("bright_magenta"@, "\x1b[35;95m"@),
        ("bright_cyan"@, "\x1b[36;96m"@),
        ("bright_white"@, "\x1b[37;97m"@),
        ("on_bright_black"@, "\x1b[40;100m"@),
        ("on_bright_red"@, "\x1b[41;101m"@),
        ("on_bright_green"@, "\x1b[42;102m"@),
        ("on_bright_yellow"@, "\x1b[43;103m"@),
        ("on_bright_blue"@, "\x1b[44;104m"@),
        ("on_bright_magenta"@, "\x1b[45;105m"@),
        ("on_bright_cyan"@, "\x1b[46;106m"@),
        ("on_bright_white"@, "\x1b[47;107m"@),
    ]
}

/// The value of the first entry named `name`.
pub open spec fn table_lookup(entries: Seq<(Seq<char>, Seq<char>)>, name: Seq<char>) -> Option<
    Seq<char>,
>
    decreases entries.len(),
{
    if entries.len() == 0 {
        None
    } else if entries[0].0 == name {
        Some(entries[0].1)
    } else {
        table_lookup(entries.drop_first(), name)
    }
}

/// A colour table: names and the escape strings they stand for.
///
/// The table is a fixed list of pairs looked up in order rather than a hash
/// map: its names are distinct, so the first entry with a name is the only
/// one, and a lookup by scanning is a function whose result the contract can
/// state exactly, where vstd's hash-map specifications say nothing useful of
/// lookups by string key.
pub struct ColourTable {
    entries: Vec<(&'static str, &'static str)>,
}

impl View for ColourTable {
    type V = Seq<(Seq<char>, Seq<char>)>;

    closed spec fn view(&self) -> Seq<(Seq<char>, Seq<char>)> {
        self.entries@.map_values(|e: (&'static str, &'static str)| (e.0@, e.1@))
    }
}

/// The static ANSI colour/attribute table.
pub fn colour_table() -> (t: ColourTable)
    ensures
        t@ == colour_entries(),
{
    let entries = vec![
        ("none", ""),
        ("default", "\x1b[0m"),
        ("bold", "\x1b[1m"),
        ("underline", "\x1b[4m"),
        ("blink", "\x1b[5m"),
        ("reverse", "\x1b[7m"),
        ("concealed", "\x1b[8m"),
        ("black", "\x1b[30m"),
        ("red", "\x1b[31m"),
        ("green", "\x1b[32m"),
        ("yellow", "\x1b[33m"),
        ("blue", "\x1b[34m"),
        ("magenta", "\x1b[35m"),
        ("cyan", "\x1b[36m"),
        ("white", "\x1b[37m"),
        ("on_black", "\x1b[40m"),
        ("on_red", "\x1b[41m"),
        ("on_green", "\x1b[42m"),
        ("on_yellow", "\x1b[43m"),
        ("on_blue", "\x1b[44m"),
        ("on_magenta", "\x1b[45m"),
        ("on_cyan", "\x1b[46m"),
        ("on_white", "\x1b[47m"),
        ("beep", "\x07"),
        ("previous", "prev"),
        ("unchanged", "unchanged"),
        ("dark", "\x1b[2m"),
        ("italic", "\x1b[3m"),
        ("rapidblink", "\x1b[6m"),
        ("strikethrough", "\x1b[9m"),
        ("bright_black", "\x1b[30;90m"),
        ("bright_red", "\x1b[31;91m"),
        ("bright_green", "\x1b[32;92m"),
        ("bright_yellow", "\x1b[33;93m"),
        ("bright_blue", "\x1b[34;94m"),
        ("bright_magenta", "\x1b[35;95m"),
        ("bright_cyan", "\x1b[36;96m"),
        ("bright_white", "\x1b[37;97m"),
        ("on_bright_black", "\x1b[40;100m"),
        ("on_bright_red", "\x1b[41;101m"),
        ("on_bright_green", "\x1b[42;102m"),
        ("on_bright_yellow", "\x1b[43;103m"),
        ("on_bright_blue", "\x1b[44;104m"),
        ("on_bright_magenta", "\x1b[45;105m"),
        ("on_bright_cyan", "\x1b[46;106m"),
        ("on_bright_white", "\x1b[47;107m"),
    ];
    let t = ColourTable { entries };
    assert(t@ =~= colour_entries());
    t
}

impl ColourTable {
    /// The escape string the table gives for `name`, if it has the name.
    pub fn lookup(&self, name: &str) -> (r: Option<String>)
        ensures
            match r {
                Some(v) => table_lookup(self@, name@) == Some(v@),
                None => table_lookup(self@, name@) is None,
            },
    {
        let nc = chars_of(name);
        let mut i: usize = 0;
        let n = self.entries.len();
        assert(self@.skip(0) =~= self@);
        while i < n
            invariant
                n == self.entries@.len(),
                i <= n,
                nc@ == name@,
                table_lookup(self@, name@) == table_lookup(self@.skip(i as int), name@),
            decreases n - i,
        {
            let (k, v) = self.entries[i];
            assert(self@[i as int] == (k@, v@));
            assert(self@.skip(i as int)[0] == self@[i as int]);
            assert(self@.skip(i as int).drop_first() =~= self@.skip(i + 1));
            if chars_eq_str(nc.as_slice(), k) {
                let vc = chars_of(v);
                return Some(string_of(vc.as_slice()));
            }
            i += 1;
        }
        assert(self@.skip(i as int) =~= Seq::<(Seq<char>, Seq<char>)>::empty());
        None
    }
}

/// A `"..."` quoted colour literal: at least two characters, starting and
/// ending with a double quote.
pub open spec fn is_quoted(x: Seq<char>) -> bool {
    x.len() >= 2 && x[0] == '"' && x.last() == '"'
}

/// What a colour token resolves to: a table name gives its escape string, a
/// `"..."` literal gives its unescaped contents, and anything else is refused.
pub open spec fn colour_of(table: Seq<(Seq<char>, Seq<char>)>, x: Seq<char>) -> Option<Seq<char>> {
    match table_lookup(table, x) {
        Some(v) => Some(v),
        None => if is_quoted(x) {
            Some(unescaped(x.subrange(1, x.len() - 1)))
        } else {
            None
        },
    }
}

/// Resolve a single colour token to its escape string.
///
/// A named colour maps through the table; a `"..."` quoted literal is
/// unescaped as a Python string literal would be.
pub fn get_colour(x: &str, table: &ColourTable) -> (r: Result<String, BadColour>)
    ensures
        match r {
            Ok(v) => colour_of(table@, x@) == Some(v@),
            Err(e) => colour_of(table@, x@) is None && e.0@ == x@,
        },
{
    if let Some(v) = table.lookup(x) {
        return Ok(v);
    }
    let xc = chars_of(x);
    let n = xc.len();
    if n >= 2 && xc[0] == '"' && xc[n - 1] == '"' {
        let inner = string_of(sub_chars(xc.as_slice(), 1, n - 1).as_slice());
        Ok(unescape(inner.as_str()))
    } else {
        Err(BadColour(string_of(xc.as_slice())))
    }
}


/// The value of entry `k`, when no earlier entry has its name.
proof fn lemma_lookup_at(e: Seq<(Seq<char>, Seq<char>)>, k: int)
    requires
        0 <= k < e.len(),
        forall|j: int| 0 <= j < k ==> #[trigger] e[j].0 != e[k].0,
    ensures
        table_lookup(e, e[k].0) == Some(e[k].1),
    decreases k,
{
    if k > 0 {
        assert(e[0].0 != e[k].0);
        assert forall|j: int| 0 <= j < k - 1 implies #[trigger] e.drop_first()[j].0 != e.drop_first()[k - 1].0 by {
            assert(e.drop_first()[j] == e[j + 1]);
        }
        lemma_lookup_at(e.drop_first(), k - 1);
    }
}

/// Each colour name resolves to its ANSI escape: the reset, the attributes
/// (SGR 1-9), the eight foreground colours (SGR 30-37) and background colours
/// (40-47), their bright forms (90-97 and 100-107, each after its standard
/// code), the bell, the two markers `prev` and `unchanged`, and nothing for
/// `none`.
pub proof fn law_colour_names()
    ensures
        colour_of(colour_entries(), "none"@) == Some(""@),
        colour_of(colour_entries(), "default"@) == Some("\x1b[0m"@),
        colour_of(colour_entries(), "bold"@) == Some("\x1b[1m"@),
        colour_of(colour_entries(), "underline"@) == Some("\x1b[4m"@),
        colour_of(colour_entries(), "blink"@) == Some("\x1b[5m"@),
        colour_of(colour_entries(), "reverse"@) == Some("\x1b[7m"@),
        colour_of(colour_entries(), "concealed"@) == Some("\x1b[8m"@),
        colour_of(colour_entries(), "black"@) == Some("\x1b[30m"@),
        colour_of(colour_entries(), "red"@) == Some("\x1b[31m"@),
        colour_of(colour_entries(), "green"@) == Some("\x1b[32m"@),
        colour_of(colour_entries(), "yellow"@) == Some("\x1b[33m"@),
        colour_of(colour_entries(), "blue"@) == Some("\x1b[34m"@),
        colour_of(colour_entries(), "magenta"@) == Some("\x1b[35m"@),
        colour_of(colour_entries(), "cyan"@) == Some("\x1b[36m"@),
        colour_of(colour_entries(), "white"@) == Some("\x1b[37m"@),
        colour_of(colour_entries(), "on_black"@) == Some("\x1b[40m"@),
        colour_of(colour_entries(), "on_red"@) == Some("\x1b[41m"@),
        colour_of(colour_entries(), "on_green"@) == Some("\x1b[42m"@),
        colour_of(colour_entries(), "on_yellow"@) == Some("\x1b[43m"@),
        colour_of(colour_entries(), "on_blue"@) == Some("\x1b[44m"@),
        colour_of(colour_entries(), "on_magenta"@) == Some("\x1b[45m"@),
        colour_of(colour_entries(), "on_cyan"@) == Some("\x1b[46m"@),
        colour_of(colour_entries(), "on_white"@) == Some("\x1b[47m"@),
        colour_of(colour_entries(), "beep"@) == Some("\x07"@),
        colour_of(colour_entries(), "previous"@) == Some("prev"@),
        colour_of(colour_entries(), "unchanged"@) == Some("unchanged"@),
        colour_of(colour_entries(), "dark"@) == Some("\x1b[2m"@),
        colour_of(colour_entries(), "italic"@) == Some("\x1b[3m"@),
        colour_of(colour_entries(), "rapidblink"@) == Some("\x1b[6m"@),
        colour_of(colour_entries(), "strikethrough"@) == Some("\x1b[9m"@),
        colour_of(colour_entries(), "bright_black"@) == Some("\x1b[30;90m"@),
        colour_of(colour_entries(), "bright_red"@) == Some("\x1b[31;91m"@),
        colour_of(colour_entries(), "bright_green"@) == Some("\x1b[32;92m"@),
        colour_of(colour_entries(), "bright_yellow"@) == Some("\x1b[33;93m"@),
        colour_of(colour_entries(), "bright_blue"@) == Some("\x1b[34;94m"@),
        colour_of(colour_entries(), "bright_magenta"@) == Some("\x1b[35;95m"@),
        colour_of(colour_entries(), "bright_cyan"@) == Some("\x1b[36;96m"@),
        colour_of(colour_entries(), "bright_white"@) == Some("\x1b[37;97m"@),
        colour_of(colour_entries(), "on_bright_black"@) == Some("\x1b[40;100m"@),
        colour_of(colour_entries(), "on_bright_red"@) == Some("\x1b[41;101m"@),
        colour_of(colour_entries(), "on_bright_green"@) == Some("\x1b[42;102m"@),
        colour_of(colour_entries(), "on_bright_yellow"@) == Some("\x1b[43;103m"@),
        colour_of(colour_entries(), "on_bright_blue"@) == Some("\x1b[44;104m"@),
        colour_of(colour_entries(), "on_bright_magenta"@) == Some("\x1b[45;105m"@),
        colour_of(colour_entries(), "on_bright_cyan"@) == Some("\x1b[46;106m"@),
        colour_of(colour_entries(), "on_bright_white"@) == Some("\x1b[47;107m"@),
{
    reveal_strlit("");
    reveal_strlit("\x07");
    reveal_strlit("\x1b[0m");
    reveal_strlit("\x1b[1m");
    reveal_strlit("\x1b[2m");
    reveal_strlit("\x1b[30;90m");
    reveal_strlit("\x1b[30m");
    reveal_strlit("\x1b[31;91m");
    reveal_strlit("\x1b[31m");
    reveal_strlit("\x1b[32;92m");
    reveal_strlit("\x1b[32m");
    reveal_strlit("\x1b[33;93m");
    reveal_strlit("\x1b[33m");
    reveal_strlit("\x1b[34;94m");
    reveal_strlit("\x1b[34m");
    reveal_strlit("\x1b[35;95m");
    reveal_strlit("\x1b[35m");
    reveal_strlit("\x1b[36;96m");
    reveal_strlit("\x1b[36m");
    reveal_strlit("\x1b[37;97m");
    reveal_strlit("\x1b[37m");
    reveal_strlit("\x1b[3m");
    reveal_strlit("\x1b[40;100m");
    reveal_strlit("\x1b[40m");
    reveal_strlit("\x1b[41;101m");
    reveal_strlit("\x1b[41m");
    reveal_strlit("\x1b[42;102m");
    reveal_strlit("\x1b[42m");
    reveal_strlit("\x1b[43;103m");
    reveal_strlit("\x1b[43m");
    reveal_strlit("\x1b[44;104m");
    reveal_strlit("\x1b[44m");
    reveal_strlit("\x1b[45;105m");
    reveal_strlit("\x1b[45m");
    reveal_strlit("\x1b[46;106m");
    reveal_strlit("\x1b[46m");
    reveal_strlit("\x1b[47;107m");
    reveal_strlit("\x1b[47m");
    reveal_strlit("\x1b[4m");
    reveal_strlit("\x1b[5m");
    reveal_strlit("\x1b[6m");
    reveal_strlit("\x1b[7m");
    reveal_strlit("\x1b[8m");
    reveal_strlit("\x1b[9m");
    reveal_strlit("beep");
    reveal_strlit("black");
    reveal_strlit("blink");
    reveal_strlit("blue");
    reveal_strlit("bold");
    reveal_strlit("bright_black");
    reveal_strlit("bright_blue");
    reveal_strlit("bright_cyan");
    reveal_strlit("bright_green");
    reveal_strlit("bright_magenta");
    reveal_strlit("bright_red");
    reveal_strlit("bright_white");
    reveal_strlit("bright_yellow");
    reveal_strlit("concealed");
    reveal_strlit("cyan");
    reveal_strlit("dark");
    reveal_strlit("default");
    reveal_strlit("green");
    reveal_strlit("italic");
    reveal_strlit("magenta");
    reveal_strlit("none");
    reveal_strlit("on_black");
    reveal_strlit("on_blue");
    reveal_strlit("on_bright_black");
    reveal_strlit("on_bright_blue");
    reveal_strlit("on_bright_cyan");
    reveal_strlit("on_bright_green");
    reveal_strlit("on_bright_magenta");
    reveal_strlit("on_bright_red");
    reveal_strlit("on_bright_white");
    reveal_strlit("on_bright_yellow");
    reveal_strlit("on_cyan");
    reveal_strlit("on_green");
    reveal_strlit("on_magenta");
    reveal_strlit("on_red");
    reveal_strlit("on_white");
    reveal_strlit("on_yellow");
    reveal_strlit("prev");
    reveal_strlit("previous");
    reveal_strlit("rapidblink");
    reveal_strlit("red");
    reveal_strlit("reverse");
    reveal_strlit("strikethrough");
    reveal_strlit("unchanged");
    reveal_strlit("underline");
    reveal_strlit("white");
    reveal_strlit("yellow");
    let e = colour_entries();
    lemma_lookup_at(e, 0);
    lemma_lookup_at(e, 1);
    assert(e[0].0[0] != e[2].0[0]);
    lemma_lookup_at(e, 2);
    lemma_lookup_at(e, 3);
    lemma_lookup_at(e, 4);
    assert(e[1].0[0] != e[5].0[0]);
    lemma_lookup_at(e, 5);
    assert(e[3].0[0] != e[6].0[0]);
    lemma_lookup_at(e, 6);
    assert(e[4].0[2] != e[7].0[2]);
    lemma_lookup_at(e, 7);
    lemma_lookup_at(e, 8);
    assert(e[4].0[0] != e[9].0[0]);
    assert(e[7].0[0] != e[9].0[0]);
    lemma_lookup_at(e, 9);
    lemma_lookup_at(e, 10);
    assert(e[0].0[0] != e[11].0[0]);
    assert(e[2].0[1] != e[11].0[1]);
    lemma_lookup_at(e, 11);
    assert(e[1].0[0] != e[12].0[0]);
    assert(e[5].0[0] != e[12].0[0]);
    lemma_lookup_at(e, 12);
    assert(e[0].0[0] != e[13].0[0]);
    assert(e[2].0[0] != e[13].0[0]);
    assert(e[11].0[0] != e[13].0[0]);
    lemma_lookup_at(e, 13);
    assert(e[4].0[0] != e[14].0[0]);
    assert(e[7].0[0] != e[14].0[0]);
    assert(e[9].0[0] != e[14].0[0]);
    lemma_lookup_at(e, 14);
    lemma_lookup_at(e, 15);
    assert(e[10].0[0] != e[16].0[0]);
    lemma_lookup_at(e, 16);
    assert(e[15].0[3] != e[17].0[3]);
    lemma_lookup_at(e, 17);
    assert(e[3].0[0] != e[18].0[0]);
    assert(e[6].0[0] != e[18].0[0]);
    lemma_lookup_at(e, 18);
    assert(e[1].0[0] != e[19].0[0]);
    assert(e[5].0[0] != e[19].0[0]);
    assert(e[12].0[0] != e[19].0[0]);
    lemma_lookup_at(e, 19);
    lemma_lookup_at(e, 20);
    assert(e[1].0[0] != e[21].0[0]);
    assert(e[5].0[0] != e[21].0[0]);
    assert(e[12].0[0] != e[21].0[0]);
    assert(e[19].0[3] != e[21].0[3]);
    lemma_lookup_at(e, 21);
    assert(e[15].0[3] != e[22].0[3]);
    assert(e[17].0[3] != e[22].0[3]);
    lemma_lookup_at(e, 22);
    assert(e[0].0[0] != e[23].0[0]);
    assert(e[2].0[1] != e[23].0[1]);
    assert(e[11].0[1] != e[23].0[1]);
    assert(e[13].0[0] != e[23].0[0]);
    lemma_lookup_at(e, 23);
    assert(e[15].0[0] != e[24].0[0]);
    assert(e[17].0[0] != e[24].0[0]);
    assert(e[22].0[0] != e[24].0[0]);
    lemma_lookup_at(e, 24);
    assert(e[3].0[2] != e[25].0[2]);
    assert(e[6].0[0] != e[25].0[0]);
    assert(e[18].0[0] != e[25].0[0]);
    lemma_lookup_at(e, 25);
    assert(e[0].0[0] != e[26].0[0]);
    assert(e[2].0[0] != e[26].0[0]);
    assert(e[11].0[0] != e[26].0[0]);
    assert(e[13].0[0] != e[26].0[0]);
    assert(e[23].0[0] != e[26].0[0]);
    lemma_lookup_at(e, 26);
    assert(e[10].0[0] != e[27].0[0]);
    assert(e[16].0[0] != e[27].0[0]);
    lemma_lookup_at(e, 27);
    assert(e[20].0[0] != e[28].0[0]);
    lemma_lookup_at(e, 28);
    lemma_lookup_at(e, 29);
    lemma_lookup_at(e, 30);
    assert(e[20].0[0] != e[31].0[0]);
    assert(e[28].0[0] != e[31].0[0]);
    lemma_lookup_at(e, 31);
    assert(e[30].0[7] != e[32].0[7]);
    lemma_lookup_at(e, 32);
    assert(e[29].0[0] != e[33].0[0]);
    lemma_lookup_at(e, 33);
    lemma_lookup_at(e, 34);
    lemma_lookup_at(e, 35);
    assert(e[34].0[7] != e[36].0[7]);
    lemma_lookup_at(e, 36);
    assert(e[30].0[7] != e[37].0[7]);
    assert(e[32].0[7] != e[37].0[7]);
    lemma_lookup_at(e, 37);
    lemma_lookup_at(e, 38);
    assert(e[29].0[0] != e[39].0[0]);
    assert(e[33].0[0] != e[39].0[0]);
    lemma_lookup_at(e, 39);
    assert(e[38].0[10] != e[40].0[10]);
    lemma_lookup_at(e, 40);
    lemma_lookup_at(e, 41);
    assert(e[35].0[0] != e[42].0[0]);
    lemma_lookup_at(e, 42);
    lemma_lookup_at(e, 43);
    assert(e[35].0[0] != e[44].0[0]);
    assert(e[42].0[10] != e[44].0[10]);
    lemma_lookup_at(e, 44);
    assert(e[38].0[10] != e[45].0[10]);
    assert(e[40].0[10] != e[45].0[10]);
    lemma_lookup_at(e, 45);
}

} // verus!
