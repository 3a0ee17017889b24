use vstd::prelude::*;

use crate::config::{entries_view, BingoConfig, Executable, ExecutableType};
use crate::error::{BingoError, BingoResult};
use crate::model::{ConfigView, EntryView};

verus! {

/// Relies on `String::push`: appends the given character to the end of the
/// string.
pub assume_specification[ String::push ](s: &mut String, c: char)
    ensures
        final(s)@ == old(s)@.push(c),
;

/// Relies on `char::from_u32`: the character with the given code where the
/// code is a Unicode scalar value (not a surrogate, not above 0x10ffff),
/// and `None` otherwise.
pub assume_specification[ char::from_u32 ](v: u32) -> (r: Option<char>)
    ensures
        r matches Some(c) ==> c as u32 == v,
        r is Some <==> (v < 0xD800 || (0xE000 <= v && v <= 0x10FFFF)),
;

/// The lower-case hexadecimal digit of a value below sixteen.
pub open spec fn hex_char(v: nat) -> char {
    if v == 0 {
        '0'
    } else if v == 1 {
        '1'
    } else if v == 2 {
        '2'
    } else if v == 3 {
        '3'
    } else if v == 4 {
        '4'
    } else if v == 5 {
        '5'
    } else if v == 6 {
        '6'
    } else if v == 7 {
        '7'
    } else if v == 8 {
        '8'
    } else if v == 9 {
        '9'
    } else if v == 10 {
        'a'
    } else if v == 11 {
        'b'
    } else if v == 12 {
        'c'
    } else if v == 13 {
        'd'
    } else if v == 14 {
        'e'
    } else {
        'f'
    }
}

/// A character that is emitted as itself inside a quoted document string.
pub open spec fn plain_char(c: char) -> bool {
    c != '"' && c != '\\' && c as u32 >= 32
}

/// The escape of one character inside a quoted document string: quote and
/// backslash get a backslash, control characters a `\u00xx` form, the rest
/// stand as they are.
pub open spec fn esc_char(c: char) -> Seq<char> {
    if c == '"' {
        seq!['\\', '"']
    } else if c == '\\' {
        seq!['\\', '\\']
    } else if (c as u32) < 32 {
        let hi = hex_char(((c as u32) / 16) as nat);
        let lo = hex_char(((c as u32) % 16) as nat);
        seq!['\\', 'u', '0', '0', hi, lo]
    } else {
        seq![c]
    }
}

/// The escape of a whole string.
pub open spec fn esc(s: Seq<char>) -> Seq<char>
    decreases s.len(),
{
    if s.len() == 0 {
        Seq::empty()
    } else {
        esc_char(s[0]) + esc(s.skip(1))
    }
}

/// The document name of a materialization mode.
pub open spec fn ty_doc(t: ExecutableType) -> Seq<char> {
    if t is LinkBinary {
        "LinkBinary"@
    } else {
        "Binary"@
    }
}

/// The materialization mode a document name means. Unknown names mean copy:
/// deserialization is lenient.
pub open spec fn interp_ty(ty: Seq<char>) -> ExecutableType {
    if ty == "LinkBinary"@ {
        ExecutableType::LinkBinary
    } else {
        ExecutableType::Binary
    }
}

/// One entry as the document carries it: the mode is an arbitrary string,
/// not yet interpreted.
pub struct RawEntry {
    pub name: Seq<char>,
    pub path: Seq<char>,
    pub ty: Seq<char>,
}

/// The document text of one entry.
pub open spec fn raw_entry_doc(r: RawEntry) -> Seq<char> {
    "    {\n      \"name\": \""@ + esc(r.name) + "\",\n      \"path\": \""@ + esc(r.path)
        + "\",\n      \"executable_type\": \""@ + esc(r.ty) + "\"\n    }"@
}

/// The document text of a non-empty run of entries, joined by commas.
pub open spec fn raw_entries_doc(rs: Seq<RawEntry>) -> Seq<char>
    decreases rs.len(),
{
    if rs.len() == 0 {
        Seq::empty()
    } else if rs.len() == 1 {
        raw_entry_doc(rs[0])
    } else {
        raw_entry_doc(rs[0]) + ",\n"@ + raw_entries_doc(rs.skip(1))
    }
}

/// The whole manifest document over raw entries.
pub open spec fn raw_doc(version: Seq<char>, rs: Seq<RawEntry>) -> Seq<char> {
    "{\n  \"version\": \""@ + esc(version) + "\",\n  \"executables\": "@ + (if rs.len() == 0 {
        "[]"@
    } else {
        "[\n"@ + raw_entries_doc(rs) + "\n  ]"@
    }) + "\n}"@
}

/// One entry in the form the manifest document gives it.
pub open spec fn canon_entry(e: EntryView) -> RawEntry {
    RawEntry { name: e.name, path: e.path, ty: ty_doc(e.executable_type) }
}

/// A registry's entries in the form the manifest document gives them.
pub open spec fn canonical_raw(es: Seq<EntryView>) -> Seq<RawEntry> {
    es.map_values(|e: EntryView| canon_entry(e))
}

/// The manifest document of a registry.
pub open spec fn doc_of(c: ConfigView) -> Seq<char> {
    raw_doc(c.version, canonical_raw(c.entries))
}

/// The raw entries of the document mean these registry entries.
pub open spec fn interp_raw(rs: Seq<RawEntry>) -> Seq<EntryView> {
    rs.map_values(
        |r: RawEntry| EntryView { name: r.name, path: r.path, executable_type: interp_ty(r.ty) },
    )
}

/// Escaping distributes over concatenation.
pub proof fn lemma_esc_append(a: Seq<char>, b: Seq<char>)
    ensures
        esc(a + b) == esc(a) + esc(b),
    decreases a.len(),
{
    if a.len() == 0 {
        assert(a + b =~= b);
        assert(esc(a) + esc(b) =~= esc(b));
    } else {
        assert((a + b).skip(1) =~= a.skip(1) + b);
        lemma_esc_append(a.skip(1), b);
        assert(esc(a + b) =~= esc(a) + esc(b));
    }
}

/// The escape of a one-character string is that character's escape.
pub proof fn lemma_esc_singleton(c: char)
    ensures
        esc(seq![c]) == esc_char(c),
{
    let t = seq![c];
    assert(t.skip(1) =~= Seq::<char>::empty());
    assert(esc(t.skip(1)) == Seq::<char>::empty());
    assert(t.len() == 1 && t[0] == c);
    assert(esc(t) == esc_char(c) + esc(t.skip(1)));
    assert(esc_char(c) + Seq::<char>::empty() =~= esc_char(c));
}

/// Escaping a string of plain characters changes nothing.
pub proof fn lemma_esc_plain(s: Seq<char>)
    requires
        forall|i: int| 0 <= i < s.len() ==> plain_char(s[i]),
    ensures
        esc(s) == s,
    decreases s.len(),
{
    if s.len() == 0 {
        assert(esc(s) =~= s);
    } else {
        assert(plain_char(s[0]));
        lemma_esc_plain(s.skip(1));
        assert(esc(s) =~= s);
    }
}

/// Appending one entry to a joined run appends a comma and the entry.
pub proof fn lemma_entries_doc_snoc(rs: Seq<RawEntry>, x: RawEntry)
    ensures
        raw_entries_doc(rs.push(x)) == if rs.len() == 0 {
            raw_entry_doc(x)
        } else {
            raw_entries_doc(rs) + ",\n"@ + raw_entry_doc(x)
        },
    decreases rs.len(),
{
    if rs.len() == 0 {
        assert(rs.push(x)[0] == x);
    } else if rs.len() == 1 {
        assert(rs.push(x).skip(1) =~= seq![x]);
        assert(raw_entries_doc(rs.push(x).skip(1)) == raw_entry_doc(x));
        assert(raw_entries_doc(rs.push(x)) == raw_entry_doc(rs[0]) + ",\n"@ + raw_entry_doc(x));
        assert(raw_entries_doc(rs) == raw_entry_doc(rs[0]));
    } else {
        assert(rs.push(x).skip(1) =~= rs.skip(1).push(x));
        lemma_entries_doc_snoc(rs.skip(1), x);
        assert(raw_entries_doc(rs.push(x)) =~= raw_entries_doc(rs) + ",\n"@ + raw_entry_doc(x));
    }
}

/// The lower-case hexadecimal digit of a value below sixteen, as a slice.
fn hex_str(v: u8) -> (r: &'static str)
    requires
        v < 16,
    ensures
        r@ == seq![hex_char(v as nat)],
{
    let r: &'static str = match v {
        0 => "0",
        1 => "1",
        2 => "2",
        3 => "3",
        4 => "4",
        5 => "5",
        6 => "6",
        7 => "7",
        8 => "8",
        9 => "9",
        10 => "a",
        11 => "b",
        12 => "c",
        13 => "d",
        14 => "e",
        _ => "f",
    };
    proof {
        reveal_strlit("0");
        reveal_strlit("1");
        reveal_strlit("2");
        reveal_strlit("3");
        reveal_strlit("4");
        reveal_strlit("5");
        reveal_strlit("6");
        reveal_strlit("7");
        reveal_strlit("8");
        reveal_strlit("9");
        reveal_strlit("a");
        reveal_strlit("b");
        reveal_strlit("c");
        reveal_strlit("d");
        reveal_strlit("e");
        reveal_strlit("f");
        assert(r@ =~= seq![hex_char(v as nat)]);
    }
    r
}

/// Writes the escape of `s` onto the end of `out`.
fn escape_into(s: &str, out: &mut String)
    ensures
        final(out)@ == old(out)@ + esc(s@),
{
    let n = s.unicode_len();
    let mut i: usize = 0;
    proof {
        assert(s@.take(0) =~= Seq::<char>::empty());
        assert(out@ + esc(s@.take(0)) =~= out@);
    }
    while i < n
        invariant
            n == s@.len(),
            0 <= i <= n,
            out@ == old(out)@ + esc(s@.take(i as int)),
        decreases n - i,
    {
        let c = s.get_char(i);
        proof {
            assert(s@.take(i + 1) =~= s@.take(i as int) + seq![c]);
            lemma_esc_append(s@.take(i as int), seq![c]);
            lemma_esc_singleton(c);
        }
        if c == '"' {
            out.append("\\\"");
            proof {
                reveal_strlit("\\\"");
                assert("\\\""@ =~= esc_char(c));
                assert(out@ =~= old(out)@ + esc(s@.take(i + 1)));
            }
        } else if c == '\\' {
            out.append("\\\\");
            proof {
                reveal_strlit("\\\\");
                assert("\\\\"@ =~= esc_char(c));
                assert(out@ =~= old(out)@ + esc(s@.take(i + 1)));
            }
        } else {
            let cu = c as u32;
            if cu < 32 {
                out.append("\\u00");
                let hi = (cu / 16) as u8;
                let lo = (cu % 16) as u8;
                out.append(hex_str(hi));
                out.append(hex_str(lo));
                proof {
                    reveal_strlit("\\u00");
                    assert("\\u00"@ + seq![hex_char(hi as nat)] + seq![hex_char(lo as nat)]
                        =~= esc_char(c));
                    assert(out@ =~= old(out)@ + esc(s@.take(i + 1)));
                }
            } else {
                let piece = s.substring_char(i, i + 1);
                out.append(piece);
                proof {
                    assert(piece@ =~= esc_char(c));
                    assert(out@ =~= old(out)@ + esc(s@.take(i + 1)));
                }
            }
        }
        i += 1;
    }
    proof {
        assert(s@.take(n as int) =~= s@);
    }
}

/// Writes the document text of one entry onto the end of `out`.
fn append_entry(e: &Executable, out: &mut String)
    ensures
        final(out)@ == old(out)@ + raw_entry_doc(canon_entry(e@)),
{
    out.append("    {\n      \"name\": \"");
    escape_into(e.name.as_str(), out);
    out.append("\",\n      \"path\": \"");
    escape_into(e.path.as_str(), out);
    out.append("\",\n      \"executable_type\": \"");
    match e.executable_type {
        ExecutableType::Binary => out.append("Binary"),
        ExecutableType::LinkBinary => out.append("LinkBinary"),
    }
    out.append("\"\n    }");
    proof {
        reveal_strlit("Binary");
        reveal_strlit("LinkBinary");
        assert forall|k: int| 0 <= k < ty_doc(e@.executable_type).len() implies plain_char(
            ty_doc(e@.executable_type)[k],
        ) by {}
        lemma_esc_plain(ty_doc(e@.executable_type));
        assert(out@ =~= old(out)@ + raw_entry_doc(canon_entry(e@)));
    }
}

/// Distinct digit values have distinct digits.
proof fn lemma_hex_char_injective(x: nat, y: nat)
    requires
        x < 16,
        y < 16,
        hex_char(x) == hex_char(y),
    ensures
        x == y,
{
}

/// The shape of one character's escape: one, two or six characters long,
/// never starting with a quote, starting with a backslash exactly for the
/// characters that are not emitted as themselves.
proof fn lemma_esc_char_head(c: char)
    ensures
        esc_char(c).len() == 1 || esc_char(c).len() == 2 || esc_char(c).len() == 6,
        esc_char(c)[0] != '"',
        plain_char(c) ==> esc_char(c) == seq![c],
        !plain_char(c) ==> esc_char(c)[0] == '\\',
        c == '"' ==> esc_char(c)[1] == '"' && esc_char(c).len() == 2,
        c == '\\' ==> esc_char(c)[1] == '\\' && esc_char(c).len() == 2,
        c != '"' && c != '\\' && !plain_char(c) ==> esc_char(c)[1] == 'u' && esc_char(c).len()
            == 6 && esc_char(c)[4] == hex_char((c as u32 / 16) as nat) && esc_char(c)[5]
            == hex_char((c as u32 % 16) as nat),
{
}

/// Equal sequences with an equal front have equal backs.
proof fn lemma_concat_cancel_left(p: Seq<char>, s1: Seq<char>, s2: Seq<char>)
    requires
        p + s1 == p + s2,
    ensures
        s1 == s2,
{
    assert((p + s1).len() == p.len() + s1.len());
    assert((p + s2).len() == p.len() + s2.len());
    assert(s1.len() == s2.len());
    assert forall|j: int| 0 <= j < s1.len() implies s1[j] == s2[j] by {
        assert(0 <= j < s2.len());
        assert((p + s1)[p.len() + j] == s1[j]);
        assert((p + s2)[p.len() + j] == s2[j]);
    }
    assert(s1 =~= s2);
}

/// A quoted body followed by its closing quote reads back in only one way:
/// the writer's escaping is unambiguous.
pub proof fn lemma_esc_quote_unambiguous(t1: Seq<char>, t2: Seq<char>, r1: Seq<char>, r2: Seq<char>)
    requires
        esc(t1) + seq!['"'] + r1 == esc(t2) + seq!['"'] + r2,
    ensures
        t1 == t2,
        r1 == r2,
    decreases t1.len(),
{
    let x = esc(t1) + seq!['"'] + r1;
    if t1.len() == 0 {
        assert(esc(t1).len() == 0);
        assert(x[0] == '"');
        if t2.len() > 0 {
            lemma_esc_char_head(t2[0]);
            assert(x =~= esc_char(t2[0]) + (esc(t2.skip(1)) + seq!['"'] + r2));
            assert(x[0] == esc_char(t2[0])[0]);
            assert(false);
        }
        assert(esc(t2).len() == 0);
        assert(seq!['"'] + r1 =~= seq!['"'] + r2);
        lemma_concat_cancel_left(seq!['"'], r1, r2);
        assert(t1 =~= t2);
    } else if t2.len() == 0 {
        lemma_esc_char_head(t1[0]);
        assert(x =~= esc_char(t1[0]) + (esc(t1.skip(1)) + seq!['"'] + r1));
        assert(x[0] == esc_char(t1[0])[0]);
        assert((esc(t2) + seq!['"'] + r2)[0] == '"');
        assert(false);
    } else {
        let a = t1[0];
        let b = t2[0];
        lemma_esc_char_head(a);
        lemma_esc_char_head(b);
        let y1 = esc(t1.skip(1)) + seq!['"'] + r1;
        let y2 = esc(t2.skip(1)) + seq!['"'] + r2;
        assert(x =~= esc_char(a) + y1);
        assert(x =~= esc_char(b) + y2);
        assert(x[0] == esc_char(a)[0]);
        assert(x[0] == esc_char(b)[0]);
        if plain_char(a) {
            if !plain_char(b) {
                assert(a == '\\');
                assert(false);
            }
            assert(a == b);
        } else {
            if plain_char(b) {
                assert(b == '\\');
                assert(false);
            }
            assert(x[1] == esc_char(a)[1]);
            assert(x[1] == esc_char(b)[1]);
            if a == '"' {
                assert(b != '\\');
                if b != '"' {
                    assert(esc_char(b)[1] == 'u');
                    assert(false);
                }
            } else if a == '\\' {
                assert(b != '"');
                if b != '\\' {
                    assert(esc_char(b)[1] == 'u');
                    assert(false);
                }
            } else {
                assert(esc_char(a)[1] == 'u');
                if b == '"' || b == '\\' {
                    assert(esc_char(b)[1] != 'u');
                    assert(false);
                }
                assert((a as u32) < 32 && (b as u32) < 32);
                assert(x[4] == esc_char(a)[4]);
                assert(x[4] == esc_char(b)[4]);
                assert(x[5] == esc_char(a)[5]);
                assert(x[5] == esc_char(b)[5]);
                assert((a as u32) / 16 < 16 && (b as u32) / 16 < 16);
                lemma_hex_char_injective((a as u32 / 16) as nat, (b as u32 / 16) as nat);
                lemma_hex_char_injective((a as u32 % 16) as nat, (b as u32 % 16) as nat);
                assert(a as u32 == 16 * (a as u32 / 16) + (a as u32 % 16));
                assert(b as u32 == 16 * (b as u32 / 16) + (b as u32 % 16));
                assert(a as u32 == b as u32);
                vstd::utf8::char_u32_cast(a, a as u32);
                vstd::utf8::char_u32_cast(b, b as u32);
                assert(a == b);
            }
        }
        assert(a == b);
        assert(esc_char(a) + y1 == esc_char(a) + y2);
        lemma_concat_cancel_left(esc_char(a), y1, y2);
        lemma_esc_quote_unambiguous(t1.skip(1), t2.skip(1), r1, r2);
        assert(t1.len() == t2.len());
        assert forall|j: int| 0 <= j < t1.len() implies t1[j] == t2[j] by {
            if j > 0 {
                assert(t1.skip(1)[j - 1] == t2.skip(1)[j - 1]);
            }
        }
        assert(t1 =~= t2);
    }
}

/// Two escape streams that begin with the escapes of two characters begin
/// with the same character: an escape stream determines its first token.
proof fn lemma_esc_head_token(a: char, b: char, x: Seq<char>, y: Seq<char>)
    requires
        esc_char(a) + x == esc_char(b) + y,
    ensures
        a == b,
        x == y,
{
    let s = esc_char(a) + x;
    lemma_esc_char_head(a);
    lemma_esc_char_head(b);
    assert(s[0] == esc_char(a)[0]);
    assert(s[0] == esc_char(b)[0]);
    if plain_char(a) {
        if !plain_char(b) {
            assert(a == '\\');
            assert(false);
        }
        assert(a == b);
    } else {
        if plain_char(b) {
            assert(b == '\\');
            assert(false);
        }
        assert(s[1] == esc_char(a)[1]);
        assert(s[1] == esc_char(b)[1]);
        if a == '"' {
            assert(b != '\\');
            if b != '"' {
                assert(esc_char(b)[1] == 'u');
                assert(false);
            }
        } else if a == '\\' {
            assert(b != '"');
            if b != '\\' {
                assert(esc_char(b)[1] == 'u');
                assert(false);
            }
        } else {
            assert(esc_char(a)[1] == 'u');
            if b == '"' || b == '\\' {
                assert(esc_char(b)[1] != 'u');
                assert(false);
            }
            assert((a as u32) < 32 && (b as u32) < 32);
            assert(s[4] == esc_char(a)[4]);
            assert(s[4] == esc_char(b)[4]);
            assert(s[5] == esc_char(a)[5]);
            assert(s[5] == esc_char(b)[5]);
            assert((a as u32) / 16 < 16 && (b as u32) / 16 < 16);
            lemma_hex_char_injective(((a as u32) / 16) as nat, ((b as u32) / 16) as nat);
            lemma_hex_char_injective(((a as u32) % 16) as nat, ((b as u32) % 16) as nat);
            assert(a as u32 == 16 * ((a as u32) / 16) + ((a as u32) % 16));
            assert(b as u32 == 16 * ((b as u32) / 16) + ((b as u32) % 16));
            assert(a as u32 == b as u32);
            vstd::utf8::char_u32_cast(a, a as u32);
            vstd::utf8::char_u32_cast(b, b as u32);
            assert(a == b);
        }
    }
    assert(a == b);
    lemma_concat_cancel_left(esc_char(a), x, y);
}

/// An escape stream never has a bare quote at a token boundary: no whole
/// escape stream equals a shorter one, then a quote, then anything.
proof fn lemma_esc_no_embedded_quote(t: Seq<char>, u: Seq<char>, w: Seq<char>)
    ensures
        esc(u) != esc(t) + seq!['"'] + w,
    decreases t.len(),
{
    if esc(u) == esc(t) + seq!['"'] + w {
        if u.len() == 0 {
            assert(esc(u).len() == 0);
            assert((esc(t) + seq!['"'] + w).len() > 0);
            assert(false);
        } else if t.len() == 0 {
            assert(esc(t).len() == 0);
            lemma_esc_char_head(u[0]);
            assert(esc(u) =~= esc_char(u[0]) + esc(u.skip(1)));
            assert(esc(u)[0] == esc_char(u[0])[0]);
            assert((esc(t) + seq!['"'] + w)[0] == '"');
            assert(false);
        } else {
            lemma_esc_char_head(t[0]);
            lemma_esc_char_head(u[0]);
            assert(esc(u) =~= esc_char(u[0]) + esc(u.skip(1)));
            assert(esc(t) + seq!['"'] + w =~= esc_char(t[0]) + (esc(t.skip(1)) + seq!['"'] + w));
            lemma_esc_head_token(u[0], t[0], esc(u.skip(1)), esc(t.skip(1)) + seq!['"'] + w);
            lemma_esc_no_embedded_quote(t.skip(1), u.skip(1), w);
            assert(false);
        }
    }
}

/// What follows a whole escape stream inside a longer one is itself a
/// non-empty escape stream.
proof fn lemma_esc_strip(t: Seq<char>, u: Seq<char>, w: Seq<char>)
    requires
        esc(t) == esc(u) + w,
        w.len() > 0,
    ensures
        exists|t2: Seq<char>| t2.len() > 0 && w == esc(t2),
    decreases u.len(),
{
    if u.len() == 0 {
        assert(esc(u).len() == 0);
        assert(w =~= esc(t));
        assert(t.len() > 0);
        assert(t.len() > 0 && w == esc(t));
    } else {
        if t.len() == 0 {
            assert(esc(t).len() == 0);
            assert((esc(u) + w).len() > 0);
            assert(false);
        }
        lemma_esc_char_head(t[0]);
        lemma_esc_char_head(u[0]);
        assert(esc(t) =~= esc_char(t[0]) + esc(t.skip(1)));
        assert(esc(u) + w =~= esc_char(u[0]) + (esc(u.skip(1)) + w));
        lemma_esc_head_token(t[0], u[0], esc(t.skip(1)), esc(u.skip(1)) + w);
        lemma_esc_strip(t.skip(1), u.skip(1), w);
    }
}

/// One entry's document text reads back in only one way.
proof fn lemma_entry_doc_unambiguous(e1: RawEntry, e2: RawEntry, r1: Seq<char>, r2: Seq<char>)
    requires
        raw_entry_doc(e1) + r1 == raw_entry_doc(e2) + r2,
    ensures
        e1 == e2,
        r1 == r2,
{
    reveal_strlit("    {\n      \"name\": \"");
    reveal_strlit("\",\n      \"path\": \"");
    reveal_strlit("\",\n      \"executable_type\": \"");
    reveal_strlit("\"\n    }");
    let ka = "\",\n      \"path\": \""@.skip(1);
    let kb = "\",\n      \"executable_type\": \""@.skip(1);
    let kc = "\"\n    }"@.skip(1);
    assert("\",\n      \"path\": \""@ =~= seq!['"'] + ka);
    assert("\",\n      \"executable_type\": \""@ =~= seq!['"'] + kb);
    assert("\"\n    }"@ =~= seq!['"'] + kc);
    let w1 = ka + esc(e1.path) + seq!['"'] + (kb + esc(e1.ty) + seq!['"'] + (kc + r1));
    let w2 = ka + esc(e2.path) + seq!['"'] + (kb + esc(e2.ty) + seq!['"'] + (kc + r2));
    assert(raw_entry_doc(e1) + r1 =~= "    {\n      \"name\": \""@ + (esc(e1.name) + seq!['"']
        + w1));
    assert(raw_entry_doc(e2) + r2 =~= "    {\n      \"name\": \""@ + (esc(e2.name) + seq!['"']
        + w2));
    lemma_concat_cancel_left(
        "    {\n      \"name\": \""@,
        esc(e1.name) + seq!['"'] + w1,
        esc(e2.name) + seq!['"'] + w2,
    );
    lemma_esc_quote_unambiguous(e1.name, e2.name, w1, w2);
    assert(w1 =~= ka + (esc(e1.path) + seq!['"'] + (kb + esc(e1.ty) + seq!['"'] + (kc + r1))));
    assert(w2 =~= ka + (esc(e2.path) + seq!['"'] + (kb + esc(e2.ty) + seq!['"'] + (kc + r2))));
    lemma_concat_cancel_left(
        ka,
        esc(e1.path) + seq!['"'] + (kb + esc(e1.ty) + seq!['"'] + (kc + r1)),
        esc(e2.path) + seq!['"'] + (kb + esc(e2.ty) + seq!['"'] + (kc + r2)),
    );
    lemma_esc_quote_unambiguous(
        e1.path,
        e2.path,
        kb + esc(e1.ty) + seq!['"'] + (kc + r1),
        kb + esc(e2.ty) + seq!['"'] + (kc + r2),
    );
    assert(kb + esc(e1.ty) + seq!['"'] + (kc + r1) =~= kb + (esc(e1.ty) + seq!['"'] + (kc
        + r1)));
    assert(kb + esc(e2.ty) + seq!['"'] + (kc + r2) =~= kb + (esc(e2.ty) + seq!['"'] + (kc
        + r2)));
    lemma_concat_cancel_left(
        kb,
        esc(e1.ty) + seq!['"'] + (kc + r1),
        esc(e2.ty) + seq!['"'] + (kc + r2),
    );
    lemma_esc_quote_unambiguous(e1.ty, e2.ty, kc + r1, kc + r2);
    lemma_concat_cancel_left(kc, r1, r2);
}

/// A non-empty joined run of entries, followed by anything that does not
/// begin like another entry separator, reads back in only one way.
proof fn lemma_entries_doc_unambiguous(
    rs1: Seq<RawEntry>,
    rs2: Seq<RawEntry>,
    r1: Seq<char>,
    r2: Seq<char>,
)
    requires
        rs1.len() > 0,
        rs2.len() > 0,
        raw_entries_doc(rs1) + r1 == raw_entries_doc(rs2) + r2,
        r1.len() > 0 && r1[0] == '\n',
        r2.len() > 0 && r2[0] == '\n',
    ensures
        rs1 == rs2,
        r1 == r2,
    decreases rs1.len(),
{
    reveal_strlit(",\n");
    if rs1.len() == 1 && rs2.len() == 1 {
        lemma_entry_doc_unambiguous(rs1[0], rs2[0], r1, r2);
        assert(rs1 =~= rs2);
    } else if rs1.len() == 1 {
        assert(raw_entries_doc(rs2) + r2 =~= raw_entry_doc(rs2[0]) + (",\n"@ + raw_entries_doc(
            rs2.skip(1),
        ) + r2));
        lemma_entry_doc_unambiguous(
            rs1[0],
            rs2[0],
            r1,
            ",\n"@ + raw_entries_doc(rs2.skip(1)) + r2,
        );
        assert(r1[0] == ',');
        assert(false);
    } else if rs2.len() == 1 {
        assert(raw_entries_doc(rs1) + r1 =~= raw_entry_doc(rs1[0]) + (",\n"@ + raw_entries_doc(
            rs1.skip(1),
        ) + r1));
        lemma_entry_doc_unambiguous(
            rs1[0],
            rs2[0],
            ",\n"@ + raw_entries_doc(rs1.skip(1)) + r1,
            r2,
        );
        assert(r2[0] == ',');
        assert(false);
    } else {
        assert(raw_entries_doc(rs1) + r1 =~= raw_entry_doc(rs1[0]) + (",\n"@ + (raw_entries_doc(
            rs1.skip(1),
        ) + r1)));
        assert(raw_entries_doc(rs2) + r2 =~= raw_entry_doc(rs2[0]) + (",\n"@ + (raw_entries_doc(
            rs2.skip(1),
        ) + r2)));
        lemma_entry_doc_unambiguous(
            rs1[0],
            rs2[0],
            ",\n"@ + (raw_entries_doc(rs1.skip(1)) + r1),
            ",\n"@ + (raw_entries_doc(rs2.skip(1)) + r2),
        );
        lemma_concat_cancel_left(
            ",\n"@,
            raw_entries_doc(rs1.skip(1)) + r1,
            raw_entries_doc(rs2.skip(1)) + r2,
        );
        lemma_entries_doc_unambiguous(rs1.skip(1), rs2.skip(1), r1, r2);
        assert(rs1.len() == rs2.len());
        assert forall|j: int| 0 <= j < rs1.len() implies rs1[j] == rs2[j] by {
            if j > 0 {
                assert(rs1.skip(1)[j - 1] == rs2.skip(1)[j - 1]);
            }
        }
        assert(rs1 =~= rs2);
    }
}

/// Two manifests that read the same are the same: the document pins the
/// version and the raw entries down completely.
pub proof fn lemma_raw_doc_injective(
    v1: Seq<char>,
    rs1: Seq<RawEntry>,
    v2: Seq<char>,
    rs2: Seq<RawEntry>,
)
    requires
        raw_doc(v1, rs1) == raw_doc(v2, rs2),
    ensures
        v1 == v2,
        rs1 == rs2,
{
    reveal_strlit("{\n  \"version\": \"");
    reveal_strlit("\",\n  \"executables\": ");
    reveal_strlit("[]");
    reveal_strlit("[\n");
    reveal_strlit("\n  ]");
    reveal_strlit("\n}");
    let kl = "\",\n  \"executables\": "@.skip(1);
    assert("\",\n  \"executables\": "@ =~= seq!['"'] + kl);
    let arr1 = if rs1.len() == 0 {
        "[]"@
    } else {
        "[\n"@ + raw_entries_doc(rs1) + "\n  ]"@
    };
    let arr2 = if rs2.len() == 0 {
        "[]"@
    } else {
        "[\n"@ + raw_entries_doc(rs2) + "\n  ]"@
    };
    assert(raw_doc(v1, rs1) =~= "{\n  \"version\": \""@ + (esc(v1) + seq!['"'] + (kl + (arr1
        + "\n}"@))));
    assert(raw_doc(v2, rs2) =~= "{\n  \"version\": \""@ + (esc(v2) + seq!['"'] + (kl + (arr2
        + "\n}"@))));
    lemma_concat_cancel_left(
        "{\n  \"version\": \""@,
        esc(v1) + seq!['"'] + (kl + (arr1 + "\n}"@)),
        esc(v2) + seq!['"'] + (kl + (arr2 + "\n}"@)),
    );
    lemma_esc_quote_unambiguous(v1, v2, kl + (arr1 + "\n}"@), kl + (arr2 + "\n}"@));
    lemma_concat_cancel_left(kl, arr1 + "\n}"@, arr2 + "\n}"@);
    if rs1.len() == 0 && rs2.len() == 0 {
        assert(rs1 =~= rs2);
    } else if rs1.len() == 0 {
        assert((arr1 + "\n}"@)[1] == ']');
        assert((arr2 + "\n}"@)[1] == '\n');
        assert(false);
    } else if rs2.len() == 0 {
        assert((arr2 + "\n}"@)[1] == ']');
        assert((arr1 + "\n}"@)[1] == '\n');
        assert(false);
    } else {
        let w = "\n  ]"@ + "\n}"@;
        assert(arr1 + "\n}"@ =~= "[\n"@ + (raw_entries_doc(rs1) + w));
        assert(arr2 + "\n}"@ =~= "[\n"@ + (raw_entries_doc(rs2) + w));
        lemma_concat_cancel_left("[\n"@, raw_entries_doc(rs1) + w, raw_entries_doc(rs2) + w);
        assert(w.len() > 0 && w[0] == '\n');
        lemma_entries_doc_unambiguous(rs1, rs2, w, w);
    }
}

/// The manifest document of a registry determines the registry: saving two
/// different registries never writes the same document.
pub proof fn lemma_doc_of_injective(c1: ConfigView, c2: ConfigView)
    requires
        doc_of(c1) == doc_of(c2),
    ensures
        c1.version == c2.version,
        c1.entries == c2.entries,
{
    lemma_raw_doc_injective(c1.version, canonical_raw(c1.entries), c2.version, canonical_raw(
        c2.entries,
    ));
    reveal_strlit("Binary");
    reveal_strlit("LinkBinary");
    assert forall|k: int| 0 <= k < c1.entries.len() implies c1.entries[k] == c2.entries[k] by {
        assert(canonical_raw(c1.entries)[k] == canon_entry(c1.entries[k]));
        assert(canonical_raw(c2.entries)[k] == canon_entry(c2.entries[k]));
        assert(ty_doc(c1.entries[k].executable_type) == ty_doc(c2.entries[k].executable_type));
        assert("Binary"@.len() != "LinkBinary"@.len());
        assert(c1.entries[k].executable_type == c2.entries[k].executable_type);
    }
    assert(c1.entries =~= c2.entries);
}

/// Round trip: a saved registry's document reads back as that registry —
/// the same version and the same entries in the same order. The parse
/// result is given by its witness: the version and raw entries the
/// document was read as.
pub proof fn lemma_load_of_save(c: ConfigView, v2: Seq<char>, rs: Seq<RawEntry>)
    requires
        doc_of(c) == raw_doc(v2, rs),
    ensures
        v2 == c.version,
        interp_raw(rs) == c.entries,
{
    lemma_raw_doc_injective(c.version, canonical_raw(c.entries), v2, rs);
    reveal_strlit("Binary");
    reveal_strlit("LinkBinary");
    assert forall|k: int| 0 <= k < c.entries.len() implies interp_raw(rs)[k] == c.entries[k] by {
        assert(rs[k] == canon_entry(c.entries[k]));
        assert("Binary"@.len() != "LinkBinary"@.len());
        assert(interp_ty(ty_doc(c.entries[k].executable_type))
            == c.entries[k].executable_type);
    }
    assert(interp_raw(rs) =~= c.entries);
}

/// The error a manifest that does not parse is reported as.
fn malformed() -> (e: BingoError)
    ensures
        e matches BingoError::ConfigFileError(_),
{
    BingoError::ConfigFileError(String::from_str("malformed manifest document"))
}

/// Checks that `lit` stands verbatim in `s` at position `i`.
fn expect_lit(s: &str, i: usize, lit: &str) -> (r: Option<usize>)
    requires
        i <= s@.len(),
    ensures
        r matches Some(j) ==> j == i + lit@.len() && j <= s@.len() && s@.subrange(
            i as int,
            j as int,
        ) == lit@,
        r is None ==> !(i + lit@.len() <= s@.len() && s@.subrange(i as int, i + lit@.len())
            == lit@),
{
    let n = s.unicode_len();
    let m = lit.unicode_len();
    if m > n - i {
        return None;
    }
    let mut k: usize = 0;
    while k < m
        invariant
            i + m <= n,
            0 <= k <= m,
            m == lit@.len(),
            n == s@.len(),
            forall|t: int| 0 <= t < k ==> s@[i + t] == lit@[t],
        decreases m - k,
    {
        if s.get_char(i + k) != lit.get_char(k) {
            proof {
                assert(s@.subrange(i as int, i + m)[k as int] == s@[i + k]);
            }
            return None;
        }
        k += 1;
    }
    proof {
        assert(s@.subrange(i as int, (i + m) as int) =~= lit@);
    }
    Some(i + m)
}

/// The value of a lower-case hexadecimal digit.
fn hex_val(c: char) -> (r: Option<u8>)
    ensures
        r matches Some(v) ==> v < 16 && c == hex_char(v as nat),
        r is None ==> forall|v: nat| v < 16 ==> c != hex_char(v),
{
    match c {
        '0' => Some(0),
        '1' => Some(1),
        '2' => Some(2),
        '3' => Some(3),
        '4' => Some(4),
        '5' => Some(5),
        '6' => Some(6),
        '7' => Some(7),
        '8' => Some(8),
        '9' => Some(9),
        'a' => Some(10),
        'b' => Some(11),
        'c' => Some(12),
        'd' => Some(13),
        'e' => Some(14),
        'f' => Some(15),
        _ => None,
    }
}

/// Position `i` starts a quoted body: some escaped string stands there,
/// closed by a quote.
pub open spec fn has_quoted_body(s: Seq<char>, i: int) -> bool {
    exists|t: Seq<char>, j: int| i <= j < s.len() && s.subrange(i, j) == esc(t) && s[j] == '"'
}

/// What a reader that has consumed the escape of `out` faces when a quoted
/// body stands at `i`: the closing quote, or another whole escape token.
proof fn lemma_scan_stuck(s: Seq<char>, i: int, cur: int, out: Seq<char>)
    requires
        0 <= i <= cur <= s.len(),
        s.subrange(i, cur) == esc(out),
        has_quoted_body(s, i),
    ensures
        cur < s.len(),
        s[cur] == '"' || exists|a: char, w: Seq<char>|
            s.subrange(cur, s.len() as int) == esc_char(a) + w,
{
    let (t, j) = choose|t: Seq<char>, j: int|
        i <= j < s.len() && s.subrange(i, j) == esc(t) && s[j] == '"';
    if j < cur {
        assert(esc(out) =~= esc(t) + seq!['"'] + s.subrange(j + 1, cur));
        lemma_esc_no_embedded_quote(t, out, s.subrange(j + 1, cur));
        assert(false);
    } else if j == cur {
    } else {
        assert(esc(t) =~= esc(out) + s.subrange(cur, j));
        lemma_esc_strip(t, out, s.subrange(cur, j));
        let t2 = choose|t2: Seq<char>| t2.len() > 0 && s.subrange(cur, j) == esc(t2);
        assert(esc(t2) == esc_char(t2[0]) + esc(t2.skip(1)));
        assert(s.subrange(cur, s.len() as int) =~= esc_char(t2[0]) + (esc(t2.skip(1)) + s.subrange(
            j,
            s.len() as int,
        )));
    }
}

/// One whole escape token stands at `cur`.
pub open spec fn token_at(s: Seq<char>, cur: int, a: char) -> bool {
    cur + esc_char(a).len() <= s.len() && s.subrange(cur, cur + esc_char(a).len()) == esc_char(a)
}

/// A whole control-character escape (`\u00xx`) stands at `cur`, spelled
/// out character by character.
pub open spec fn ctrl_token_at(s: Seq<char>, cur: int, a: char) -> bool {
    (a as u32) < 32 && a != '"' && a != '\\' && cur + 6 <= s.len() && s[cur] == '\\' && s[cur + 1]
        == 'u' && s[cur + 2] == '0' && s[cur + 3] == '0' && s[cur + 4] == hex_char(
        ((a as u32) / 16) as nat,
    ) && s[cur + 5] == hex_char(((a as u32) % 16) as nat)
}

/// When a quoted body stands at `i` and the reader, having consumed the
/// escape of `out`, does not face the closing quote, it faces a whole
/// escape token.
proof fn lemma_scan_stuck_token(s: Seq<char>, i: int, cur: int, out: Seq<char>)
    requires
        0 <= i <= cur <= s.len(),
        s.subrange(i, cur) == esc(out),
        has_quoted_body(s, i),
        cur == s.len() || s[cur] != '"',
    ensures
        cur < s.len(),
        exists|a: char| token_at(s, cur, a),
{
    lemma_scan_stuck(s, i, cur, out);
    let (a, w) = choose|a: char, w: Seq<char>| s.subrange(cur, s.len() as int) == esc_char(a) + w;
    lemma_esc_char_head(a);
    let l = esc_char(a).len() as int;
    assert(s.subrange(cur, s.len() as int).len() == s.len() - cur);
    assert((esc_char(a) + w).len() == l + w.len());
    assert(cur + l <= s.len());
    assert forall|k: int| 0 <= k < l implies s.subrange(cur, cur + l)[k] == esc_char(a)[k] by {
        assert((esc_char(a) + w)[k] == esc_char(a)[k]);
        assert(s.subrange(cur, s.len() as int)[k] == s[cur + k]);
        assert(s.subrange(cur, cur + l)[k] == s[cur + k]);
    }
    assert(s.subrange(cur, cur + l) =~= esc_char(a));
    assert(token_at(s, cur, a));
}

/// Reads a quoted string's body starting at `i`, undoing the escapes the
/// writer makes, up to but not including the closing quote.
fn scan_string(s: &str, i: usize) -> (r: Option<(String, usize)>)
    requires
        i <= s@.len(),
    ensures
        r matches Some((t, j)) ==> i <= j < s@.len() && s@.subrange(i as int, j as int) == esc(t@)
            && s@[j as int] == '"',
        r is None ==> !has_quoted_body(s@, i as int),
{
    let n = s.unicode_len();
    let mut out = String::new();
    let mut cur = i;
    proof {
        assert(s@.subrange(i as int, i as int) =~= esc(out@));
    }
    loop
        invariant
            i <= cur <= n,
            n == s@.len(),
            s@.subrange(i as int, cur as int) == esc(out@),
        decreases n - cur,
    {
        if cur >= n {
            proof {
                if has_quoted_body(s@, i as int) {
                    lemma_scan_stuck(s@, i as int, cur as int, out@);
                    assert(false);
                }
            }
            return None;
        }
        let c = s.get_char(cur);
        if c == '"' {
            return Some((out, cur));
        }
        if c == '\\' {
            if n - cur < 2 {
                proof {
                    if has_quoted_body(s@, i as int) {
                        lemma_scan_stuck_token(s@, i as int, cur as int, out@);
                        let a = choose|a: char| token_at(s@, cur as int, a);
                        lemma_esc_char_head(a);
                        let l = esc_char(a).len() as int;
                        assert(s@.subrange(cur as int, cur + l)[0] == s@[cur as int]);
                        assert(esc_char(a)[0] == '\\');
                        assert(!plain_char(a));
                        assert(n - cur >= l);
                        assert(false);
                    }
                }
                return None;
            }
            let d = s.get_char(cur + 1);
            if d == '"' {
                let ghost before = out@;
                out.append("\"");
                proof {
                    reveal_strlit("\"");
                    assert("\""@ =~= seq!['"']);
                    lemma_esc_append(before, seq!['"']);
                    lemma_esc_singleton('"');
                    assert(out@ =~= before + seq!['"']);
                    assert(esc(out@) == esc(before) + esc_char('"'));
                    assert(s@.subrange(i as int, cur + 2) =~= s@.subrange(i as int, cur as int)
                        + seq!['\\', '"']);
                    assert(s@.subrange(i as int, cur + 2) =~= esc(out@));
                }
                cur = cur + 2;
            } else if d == '\\' {
                let ghost before = out@;
                out.append("\\");
                proof {
                    reveal_strlit("\\");
                    assert("\\"@ =~= seq!['\\']);
                    lemma_esc_append(before, seq!['\\']);
                    lemma_esc_singleton('\\');
                    assert(out@ =~= before + seq!['\\']);
                    assert(esc(out@) == esc(before) + esc_char('\\'));
                    assert(s@.subrange(i as int, cur + 2) =~= s@.subrange(i as int, cur as int)
                        + seq!['\\', '\\']);
                    assert(s@.subrange(i as int, cur + 2) =~= esc(out@));
                }
                cur = cur + 2;
            } else if d == 'u' {
                proof {
                    if has_quoted_body(s@, i as int) {
                        lemma_scan_stuck_token(s@, i as int, cur as int, out@);
                        let a = choose|a: char| token_at(s@, cur as int, a);
                        lemma_esc_char_head(a);
                        let l = esc_char(a).len() as int;
                        assert(s@.subrange(cur as int, cur + l)[0] == s@[cur as int]);
                        assert(esc_char(a)[0] == '\\');
                        assert(!plain_char(a));
                        assert(s@.subrange(cur as int, cur + l)[1] == s@[cur + 1]);
                        assert(esc_char(a)[1] == 'u');
                        assert(a != '"' && a != '\\');
                        assert((a as u32) < 32 && l == 6);
                        assert(s@.subrange(cur as int, cur + l)[2] == s@[cur + 2]);
                        assert(s@.subrange(cur as int, cur + l)[3] == s@[cur + 3]);
                        assert(s@.subrange(cur as int, cur + l)[4] == s@[cur + 4]);
                        assert(s@.subrange(cur as int, cur + l)[5] == s@[cur + 5]);
                        assert(s@[cur + 2] == '0' && s@[cur + 3] == '0');
                        assert((a as u32) / 16 < 16 && (a as u32) % 16 < 16);
                        assert(s@[cur + 4] == hex_char(((a as u32) / 16) as nat));
                        assert(s@[cur + 5] == hex_char(((a as u32) % 16) as nat));
                        assert(ctrl_token_at(s@, cur as int, a));
                    }
                }
                if n - cur < 6 {
                    proof {
                        if has_quoted_body(s@, i as int) {
                            let a = choose|a: char| ctrl_token_at(s@, cur as int, a);
                            assert(cur + 6 <= n);
                            assert(false);
                        }
                    }
                    return None;
                }
                if s.get_char(cur + 2) != '0' || s.get_char(cur + 3) != '0' {
                    proof {
                        if has_quoted_body(s@, i as int) {
                            let a = choose|a: char| ctrl_token_at(s@, cur as int, a);
                            assert(s@[cur + 2] == '0' && s@[cur + 3] == '0');
                            assert(false);
                        }
                    }
                    return None;
                }
                let h1 = match hex_val(s.get_char(cur + 4)) {
                    Some(v) => v,
                    None => {
                        proof {
                            if has_quoted_body(s@, i as int) {
                                let a = choose|a: char| ctrl_token_at(s@, cur as int, a);
                                assert((a as u32) / 16 < 16);
                                assert(s@[cur + 4] != hex_char(((a as u32) / 16) as nat));
                                assert(false);
                            }
                        }
                        return None;
                    },
                };
                let h2 = match hex_val(s.get_char(cur + 5)) {
                    Some(v) => v,
                    None => {
                        proof {
                            if has_quoted_body(s@, i as int) {
                                let a = choose|a: char| ctrl_token_at(s@, cur as int, a);
                                assert((a as u32) % 16 < 16);
                                assert(s@[cur + 5] != hex_char(((a as u32) % 16) as nat));
                                assert(false);
                            }
                        }
                        return None;
                    },
                };
                let v = 16 * h1 + h2;
                if v >= 32 {
                    proof {
                        if has_quoted_body(s@, i as int) {
                            let a = choose|a: char| ctrl_token_at(s@, cur as int, a);
                            lemma_hex_char_injective(h1 as nat, ((a as u32) / 16) as nat);
                            lemma_hex_char_injective(h2 as nat, ((a as u32) % 16) as nat);
                            assert(a as u32 == 16 * ((a as u32) / 16) + ((a as u32) % 16));
                            assert(v as u32 == a as u32);
                            assert(false);
                        }
                    }
                    return None;
                }
                let ch = v as char;
                let ghost before = out@;
                out.push(ch);
                proof {
                    assert(ch as u32 == v as u32);
                    assert(v as u32 / 16 == h1 as u32 && v as u32 % 16 == h2 as u32) by {
                        assert(v == 16 * h1 + h2 && h2 < 16);
                    }
                    assert(ch != '"' && ch != '\\');
                    assert(esc_char(ch) =~= seq!['\\', 'u', '0', '0', hex_char(h1 as nat),
                        hex_char(h2 as nat)]);
                    lemma_esc_append(before, seq![ch]);
                    lemma_esc_singleton(ch);
                    assert(out@ =~= before + seq![ch]);
                    assert(s@.subrange(i as int, cur + 6) =~= s@.subrange(i as int, cur as int)
                        + seq!['\\', 'u', '0', '0', hex_char(h1 as nat), hex_char(h2 as nat)]);
                    assert(s@.subrange(i as int, cur + 6) =~= esc(out@));
                }
                cur = cur + 6;
            } else {
                proof {
                    if has_quoted_body(s@, i as int) {
                        lemma_scan_stuck_token(s@, i as int, cur as int, out@);
                        let a = choose|a: char| token_at(s@, cur as int, a);
                        lemma_esc_char_head(a);
                        let l = esc_char(a).len() as int;
                        assert(s@.subrange(cur as int, cur + l)[0] == s@[cur as int]);
                        assert(esc_char(a)[0] == '\\');
                        assert(!plain_char(a));
                        assert(s@.subrange(cur as int, cur + l)[1] == s@[cur + 1]);
                        assert(d == '"' || d == '\\' || d == 'u');
                        assert(false);
                    }
                }
                return None;
            }
        } else {
            if (c as u32) < 32 {
                proof {
                    if has_quoted_body(s@, i as int) {
                        lemma_scan_stuck_token(s@, i as int, cur as int, out@);
                        let a = choose|a: char| token_at(s@, cur as int, a);
                        lemma_esc_char_head(a);
                        let l = esc_char(a).len() as int;
                        assert(s@.subrange(cur as int, cur + l)[0] == s@[cur as int]);
                        if plain_char(a) {
                            assert(c == a);
                        } else {
                            assert(c == '\\');
                        }
                        assert(false);
                    }
                }
                return None;
            }
            let piece = s.substring_char(cur, cur + 1);
            let ghost before = out@;
            out.append(piece);
            proof {
                assert(piece@ =~= seq![c]);
                lemma_esc_append(before, seq![c]);
                lemma_esc_singleton(c);
                assert(esc_char(c) =~= seq![c]);
                assert(s@.subrange(i as int, cur + 1) =~= s@.subrange(i as int, cur as int)
                    + seq![c]);
                assert(s@.subrange(i as int, cur + 1) =~= esc(out@));
            }
            cur = cur + 1;
        }
    }
}

/// Peeling a known front off a known stretch of `s`.
proof fn lemma_prefix_extract(s: Seq<char>, i: int, j: int, p: Seq<char>, rest: Seq<char>)
    requires
        0 <= i <= j <= s.len(),
        s.subrange(i, j) == p + rest,
    ensures
        i + p.len() <= j,
        s.subrange(i, i + p.len()) == p,
        s.subrange(i + p.len(), j) == rest,
{
    assert((p + rest).len() == p.len() + rest.len());
    assert(s.subrange(i, j).len() == j - i);
    assert(j - i == p.len() + rest.len());
    assert forall|k: int| 0 <= k < p.len() implies s.subrange(i, i + p.len() as int)[k]
        == p[k] by {
        assert((p + rest)[k] == p[k]);
        assert(s.subrange(i, j)[k] == s[i + k]);
        assert(s.subrange(i, i + p.len() as int)[k] == s[i + k]);
    }
    assert(s.subrange(i, i + p.len() as int) =~= p);
    assert forall|k: int| 0 <= k < rest.len() implies s.subrange(i + p.len(), j)[k] == rest[k] by {
        assert((p + rest)[p.len() + k] == rest[k]);
        assert(s.subrange(i, j)[p.len() + k] == s[i + p.len() + k]);
        assert(s.subrange(i + p.len(), j)[k] == s[i + p.len() + k]);
    }
    assert(s.subrange(i + p.len(), j) =~= rest);
}

/// The tail of `s` from `a` splits at `b` into stretch, character, tail.
proof fn lemma_split_three(s: Seq<char>, a: int, b: int)
    requires
        0 <= a <= b < s.len(),
    ensures
        s.subrange(a, s.len() as int) == s.subrange(a, b) + seq![s[b]] + s.subrange(
            b + 1,
            s.len() as int,
        ),
{
    assert(s.subrange(a, s.len() as int) =~= s.subrange(a, b) + seq![s[b]] + s.subrange(
        b + 1,
        s.len() as int,
    ));
}

/// A whole entry object stands at `i`.
pub open spec fn has_entry_at(s: Seq<char>, i: int) -> bool {
    exists|re: RawEntry, j: int| i <= j <= s.len() && s.subrange(i, j) == raw_entry_doc(re)
}

/// Where each piece of an entry object standing at `i` lies in `s`.
proof fn lemma_entry_fields(s: Seq<char>, i: int, re: RawEntry, j: int)
    requires
        0 <= i <= j <= s.len(),
        s.subrange(i, j) == raw_entry_doc(re),
    ensures
        ({
            let q0 = i + "    {\n      \"name\": \""@.len();
            let q1 = q0 + esc(re.name).len();
            let q2 = q1 + "\",\n      \"path\": \""@.len();
            let q3 = q2 + esc(re.path).len();
            let q4 = q3 + "\",\n      \"executable_type\": \""@.len();
            let q5 = q4 + esc(re.ty).len();
            &&& q5 + "\"\n    }"@.len() == j
            &&& s.subrange(i, q0) == "    {\n      \"name\": \""@
            &&& s.subrange(q0, q1) == esc(re.name)
            &&& q1 < s.len() && s[q1] == '"'
            &&& s.subrange(q1, q2) == "\",\n      \"path\": \""@
            &&& s.subrange(q2, q3) == esc(re.path)
            &&& q3 < s.len() && s[q3] == '"'
            &&& s.subrange(q3, q4) == "\",\n      \"executable_type\": \""@
            &&& s.subrange(q4, q5) == esc(re.ty)
            &&& q5 < s.len() && s[q5] == '"'
            &&& s.subrange(q5, j) == "\"\n    }"@
        }),
{
    reveal_strlit("\",\n      \"path\": \"");
    reveal_strlit("\",\n      \"executable_type\": \"");
    reveal_strlit("\"\n    }");
    let e1 = "    {\n      \"name\": \""@;
    let e2 = "\",\n      \"path\": \""@;
    let e3 = "\",\n      \"executable_type\": \""@;
    let e4 = "\"\n    }"@;
    assert(raw_entry_doc(re) =~= e1 + (esc(re.name) + (e2 + (esc(re.path) + (e3 + (esc(re.ty)
        + e4))))));
    lemma_prefix_extract(s, i, j, e1, esc(re.name) + (e2 + (esc(re.path) + (e3 + (esc(re.ty)
        + e4)))));
    let q0 = i + e1.len();
    lemma_prefix_extract(s, q0, j, esc(re.name), e2 + (esc(re.path) + (e3 + (esc(re.ty) + e4))));
    let q1 = q0 + esc(re.name).len();
    lemma_prefix_extract(s, q1, j, e2, esc(re.path) + (e3 + (esc(re.ty) + e4)));
    let q2 = q1 + e2.len();
    lemma_prefix_extract(s, q2, j, esc(re.path), e3 + (esc(re.ty) + e4));
    let q3 = q2 + esc(re.path).len();
    lemma_prefix_extract(s, q3, j, e3, esc(re.ty) + e4);
    let q4 = q3 + e3.len();
    lemma_prefix_extract(s, q4, j, esc(re.ty), e4);
    let q5 = q4 + esc(re.ty).len();
    assert(s.subrange(q1, q2)[0] == s[q1]);
    assert(s.subrange(q3, q4)[0] == s[q3]);
    assert(s.subrange(q5, j)[0] == s[q5]);
}

/// Reads one entry object starting at `i`. Returns the entry, the position
/// after it, and the mode name the document carried (which the entry's mode
/// interprets leniently).
#[verifier::rlimit(100)]
fn parse_entry(s: &str, i: usize) -> (r: Option<(Executable, usize, Ghost<Seq<char>>)>)
    requires
        i <= s@.len(),
    ensures
        r matches Some((e, j, g)) ==> i <= j <= s@.len() && s@.subrange(i as int, j as int)
            == raw_entry_doc(RawEntry { name: e.name@, path: e.path@, ty: g@ })
            && e.executable_type == interp_ty(g@),
        r is None ==> !has_entry_at(s@, i as int),
{
    let p0 = match expect_lit(s, i, "    {\n      \"name\": \"") {
        Some(p) => p,
        None => {
            proof {
                if has_entry_at(s@, i as int) {
                    let (re, j) = choose|re: RawEntry, j: int|
                        i <= j <= s@.len() && s@.subrange(i as int, j) == raw_entry_doc(re);
                    lemma_entry_fields(s@, i as int, re, j);
                    assert(false);
                }
            }
            return None;
        },
    };
    let (name, p1) = match scan_string(s, p0) {
        Some(x) => x,
        None => {
            proof {
                if has_entry_at(s@, i as int) {
                    let (re, j) = choose|re: RawEntry, j: int|
                        i <= j <= s@.len() && s@.subrange(i as int, j) == raw_entry_doc(re);
                    lemma_entry_fields(s@, i as int, re, j);
                    let q1 = p0 + esc(re.name).len();
                    assert(s@.subrange(p0 as int, q1 as int) == esc(re.name));
                    assert(has_quoted_body(s@, p0 as int));
                    assert(false);
                }
            }
            return None;
        },
    };
    let p2 = match expect_lit(s, p1, "\",\n      \"path\": \"") {
        Some(p) => p,
        None => {
            proof {
                if has_entry_at(s@, i as int) {
                    let (re, j) = choose|re: RawEntry, j: int|
                        i <= j <= s@.len() && s@.subrange(i as int, j) == raw_entry_doc(re);
                    lemma_entry_fields(s@, i as int, re, j);
                    let q1 = p0 + esc(re.name).len();
                    lemma_split_three(s@, p0 as int, q1);
                    lemma_split_three(s@, p0 as int, p1 as int);
                    lemma_esc_quote_unambiguous(
                        name@,
                        re.name,
                        s@.subrange(p1 + 1, s@.len() as int),
                        s@.subrange(q1 + 1, s@.len() as int),
                    );
                    assert(p1 == q1);
                    assert(false);
                }
            }
            return None;
        },
    };
    let (path, p3) = match scan_string(s, p2) {
        Some(x) => x,
        None => {
            proof {
                if has_entry_at(s@, i as int) {
                    let (re, j) = choose|re: RawEntry, j: int|
                        i <= j <= s@.len() && s@.subrange(i as int, j) == raw_entry_doc(re);
                    lemma_entry_fields(s@, i as int, re, j);
                    let q1 = p0 + esc(re.name).len();
                    lemma_split_three(s@, p0 as int, q1);
                    lemma_split_three(s@, p0 as int, p1 as int);
                    lemma_esc_quote_unambiguous(
                        name@,
                        re.name,
                        s@.subrange(p1 + 1, s@.len() as int),
                        s@.subrange(q1 + 1, s@.len() as int),
                    );
                    assert(p1 == q1);
                    let q2 = q1 + "\",\n      \"path\": \""@.len();
                    assert(p2 == q2);
                    assert(s@.subrange(p2 as int, q2 + esc(re.path).len()) == esc(re.path));
                    assert(has_quoted_body(s@, p2 as int));
                    assert(false);
                }
            }
            return None;
        },
    };
    let p4 = match expect_lit(s, p3, "\",\n      \"executable_type\": \"") {
        Some(p) => p,
        None => {
            proof {
                if has_entry_at(s@, i as int) {
                    let (re, j) = choose|re: RawEntry, j: int|
                        i <= j <= s@.len() && s@.subrange(i as int, j) == raw_entry_doc(re);
                    lemma_entry_fields(s@, i as int, re, j);
                    let q1 = p0 + esc(re.name).len();
                    lemma_split_three(s@, p0 as int, q1);
                    lemma_split_three(s@, p0 as int, p1 as int);
                    lemma_esc_quote_unambiguous(
                        name@,
                        re.name,
                        s@.subrange(p1 + 1, s@.len() as int),
                        s@.subrange(q1 + 1, s@.len() as int),
                    );
                    assert(p1 == q1);
                    let q3 = p2 + esc(re.path).len();
                    lemma_split_three(s@, p2 as int, q3);
                    lemma_split_three(s@, p2 as int, p3 as int);
                    lemma_esc_quote_unambiguous(
                        path@,
                        re.path,
                        s@.subrange(p3 + 1, s@.len() as int),
                        s@.subrange(q3 + 1, s@.len() as int),
                    );
                    assert(p3 == q3);
                    assert(false);
                }
            }
            return None;
        },
    };
    let (tystr, p5) = match scan_string(s, p4) {
        Some(x) => x,
        None => {
            proof {
                if has_entry_at(s@, i as int) {
                    let (re, j) = choose|re: RawEntry, j: int|
                        i <= j <= s@.len() && s@.subrange(i as int, j) == raw_entry_doc(re);
                    lemma_entry_fields(s@, i as int, re, j);
                    let q1 = p0 + esc(re.name).len();
                    lemma_split_three(s@, p0 as int, q1);
                    lemma_split_three(s@, p0 as int, p1 as int);
                    lemma_esc_quote_unambiguous(
                        name@,
                        re.name,
                        s@.subrange(p1 + 1, s@.len() as int),
                        s@.subrange(q1 + 1, s@.len() as int),
                    );
                    assert(p1 == q1);
                    let q3 = p2 + esc(re.path).len();
                    lemma_split_three(s@, p2 as int, q3);
                    lemma_split_three(s@, p2 as int, p3 as int);
                    lemma_esc_quote_unambiguous(
                        path@,
                        re.path,
                        s@.subrange(p3 + 1, s@.len() as int),
                        s@.subrange(q3 + 1, s@.len() as int),
                    );
                    assert(p3 == q3);
                    let q4 = p3 + "\",\n      \"executable_type\": \""@.len();
                    assert(p4 == q4);
                    assert(s@.subrange(p4 as int, q4 + esc(re.ty).len()) == esc(re.ty));
                    assert(has_quoted_body(s@, p4 as int));
                    assert(false);
                }
            }
            return None;
        },
    };
    let p6 = match expect_lit(s, p5, "\"\n    }") {
        Some(p) => p,
        None => {
            proof {
                if has_entry_at(s@, i as int) {
                    let (re, j) = choose|re: RawEntry, j: int|
                        i <= j <= s@.len() && s@.subrange(i as int, j) == raw_entry_doc(re);
                    lemma_entry_fields(s@, i as int, re, j);
                    let q1 = p0 + esc(re.name).len();
                    lemma_split_three(s@, p0 as int, q1);
                    lemma_split_three(s@, p0 as int, p1 as int);
                    lemma_esc_quote_unambiguous(
                        name@,
                        re.name,
                        s@.subrange(p1 + 1, s@.len() as int),
                        s@.subrange(q1 + 1, s@.len() as int),
                    );
                    assert(p1 == q1);
                    let q3 = p2 + esc(re.path).len();
                    lemma_split_three(s@, p2 as int, q3);
                    lemma_split_three(s@, p2 as int, p3 as int);
                    lemma_esc_quote_unambiguous(
                        path@,
                        re.path,
                        s@.subrange(p3 + 1, s@.len() as int),
                        s@.subrange(q3 + 1, s@.len() as int),
                    );
                    assert(p3 == q3);
                    let q5 = p4 + esc(re.ty).len();
                    lemma_split_three(s@, p4 as int, q5);
                    lemma_split_three(s@, p4 as int, p5 as int);
                    lemma_esc_quote_unambiguous(
                        tystr@,
                        re.ty,
                        s@.subrange(p5 + 1, s@.len() as int),
                        s@.subrange(q5 + 1, s@.len() as int),
                    );
                    assert(p5 == q5);
                    assert(false);
                }
            }
            return None;
        },
    };
    let executable_type = if crate::config::str_eq(tystr.as_str(), "LinkBinary") {
        ExecutableType::LinkBinary
    } else {
        ExecutableType::Binary
    };
    let ghost raw = RawEntry { name: name@, path: path@, ty: tystr@ };
    proof {
        assert(s@.subrange(i as int, p6 as int) =~= raw_entry_doc(raw));
    }
    Some((Executable { name, path, executable_type }, p6, Ghost(tystr@)))
}

/// Whitespace between document tokens.
fn is_ws(c: char) -> (r: bool)
    ensures
        r == (c == ' ' || c == '\n' || c == '\t' || c == '\r'),
{
    c == ' ' || c == '\n' || c == '\t' || c == '\r'
}

/// Skips whitespace between tokens, from `i` to the next token.
fn skip_ws(s: &str, i: usize) -> (r: usize)
    requires
        i <= s@.len(),
    ensures
        i <= r <= s@.len(),
        r as int == spec_skip_ws(s@, i as int),
{
    let n = s.unicode_len();
    let mut cur = i;
    while cur < n
        invariant
            i <= cur <= n,
            n == s@.len(),
            spec_skip_ws(s@, i as int) == spec_skip_ws(s@, cur as int),
        decreases n - cur,
    {
        if !is_ws(s.get_char(cur)) {
            proof {
                assert(spec_skip_ws(s@, cur as int) == cur as int);
            }
            return cur;
        }
        cur += 1;
    }
    proof {
        assert(spec_skip_ws(s@, cur as int) == cur as int);
    }
    cur
}

/// Skips whitespace, then checks that `lit` stands verbatim.
fn expect_tok(s: &str, i: usize, lit: &str) -> (r: Option<usize>)
    requires
        i <= s@.len(),
    ensures
        r matches Some(j) ==> i <= j <= s@.len() && j >= i + lit@.len() && spec_lit(
            s@,
            spec_skip_ws(s@, i as int),
            lit@,
        ) == Some(j as int),
        r is None ==> spec_lit(s@, spec_skip_ws(s@, i as int), lit@) is None,
{
    let p = skip_ws(s, i);
    expect_lit(s, p, lit)
}

/// The value a hexadecimal digit of either case denotes, or a negative
/// number for any other character.
pub open spec fn hex_v(c: char) -> int {
    if c == '0' {
        0
    } else if c == '1' {
        1
    } else if c == '2' {
        2
    } else if c == '3' {
        3
    } else if c == '4' {
        4
    } else if c == '5' {
        5
    } else if c == '6' {
        6
    } else if c == '7' {
        7
    } else if c == '8' {
        8
    } else if c == '9' {
        9
    } else if c == 'a' || c == 'A' {
        10
    } else if c == 'b' || c == 'B' {
        11
    } else if c == 'c' || c == 'C' {
        12
    } else if c == 'd' || c == 'D' {
        13
    } else if c == 'e' || c == 'E' {
        14
    } else if c == 'f' || c == 'F' {
        15
    } else {
        -1
    }
}

/// The value of a hexadecimal digit, either case.
fn hex_val_flex(c: char) -> (r: Option<u8>)
    ensures
        r matches Some(v) ==> v < 16 && hex_v(c) == v,
        r is None ==> hex_v(c) < 0,
{
    match c {
        '0' => Some(0),
        '1' => Some(1),
        '2' => Some(2),
        '3' => Some(3),
        '4' => Some(4),
        '5' => Some(5),
        '6' => Some(6),
        '7' => Some(7),
        '8' => Some(8),
        '9' => Some(9),
        'a' | 'A' => Some(10),
        'b' | 'B' => Some(11),
        'c' | 'C' => Some(12),
        'd' | 'D' => Some(13),
        'e' | 'E' => Some(14),
        'f' | 'F' => Some(15),
        _ => None,
    }
}

/// Reads a quoted string's body under the tolerant rules: the short escapes
/// `\" \\ \/ \n \t \r \b \f`, and `\uXXXX` (either hex case) for any
/// Unicode scalar value. Stops before the closing quote.
/// Whitespace between document tokens.
pub open spec fn is_ws_char(c: char) -> bool {
    c == ' ' || c == '\n' || c == '\t' || c == '\r'
}

/// The first position at or after `i` that holds no whitespace.
pub open spec fn spec_skip_ws(s: Seq<char>, i: int) -> int
    decreases s.len() - i,
{
    if 0 <= i < s.len() && is_ws_char(s[i]) {
        spec_skip_ws(s, i + 1)
    } else {
        i
    }
}

/// `lit` stands verbatim at `i`; the position after it.
pub open spec fn spec_lit(s: Seq<char>, i: int, lit: Seq<char>) -> Option<int> {
    if 0 <= i && i + lit.len() <= s.len() && s.subrange(i, i + lit.len()) == lit {
        Some(i + lit.len())
    } else {
        None
    }
}

/// One tolerant string item at `i` — a character standing for itself, a
/// short escape, or a `\uXXXX` form — decoded, with the position after it.
/// `None` where the closing quote, an invalid escape, a bare control
/// character, or the end of the text stands there.
pub open spec fn scan_step(s: Seq<char>, i: int) -> Option<(char, int)> {
    if 0 <= i && i + 2 <= s.len() && s[i] == '\\' {
        let d = s[i + 1];
        if d == 'u' {
            if i + 6 <= s.len() && hex_v(s[i + 2]) >= 0 && hex_v(s[i + 3]) >= 0 && hex_v(s[i + 4])
                >= 0 && hex_v(s[i + 5]) >= 0 {
                let v = 4096 * hex_v(s[i + 2]) + 256 * hex_v(s[i + 3]) + 16 * hex_v(s[i + 4])
                    + hex_v(s[i + 5]);
                if v < 0xD800 || v >= 0xE000 {
                    Some(((v as u32) as char, i + 6))
                } else {
                    None
                }
            } else {
                None
            }
        } else if d == '"' {
            Some(('"', i + 2))
        } else if d == '\\' {
            Some(('\\', i + 2))
        } else if d == '/' {
            Some(('/', i + 2))
        } else if d == 'n' {
            Some(('\n', i + 2))
        } else if d == 't' {
            Some(('\t', i + 2))
        } else if d == 'r' {
            Some(('\r', i + 2))
        } else if d == 'b' {
            Some(('\u{8}', i + 2))
        } else if d == 'f' {
            Some(('\u{c}', i + 2))
        } else {
            None
        }
    } else if 0 <= i < s.len() && s[i] != '\\' && s[i] != '"' && s[i] as u32 >= 32 {
        Some((s[i], i + 1))
    } else {
        None
    }
}

/// A whole tolerant quoted body at `i`: the decoded string and the
/// position of the closing quote.
pub open spec fn spec_scan(s: Seq<char>, i: int) -> Option<(Seq<char>, int)>
    decreases s.len() - i,
{
    if i < 0 || i >= s.len() {
        None
    } else if s[i] == '"' {
        Some((Seq::<char>::empty(), i))
    } else {
        match scan_step(s, i) {
            Some((c, j)) => if j <= i || j > s.len() {
                None
            } else {
                match spec_scan(s, j) {
                    Some((t, k)) => Some((seq![c] + t, k)),
                    None => None,
                }
            },
            None => None,
        }
    }
}

fn scan_string_flex(s: &str, i: usize) -> (r: Option<(String, usize)>)
    requires
        i <= s@.len(),
    ensures
        r matches Some((t, j)) ==> spec_scan(s@, i as int) == Some((t@, j as int)) && i <= j
            < s@.len() && s@[j as int] == '"',
        r is None ==> spec_scan(s@, i as int) is None,
{
    let n = s.unicode_len();
    let mut out = String::new();
    let mut cur = i;
    proof {
        assert(spec_scan(s@, i as int) matches Some((t, k)) ==> out@ + t =~= t);
    }
    loop
        invariant
            i <= cur <= n,
            n == s@.len(),
            spec_scan(s@, i as int) == (match spec_scan(s@, cur as int) {
                Some((t, k)) => Some((out@ + t, k)),
                None => None::<(Seq<char>, int)>,
            }),
        decreases n - cur,
    {
        if cur >= n {
            proof {
                assert(spec_scan(s@, cur as int) is None);
            }
            return None;
        }
        let c = s.get_char(cur);
        if c == '"' {
            proof {
                assert(spec_scan(s@, cur as int) == Some((Seq::<char>::empty(), cur as int)));
                assert(out@ + Seq::<char>::empty() =~= out@);
            }
            return Some((out, cur));
        }
        if c == '\\' {
            if n - cur < 2 {
                proof {
                    assert(scan_step(s@, cur as int) is None);
                    assert(spec_scan(s@, cur as int) is None);
                }
                return None;
            }
            let d = s.get_char(cur + 1);
            if d == 'u' {
                if n - cur < 6 {
                    proof {
                        assert(scan_step(s@, cur as int) is None);
                        assert(spec_scan(s@, cur as int) is None);
                    }
                    return None;
                }
                let h1 = match hex_val_flex(s.get_char(cur + 2)) {
                    Some(v) => v,
                    None => {
                        proof {
                            assert(scan_step(s@, cur as int) is None);
                            assert(spec_scan(s@, cur as int) is None);
                        }
                        return None;
                    },
                };
                let h2 = match hex_val_flex(s.get_char(cur + 3)) {
                    Some(v) => v,
                    None => {
                        proof {
                            assert(scan_step(s@, cur as int) is None);
                            assert(spec_scan(s@, cur as int) is None);
                        }
                        return None;
                    },
                };
                let h3 = match hex_val_flex(s.get_char(cur + 4)) {
                    Some(v) => v,
                    None => {
                        proof {
                            assert(scan_step(s@, cur as int) is None);
                            assert(spec_scan(s@, cur as int) is None);
                        }
                        return None;
                    },
                };
                let h4 = match hex_val_flex(s.get_char(cur + 5)) {
                    Some(v) => v,
                    None => {
                        proof {
                            assert(scan_step(s@, cur as int) is None);
                            assert(spec_scan(s@, cur as int) is None);
                        }
                        return None;
                    },
                };
                let v32: u32 = 4096 * (h1 as u32) + 256 * (h2 as u32) + 16 * (h3 as u32) + (
                h4 as u32);
                let ch = match char::from_u32(v32) {
                    Some(c) => c,
                    None => {
                        proof {
                            assert(0xD800 <= v32 < 0xE000);
                            assert(scan_step(s@, cur as int) is None);
                            assert(spec_scan(s@, cur as int) is None);
                        }
                        return None;
                    },
                };
                let ghost before = out@;
                out.push(ch);
                proof {
                    vstd::utf8::char_u32_cast(ch, v32);
                    assert(scan_step(s@, cur as int) == Some((ch, cur as int + 6)));
                    assert(spec_scan(s@, cur as int) == (match spec_scan(s@, cur as int + 6) {
                        Some((t, k)) => Some((seq![ch] + t, k)),
                        None => None::<(Seq<char>, int)>,
                    }));
                    assert(out@ =~= before + seq![ch]);
                    assert forall|t: Seq<char>| true implies before + (seq![ch] + t) == out@
                        + t by {
                        assert(before + (seq![ch] + t) =~= (before + seq![ch]) + t);
                    }
                }
                cur = cur + 6;
            } else {
                let ch: char = match d {
                    '"' => '"',
                    '\\' => '\\',
                    '/' => '/',
                    'n' => '\n',
                    't' => '\t',
                    'r' => '\r',
                    'b' => '\u{8}',
                    'f' => '\u{c}',
                    _ => {
                        proof {
                            assert(scan_step(s@, cur as int) is None);
                            assert(spec_scan(s@, cur as int) is None);
                        }
                        return None;
                    },
                };
                let ghost before = out@;
                out.push(ch);
                proof {
                    assert(scan_step(s@, cur as int) == Some((ch, cur as int + 2)));
                    assert(spec_scan(s@, cur as int) == (match spec_scan(s@, cur as int + 2) {
                        Some((t, k)) => Some((seq![ch] + t, k)),
                        None => None::<(Seq<char>, int)>,
                    }));
                    assert(out@ =~= before + seq![ch]);
                    assert forall|t: Seq<char>| true implies before + (seq![ch] + t) == out@
                        + t by {
                        assert(before + (seq![ch] + t) =~= (before + seq![ch]) + t);
                    }
                }
                cur = cur + 2;
            }
        } else {
            if (c as u32) < 32 {
                proof {
                    assert(scan_step(s@, cur as int) is None);
                    assert(spec_scan(s@, cur as int) is None);
                }
                return None;
            }
            let ghost before = out@;
            out.push(c);
            proof {
                assert(scan_step(s@, cur as int) == Some((c, cur as int + 1)));
                assert(spec_scan(s@, cur as int) == (match spec_scan(s@, cur as int + 1) {
                    Some((t, k)) => Some((seq![c] + t, k)),
                    None => None::<(Seq<char>, int)>,
                }));
                assert(out@ =~= before + seq![c]);
                assert forall|t: Seq<char>| true implies before + (seq![c] + t) == out@ + t by {
                    assert(before + (seq![c] + t) =~= (before + seq![c]) + t);
                }
            }
            cur = cur + 1;
        }
    }
}

/// A quoted string field with the given key at `i`: the key, a colon, and
/// a quoted tolerant string, whitespace allowed between tokens; the value
/// and the position after the closing quote.
pub open spec fn spec_field(s: Seq<char>, i: int, key: Seq<char>) -> Option<(Seq<char>, int)> {
    match spec_lit(s, spec_skip_ws(s, i), key) {
        Some(p1) => match spec_lit(s, spec_skip_ws(s, p1), ":"@) {
            Some(p2) => match spec_lit(s, spec_skip_ws(s, p2), "\""@) {
                Some(p3) => match spec_scan(s, p3) {
                    Some((t, p4)) => match spec_lit(s, p4, "\""@) {
                        Some(p5) => Some((t, p5)),
                        None => None,
                    },
                    None => None,
                },
                None => None,
            },
            None => None,
        },
        None => None,
    }
}

/// One whole entry object at `i` under the tolerant rules: its three
/// fields in order, and the position after the closing brace.
pub open spec fn spec_entry(s: Seq<char>, i: int) -> Option<(RawEntry, int)> {
    match spec_lit(s, spec_skip_ws(s, i), "{"@) {
        Some(p0) => match spec_field(s, p0, "\"name\""@) {
            Some((name, p1)) => match spec_lit(s, spec_skip_ws(s, p1), ","@) {
                Some(p2) => match spec_field(s, p2, "\"path\""@) {
                    Some((path, p3)) => match spec_lit(s, spec_skip_ws(s, p3), ","@) {
                        Some(p4) => match spec_field(s, p4, "\"executable_type\""@) {
                            Some((ty, p5)) => match spec_lit(s, spec_skip_ws(s, p5), "}"@) {
                                Some(p6) => Some((RawEntry { name, path, ty }, p6)),
                                None => None,
                            },
                            None => None,
                        },
                        None => None,
                    },
                    None => None,
                },
                None => None,
            },
            None => None,
        },
        None => None,
    }
}

/// Reads one field (`"key": "value"`) under the tolerant rules.
fn parse_field(s: &str, i: usize, key: &str) -> (r: Option<(String, usize)>)
    requires
        i <= s@.len(),
    ensures
        r matches Some((t, j)) ==> spec_field(s@, i as int, key@) == Some((t@, j as int)) && i
            <= j <= s@.len(),
        r is None ==> spec_field(s@, i as int, key@) is None,
{
    let p1 = match expect_tok(s, i, key) {
        Some(p) => p,
        None => {
            return None;
        },
    };
    let p2 = match expect_tok(s, p1, ":") {
        Some(p) => p,
        None => {
            return None;
        },
    };
    let p3 = match expect_tok(s, p2, "\"") {
        Some(p) => p,
        None => {
            return None;
        },
    };
    let (t, p4) = match scan_string_flex(s, p3) {
        Some(x) => x,
        None => {
            return None;
        },
    };
    let p5 = match expect_lit(s, p4, "\"") {
        Some(p) => p,
        None => {
            return None;
        },
    };
    Some((t, p5))
}

/// Reads one entry object under the tolerant rules: any whitespace between
/// tokens, tolerant string escapes. The field order is fixed.
fn parse_entry_flex(s: &str, i: usize) -> (r: Option<(Executable, usize, Ghost<Seq<char>>)>)
    requires
        i <= s@.len(),
    ensures
        r matches Some((e, j, g)) ==> i < j <= s@.len() && e.executable_type == interp_ty(g@)
            && spec_entry(s@, i as int) == Some(
            (RawEntry { name: e.name@, path: e.path@, ty: g@ }, j as int),
        ),
        r is None ==> spec_entry(s@, i as int) is None,
{
    let p0 = match expect_tok(s, i, "{") {
        Some(p) => p,
        None => {
            return None;
        },
    };
    proof {
        reveal_strlit("{");
    }
    let (name, p1) = match parse_field(s, p0, "\"name\"") {
        Some(x) => x,
        None => {
            return None;
        },
    };
    let p2 = match expect_tok(s, p1, ",") {
        Some(p) => p,
        None => {
            return None;
        },
    };
    let (path, p3) = match parse_field(s, p2, "\"path\"") {
        Some(x) => x,
        None => {
            return None;
        },
    };
    let p4 = match expect_tok(s, p3, ",") {
        Some(p) => p,
        None => {
            return None;
        },
    };
    let (tystr, p5) = match parse_field(s, p4, "\"executable_type\"") {
        Some(x) => x,
        None => {
            return None;
        },
    };
    let p6 = match expect_tok(s, p5, "}") {
        Some(p) => p,
        None => {
            return None;
        },
    };
    let executable_type = if crate::config::str_eq(tystr.as_str(), "LinkBinary") {
        ExecutableType::LinkBinary
    } else {
        ExecutableType::Binary
    };
    Some((Executable { name, path, executable_type }, p6, Ghost(tystr@)))
}

/// A non-empty, comma-separated run of entry objects at `i`, closed by the
/// array's closing bracket: the entries, and the position after the
/// bracket. The guards on positions never fire on real parses; they make
/// the recursion visibly bounded.
pub open spec fn spec_entries(s: Seq<char>, i: int) -> Option<(Seq<RawEntry>, int)>
    decreases s.len() - i,
{
    if i < 0 || i > s.len() {
        None
    } else {
        match spec_entry(s, i) {
            Some((re, p)) => {
                let q = spec_skip_ws(s, p);
                match spec_lit(s, q, ","@) {
                    Some(p2) => if p2 <= i || p2 > s.len() {
                        None
                    } else {
                        match spec_entries(s, p2) {
                            Some((rest, j)) => Some((seq![re] + rest, j)),
                            None => None,
                        }
                    },
                    None => match spec_lit(s, q, "]"@) {
                        Some(p3) => Some((seq![re], p3)),
                        None => None,
                    },
                }
            },
            None => None,
        }
    }
}

/// A whole manifest document under the tolerant rules: the version string
/// and the raw entries it carries, or `None` where the text is no such
/// document. This is the reader's exact specification.
pub open spec fn spec_doc(s: Seq<char>) -> Option<(Seq<char>, Seq<RawEntry>)> {
    match spec_lit(s, spec_skip_ws(s, 0), "{"@) {
        Some(p0) => match spec_field(s, p0, "\"version\""@) {
            Some((v, p1)) => match spec_lit(s, spec_skip_ws(s, p1), ","@) {
                Some(p2) => match spec_lit(s, spec_skip_ws(s, p2), "\"executables\""@) {
                    Some(p3) => match spec_lit(s, spec_skip_ws(s, p3), ":"@) {
                        Some(p4) => match spec_lit(s, spec_skip_ws(s, p4), "["@) {
                            Some(p5) => {
                                let body = match spec_lit(s, spec_skip_ws(s, p5), "]"@) {
                                    Some(p6) => Some((Seq::<RawEntry>::empty(), p6)),
                                    None => spec_entries(s, p5),
                                };
                                match body {
                                    Some((rs, p7)) => match spec_lit(
                                        s,
                                        spec_skip_ws(s, p7),
                                        "}"@,
                                    ) {
                                        Some(p8) => if spec_skip_ws(s, p8) == s.len() {
                                            Some((v, rs))
                                        } else {
                                            None
                                        },
                                        None => None,
                                    },
                                    None => None,
                                }
                            },
                            None => None,
                        },
                        None => None,
                    },
                    None => None,
                },
                None => None,
            },
            None => None,
        },
        None => None,
    }
}

/// Where each piece of a whole manifest document lies.
proof fn lemma_doc_fields(s: Seq<char>, v: Seq<char>, rs0: Seq<RawEntry>)
    requires
        s == raw_doc(v, rs0),
    ensures
        ({
            let q0 = "{\n  \"version\": \""@.len() as int;
            let q1 = q0 + esc(v).len();
            let q2 = q1 + "\",\n  \"executables\": "@.len();
            let arr = if rs0.len() == 0 {
                "[]"@
            } else {
                "[\n"@ + raw_entries_doc(rs0) + "\n  ]"@
            };
            let q3 = q2 + arr.len();
            &&& s.subrange(0, q0) == "{\n  \"version\": \""@
            &&& s.subrange(q0, q1) == esc(v)
            &&& q1 < s.len() && s[q1] == '"'
            &&& s.subrange(q1, q2) == "\",\n  \"executables\": "@
            &&& s.subrange(q2, q3) == arr
            &&& s.subrange(q3, s.len() as int) == "\n}"@
            &&& q3 + "\n}"@.len() == s.len()
        }),
{
    reveal_strlit("\",\n  \"executables\": ");
    let l1 = "{\n  \"version\": \""@;
    let l2 = "\",\n  \"executables\": "@;
    let arr = if rs0.len() == 0 {
        "[]"@
    } else {
        "[\n"@ + raw_entries_doc(rs0) + "\n  ]"@
    };
    assert(s.subrange(0, s.len() as int) =~= s);
    assert(s =~= l1 + (esc(v) + (l2 + (arr + "\n}"@))));
    lemma_prefix_extract(s, 0, s.len() as int, l1, esc(v) + (l2 + (arr + "\n}"@)));
    let q0 = l1.len() as int;
    lemma_prefix_extract(s, q0, s.len() as int, esc(v), l2 + (arr + "\n}"@));
    let q1 = q0 + esc(v).len();
    lemma_prefix_extract(s, q1, s.len() as int, l2, arr + "\n}"@);
    let q2 = q1 + l2.len();
    lemma_prefix_extract(s, q2, s.len() as int, arr, "\n}"@);
    assert(s.subrange(q1, q2)[0] == s[q1]);
}

/// In a whole manifest document, a scanned quoted body at the version
/// position is the version, and closes where the document says.
proof fn lemma_doc_head_pins(
    s: Seq<char>,
    v: Seq<char>,
    rs0: Seq<RawEntry>,
    t: Seq<char>,
    p0: int,
    p1: int,
)
    requires
        s == raw_doc(v, rs0),
        p0 == "{\n  \"version\": \""@.len(),
        p0 <= p1 < s.len(),
        s.subrange(p0, p1) == esc(t),
        s[p1] == '"',
    ensures
        t == v,
        p1 == p0 + esc(v).len(),
{
    lemma_doc_fields(s, v, rs0);
    let q1 = p0 + esc(v).len() as int;
    lemma_split_three(s, p0, q1);
    lemma_split_three(s, p0, p1);
    lemma_esc_quote_unambiguous(
        t,
        v,
        s.subrange(p1 + 1, s.len() as int),
        s.subrange(q1 + 1, s.len() as int),
    );
}

/// One parsed entry against a canonical run of entries: the parsed entry is
/// the run's first, and what follows it is the rest of the run.
proof fn lemma_entry_step(
    s: Seq<char>,
    pos: int,
    p5: int,
    n: int,
    re: RawEntry,
    sk: Seq<RawEntry>,
    closer: Seq<char>,
)
    requires
        0 <= pos <= p5 <= n == s.len(),
        sk.len() > 0,
        closer == "\n  ]"@ + "\n}"@,
        s.subrange(pos, n) == raw_entries_doc(sk) + closer,
        s.subrange(pos, p5) == raw_entry_doc(re),
    ensures
        re == sk[0],
        sk.len() == 1 ==> s.subrange(p5, n) == closer,
        sk.len() > 1 ==> s.subrange(p5, n) == ",\n"@ + (raw_entries_doc(sk.skip(1)) + closer),
{
    let first = raw_entry_doc(sk[0]);
    let rest = if sk.len() == 1 {
        Seq::<char>::empty()
    } else {
        ",\n"@ + raw_entries_doc(sk.skip(1))
    };
    assert(raw_entries_doc(sk) + closer =~= first + (rest + closer));
    assert(s.subrange(pos, n) =~= s.subrange(pos, p5) + s.subrange(p5, n));
    lemma_entry_doc_unambiguous(re, sk[0], s.subrange(p5, n), rest + closer);
    if sk.len() == 1 {
        assert(s.subrange(p5, n) =~= closer);
    }
}

impl BingoConfig {
    /// Reads a manifest in the writer's own canonical layout. On success the
    /// result is exactly what the document says; on failure the text is no
    /// canonical document at all, and the tolerant reader gets its turn.
    #[verifier::rlimit(100)]
    fn from_json_canonical(json: &str) -> (r: BingoResult<BingoConfig>)
        ensures
            r matches Ok(c) ==> exists|rs: Seq<RawEntry>|
                json@ == raw_doc(c@.version, rs) && c@.entries == interp_raw(rs),
            r matches Err(e) ==> e matches BingoError::ConfigFileError(_),
            r is Err ==> forall|v: Seq<char>, rs0: Seq<RawEntry>| json@ != raw_doc(v, rs0),
    {
        let n = json.unicode_len();
        let p0 = match expect_lit(json, 0, "{\n  \"version\": \"") {
            Some(p) => p,
            None => {
                proof {
                    assert forall|v: Seq<char>, rs0: Seq<RawEntry>| json@ != raw_doc(v, rs0) by {
                        if json@ == raw_doc(v, rs0) {
                            lemma_doc_fields(json@, v, rs0);
                            assert(false);
                        }
                    }
                }
                return Err(malformed());
            },
        };
        let (version, p1) = match scan_string(json, p0) {
            Some(x) => x,
            None => {
                proof {
                    assert forall|v: Seq<char>, rs0: Seq<RawEntry>| json@ != raw_doc(v, rs0) by {
                        if json@ == raw_doc(v, rs0) {
                            lemma_doc_fields(json@, v, rs0);
                            let q1 = p0 + esc(v).len() as int;
                            assert(json@.subrange(p0 as int, q1) == esc(v));
                            assert(has_quoted_body(json@, p0 as int));
                            assert(false);
                        }
                    }
                }
                return Err(malformed());
            },
        };
        let p2 = match expect_lit(json, p1, "\",\n  \"executables\": ") {
            Some(p) => p,
            None => {
                proof {
                    assert forall|v: Seq<char>, rs0: Seq<RawEntry>| json@ != raw_doc(v, rs0) by {
                        if json@ == raw_doc(v, rs0) {
                            lemma_doc_fields(json@, v, rs0);
                            lemma_doc_head_pins(json@, v, rs0, version@, p0 as int, p1 as int);
                            let q1 = p0 + esc(v).len() as int;
                            assert(p1 == q1);
                            assert(json@.subrange(q1, q1 + "\",\n  \"executables\": "@.len())
                                == "\",\n  \"executables\": "@);
                            assert(false);
                        }
                    }
                }
                return Err(malformed());
            },
        };
        if let Some(p3) = expect_lit(json, p2, "[]") {
            let p4 = match expect_lit(json, p3, "\n}") {
                Some(p) => p,
                None => {
                    proof {
                        assert forall|v: Seq<char>, rs0: Seq<RawEntry>| json@ != raw_doc(
                            v,
                            rs0,
                        ) by {
                            if json@ == raw_doc(v, rs0) {
                                reveal_strlit("[]");
                                reveal_strlit("[\n");
                                lemma_doc_fields(json@, v, rs0);
                                lemma_doc_head_pins(json@, v, rs0, version@, p0 as int, p1 as int);
                                let q2 = p1 + "\",\n  \"executables\": "@.len() as int;
                                assert(p2 == q2);
                                if rs0.len() > 0 {
                                    let arr = "[\n"@ + raw_entries_doc(rs0) + "\n  ]"@;
                                    assert(arr =~= "[\n"@ + (raw_entries_doc(rs0) + "\n  ]"@));
                                    lemma_prefix_extract(
                                        json@,
                                        q2,
                                        q2 + arr.len(),
                                        "[\n"@,
                                        raw_entries_doc(rs0) + "\n  ]"@,
                                    );
                                    assert(json@.subrange(p2 as int, p2 + 2)[1] == json@[p2 + 1]);
                                    assert(json@.subrange(q2, q2 + 2)[1] == json@[q2 + 1]);
                                    assert(false);
                                }
                                assert(json@.subrange(p3 as int, p3 + 2) == "\n}"@);
                                assert(false);
                            }
                        }
                    }
                    return Err(malformed());
                },
            };
            if p4 != n {
                proof {
                    assert forall|v: Seq<char>, rs0: Seq<RawEntry>| json@ != raw_doc(v, rs0) by {
                        if json@ == raw_doc(v, rs0) {
                            reveal_strlit("[]");
                            reveal_strlit("[\n");
                            reveal_strlit("\n}");
                            lemma_doc_fields(json@, v, rs0);
                            lemma_doc_head_pins(json@, v, rs0, version@, p0 as int, p1 as int);
                            let q2 = p1 + "\",\n  \"executables\": "@.len() as int;
                            assert(p2 == q2);
                            if rs0.len() > 0 {
                                let arr = "[\n"@ + raw_entries_doc(rs0) + "\n  ]"@;
                                assert(arr =~= "[\n"@ + (raw_entries_doc(rs0) + "\n  ]"@));
                                lemma_prefix_extract(
                                    json@,
                                    q2,
                                    q2 + arr.len(),
                                    "[\n"@,
                                    raw_entries_doc(rs0) + "\n  ]"@,
                                );
                                assert(json@.subrange(p2 as int, p2 + 2)[1] == json@[p2 + 1]);
                                assert(json@.subrange(q2, q2 + 2)[1] == json@[q2 + 1]);
                                assert(false);
                            }
                            assert(p4 == n);
                            assert(false);
                        }
                    }
                }
                return Err(malformed());
            }
            let c = BingoConfig { version, executables: Vec::new() };
            proof {
                let ghost rs = Seq::<RawEntry>::empty();
                assert(json@ =~= json@.subrange(0, n as int));
                assert(json@ =~= raw_doc(c@.version, rs));
                assert(c@.entries =~= interp_raw(rs));
            }
            return Ok(c);
        }
        let p3 = match expect_lit(json, p2, "[\n") {
            Some(p) => p,
            None => {
                proof {
                    assert forall|v: Seq<char>, rs0: Seq<RawEntry>| json@ != raw_doc(v, rs0) by {
                        if json@ == raw_doc(v, rs0) {
                            reveal_strlit("[]");
                            reveal_strlit("[\n");
                            lemma_doc_fields(json@, v, rs0);
                            lemma_doc_head_pins(json@, v, rs0, version@, p0 as int, p1 as int);
                            let q2 = p1 + "\",\n  \"executables\": "@.len() as int;
                            assert(p2 == q2);
                            if rs0.len() == 0 {
                                assert(json@.subrange(q2, q2 + 2) == "[]"@);
                                assert(false);
                            }
                            let arr = "[\n"@ + raw_entries_doc(rs0) + "\n  ]"@;
                            assert(arr =~= "[\n"@ + (raw_entries_doc(rs0) + "\n  ]"@));
                            lemma_prefix_extract(
                                json@,
                                q2,
                                q2 + arr.len(),
                                "[\n"@,
                                raw_entries_doc(rs0) + "\n  ]"@,
                            );
                            assert(json@.subrange(q2, q2 + 2) == "[\n"@);
                            assert(false);
                        }
                    }
                }
                return Err(malformed());
            },
        };
        let ghost head = "{\n  \"version\": \""@ + esc(version@) + "\",\n  \"executables\": "@
            + "[\n"@;
        let ghost closer = "\n  ]"@ + "\n}"@;
        proof {
            assert(json@.subrange(0, p3 as int) =~= head);
            assert forall|v: Seq<char>, rs0: Seq<RawEntry>| json@ == raw_doc(v, rs0) implies 0
                < rs0.len() && json@.subrange(p3 as int, n as int) == raw_entries_doc(
                rs0.skip(0),
            ) + closer by {
                reveal_strlit("[]");
                reveal_strlit("[\n");
                lemma_doc_fields(json@, v, rs0);
                lemma_doc_head_pins(json@, v, rs0, version@, p0 as int, p1 as int);
                let q2 = p1 + "\",\n  \"executables\": "@.len() as int;
                assert(p2 == q2);
                if rs0.len() == 0 {
                    assert(json@.subrange(q2, q2 + 2) == "[]"@);
                    assert(json@.subrange(p2 as int, p2 + 2) == "[\n"@);
                    assert(false);
                }
                let arr = "[\n"@ + raw_entries_doc(rs0) + "\n  ]"@;
                let q3 = q2 + arr.len();
                assert(arr =~= "[\n"@ + (raw_entries_doc(rs0) + "\n  ]"@));
                lemma_prefix_extract(json@, q2, q3, "[\n"@, raw_entries_doc(rs0) + "\n  ]"@);
                assert(p3 == q2 + 2);
                assert(json@.subrange(p3 as int, q3) == raw_entries_doc(rs0) + "\n  ]"@);
                assert(json@.subrange(p3 as int, n as int) =~= json@.subrange(p3 as int, q3)
                    + json@.subrange(q3, n as int));
                assert(json@.subrange(p3 as int, n as int) =~= raw_entries_doc(rs0) + closer);
                assert(rs0.skip(0) =~= rs0);
            }
        }
        let mut execs: Vec<Executable> = Vec::new();
        let ghost mut rs = Seq::<RawEntry>::empty();
        let mut pos = p3;
        loop
            invariant
                p3 <= pos <= n,
                n == json@.len(),
                rs.len() == execs@.len(),
                entries_view(execs@) == interp_raw(rs),
                head == "{\n  \"version\": \""@ + esc(version@) + "\",\n  \"executables\": "@
                    + "[\n"@,
                closer == "\n  ]"@ + "\n}"@,
                rs.len() == 0 ==> json@.subrange(0, pos as int) == head,
                rs.len() > 0 ==> json@.subrange(0, pos as int) == head + raw_entries_doc(rs)
                    + ",\n"@,
                forall|v: Seq<char>, rs0: Seq<RawEntry>| json@ == raw_doc(v, rs0) ==> rs.len()
                    < rs0.len() && json@.subrange(pos as int, n as int) == raw_entries_doc(
                    rs0.skip(rs.len() as int),
                ) + closer,
            decreases n - pos,
        {
            let ghost rs_at_head = rs;
            let (e, p5, g) = match parse_entry(json, pos) {
                Some(x) => x,
                None => {
                    proof {
                        assert forall|v: Seq<char>, rs0: Seq<RawEntry>| json@ != raw_doc(
                            v,
                            rs0,
                        ) by {
                            if json@ == raw_doc(v, rs0) {
                                let sk = rs0.skip(rs_at_head.len() as int);
                                assert(sk.len() > 0);
                                let first = raw_entry_doc(sk[0]);
                                let rest = if sk.len() == 1 {
                                    Seq::<char>::empty()
                                } else {
                                    ",\n"@ + raw_entries_doc(sk.skip(1))
                                };
                                assert(raw_entries_doc(sk) + closer =~= first + (rest + closer));
                                lemma_prefix_extract(
                                    json@,
                                    pos as int,
                                    n as int,
                                    first,
                                    rest + closer,
                                );
                                assert(has_entry_at(json@, pos as int));
                                assert(false);
                            }
                        }
                    }
                    return Err(malformed());
                },
            };
            proof {
                reveal_strlit("    {\n      \"name\": \"");
            }
            let ghost re = RawEntry { name: e.name@, path: e.path@, ty: g@ };
            let ghost ev = EntryView {
                name: e.name@,
                path: e.path@,
                executable_type: e.executable_type,
            };
            let ghost prev = execs@;
            execs.push(e);
            proof {
                lemma_entries_doc_snoc(rs, re);
                assert(json@.subrange(0, p5 as int) =~= json@.subrange(0, pos as int)
                    + raw_entry_doc(re));
                if rs.len() == 0 {
                    assert(json@.subrange(0, p5 as int) =~= head + raw_entries_doc(rs.push(re)));
                } else {
                    assert(json@.subrange(0, p5 as int) =~= head + raw_entries_doc(rs.push(re)));
                }
                assert(execs@ == prev.push(e));
                assert forall|k: int| 0 <= k < execs@.len() implies entries_view(execs@)[k]
                    == interp_raw(rs.push(re))[k] by {
                    if k < rs.len() {
                        assert(entries_view(prev)[k] == interp_raw(rs)[k]);
                        assert(entries_view(execs@)[k] == execs@[k]@);
                        assert(execs@[k] == prev[k]);
                    } else {
                        assert(execs@[k] == e);
                        assert(e@ == ev);
                        assert(interp_raw(rs.push(re))[k] == EntryView {
                            name: re.name,
                            path: re.path,
                            executable_type: interp_ty(re.ty),
                        });
                    }
                }
                assert(entries_view(execs@) =~= interp_raw(rs.push(re)));
                rs = rs.push(re);
            }
            if let Some(p6) = expect_lit(json, p5, ",\n") {
                proof {
                    reveal_strlit(",\n");
                    assert(json@.subrange(0, p6 as int) =~= json@.subrange(0, p5 as int) + ",\n"@);
                    assert(json@.subrange(0, p6 as int) =~= head + raw_entries_doc(rs) + ",\n"@);
                    assert forall|v: Seq<char>, rs0: Seq<RawEntry>| json@ == raw_doc(
                        v,
                        rs0,
                    ) implies rs.len() < rs0.len() && json@.subrange(p6 as int, n as int)
                        == raw_entries_doc(rs0.skip(rs.len() as int)) + closer by {
                        reveal_strlit(",\n");
                        reveal_strlit("\n  ]");
                        let sk = rs0.skip(rs_at_head.len() as int);
                        assert(sk.len() > 0);
                        lemma_entry_step(json@, pos as int, p5 as int, n as int, re, sk, closer);
                        if sk.len() == 1 {
                            assert(closer[0] == '\n');
                            assert(json@.subrange(p5 as int, n as int)[0] == json@[p5 as int]);
                            assert(json@.subrange(p5 as int, p5 + 2)[0] == json@[p5 as int]);
                            assert(false);
                        }
                        lemma_prefix_extract(
                            json@,
                            p5 as int,
                            n as int,
                            ",\n"@,
                            raw_entries_doc(sk.skip(1)) + closer,
                        );
                        assert(sk.skip(1) =~= rs0.skip(rs.len() as int));
                        assert(json@.subrange(p6 as int, n as int) == raw_entries_doc(
                            rs0.skip(rs.len() as int),
                        ) + closer);
                    }
                }
                pos = p6;
            } else {
                let p6 = match expect_lit(json, p5, "\n  ]") {
                    Some(p) => p,
                    None => {
                        proof {
                            assert forall|v: Seq<char>, rs0: Seq<RawEntry>| json@ != raw_doc(
                                v,
                                rs0,
                            ) by {
                                if json@ == raw_doc(v, rs0) {
                                    reveal_strlit(",\n");
                                    reveal_strlit("\n  ]");
                                    let sk = rs0.skip(rs_at_head.len() as int);
                                    assert(sk.len() > 0);
                                    lemma_entry_step(
                                        json@,
                                        pos as int,
                                        p5 as int,
                                        n as int,
                                        re,
                                        sk,
                                        closer,
                                    );
                                    if sk.len() > 1 {
                                        lemma_prefix_extract(
                                            json@,
                                            p5 as int,
                                            n as int,
                                            ",\n"@,
                                            raw_entries_doc(sk.skip(1)) + closer,
                                        );
                                        assert(false);
                                    }
                                    lemma_prefix_extract(
                                        json@,
                                        p5 as int,
                                        n as int,
                                        "\n  ]"@,
                                        "\n}"@,
                                    );
                                    assert(false);
                                }
                            }
                        }
                        return Err(malformed());
                    },
                };
                let p7 = match expect_lit(json, p6, "\n}") {
                    Some(p) => p,
                    None => {
                        proof {
                            assert forall|v: Seq<char>, rs0: Seq<RawEntry>| json@ != raw_doc(
                                v,
                                rs0,
                            ) by {
                                if json@ == raw_doc(v, rs0) {
                                    reveal_strlit(",\n");
                                    reveal_strlit("\n  ]");
                                    reveal_strlit("\n}");
                                    let sk = rs0.skip(rs_at_head.len() as int);
                                    assert(sk.len() > 0);
                                    lemma_entry_step(
                                        json@,
                                        pos as int,
                                        p5 as int,
                                        n as int,
                                        re,
                                        sk,
                                        closer,
                                    );
                                    if sk.len() > 1 {
                                        lemma_prefix_extract(
                                            json@,
                                            p5 as int,
                                            n as int,
                                            ",\n"@,
                                            raw_entries_doc(sk.skip(1)) + closer,
                                        );
                                        assert(false);
                                    }
                                    lemma_prefix_extract(
                                        json@,
                                        p5 as int,
                                        n as int,
                                        "\n  ]"@,
                                        "\n}"@,
                                    );
                                    assert(p6 == p5 + 4);
                                    assert(json@.subrange(p6 as int, n as int) == "\n}"@);
                                    assert(n - p6 == 2);
                                    assert(json@.subrange(p6 as int, p6 + 2) == "\n}"@);
                                    assert(false);
                                }
                            }
                        }
                        return Err(malformed());
                    },
                };
                if p7 != n {
                    proof {
                        assert forall|v: Seq<char>, rs0: Seq<RawEntry>| json@ != raw_doc(
                            v,
                            rs0,
                        ) by {
                            if json@ == raw_doc(v, rs0) {
                                reveal_strlit(",\n");
                                reveal_strlit("\n  ]");
                                reveal_strlit("\n}");
                                let sk = rs0.skip(rs_at_head.len() as int);
                                assert(sk.len() > 0);
                                lemma_entry_step(
                                    json@,
                                    pos as int,
                                    p5 as int,
                                    n as int,
                                    re,
                                    sk,
                                    closer,
                                );
                                if sk.len() > 1 {
                                    lemma_prefix_extract(
                                        json@,
                                        p5 as int,
                                        n as int,
                                        ",\n"@,
                                        raw_entries_doc(sk.skip(1)) + closer,
                                    );
                                    assert(false);
                                }
                                assert(n - p5 == closer.len());
                                assert(p7 == p5 + 6);
                                assert(false);
                            }
                        }
                    }
                    return Err(malformed());
                }
                let c = BingoConfig { version, executables: execs };
                proof {
                    assert(json@ =~= json@.subrange(0, n as int));
                    assert(json@ =~= head + raw_entries_doc(rs) + "\n  ]"@ + "\n}"@);
                    assert(json@ =~= raw_doc(c@.version, rs));
                    assert(c@.entries =~= interp_raw(rs));
                }
                return Ok(c);
            }
        }
    }

    /// Registering one more parsed entry keeps the stored entries equal to
    /// the lenient interpretation of the raw entries.
    proof fn lemma_entries_push(prev: Seq<Executable>, e: Executable, rs: Seq<RawEntry>, re: RawEntry)
        requires
            entries_view(prev) == interp_raw(rs),
            rs.len() == prev.len(),
            re.name == e.name@,
            re.path == e.path@,
            e.executable_type == interp_ty(re.ty),
        ensures
            entries_view(prev.push(e)) == interp_raw(rs.push(re)),
    {
        assert forall|k: int| 0 <= k < prev.push(e).len() implies entries_view(prev.push(e))[k]
            == interp_raw(rs.push(re))[k] by {
            if k < rs.len() {
                assert(entries_view(prev)[k] == interp_raw(rs)[k]);
                assert(entries_view(prev)[k] == prev[k]@);
                assert(entries_view(prev.push(e))[k] == prev.push(e)[k]@);
                assert(prev.push(e)[k] == prev[k]);
                assert(rs.push(re)[k] == rs[k]);
                assert(interp_raw(rs.push(re))[k] == interp_raw(rs)[k]);
            } else {
                assert(prev.push(e)[k] == e);
                assert(entries_view(prev.push(e))[k] == prev.push(e)[k]@);
                assert(e@ == EntryView {
                    name: re.name,
                    path: re.path,
                    executable_type: interp_ty(re.ty),
                });
                assert(interp_raw(rs.push(re))[k] == EntryView {
                    name: re.name,
                    path: re.path,
                    executable_type: interp_ty(re.ty),
                });
            }
        }
        assert(entries_view(prev.push(e)) =~= interp_raw(rs.push(re)));
    }

    /// Reads a manifest in any layout: arbitrary whitespace between tokens
    /// and the standard string escapes. The field order is fixed, and an
    /// unknown mode name means copy. The result is exactly what `spec_doc`
    /// says of the text, in both directions.
    #[verifier::rlimit(100)]
    #[verifier::loop_isolation(false)]
    fn from_json_flex(json: &str) -> (r: BingoResult<BingoConfig>)
        ensures
            r matches Ok(c) ==> (spec_doc(json@) matches Some((v, rs)) && c@.version == v
                && c@.entries == interp_raw(rs)),
            r matches Err(e) ==> (e matches BingoError::ConfigFileError(_)) && spec_doc(json@)
                is None,
    {
        let n = json.unicode_len();
        let p0 = match expect_tok(json, 0, "{") {
            Some(p) => p,
            None => {
                proof {
                    assert(spec_doc(json@) is None);
                }
                return Err(malformed());
            },
        };
        let (version, p1) = match parse_field(json, p0, "\"version\"") {
            Some(x) => x,
            None => {
                proof {
                    assert(spec_doc(json@) is None);
                }
                return Err(malformed());
            },
        };
        let p2 = match expect_tok(json, p1, ",") {
            Some(p) => p,
            None => {
                proof {
                    assert(spec_doc(json@) is None);
                }
                return Err(malformed());
            },
        };
        let p3 = match expect_tok(json, p2, "\"executables\"") {
            Some(p) => p,
            None => {
                proof {
                    assert(spec_doc(json@) is None);
                }
                return Err(malformed());
            },
        };
        let p4 = match expect_tok(json, p3, ":") {
            Some(p) => p,
            None => {
                proof {
                    assert(spec_doc(json@) is None);
                }
                return Err(malformed());
            },
        };
        let p5 = match expect_tok(json, p4, "[") {
            Some(p) => p,
            None => {
                proof {
                    assert(spec_doc(json@) is None);
                }
                return Err(malformed());
            },
        };
        let mut execs: Vec<Executable> = Vec::new();
        let ghost mut rs = Seq::<RawEntry>::empty();
        if let Some(q) = expect_tok(json, p5, "]") {
            let t1 = match expect_tok(json, q, "}") {
                Some(p) => p,
                None => {
                    proof {
                        assert(spec_doc(json@) is None);
                    }
                    return Err(malformed());
                },
            };
            let t2 = skip_ws(json, t1);
            if t2 != n {
                proof {
                    assert(spec_doc(json@) is None);
                }
                return Err(malformed());
            }
            let c = BingoConfig { version, executables: execs };
            proof {
                assert(spec_doc(json@) == Some((version@, Seq::<RawEntry>::empty())));
                assert(entries_view(c.executables@) =~= interp_raw(rs));
            }
            return Ok(c);
        }
        let mut pos = p5;
        loop
            invariant
                p5 <= pos <= n,
                n == json@.len(),
                rs.len() == execs@.len(),
                entries_view(execs@) == interp_raw(rs),
                spec_entries(json@, p5 as int) == (match spec_entries(json@, pos as int) {
                    Some((rest, j)) => Some((rs + rest, j)),
                    None => None::<(Seq<RawEntry>, int)>,
                }),
            decreases n - pos,
        {
            let (e, p, g) = match parse_entry_flex(json, pos) {
                Some(x) => x,
                None => {
                    proof {
                        assert(spec_entries(json@, pos as int) is None);
                        assert(spec_entries(json@, p5 as int) is None);
                    }
                    return Err(malformed());
                },
            };
            let ghost re = RawEntry { name: e.name@, path: e.path@, ty: g@ };
            let ghost prev = execs@;
            execs.push(e);
            proof {
                assert(execs@ == prev.push(e));
                BingoConfig::lemma_entries_push(prev, e, rs, re);
            }
            if let Some(q) = expect_tok(json, p, ",") {
                proof {
                    assert(spec_entries(json@, pos as int) == (match spec_entries(
                        json@,
                        q as int,
                    ) {
                        Some((rest, j)) => Some((seq![re] + rest, j)),
                        None => None::<(Seq<RawEntry>, int)>,
                    }));
                    assert forall|rest: Seq<RawEntry>| true implies rs + (seq![re] + rest)
                        == rs.push(re) + rest by {
                        assert(rs + (seq![re] + rest) =~= rs.push(re) + rest);
                    }
                    rs = rs.push(re);
                }
                pos = q;
            } else {
                let ghost qq = spec_skip_ws(json@, p as int);
                let q = match expect_tok(json, p, "]") {
                    Some(x) => x,
                    None => {
                        proof {
                            assert(spec_entries(json@, pos as int) is None);
                            assert(spec_entries(json@, p5 as int) is None);
                        }
                        return Err(malformed());
                    },
                };
                proof {
                    assert(spec_entries(json@, pos as int) == Some((seq![re], q as int)));
                    assert(rs + seq![re] =~= rs.push(re));
                    assert(spec_entries(json@, p5 as int) == Some((rs.push(re), q as int)));
                    rs = rs.push(re);
                }
                let t1 = match expect_tok(json, q, "}") {
                    Some(p2) => p2,
                    None => {
                        proof {
                            assert(spec_doc(json@) is None);
                        }
                        return Err(malformed());
                    },
                };
                let t2 = skip_ws(json, t1);
                if t2 != n {
                    proof {
                        assert(spec_doc(json@) is None);
                    }
                    return Err(malformed());
                }
                let c = BingoConfig { version, executables: execs };
                proof {
                    assert(spec_doc(json@) == Some((version@, rs)));
                    assert(entries_view(c.executables@) == interp_raw(rs));
                }
                return Ok(c);
            }
        }
    }

    /// Parses a manifest document. The writer's canonical layout is read
    /// first and comes with the exact round-trip guarantee; any other
    /// layout is read tolerantly, with `spec_doc` as the exact
    /// specification of what is accepted and what it means: arbitrary
    /// whitespace between tokens, the standard string escapes, and an
    /// unknown mode name meaning copy. The field order is fixed (version,
    /// then executables; name, path, executable_type within an entry) and
    /// unknown object keys are refused — narrower than a general JSON
    /// reader. Anything else is a `ConfigFileError`; in particular, no
    /// canonically saved manifest is ever refused, and nothing outside the
    /// two layouts is ever accepted.
    pub fn from_json(json: &str) -> (r: BingoResult<BingoConfig>)
        ensures
            r matches Ok(c) ==> exists|rs: Seq<RawEntry>|
                c@.entries == interp_raw(rs) && (forall|v: Seq<char>, rs0: Seq<RawEntry>|
                    json@ == raw_doc(v, rs0) ==> v == c@.version && rs0 == rs) && ((forall|
                    v: Seq<char>,
                    rs0: Seq<RawEntry>,
                |
                    json@ != raw_doc(v, rs0)) ==> (spec_doc(json@) matches Some((v2, rs2)) && v2
                    == c@.version && rs2 == rs)),
            r matches Err(e) ==> e matches BingoError::ConfigFileError(_),
            r is Err ==> (forall|v: Seq<char>, rs0: Seq<RawEntry>| json@ != raw_doc(v, rs0))
                && spec_doc(json@) is None,
    {
        match BingoConfig::from_json_canonical(json) {
            Ok(c) => {
                proof {
                    let crs = choose|crs: Seq<RawEntry>|
                        json@ == raw_doc(c@.version, crs) && c@.entries == interp_raw(crs);
                    assert forall|v: Seq<char>, rs0: Seq<RawEntry>| json@ == raw_doc(
                        v,
                        rs0,
                    ) implies v == c@.version && rs0 == crs by {
                        lemma_raw_doc_injective(c@.version, crs, v, rs0);
                    }
                }
                Ok(c)
            },
            Err(_) => {
                match BingoConfig::from_json_flex(json) {
                    Ok(c) => {
                        proof {
                            let (v2, rs2) = choose|v2: Seq<char>, rs2: Seq<RawEntry>|
                                spec_doc(json@) == Some((v2, rs2));
                            assert(c@.entries == interp_raw(rs2));
                        }
                        Ok(c)
                    },
                    Err(e) => Err(e),
                }
            },
        }
    }

    /// Serializes the registry as its manifest document. Serialization
    /// cannot fail; the result is `Ok` for the caller to pass on.
    pub fn to_json(&self) -> (r: BingoResult<String>)
        ensures
            r matches Ok(s) && s@ == doc_of(self@),
    {
        let mut out = String::from_str("{\n  \"version\": \"");
        escape_into(self.version.as_str(), &mut out);
        out.append("\",\n  \"executables\": ");
        let ghost rs = canonical_raw(self@.entries);
        if self.executables.len() == 0 {
            out.append("[]");
        } else {
            out.append("[\n");
            let ghost head = out@;
            let n = self.executables.len();
            let mut i: usize = 0;
            while i < n
                invariant
                    n == self.executables.len(),
                    0 < n,
                    0 <= i <= n,
                    rs == canonical_raw(entries_view(self.executables@)),
                    rs.len() == n,
                    i == 0 ==> out@ == head,
                    i > 0 ==> out@ == head + raw_entries_doc(rs.take(i as int)),
                decreases n - i,
            {
                if i > 0 {
                    out.append(",\n");
                }
                append_entry(&self.executables[i], &mut out);
                proof {
                    assert(entries_view(self.executables@)[i as int] == self.executables@[
                        i as int
                    ]@);
                    assert(rs[i as int] == canon_entry(self.executables@[i as int]@));
                    assert(rs.take(i + 1) =~= rs.take(i as int).push(rs[i as int]));
                    lemma_entries_doc_snoc(rs.take(i as int), rs[i as int]);
                    if i == 0 {
                        assert(rs.take(0int) =~= Seq::<RawEntry>::empty());
                        assert(out@ =~= head + raw_entries_doc(rs.take(i + 1)));
                    } else {
                        assert(out@ =~= head + raw_entries_doc(rs.take(i + 1)));
                    }
                }
                i += 1;
            }
            proof {
                assert(rs.take(n as int) =~= rs);
            }
            out.append("\n  ]");
        }
        out.append("\n}");
        proof {
            assert(out@ =~= doc_of(self@));
        }
        Ok(out)
    }
}

} // verus!
