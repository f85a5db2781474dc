//! JSON encoding of strings.
use vstd::prelude::*;

verus! {

/// The lower-case hexadecimal digit of a number below sixteen.
pub open spec fn hex_digit(d: int) -> char {
    if d < 10 {
        (48 + d) as char
    } else {
        (87 + d) as char
    }
}

/// How one character is written inside JSON double quotes.
pub open spec fn escaped(c: char) -> Seq<char> {
    if c == '"' {
        seq!['\\', '"']
    } else if c == '\\' {
        seq!['\\', '\\']
    } else if c == '\n' {
        seq!['\\', 'n']
    } else if c == '\r' {
        seq!['\\', 'r']
    } else if c == '\t' {
        seq!['\\', 't']
    } else if (c as int) < 0x20 {
        seq!['\\', 'u', '0', '0', hex_digit(c as int / 16), hex_digit(c as int % 16)]
    } else {
        seq![c]
    }
}

/// How a text is written inside JSON double quotes.
pub open spec fn escaped_text(s: Seq<char>) -> Seq<char>
    decreases s.len(),
{
    if s.len() == 0 {
        seq![]
    } else {
        escaped_text(s.drop_last()) + escaped(s.last())
    }
}

/// The value of a hexadecimal digit.
pub open spec fn hex_value(c: char) -> int {
    if c <= '9' {
        c as int - 48
    } else {
        c as int - 87
    }
}

/// How a JSON reader decodes the text between double quotes.
pub open spec fn unescaped(t: Seq<char>) -> Seq<char>
    decreases t.len(),
{
    if t.len() == 0 {
        seq![]
    } else if t[0] != '\\' {
        seq![t[0]] + unescaped(t.skip(1))
    } else if t.len() >= 6 && t[1] == 'u' {
        let code = 4096 * hex_value(t[2]) + 256 * hex_value(t[3]) + 16 * hex_value(t[4])
            + hex_value(t[5]);
        seq![code as char] + unescaped(t.skip(6))
    } else if t.len() >= 2 {
        let c = if t[1] == 'n' {
            '\n'
        } else if t[1] == 'r' {
            '\r'
        } else if t[1] == 't' {
            '\t'
        } else {
            t[1]
        };
        seq![c] + unescaped(t.skip(2))
    } else {
        seq![]
    }
}

proof fn lemma_escaped_from_left(s: Seq<char>)
    requires
        s.len() > 0,
    ensures
        escaped_text(s) == escaped(s[0]) + escaped_text(s.skip(1)),
    decreases s.len(),
{
    if s.len() == 1 {
        assert(s.drop_last() =~= seq![]);
        assert(s.skip(1) =~= seq![]);
        assert(escaped_text(s.drop_last()) =~= seq![]);
        assert(escaped(s[0]) + escaped_text(s.skip(1)) =~= escaped(s[0]));
    } else {
        lemma_escaped_from_left(s.drop_last());
        assert(s.drop_last().skip(1) =~= s.skip(1).drop_last());
        assert((escaped(s[0]) + escaped_text(s.skip(1).drop_last())) + escaped(s.last())
            =~= escaped(s[0]) + (escaped_text(s.skip(1).drop_last()) + escaped(s.last())));
    }
}

/// A JSON reader gets back exactly the text that was escaped, so no two texts
/// are written alike.
pub proof fn law_escape_is_decoded(s: Seq<char>)
    ensures
        unescaped(escaped_text(s)) == s,
    decreases s.len(),
{
    if s.len() > 0 {
        lemma_escaped_from_left(s);
        let head = escaped(s[0]);
        let rest = escaped_text(s.skip(1));
        let t = head + rest;
        law_escape_is_decoded(s.skip(1));
        assert(t.skip(head.len() as int) =~= rest);
        assert(seq![s[0]] + s.skip(1) =~= s);
        let c = s[0];
        crate::text::lemma_char_range(c);
        if (c as int) < 0x20 && c != '\n' && c != '\r' && c != '\t' {
            assert(t[0] == '\\' && t[1] == 'u' && t[2] == '0' && t[3] == '0');
            assert(t[4] == hex_digit(c as int / 16) && t[5] == hex_digit(c as int % 16));
        } else if head.len() == 2 {
            assert(t[0] == head[0] && t[1] == head[1]);
            assert(t[1] != 'u');
        } else {
            assert(t[0] == c);
        }
    }
}

/// Nothing in an escaped text would end the JSON string early or break its
/// syntax: no control character occurs, and a quote only behind a backslash.
pub proof fn law_escape_is_clean(s: Seq<char>)
    ensures
        forall|i: int|
            0 <= i < escaped_text(s).len() ==> (#[trigger] escaped_text(s)[i]) as int >= 0x20 && (
            escaped_text(s)[i] == '"' ==> i > 0 && escaped_text(s)[i - 1] == '\\'),
    decreases s.len(),
{
    if s.len() > 0 {
        law_escape_is_clean(s.drop_last());
        let a = escaped_text(s.drop_last());
        let b = escaped(s.last());
        crate::text::lemma_char_range(s.last());
        assert forall|i: int| 0 <= i < (a + b).len() implies (#[trigger] (a + b)[i]) as int >= 0x20 && (
        (a + b)[i] == '"' ==> i > 0 && (a + b)[i - 1] == '\\') by {
            if i < a.len() {
                assert((a + b)[i] == a[i]);
                if i > 0 {
                    assert((a + b)[i - 1] == a[i - 1]);
                }
            } else {
                assert((a + b)[i] == b[i - a.len()]);
                if i > a.len() {
                    assert((a + b)[i - 1] == b[i - a.len() - 1]);
                }
            }
        }
    }
}

fn hex_char(d: u8) -> (c: char)
    requires
        d < 16,
    ensures
        c == hex_digit(d as int),
{
    if d < 10 {
        (48 + d) as char
    } else {
        (87 + d) as char
    }
}

/// Escape a string for inclusion inside JSON double quotes.
pub fn escape(s: &str) -> (out: String)
    ensures
        out@ == escaped_text(s@),
{
    let mut out = String::new();
    let chars = crate::text::to_chars(s);
    let mut i: usize = 0;
    while i < chars.len()
        invariant
            chars@ == s@,
            i <= chars.len(),
            out@ == escaped_text(s@.take(i as int)),
        decreases chars.len() - i,
    {
        let c: char = chars[i];
        let ghost before = out@;
        proof {
            crate::text::lemma_char_range(c);
        }
        if c == '"' || c == '\\' {
            out.push('\\');
            out.push(c);
        } else if c == '\n' {
            out.push('\\');
            out.push('n');
        } else if c == '\r' {
            out.push('\\');
            out.push('r');
        } else if c == '\t' {
            out.push('\\');
            out.push('t');
        } else if (c as u32) < 0x20 {
            let v: u8 = (c as u32) as u8;
            out.push('\\');
            out.push('u');
            out.push('0');
            out.push('0');
            out.push(hex_char(v / 16));
            out.push(hex_char(v % 16));
        } else {
            out.push(c);
        }
        proof {
            assert(s@.take(i + 1).drop_last() =~= s@.take(i as int));
            assert(out@ =~= before + escaped(c));
        }
        i += 1;
    }
    proof {
        assert(s@.take(i as int) =~= s@);
    }
    out
}

} // verus!
