//! Building text: lowercase hexadecimal, JSON string escaping, and the
//! `String::push` primitive.
use vstd::prelude::*;

verus! {

/// The lowercase hexadecimal digit of a nibble.
pub open spec fn hex_digit(n: u8) -> char {
    if n < 10 {
        ((48 + n) as u8) as char
    } else {
        ((87 + n) as u8) as char
    }
}

/// Two lowercase hexadecimal digits per byte.
pub open spec fn hex_chars(b: Seq<u8>) -> Seq<char>
    decreases b.len(),
{
    if b.len() == 0 {
        Seq::empty()
    } else {
        hex_chars(b.drop_last()) + seq![hex_digit(b.last() >> 4u8), hex_digit(b.last() & 0xfu8)]
    }
}

/// `String::push`: appends one character.
#[verifier::external_body]
pub(crate) fn string_push(s: &mut String, c: char)
    ensures
        final(s)@ == old(s)@.push(c),
{
    s.push(c);
}

fn hex_digit_exec(n: u8) -> (c: char)
    requires
        n < 16,
    ensures
        c == hex_digit(n),
{
    if n < 10 {
        (48u8 + n) as char
    } else {
        (87u8 + n) as char
    }
}

/// Append the lowercase hexadecimal form of `b` to `s`.
pub fn push_hex(s: &mut String, b: &[u8])
    ensures
        final(s)@ == old(s)@ + hex_chars(b@),
{
    let mut i: usize = 0;
    while i < b.len()
        invariant
            i <= b@.len(),
            s@ == old(s)@ + hex_chars(b@.subrange(0, i as int)),
        decreases b@.len() - i,
    {
        let x = b[i];
        assert(x >> 4u8 < 16 && x & 0xfu8 < 16) by (bit_vector);
        let hi = hex_digit_exec(x >> 4);
        let lo = hex_digit_exec(x & 0xf);
        string_push(s, hi);
        string_push(s, lo);
        proof {
            let t = b@.subrange(0, i as int + 1);
            assert(t.drop_last() =~= b@.subrange(0, i as int));
            assert(t.last() == x);
            assert(s@ =~= old(s)@ + hex_chars(t));
        }
        i = i + 1;
    }
    assert(b@.subrange(0, b@.len() as int) =~= b@);
}

/// Lowercase hexadecimal text of a byte slice.
pub fn hex(b: &[u8]) -> (s: String)
    ensures
        s@ == hex_chars(b@),
{
    let mut s = String::new();
    push_hex(&mut s, b);
    assert(s@ =~= hex_chars(b@));
    s
}


/// The JSON string-literal text of one character: a double quote becomes a
/// single quote, `\` and the control characters below U+0020 are escaped,
/// every other character stands for itself.
pub open spec fn json_char(c: char) -> Seq<char> {
    if c == '"' {
        seq!['\'']
    } else if c == '\\' {
        seq!['\\', '\\']
    } else if c == '\n' {
        seq!['\\', 'n']
    } else if c == '\r' {
        seq!['\\', 'r']
    } else if c == '\t' {
        seq!['\\', 't']
    } else if (c as u32) < 0x20 {
        seq!['\\', 'u', '0', '0', hex_digit(((c as u32) / 16) as u8), hex_digit(((c as u32) % 16) as u8)]
    } else {
        seq![c]
    }
}

/// The text of `s` for the inside of a JSON string literal: double quotes
/// turned into single quotes, the rest escaped as JSON requires.
pub open spec fn json_escape(s: Seq<char>) -> Seq<char>
    decreases s.len(),
{
    if s.len() == 0 {
        Seq::empty()
    } else {
        json_escape(s.drop_last()) + json_char(s.last())
    }
}

/// Append `t`, escaped for the inside of a JSON string literal, to `s`.
pub fn push_json_escaped(s: &mut String, t: &str)
    ensures
        final(s)@ == old(s)@ + json_escape(t@),
{
    let n = t.unicode_len();
    let mut i: usize = 0;
    while i < n
        invariant
            i <= n,
            n == t@.len(),
            s@ == old(s)@ + json_escape(t@.subrange(0, i as int)),
        decreases n - i,
    {
        let c = t.get_char(i);
        let ghost before = s@;
        if c == '"' {
            string_push(s, '\'');
        } else if c == '\\' {
            string_push(s, '\\');
            string_push(s, '\\');
        } else if c == '\n' {
            string_push(s, '\\');
            string_push(s, 'n');
        } else if c == '\r' {
            string_push(s, '\\');
            string_push(s, 'r');
        } else if c == '\t' {
            string_push(s, '\\');
            string_push(s, 't');
        } else if (c as u32) < 0x20 {
            let v = c as u32;
            let hi = hex_digit_exec((v / 16) as u8);
            let lo = hex_digit_exec((v % 16) as u8);
            string_push(s, '\\');
            string_push(s, 'u');
            string_push(s, '0');
            string_push(s, '0');
            string_push(s, hi);
            string_push(s, lo);
        } else {
            string_push(s, c);
        }
        proof {
            let u = t@.subrange(0, i as int + 1);
            assert(u.drop_last() =~= t@.subrange(0, i as int));
            assert(u.last() == c);
            assert(s@ =~= before + json_char(c));
        }
        i = i + 1;
    }
    assert(t@.subrange(0, n as int) =~= t@);
}

/// Whether two byte slices hold the same bytes.
pub fn bytes_eq(a: &[u8], b: &[u8]) -> (r: bool)
    ensures
        r == (a@ == b@),
{
    if a.len() != b.len() {
        return false;
    }
    let mut i: usize = 0;
    while i < a.len()
        invariant
            i <= a@.len(),
            a@.len() == b@.len(),
            forall|j: int| 0 <= j < i ==> a@[j] == b@[j],
        decreases a@.len() - i,
    {
        if a[i] != b[i] {
            return false;
        }
        i = i + 1;
    }
    assert(a@ =~= b@);
    true
}

} // verus!
