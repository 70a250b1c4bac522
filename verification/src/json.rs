//! Serialization of the committed mapping as a flat JSON object, with the
//! members in insertion order, and the law that the emitted text parses back
//! to the same mapping.

use vstd::prelude::*;

use crate::state::{EditorState, PairView, pairs_view};
use crate::strbuf::push_char;
use vstd::string::StrSliceExecFns;

verus! {

/// Error for a key or value the serializer cannot encode.  The escaping used
/// here is total, so [`EditorState::to_json`] proves it is never produced.
#[derive(Clone, Copy, Debug, PartialEq, Eq, Structural)]
pub enum SerializationError {
    Unencodable,
}

/// The lower-case hex digit for a value below 16.
pub open spec fn hex_digit(n: u32) -> char {
    if n == 0 {
        '0'
    } else if n == 1 {
        '1'
    } else if n == 2 {
        '2'
    } else if n == 3 {
        '3'
    } else if n == 4 {
        '4'
    } else if n == 5 {
        '5'
    } else if n == 6 {
        '6'
    } else if n == 7 {
        '7'
    } else if n == 8 {
        '8'
    } else if n == 9 {
        '9'
    } else if n == 10 {
        'a'
    } else if n == 11 {
        'b'
    } else if n == 12 {
        'c'
    } else if n == 13 {
        'd'
    } else if n == 14 {
        'e'
    } else {
        'f'
    }
}

/// How one character is written inside a JSON string: quote and backslash get
/// a backslash escape, control characters a `\u00XX` escape, and every other
/// character stands for itself.
pub open spec fn escape_char(c: char) -> Seq<char> {
    if c == '"' {
        seq!['\\', '"']
    } else if c == '\\' {
        seq!['\\', '\\']
    } else if (c as u32) < 0x20 {
        seq!['\\', 'u', '0', '0', hex_digit((c as u32) / 16), hex_digit((c as u32) % 16)]
    } else {
        seq![c]
    }
}

/// The escaped form of a whole string.
pub open spec fn escape_str(s: Seq<char>) -> Seq<char>
    decreases s.len(),
{
    if s.len() == 0 {
        Seq::empty()
    } else {
        escape_char(s[0]) + escape_str(s.drop_first())
    }
}

/// A JSON string: the escaped text between double quotes.
pub open spec fn quoted(s: Seq<char>) -> Seq<char> {
    seq!['"'] + escape_str(s) + seq!['"']
}

/// One object member: quoted key, colon, quoted value.
pub open spec fn member(p: PairView) -> Seq<char> {
    quoted(p.key) + seq![':'] + quoted(p.value)
}

/// The members of the object in order, separated by commas.
pub open spec fn members(m: Seq<PairView>) -> Seq<char>
    decreases m.len(),
{
    if m.len() == 0 {
        Seq::empty()
    } else if m.len() == 1 {
        member(m[0])
    } else {
        member(m[0]) + seq![','] + members(m.drop_first())
    }
}

/// The serialized object: the members between braces.
pub open spec fn json_of(m: Seq<PairView>) -> Seq<char> {
    seq!['{'] + members(m) + seq!['}']
}

/// Appending one pair at the end extends the member text by a comma (when the
/// object was non-empty) and the new member.
proof fn lemma_members_snoc(m: Seq<PairView>, p: PairView)
    ensures
        members(m.push(p)) == if m.len() == 0 {
            member(p)
        } else {
            members(m) + seq![','] + member(p)
        },
    decreases m.len(),
{
    let mp = m.push(p);
    if m.len() == 0 {
        assert(mp[0] == p);
    } else if m.len() == 1 {
        assert(mp[0] == m[0]);
        assert(mp.drop_first() =~= seq![p]);
        assert(members(seq![p]) == member(p));
    } else {
        assert(mp[0] == m[0]);
        assert(mp.drop_first() =~= m.drop_first().push(p));
        lemma_members_snoc(m.drop_first(), p);
    }
}

/// Appending one character extends the escaped text by that character's
/// escape.
proof fn lemma_escape_str_snoc(s: Seq<char>, c: char)
    ensures
        escape_str(s.push(c)) == escape_str(s) + escape_char(c),
    decreases s.len(),
{
    let sp = s.push(c);
    if s.len() == 0 {
        assert(sp[0] == c);
        assert(sp.drop_first() =~= Seq::<char>::empty());
        assert(escape_str(sp) == escape_char(sp[0]) + escape_str(sp.drop_first()));
        assert(escape_char(c) + Seq::<char>::empty() =~= escape_char(c));
        assert(escape_str(s) + escape_char(c) =~= escape_char(c));
    } else {
        assert(sp[0] == s[0]);
        assert(sp.drop_first() =~= s.drop_first().push(c));
        lemma_escape_str_snoc(s.drop_first(), c);
        assert(escape_str(sp) == escape_char(s[0]) + (escape_str(s.drop_first()) + escape_char(
            c,
        )));
        assert(escape_char(s[0]) + (escape_str(s.drop_first()) + escape_char(c)) =~= (escape_char(
            s[0],
        ) + escape_str(s.drop_first())) + escape_char(c));
    }
}

/// The lower-case hex digit for a value below 16, as executable code.
fn hex_digit_char(n: u32) -> (r: char)
    requires
        n < 16,
    ensures
        r == hex_digit(n),
{
    if n == 0 {
        '0'
    } else if n == 1 {
        '1'
    } else if n == 2 {
        '2'
    } else if n == 3 {
        '3'
    } else if n == 4 {
        '4'
    } else if n == 5 {
        '5'
    } else if n == 6 {
        '6'
    } else if n == 7 {
        '7'
    } else if n == 8 {
        '8'
    } else if n == 9 {
        '9'
    } else if n == 10 {
        'a'
    } else if n == 11 {
        'b'
    } else if n == 12 {
        'c'
    } else if n == 13 {
        'd'
    } else if n == 14 {
        'e'
    } else {
        'f'
    }
}

/// Append the escaped form of `s` to `out`.
fn escape_append(out: &mut String, s: &str)
    ensures
        final(out)@ == old(out)@ + escape_str(s@),
{
    let n: usize = s.unicode_len();
    let mut i: usize = 0;
    while i < n
        invariant
            n == s@.len(),
            0 <= i <= n,
            out@ == old(out)@ + escape_str(s@.take(i as int)),
        decreases n - i,
    {
        let c: char = s.get_char(i);
        if c == '"' {
            push_char(out, '\\');
            push_char(out, '"');
        } else if c == '\\' {
            push_char(out, '\\');
            push_char(out, '\\');
        } else if (c as u32) < 0x20 {
            let code: u32 = c as u32;
            push_char(out, '\\');
            push_char(out, 'u');
            push_char(out, '0');
            push_char(out, '0');
            push_char(out, hex_digit_char(code / 16));
            push_char(out, hex_digit_char(code % 16));
        } else {
            push_char(out, c);
        }
        proof {
            lemma_escape_str_snoc(s@.take(i as int), s@[i as int]);
            assert(s@.take(i as int + 1) =~= s@.take(i as int).push(s@[i as int]));
            assert(out@ =~= old(out)@ + escape_str(s@.take(i as int + 1)));
        }
        i += 1;
    }
    proof {
        assert(s@.take(n as int) =~= s@);
    }
}

impl EditorState {
    /// Serialize the committed mapping as one JSON object whose members are
    /// the pairs in insertion order, each value a JSON string.  The escaping
    /// is total, so serialization always succeeds.
    pub fn to_json(&self) -> (r: Result<String, SerializationError>)
        ensures
            r matches Ok(s) && s@ == json_of(self@.mapping),
    {
        let ghost m = pairs_view(self.pairs@);
        let mut out = String::new();
        push_char(&mut out, '{');
        let n: usize = self.pairs.len();
        let mut i: usize = 0;
        while i < n
            invariant
                n == self.pairs@.len(),
                0 <= i <= n,
                m == pairs_view(self.pairs@),
                m.len() == n,
                out@ == seq!['{'] + members(m.take(i as int)),
            decreases n - i,
        {
            if i > 0 {
                push_char(&mut out, ',');
            }
            push_char(&mut out, '"');
            escape_append(&mut out, self.pairs[i].key.as_str());
            push_char(&mut out, '"');
            push_char(&mut out, ':');
            push_char(&mut out, '"');
            escape_append(&mut out, self.pairs[i].value.as_str());
            push_char(&mut out, '"');
            proof {
                let p = m[i as int];
                assert(self.pairs@[i as int]@ == p);
                lemma_members_snoc(m.take(i as int), p);
                assert(m.take(i as int + 1) =~= m.take(i as int).push(p));
                assert(out@ =~= seq!['{'] + members(m.take(i as int + 1)));
            }
            i += 1;
        }
        push_char(&mut out, '}');
        proof {
            assert(m.take(n as int) =~= m);
            assert(out@ =~= json_of(m));
        }
        Ok(out)
    }
}

/// Whether `c` is a lower-case hex digit.
pub open spec fn is_hex(c: char) -> bool {
    c == '0' || c == '1' || c == '2' || c == '3' || c == '4' || c == '5' || c == '6' || c == '7'
        || c == '8' || c == '9' || c == 'a' || c == 'b' || c == 'c' || c == 'd' || c == 'e' || c
        == 'f'
}

/// The value of a lower-case hex digit.
pub open spec fn hex_val(c: char) -> u32 {
    if c == '0' {
        0
    } else if c == '1' {
        1
    } else if c == '2' {
        2
    } else if c == '3' {
        3
    } else if c == '4' {
        4
    } else if c == '5' {
        5
    } else if c == '6' {
        6
    } else if c == '7' {
        7
    } else if c == '8' {
        8
    } else if c == '9' {
        9
    } else if c == 'a' {
        10
    } else if c == 'b' {
        11
    } else if c == 'c' {
        12
    } else if c == 'd' {
        13
    } else if c == 'e' {
        14
    } else {
        15
    }
}

/// The code point of a character.
pub open spec fn code_of(c: char) -> u32 {
    c as u32
}

/// The character with the given code point.
pub open spec fn char_of_code(code: int) -> char {
    choose|c: char| code_of(c) == code
}

/// Read a JSON string body up to its closing quote and decode the escapes
/// the serializer uses; returns the decoded text and the remaining input.
/// Raw control characters and unknown escapes are rejected.
pub open spec fn parse_string_body(s: Seq<char>) -> Option<(Seq<char>, Seq<char>)>
    decreases s.len(),
{
    if s.len() == 0 {
        None
    } else if s[0] == '"' {
        Some((Seq::empty(), s.drop_first()))
    } else if s[0] == '\\' {
        if s.len() < 2 {
            None
        } else if s[1] == '"' || s[1] == '\\' {
            match parse_string_body(s.skip(2)) {
                Some(t) => Some((seq![s[1]] + t.0, t.1)),
                None => None,
            }
        } else if s[1] == 'u' {
            if s.len() < 6 {
                None
            } else if s[2] == '0' && s[3] == '0' && is_hex(s[4]) && is_hex(s[5]) {
                match parse_string_body(s.skip(6)) {
                    Some(t) => Some(
                        (seq![char_of_code(16 * hex_val(s[4]) + hex_val(s[5]))] + t.0, t.1),
                    ),
                    None => None,
                }
            } else {
                None
            }
        } else {
            None
        }
    } else if (s[0] as u32) < 0x20 {
        None
    } else {
        match parse_string_body(s.drop_first()) {
            Some(t) => Some((seq![s[0]] + t.0, t.1)),
            None => None,
        }
    }
}

/// Read a quoted JSON string; returns the decoded text and the remaining
/// input.
pub open spec fn parse_string(s: Seq<char>) -> Option<(Seq<char>, Seq<char>)> {
    if s.len() > 0 && s[0] == '"' {
        parse_string_body(s.drop_first())
    } else {
        None
    }
}

/// Read one `"key":"value"` member; returns the pair and the remaining
/// input.
pub open spec fn parse_member(s: Seq<char>) -> Option<(PairView, Seq<char>)> {
    match parse_string(s) {
        Some(k) => if k.1.len() > 0 && k.1[0] == ':' {
            match parse_string(k.1.drop_first()) {
                Some(v) => Some((PairView { key: k.0, value: v.0 }, v.1)),
                None => None,
            }
        } else {
            None
        },
        None => None,
    }
}

/// Read one or more comma-separated members; returns them in order and the
/// remaining input.
pub open spec fn parse_members(s: Seq<char>) -> Option<(Seq<PairView>, Seq<char>)>
    decreases s.len(),
{
    match parse_member(s) {
        Some(p) => if p.1.len() > 0 && p.1[0] == ',' {
            if p.1.drop_first().len() < s.len() {
                match parse_members(p.1.drop_first()) {
                    Some(ms) => Some((seq![p.0] + ms.0, ms.1)),
                    None => None,
                }
            } else {
                None
            }
        } else {
            Some((seq![p.0], p.1))
        },
        None => None,
    }
}

/// Read a whole flat object of string members, in the grammar the serializer
/// emits; the pairs come back in member order.
pub open spec fn parse_json(s: Seq<char>) -> Option<Seq<PairView>> {
    if s.len() < 2 || s[0] != '{' {
        None
    } else if s[1] == '}' {
        if s.len() == 2 {
            Some(Seq::empty())
        } else {
            None
        }
    } else {
        match parse_members(s.drop_first()) {
            Some(ms) => if ms.1 == seq!['}'] {
                Some(ms.0)
            } else {
                None
            },
            None => None,
        }
    }
}

/// Two characters with the same code point are the same character.
proof fn lemma_char_code_injective(a: char, b: char)
    ensures
        a as u32 == b as u32 ==> a == b,
{
}

/// The hex encoding of a value below 16 decodes to that value.
proof fn lemma_hex_round_trip(n: u32)
    requires
        n < 16,
    ensures
        is_hex(hex_digit(n)),
        hex_val(hex_digit(n)) == n,
{
}

/// Decoding inverts escaping: the escaped text, the closing quote and any
/// remainder parse back to the original text and that remainder.
proof fn lemma_parse_escape(s: Seq<char>, rest: Seq<char>)
    ensures
        parse_string_body(escape_str(s) + seq!['"'] + rest) == Some((s, rest)),
    decreases s.len(),
{
    let input = escape_str(s) + seq!['"'] + rest;
    if s.len() == 0 {
        assert(escape_str(s) =~= Seq::<char>::empty());
        assert(input =~= seq!['"'] + rest);
        assert(input[0] == '"');
        assert(input.drop_first() =~= rest);
        assert(Seq::<char>::empty() =~= s);
    } else {
        let c = s[0];
        let s1 = s.drop_first();
        assert(escape_str(s) == escape_char(c) + escape_str(s1));
        let tail = escape_str(s1) + seq!['"'] + rest;
        assert(input =~= escape_char(c) + tail);
        lemma_parse_escape(s1, rest);
        assert(seq![c] + s1 =~= s);
        if c == '"' {
            assert(input[0] == '\\' && input[1] == '"');
            assert(input.skip(2) =~= tail);
        } else if c == '\\' {
            assert(input[0] == '\\' && input[1] == '\\');
            assert(input.skip(2) =~= tail);
        } else if (c as u32) < 0x20 {
            let code = c as u32;
            assert(escape_char(c) == seq![
                '\\',
                'u',
                '0',
                '0',
                hex_digit(code / 16),
                hex_digit(code % 16),
            ]);
            assert(input[0] == '\\' && input[1] == 'u' && input[2] == '0' && input[3] == '0');
            assert(input[4] == hex_digit(code / 16) && input[5] == hex_digit(code % 16));
            assert(code / 16 < 16 && code % 16 < 16);
            lemma_hex_round_trip(code / 16);
            lemma_hex_round_trip(code % 16);
            assert(16 * hex_val(input[4]) + hex_val(input[5]) == code);
            assert(input.skip(6) =~= tail);
            let cc = char_of_code(code as int);
            assert(code_of(c) == code);
            assert(code_of(cc) == code);
            lemma_char_code_injective(cc, c);
            assert(cc == c);
        } else {
            assert(input[0] == c);
            assert(input.drop_first() =~= tail);
        }
    }
}

/// A quoted string followed by any remainder parses back to the original
/// text and that remainder.
proof fn lemma_parse_quoted(s: Seq<char>, rest: Seq<char>)
    ensures
        parse_string(quoted(s) + rest) == Some((s, rest)),
{
    let input = quoted(s) + rest;
    assert(input[0] == '"');
    assert(input.drop_first() =~= escape_str(s) + seq!['"'] + rest);
    lemma_parse_escape(s, rest);
}

/// One serialized member followed by any remainder parses back to the
/// original pair and that remainder.
proof fn lemma_parse_member(p: PairView, rest: Seq<char>)
    ensures
        parse_member(member(p) + rest) == Some((p, rest)),
{
    let input = member(p) + rest;
    let rest_k = seq![':'] + quoted(p.value) + rest;
    assert(input =~= quoted(p.key) + rest_k);
    lemma_parse_quoted(p.key, rest_k);
    assert(rest_k[0] == ':');
    assert(rest_k.drop_first() =~= quoted(p.value) + rest);
    lemma_parse_quoted(p.value, rest);
    assert(PairView { key: p.key, value: p.value } =~= p);
}

/// The serialized members of a non-empty mapping, followed by a remainder
/// that does not begin with a comma, parse back to the original pairs and
/// that remainder.
proof fn lemma_parse_members(m: Seq<PairView>, rest: Seq<char>)
    requires
        m.len() >= 1,
        rest.len() >= 1,
        rest[0] != ',',
    ensures
        parse_members(members(m) + rest) == Some((m, rest)),
    decreases m.len(),
{
    let input = members(m) + rest;
    if m.len() == 1 {
        assert(members(m) == member(m[0]));
        lemma_parse_member(m[0], rest);
        assert(seq![m[0]] =~= m);
    } else {
        let tail_members = members(m.drop_first());
        assert(members(m) == member(m[0]) + seq![','] + tail_members);
        let rest1 = seq![','] + tail_members + rest;
        assert(input =~= member(m[0]) + rest1);
        lemma_parse_member(m[0], rest1);
        assert(rest1[0] == ',');
        assert(rest1.drop_first() =~= tail_members + rest);
        lemma_parse_members(m.drop_first(), rest);
        assert(rest1.drop_first().len() < input.len());
        assert(seq![m[0]] + m.drop_first() =~= m);
    }
}

/// Round-trip law: serializing any mapping and parsing the result yields the
/// mapping again, pair for pair and in order.
pub proof fn lemma_to_json_round_trip(m: Seq<PairView>)
    ensures
        parse_json(json_of(m)) == Some(m),
{
    let s = json_of(m);
    if m.len() == 0 {
        assert(members(m) =~= Seq::<char>::empty());
        assert(s =~= seq!['{', '}']);
        assert(s.len() == 2 && s[0] == '{' && s[1] == '}');
        assert(Seq::<PairView>::empty() =~= m);
    } else {
        assert(member(m[0])[0] == '"');
        assert(members(m)[0] == '"');
        assert(s[0] == '{');
        assert(s[1] == members(m)[0]);
        assert(s[1] != '}');
        assert(s.drop_first() =~= members(m) + seq!['}']);
        lemma_parse_members(m, seq!['}']);
    }
}

} // verus!
