//! File identifiers: 20 raw SHA-1 bytes and their 40-character lowercase
//! hex form, with a verified conversion in each direction.

use vstd::prelude::*;

verus! {

/// The lowercase hex character for a nibble value below 16.
pub open spec fn hex_char_of(d: u8) -> char {
    if d == 0 { '0' } else if d == 1 { '1' } else if d == 2 { '2' } else if d == 3 { '3' }
    else if d == 4 { '4' } else if d == 5 { '5' } else if d == 6 { '6' } else if d == 7 { '7' }
    else if d == 8 { '8' } else if d == 9 { '9' } else if d == 10 { 'a' } else if d == 11 { 'b' }
    else if d == 12 { 'c' } else if d == 13 { 'd' } else if d == 14 { 'e' } else { 'f' }
}

/// Whether a character is a hex digit, upper or lower case.
pub open spec fn is_hex_char(c: char) -> bool {
    ('0' <= c && c <= '9') || ('a' <= c && c <= 'f') || ('A' <= c && c <= 'F')
}

/// The value of a hex digit character.
pub open spec fn hex_val(c: char) -> u8 {
    if '0' <= c && c <= '9' {
        (c as u8 - '0' as u8) as u8
    } else if 'a' <= c && c <= 'f' {
        (c as u8 - 'a' as u8 + 10) as u8
    } else {
        (c as u8 - 'A' as u8 + 10) as u8
    }
}

/// The lowercase hex rendering of a byte sequence: two characters per byte.
pub open spec fn hex_of(b: Seq<u8>) -> Seq<char> {
    Seq::new(b.len() * 2, |i: int| {
        if i % 2 == 0 { hex_char_of((b[i / 2] / 16) as u8) } else { hex_char_of((b[i / 2] % 16) as u8) }
    })
}

/// The bytes denoted by a sequence of hex digit characters of even length.
pub open spec fn bytes_of_hex(s: Seq<char>) -> Seq<u8> {
    Seq::new(s.len() / 2, |i: int| (hex_val(s[2 * i]) * 16 + hex_val(s[2 * i + 1])) as u8)
}

/// Whether every character of the sequence is a hex digit.
pub open spec fn all_hex(s: Seq<char>) -> bool {
    forall|i: int| 0 <= i < s.len() ==> is_hex_char(#[trigger] s[i])
}

/// A 20-byte raw file identifier.
pub struct RawId(pub [u8; 20]);

/// A 40-character lowercase hex file identifier.
pub struct StringId {
    s: String,
}

impl StringId {
    /// The hex characters of the identifier.
    pub closed spec fn view(&self) -> Seq<char> {
        self.s@
    }

    /// The identifier as a string slice.
    pub fn as_str(&self) -> (r: &str)
        ensures
            r@ == self@,
    {
        self.s.as_str()
    }
}

/// Appends the lowercase hex digit for `d` to `out`.
fn push_hex_char(out: &mut String, d: u8)
    requires
        d < 16,
    ensures
        final(out)@ == old(out)@ + seq![hex_char_of(d)],
{
    proof {
        reveal_strlit("0"); reveal_strlit("1"); reveal_strlit("2"); reveal_strlit("3");
        reveal_strlit("4"); reveal_strlit("5"); reveal_strlit("6"); reveal_strlit("7");
        reveal_strlit("8"); reveal_strlit("9"); reveal_strlit("a"); reveal_strlit("b");
        reveal_strlit("c"); reveal_strlit("d"); reveal_strlit("e"); reveal_strlit("f");
    }
    if d == 0 { out.append("0") } else if d == 1 { out.append("1") }
    else if d == 2 { out.append("2") } else if d == 3 { out.append("3") }
    else if d == 4 { out.append("4") } else if d == 5 { out.append("5") }
    else if d == 6 { out.append("6") } else if d == 7 { out.append("7") }
    else if d == 8 { out.append("8") } else if d == 9 { out.append("9") }
    else if d == 10 { out.append("a") } else if d == 11 { out.append("b") }
    else if d == 12 { out.append("c") } else if d == 13 { out.append("d") }
    else if d == 14 { out.append("e") } else { out.append("f") }
}

impl RawId {
    /// Renders the identifier as 40 lowercase hex characters.
    pub fn as_stringid(&self) -> (r: StringId)
        ensures
            r@ == hex_of(self.0@),
    {
        let mut s = String::new();
        let mut i: usize = 0;
        while i < 20
            invariant
                i <= 20,
                s@ == hex_of(self.0@.take(i as int)),
            decreases 20 - i,
        {
            let b = self.0[i];
            push_hex_char(&mut s, b / 16);
            push_hex_char(&mut s, b % 16);
            proof {
                let pre = self.0@.take(i as int);
                let post = self.0@.take(i as int + 1);
                assert(hex_of(post) =~= hex_of(pre) + seq![
                    hex_char_of((self.0@[i as int] / 16) as u8),
                    hex_char_of((self.0@[i as int] % 16) as u8),
                ]);
            }
            i = i + 1;
        }
        proof {
            assert(self.0@.take(20) =~= self.0@);
        }
        StringId { s }
    }
}

/// Reads the value of one hex digit character, rejecting anything else.
fn hex_digit(c: char) -> (r: Option<u8>)
    ensures
        r matches Some(v) ==> is_hex_char(c) && v == hex_val(c) && v < 16,
        r is None ==> !is_hex_char(c),
{
    if '0' <= c && c <= '9' {
        Some(c as u8 - '0' as u8)
    } else if 'a' <= c && c <= 'f' {
        Some(c as u8 - 'a' as u8 + 10)
    } else if 'A' <= c && c <= 'F' {
        Some(c as u8 - 'A' as u8 + 10)
    } else {
        None
    }
}

/// Parses a 40-character hex string into a 20-byte identifier.
/// Returns `None` exactly when the length is not 40 or a character is not
/// a hex digit.
pub fn parse_hex_id(s: &str) -> (r: Option<RawId>)
    ensures
        r matches Some(id) ==> s@.len() == 40 && all_hex(s@) && id.0@ == bytes_of_hex(s@),
        r is None ==> !(s@.len() == 40 && all_hex(s@)),
{
    let len = s.unicode_len();
    if len != 40 {
        return None;
    }
    let mut b: [u8; 20] = [0u8; 20];
    let mut i: usize = 0;
    while i < 20
        invariant
            i <= 20,
            s@.len() == 40,
            forall|j: int| 0 <= j < 2 * i ==> is_hex_char(#[trigger] s@[j]),
            forall|j: int| 0 <= j < i ==> b@[j] == bytes_of_hex(s@)[j],
        decreases 20 - i,
    {
        let c1 = s.get_char(2 * i);
        let c2 = s.get_char(2 * i + 1);
        let v1 = match hex_digit(c1) {
            Some(v) => v,
            None => { return None; },
        };
        let v2 = match hex_digit(c2) {
            Some(v) => v,
            None => { return None; },
        };
        b[i] = v1 * 16 + v2;
        i = i + 1;
    }
    Some(RawId(b))
}

/// Hex encoding inverts hex parsing: rendering any 20 bytes and reading
/// them back yields the original bytes.
pub proof fn lemma_hex_of_inverts(b: Seq<u8>)
    requires
        b.len() == 20,
    ensures
        hex_of(b).len() == 40,
        all_hex(hex_of(b)),
        bytes_of_hex(hex_of(b)) == b,
{
    let s = hex_of(b);
    assert forall|i: int| 0 <= i < s.len() implies is_hex_char(#[trigger] s[i]) by {
        let d: u8 = if i % 2 == 0 { (b[i / 2] / 16) as u8 } else { (b[i / 2] % 16) as u8 };
        assert(d < 16);
        assert(s[i] == hex_char_of(d));
    }
    assert forall|i: int| 0 <= i < 20 implies bytes_of_hex(s)[i] == b[i] by {
        let hi: u8 = (b[i] / 16) as u8;
        let lo: u8 = (b[i] % 16) as u8;
        assert(s[2 * i] == hex_char_of(hi));
        assert(s[2 * i + 1] == hex_char_of(lo));
        assert(hex_val(hex_char_of(hi)) == hi);
        assert(hex_val(hex_char_of(lo)) == lo);
    }
    assert(bytes_of_hex(s) =~= b);
}

/// Whether every character is a lowercase hex digit.
pub open spec fn all_lower_hex(s: Seq<char>) -> bool {
    forall|i: int| 0 <= i < s.len() ==> (('0' <= #[trigger] s[i] && s[i] <= '9') || ('a' <= s[i] && s[i] <= 'f'))
}

/// Hex parsing inverts hex encoding on lowercase input: reading 40
/// lowercase hex characters and rendering the bytes again yields the
/// original characters.
pub proof fn lemma_bytes_of_hex_inverts(s: Seq<char>)
    requires
        s.len() == 40,
        all_lower_hex(s),
    ensures
        bytes_of_hex(s).len() == 20,
        hex_of(bytes_of_hex(s)) == s,
{
    let b = bytes_of_hex(s);
    assert forall|i: int| 0 <= i < 40 implies hex_of(b)[i] == s[i] by {
        let v1 = hex_val(s[2 * (i / 2)]);
        let v2 = hex_val(s[2 * (i / 2) + 1]);
        assert(v1 < 16 && v2 < 16);
        assert(b[i / 2] == (v1 * 16 + v2) as u8);
        assert(hex_char_of(v1) == s[2 * (i / 2)]);
        assert(hex_char_of(v2) == s[2 * (i / 2) + 1]);
        if i % 2 == 0 {
            assert(hex_of(b)[i] == hex_char_of((b[i / 2] / 16) as u8));
            assert((b[i / 2] / 16) as u8 == v1);
        } else {
            assert(hex_of(b)[i] == hex_char_of((b[i / 2] % 16) as u8));
            assert((b[i / 2] % 16) as u8 == v2);
        }
    }
    assert(hex_of(b) =~= s);
}

} // verus!
