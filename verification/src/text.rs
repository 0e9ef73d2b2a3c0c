//! Text produced from on-disk bytes, through std's UTF-8/UTF-16 decoders
//! and formatter.

use vstd::prelude::*;
use vstd::string::StrSliceExecFns;

verus! {

/// What `String::from_utf8_lossy` decodes `bytes` to.
pub uninterp spec fn utf8_lossy_decode(bytes: Seq<u8>) -> Seq<char>;

/// Whether `c` has the Unicode `White_Space` property, which is what
/// `char::is_whitespace` tests.
pub open spec fn is_white_space(c: char) -> bool {
    let n = c as int;
    ||| 0x09 <= n <= 0x0D
    ||| n == 0x20
    ||| n == 0x85
    ||| n == 0xA0
    ||| n == 0x1680
    ||| 0x2000 <= n <= 0x200A
    ||| n == 0x2028
    ||| n == 0x2029
    ||| n == 0x202F
    ||| n == 0x205F
    ||| n == 0x3000
}

/// `s` without its trailing white space (what `str::trim_end` leaves).
pub open spec fn trim_end_of(s: Seq<char>) -> Seq<char>
    decreases s.len(),
{
    if s.len() > 0 && is_white_space(s.last()) {
        trim_end_of(s.drop_last())
    } else {
        s
    }
}

/// What `String::from_utf16_lossy` decodes `units` to.
pub uninterp spec fn utf16_lossy_decode(units: Seq<u16>) -> Seq<char>;

/// Whether every byte is ASCII.
pub open spec fn all_ascii(bytes: Seq<u8>) -> bool {
    forall|i: int| 0 <= i < bytes.len() ==> bytes[i] < 0x80
}

/// ASCII bytes read as the characters with the same codes.
pub open spec fn ascii_chars(bytes: Seq<u8>) -> Seq<char> {
    Seq::new(bytes.len(), |i: int| bytes[i] as char)
}

/// `String::from_utf8_lossy(bytes)`, owned. ASCII is valid UTF-8 and
/// decodes to the same characters.
#[verifier::external_body]
pub fn utf8_lossy(bytes: &[u8]) -> (r: String)
    ensures
        r@ == utf8_lossy_decode(bytes@),
        all_ascii(bytes@) ==> r@ == ascii_chars(bytes@),
{
    String::from_utf8_lossy(bytes).into_owned()
}

/// Whether `c` has the Unicode `White_Space` property.
fn is_white_space_char(c: char) -> (r: bool)
    ensures
        r == is_white_space(c),
{
    let n = c as u32;
    (0x09 <= n && n <= 0x0D) || n == 0x20 || n == 0x85 || n == 0xA0 || n == 0x1680 || (0x2000 <= n && n
        <= 0x200A) || n == 0x2028 || n == 0x2029 || n == 0x202F || n == 0x205F || n == 0x3000
}

/// `s` with every trailing character that has the Unicode `White_Space`
/// property removed (what `str::trim_end` leaves), owned.
pub fn trim_end(s: &str) -> (r: String)
    ensures
        r@ == trim_end_of(s@),
{
    let mut n = s.unicode_len();
    proof {
        assert(s@.subrange(0, n as int) =~= s@);
    }
    loop
        invariant
            n <= s@.len(),
            trim_end_of(s@) == trim_end_of(s@.subrange(0, n as int)),
        ensures
            n <= s@.len(),
            trim_end_of(s@) == trim_end_of(s@.subrange(0, n as int)),
            n == 0 || !is_white_space(s@[n - 1]),
        decreases n,
    {
        if n == 0 {
            break;
        }
        let c = s.get_char(n - 1);
        if !is_white_space_char(c) {
            break;
        }
        proof {
            let t = s@.subrange(0, n as int);
            assert(t.last() == c);
            assert(t.drop_last() =~= s@.subrange(0, n - 1));
        }
        n = n - 1;
    }
    proof {
        let t = s@.subrange(0, n as int);
        if n > 0 {
            assert(t.last() == s@[n - 1]);
        }
    }
    s.substring_char(0, n).to_owned()
}

/// `String::from_utf16_lossy(units)`. Code units below 0xD800 are
/// characters of their own.
#[verifier::external_body]
pub fn utf16_lossy(units: &[u16]) -> (r: String)
    ensures
        r@ == utf16_lossy_decode(units@),
        (forall|i: int| 0 <= i < units@.len() ==> units@[i] < 0xD800) ==> r@ == Seq::new(
            units@.len(),
            |i: int| units@[i] as char,
        ),
{
    String::from_utf16_lossy(units)
}

/// The decimal digit `d` (0 to 9) as a character.
pub open spec fn digit_char(d: nat) -> char {
    if d == 0 {
        '0'
    } else if d == 1 {
        '1'
    } else if d == 2 {
        '2'
    } else if d == 3 {
        '3'
    } else if d == 4 {
        '4'
    } else if d == 5 {
        '5'
    } else if d == 6 {
        '6'
    } else if d == 7 {
        '7'
    } else if d == 8 {
        '8'
    } else {
        '9'
    }
}

/// `n` written in decimal, without leading zeros.
pub open spec fn decimal(n: nat) -> Seq<char>
    decreases n,
{
    if n < 10 {
        seq![digit_char(n)]
    } else {
        decimal(n / 10).push(digit_char(n % 10))
    }
}

/// The one-character text of the decimal digit `d`.
fn digit_text(d: u64) -> (r: &'static str)
    requires
        d < 10,
    ensures
        r@ =~= seq![digit_char(d as nat)],
{
    if d == 0 {
        proof {
            reveal_strlit("0");
        }
        "0"
    } else if d == 1 {
        proof {
            reveal_strlit("1");
        }
        "1"
    } else if d == 2 {
        proof {
            reveal_strlit("2");
        }
        "2"
    } else if d == 3 {
        proof {
            reveal_strlit("3");
        }
        "3"
    } else if d == 4 {
        proof {
            reveal_strlit("4");
        }
        "4"
    } else if d == 5 {
        proof {
            reveal_strlit("5");
        }
        "5"
    } else if d == 6 {
        proof {
            reveal_strlit("6");
        }
        "6"
    } else if d == 7 {
        proof {
            reveal_strlit("7");
        }
        "7"
    } else if d == 8 {
        proof {
            reveal_strlit("8");
        }
        "8"
    } else {
        proof {
            reveal_strlit("9");
        }
        "9"
    }
}

/// `n` in decimal, without leading zeros (what `n.to_string()` gives).
pub fn decimal_string(n: u64) -> (r: String)
    ensures
        r@ == decimal(n as nat),
    decreases n,
{
    if n < 10 {
        digit_text(n).to_owned()
    } else {
        let head = decimal_string(n / 10);
        let r = head.concat(digit_text(n % 10));
        proof {
            assert(r@ =~= decimal((n / 10) as nat).push(digit_char((n % 10) as nat)));
        }
        r
    }
}

/// The `Display` text of an I/O error. Nothing is claimed of it: it may
/// come from the operating system.
#[verifier::external_body]
pub fn io_error_text(e: &std::io::Error) -> String {
    e.to_string()
}

/// The lower-case hexadecimal digit for `d` (0 to 15).
pub open spec fn hex_digit(d: nat) -> char {
    if d < 10 {
        digit_char(d)
    } else if d == 10 {
        'a'
    } else if d == 11 {
        'b'
    } else if d == 12 {
        'c'
    } else if d == 13 {
        'd'
    } else if d == 14 {
        'e'
    } else {
        'f'
    }
}

/// The one-character text of the lower-case hexadecimal digit `d`.
fn hex_text(d: u8) -> (r: &'static str)
    requires
        d < 16,
    ensures
        r@ =~= seq![hex_digit(d as nat)],
{
    if d < 10 {
        digit_text(d as u64)
    } else if d == 10 {
        proof {
            reveal_strlit("a");
        }
        "a"
    } else if d == 11 {
        proof {
            reveal_strlit("b");
        }
        "b"
    } else if d == 12 {
        proof {
            reveal_strlit("c");
        }
        "c"
    } else if d == 13 {
        proof {
            reveal_strlit("d");
        }
        "d"
    } else if d == 14 {
        proof {
            reveal_strlit("e");
        }
        "e"
    } else {
        proof {
            reveal_strlit("f");
        }
        "f"
    }
}

/// "unexpected boot signature byte: 0x" and the byte in two lower-case
/// hexadecimal digits (as `{:02x}` writes it).
pub fn boot_signature_message(byte: u8) -> (r: String)
    ensures
        r@ == "unexpected boot signature byte: 0x"@ + seq![hex_digit(byte as nat / 16), hex_digit(byte as nat % 16)],
{
    let hi = hex_text(byte / 16);
    let lo = hex_text(byte % 16);
    let r = "unexpected boot signature byte: 0x".to_owned().concat(hi).concat(lo);
    proof {
        assert(r@ =~= "unexpected boot signature byte: 0x"@ + seq![hex_digit(byte as nat / 16), hex_digit(byte as nat % 16)]);
    }
    r
}

/// What `format!("{:?}", s)` writes for a string `s`: `s` quoted, with
/// the characters `Debug` escapes escaped.
pub uninterp spec fn str_debug_text(s: Seq<char>) -> Seq<char>;

/// `format!("{s:?}")`: the `Debug` text of `s`.
#[verifier::external_body]
fn debug_text(s: &str) -> (r: String)
    ensures
        r@ == str_debug_text(s@),
{
    format!("{s:?}")
}

/// "FIELD is not 'EXPECTED': FOUND", with `found_debug` the `Debug` text
/// of the value found.
pub fn mismatch_text(field: &str, expected: &str, found_debug: &str) -> (r: String)
    ensures
        r@ == field@ + " is not '"@ + expected@ + "': "@ + found_debug@,
{
    let r = field.to_owned().concat(" is not '").concat(expected).concat("': ").concat(found_debug);
    proof {
        assert(r@ =~= field@ + " is not '"@ + expected@ + "': "@ + found_debug@);
    }
    r
}

/// "FIELD is not 'EXPECTED': FOUND" for an unexpected filesystem-type or
/// OEM field, `FOUND` being the value found, quoted and escaped as
/// `Debug` writes it.
pub fn field_mismatch_message(field: &str, expected: &str, found: &str) -> (r: String)
    ensures
        r@ == field@ + " is not '"@ + expected@ + "': "@ + str_debug_text(found@),
{
    let d = debug_text(found);
    mismatch_text(field, expected, d.as_str())
}

/// Whether `a` and `b` are the same text.
pub fn same_text(a: &str, b: &str) -> (r: bool)
    ensures
        r == (a@ == b@),
{
    let n = a.unicode_len();
    if n != b.unicode_len() {
        return false;
    }
    let mut i: usize = 0;
    while i < n
        invariant
            n == a@.len(),
            n == b@.len(),
            i <= n,
            forall|j: int| 0 <= j < i ==> a@[j] == b@[j],
        decreases n - i,
    {
        if a.get_char(i) != b.get_char(i) {
            return false;
        }
        i = i + 1;
    }
    proof {
        assert(a@ =~= b@);
    }
    true
}

} // verus!
