//! Text: trimmed identification strings and hexadecimal numbers.
use vstd::arithmetic::power::pow;
use vstd::prelude::*;
use vstd::string::StringExecFns;
use vstd::utf8::{decode_utf8, pop_first_scalar, valid_utf8};

verus! {

/// Whether `c` has the Unicode property `White_Space`.
pub open spec fn is_white_space(c: char) -> bool {
    let u = c as u32;
    ||| 0x09 <= u <= 0x0d
    ||| u == 0x20
    ||| u == 0x85
    ||| u == 0xa0
    ||| u == 0x1680
    ||| 0x2000 <= u <= 0x200a
    ||| u == 0x2028
    ||| u == 0x2029
    ||| u == 0x202f
    ||| u == 0x205f
    ||| u == 0x3000
}

/// `s` without the white space that leads it.
pub open spec fn trimmed_start(s: Seq<char>) -> Seq<char>
    decreases s.len(),
{
    if s.len() > 0 && is_white_space(s[0]) {
        trimmed_start(s.drop_first())
    } else {
        s
    }
}

/// `s` without the white space that trails it.
pub open spec fn trimmed_end(s: Seq<char>) -> Seq<char>
    decreases s.len(),
{
    if s.len() > 0 && is_white_space(s.last()) {
        trimmed_end(s.drop_last())
    } else {
        s
    }
}

/// `s` without the white space around it.
pub open spec fn trimmed(s: Seq<char>) -> Seq<char> {
    trimmed_end(trimmed_start(s))
}

/// What stands in for a text that is not UTF-8.
pub open spec fn invalid_text() -> Seq<char> {
    "<invalid>"@
}

/// The text of a fixed-width identification field: the bytes as UTF-8 without
/// the white space around them, or a placeholder where they are not UTF-8.
pub open spec fn field_text(b: Seq<u8>) -> Seq<char> {
    if valid_utf8(b) {
        trimmed(decode_utf8(b))
    } else {
        invalid_text()
    }
}

/// The error of `core::str::from_utf8`, which nothing here looks into.
#[verifier::external_type_specification]
#[verifier::external_body]
pub struct ExUtf8Error(core::str::Utf8Error);

/// `core::str::from_utf8`: it succeeds exactly on valid UTF-8, and then gives
/// the characters that the bytes encode.
pub assume_specification<'a>[ core::str::from_utf8 ](v: &'a [u8]) -> (res: Result<
    &'a str,
    core::str::Utf8Error,
>)
    ensures
        res is Ok <==> valid_utf8(v@),
        res matches Ok(s) ==> s@ == decode_utf8(v@),
;

/// `str::trim`: the string without leading and trailing characters of the
/// Unicode property `White_Space`.
pub assume_specification<'a>[ str::trim ](s: &'a str) -> (res: &'a str)
    ensures
        res@ == trimmed(s@),
;

/// Reads a fixed-width identification field.
pub fn read_field(b: &[u8]) -> (res: String)
    ensures
        res@ == field_text(b@),
{
    match core::str::from_utf8(b) {
        Ok(s) => s.trim().to_owned(),
        Err(_) => {
            proof {
                reveal_strlit("<invalid>");
            }
            assert(trimmed(invalid_text()) == invalid_text());
            "<invalid>".trim().to_owned()
        },
    }
}

/// The lower-case hexadecimal digit of value `d`.
pub open spec fn hex_digit(d: int) -> char
    recommends
        0 <= d < 16,
{
    if d < 10 {
        (0x30 + d) as char
    } else {
        (0x57 + d) as char
    }
}

/// The last `n` hexadecimal digits of `x`.
pub open spec fn hex_digits(x: nat, n: nat) -> Seq<char>
    decreases n,
{
    if n == 0 {
        seq![]
    } else {
        hex_digits(x / 16, (n - 1) as nat).push(hex_digit((x % 16) as int))
    }
}

/// `x` as `0x` and `n` hexadecimal digits.
pub open spec fn hex_text(x: nat, n: nat) -> Seq<char> {
    seq!['0', 'x'] + hex_digits(x, n)
}

/// The hexadecimal digit of value `d`.
fn digit(d: u32) -> (res: &'static str)
    requires
        d < 16,
    ensures
        res@ == seq![hex_digit(d as int)],
{
    proof {
        reveal_strlit("0");
        reveal_strlit("1");
        reveal_strlit("2");
        reveal_strlit("3");
        reveal_strlit("4");
        reveal_strlit("5");
        reveal_strlit("6");
        reveal_strlit("7");
        reveal_strlit("8");
        reveal_strlit("9");
        reveal_strlit("a");
        reveal_strlit("b");
        reveal_strlit("c");
        reveal_strlit("d");
        reveal_strlit("e");
        reveal_strlit("f");
    }
    match d {
        0 => "0",
        1 => "1",
        2 => "2",
        3 => "3",
        4 => "4",
        5 => "5",
        6 => "6",
        7 => "7",
        8 => "8",
        9 => "9",
        10 => "a",
        11 => "b",
        12 => "c",
        13 => "d",
        14 => "e",
        _ => "f",
    }
}

/// Appends the last `n` hexadecimal digits of `x` to `out`.
fn push_digits(out: &mut String, x: u32, n: u32)
    ensures
        final(out)@ == old(out)@ + hex_digits(x as nat, n as nat),
    decreases n,
{
    if n > 0 {
        push_digits(out, x / 16, n - 1);
        out.append(digit(x % 16));
    }
    assert(out@ =~= old(out)@ + hex_digits(x as nat, n as nat));
}

/// Appends `x` to `out` as `0x` and `n` hexadecimal digits.
pub fn push_hex(out: &mut String, x: u32, n: u32)
    ensures
        final(out)@ == old(out)@ + hex_text(x as nat, n as nat),
{
    proof {
        reveal_strlit("0x");
    }
    out.append("0x");
    push_digits(out, x, n);
    assert(out@ =~= old(out)@ + hex_text(x as nat, n as nat));
}

/// Trimming takes the white space away that leads and trails, and nothing else.
pub proof fn law_trimmed(a: Seq<char>, core: Seq<char>, c: Seq<char>)
    requires
        forall|i: int| 0 <= i < a.len() ==> is_white_space(#[trigger] a[i]),
        forall|i: int| 0 <= i < c.len() ==> is_white_space(#[trigger] c[i]),
        core.len() > 0 ==> !is_white_space(core[0]) && !is_white_space(core.last()),
    ensures
        trimmed(a + core + c) == core,
{
    lemma_trimmed_start(a, core + c);
    assert(a + core + c =~= a + (core + c));
    if core.len() > 0 {
        assert((core + c)[0] == core[0]);
        lemma_trimmed_end(core, c);
    } else {
        lemma_trimmed_start(c, core);
        assert(core + c =~= c + core);
    }
}

proof fn lemma_trimmed_start(a: Seq<char>, rest: Seq<char>)
    requires
        forall|i: int| 0 <= i < a.len() ==> is_white_space(#[trigger] a[i]),
    ensures
        trimmed_start(a + rest) == trimmed_start(rest),
    decreases a.len(),
{
    if a.len() > 0 {
        assert((a + rest)[0] == a[0]);
        assert((a + rest).drop_first() =~= a.drop_first() + rest);
        assert forall|i: int| 0 <= i < a.len() - 1 implies is_white_space(
            #[trigger] a.drop_first()[i],
        ) by {
            assert(is_white_space(a[i + 1]));
        }
        lemma_trimmed_start(a.drop_first(), rest);
    } else {
        assert(a + rest =~= rest);
    }
}

proof fn lemma_trimmed_end(core: Seq<char>, c: Seq<char>)
    requires
        forall|i: int| 0 <= i < c.len() ==> is_white_space(#[trigger] c[i]),
        core.len() > 0,
        !is_white_space(core.last()),
    ensures
        trimmed_end(core + c) == core,
    decreases c.len(),
{
    if c.len() > 0 {
        assert((core + c).last() == c.last());
        assert(is_white_space(c[c.len() - 1]));
        assert((core + c).drop_last() =~= core + c.drop_last());
        lemma_trimmed_end(core, c.drop_last());
    } else {
        assert(core + c =~= core);
    }
}

/// ASCII bytes are UTF-8, and stand for themselves.
proof fn lemma_ascii(b: Seq<u8>)
    requires
        forall|i: int| 0 <= i < b.len() ==> #[trigger] b[i] < 0x80,
    ensures
        valid_utf8(b),
        decode_utf8(b).len() == b.len(),
        forall|i: int| 0 <= i < b.len() ==> #[trigger] decode_utf8(b)[i] == b[i] as char,
    decreases b.len(),
{
    if b.len() > 0 {
        let first = b[0];
        assert((first & 0x7f) == first) by (bit_vector)
            requires
                first < 0x80,
        ;
        let rest = pop_first_scalar(b);
        assert(rest =~= b.drop_first());
        assert forall|i: int| 0 <= i < rest.len() implies #[trigger] rest[i] < 0x80 by {
            assert(b[i + 1] < 0x80);
        }
        lemma_ascii(rest);
        assert(decode_utf8(b) =~= seq![first as char] + decode_utf8(rest));
        assert forall|i: int| 0 <= i < b.len() implies #[trigger] decode_utf8(b)[i] == b[i] as char
            by {
            if i > 0 {
                assert(decode_utf8(b)[i] == decode_utf8(rest)[i - 1]);
                assert(rest[i - 1] == b[i]);
            }
        }
    }
}

/// An ASCII field says what stands in it from position `i` to position `j`,
/// character for character, where there is nothing but blanks before and after,
/// and none at these two ends.
pub proof fn law_field_text(b: Seq<u8>, i: int, j: int)
    requires
        0 <= i <= j <= b.len(),
        forall|k: int| 0 <= k < b.len() ==> #[trigger] b[k] < 0x80,
        forall|k: int|
            0 <= k < i || j <= k < b.len() ==> #[trigger] b[k] == 0x20 || 0x09 <= b[k] <= 0x0d,
        i < j ==> b[i] != 0x20 && !(0x09 <= b[i] <= 0x0d),
        i < j ==> b[j - 1] != 0x20 && !(0x09 <= b[j - 1] <= 0x0d),
    ensures
        field_text(b).len() == j - i,
        forall|k: int| 0 <= k < j - i ==> #[trigger] field_text(b)[k] == b[i + k] as char,
{
    lemma_ascii(b);
    let d = decode_utf8(b);
    let a = d.take(i);
    let core = d.subrange(i, j);
    let c = d.skip(j);
    assert(d =~= a + core + c);
    assert forall|k: int| 0 <= k < a.len() implies is_white_space(#[trigger] a[k]) by {
        assert(a[k] == b[k] as char);
    }
    assert forall|k: int| 0 <= k < c.len() implies is_white_space(#[trigger] c[k]) by {
        assert(c[k] == b[j + k] as char);
    }
    if i < j {
        assert(core[0] == b[i] as char);
        assert(core.last() == b[j - 1] as char);
    }
    law_trimmed(a, core, c);
}

/// A field that is not UTF-8 gives the placeholder, and one that is gives what
/// is left of its characters without the white space around them.
pub proof fn law_field_of_characters(b: Seq<u8>, a: Seq<char>, core: Seq<char>, c: Seq<char>)
    requires
        forall|i: int| 0 <= i < a.len() ==> is_white_space(#[trigger] a[i]),
        forall|i: int| 0 <= i < c.len() ==> is_white_space(#[trigger] c[i]),
        core.len() > 0 ==> !is_white_space(core[0]) && !is_white_space(core.last()),
    ensures
        !valid_utf8(b) ==> field_text(b) == "<invalid>"@,
        valid_utf8(b) && decode_utf8(b) == a + core + c ==> field_text(b) == core,
{
    law_trimmed(a, core, c);
}

/// The number that hexadecimal digits write down.
pub open spec fn hex_value(s: Seq<char>) -> int
    decreases s.len(),
{
    if s.len() == 0 {
        0
    } else {
        let c = s.last() as int;
        16 * hex_value(s.drop_last()) + if c <= 0x39 {
            c - 0x30
        } else {
            c - 0x57
        }
    }
}

/// Hexadecimal text writes down its number: it is `0x` and digits of 0 to 9 and a
/// to f, of which there are as many as asked for, and their value is the number
/// as far as the digits reach.
pub proof fn law_hex_text(x: nat, n: nat)
    ensures
        hex_text(x, n).len() == 2 + n,
        hex_text(x, n)[0] == '0',
        hex_text(x, n)[1] == 'x',
        forall|i: int|
            2 <= i < 2 + n ==> '0' <= #[trigger] hex_text(x, n)[i] <= '9' || 'a' <= hex_text(x, n)[i]
                <= 'f',
        x < pow(16, n) ==> hex_value(hex_text(x, n).skip(2)) == x,
{
    lemma_hex_digits(x, n);
    assert(hex_text(x, n).skip(2) =~= hex_digits(x, n));
    assert forall|i: int| 2 <= i < 2 + n implies '0' <= #[trigger] hex_text(x, n)[i] <= '9' || 'a'
        <= hex_text(x, n)[i] <= 'f' by {
        assert(hex_text(x, n)[i] == hex_digits(x, n)[i - 2]);
    }
}

proof fn lemma_hex_digits(x: nat, n: nat)
    ensures
        hex_digits(x, n).len() == n,
        forall|i: int|
            0 <= i < n ==> '0' <= #[trigger] hex_digits(x, n)[i] <= '9' || 'a' <= hex_digits(x, n)[i]
                <= 'f',
        x < pow(16, n) ==> hex_value(hex_digits(x, n)) == x,
    decreases n,
{
    reveal(pow);
    if n > 0 {
        lemma_hex_digits(x / 16, (n - 1) as nat);
        let s = hex_digits(x, n);
        assert(s.drop_last() =~= hex_digits(x / 16, (n - 1) as nat));
        assert(s.last() == hex_digit((x % 16) as int));
        assert(pow(16, n) == 16 * pow(16, (n - 1) as nat));
    }
}

} // verus!
