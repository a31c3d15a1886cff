//! Decimal and hexadecimal numerals: what a numeral denotes, how a number is
//! written, and the executable readers and writers for both.

use vstd::prelude::*;
use vstd::string::*;

verus! {

/// The value of `c` read as a digit: 0 to 9 for a decimal digit, 10 to 15 for
/// a letter `a` to `f` in either case, and -1 for any other character.
pub open spec fn digit_of(c: char) -> int {
    if '0' <= c <= '9' {
        c as int - 48
    } else if 'a' <= c <= 'f' {
        c as int - 87
    } else if 'A' <= c <= 'F' {
        c as int - 55
    } else {
        -1
    }
}

/// The character that writes the digit `d`, letters in lower case.
pub open spec fn digit_char(d: int) -> char {
    if d < 10 {
        ((48 + d) as u8) as char
    } else {
        ((87 + d) as u8) as char
    }
}

pub open spec fn is_dec_digit(c: char) -> bool {
    0 <= digit_of(c) < 10
}

pub open spec fn is_hex_digit(c: char) -> bool {
    0 <= digit_of(c) < 16
}

/// The number that the decimal digits of `t` denote.
pub open spec fn dec_value(t: Seq<char>) -> int
    decreases t.len(),
{
    if t.len() == 0 {
        0
    } else {
        dec_value(t.drop_last()) * 10 + digit_of(t.last())
    }
}

/// The number that the hexadecimal digits of `t` denote.
pub open spec fn hex_value(t: Seq<char>) -> int
    decreases t.len(),
{
    if t.len() == 0 {
        0
    } else {
        hex_value(t.drop_last()) * 16 + digit_of(t.last())
    }
}

/// `n` in decimal, without leading zeros.
pub open spec fn decimal(n: nat) -> Seq<char>
    decreases n,
{
    if n < 10 {
        seq![digit_char(n as int)]
    } else {
        decimal(n / 10).push(digit_char((n % 10) as int))
    }
}

/// `n` in lower-case hexadecimal, without leading zeros.
pub open spec fn hexadecimal(n: nat) -> Seq<char>
    decreases n,
{
    if n < 16 {
        seq![digit_char(n as int)]
    } else {
        hexadecimal(n / 16).push(digit_char((n % 16) as int))
    }
}

/// A decimal octet as an address holds it: one to three decimal digits, no
/// leading zero before another digit, and a value of at most 255.
pub open spec fn is_octet_text(t: Seq<char>) -> bool {
    &&& 1 <= t.len() <= 3
    &&& forall|i: int| 0 <= i < t.len() ==> is_dec_digit(#[trigger] t[i])
    &&& (t.len() > 1 ==> t[0] != '0')
    &&& dec_value(t) <= 255
}

/// A group of an IPv6 address: one to four hexadecimal digits, in either case.
pub open spec fn is_group_text(t: Seq<char>) -> bool {
    &&& 1 <= t.len() <= 4
    &&& forall|i: int| 0 <= i < t.len() ==> is_hex_digit(#[trigger] t[i])
}

/// The octet that `t` denotes, where it is an octet's text.
pub open spec fn octet_of(t: Seq<char>) -> Option<u8> {
    if is_octet_text(t) {
        Some(dec_value(t) as u8)
    } else {
        None
    }
}

/// The group that `t` denotes, where it is a group's text.
pub open spec fn group_of(t: Seq<char>) -> Option<u16> {
    if is_group_text(t) {
        Some(hex_value(t) as u16)
    } else {
        None
    }
}

pub proof fn lemma_digit_char(d: int)
    requires
        0 <= d < 16,
    ensures
        digit_of(digit_char(d)) == d,
        digit_char(d) != '.',
        digit_char(d) != ':',
        d == 0 <==> digit_char(d) == '0',
{
}

/// What the decimal text of `n` looks like, and that it denotes `n`.
pub proof fn lemma_decimal(n: nat)
    ensures
        decimal(n).len() >= 1,
        forall|i: int| 0 <= i < decimal(n).len() ==> is_dec_digit(#[trigger] decimal(n)[i]),
        dec_value(decimal(n)) == n,
        decimal(n)[0] == '0' <==> n == 0,
        n < 10 ==> decimal(n).len() == 1,
        n < 100 ==> decimal(n).len() <= 2,
        n < 1000 ==> decimal(n).len() <= 3,
    decreases n,
{
    let t = decimal(n);
    if n < 10 {
        lemma_digit_char(n as int);
        assert(t.drop_last() =~= Seq::<char>::empty());
        assert(dec_value(t) == dec_value(t.drop_last()) * 10 + digit_of(t.last()));
    } else {
        lemma_decimal(n / 10);
        lemma_digit_char((n % 10) as int);
        assert(t.drop_last() =~= decimal(n / 10));
        assert(t[0] == decimal(n / 10)[0]);
        assert forall|i: int| 0 <= i < t.len() implies is_dec_digit(#[trigger] t[i]) by {
            if i < t.len() - 1 {
                assert(t[i] == decimal(n / 10)[i]);
            }
        }
    }
}

/// The decimal text of an octet is an octet's text, denotes the octet, and
/// holds no dot.
pub proof fn lemma_decimal_octet(n: u8)
    ensures
        is_octet_text(decimal(n as nat)),
        octet_of(decimal(n as nat)) == Some(n),
        forall|i: int| 0 <= i < decimal(n as nat).len() ==> decimal(n as nat)[i] != '.',
{
    lemma_decimal(n as nat);
    let t = decimal(n as nat);
    assert forall|i: int| 0 <= i < t.len() implies t[i] != '.' by {
        assert(is_dec_digit(t[i]));
    }
}

/// A decimal numeral without a leading zero is the decimal text of what it
/// denotes.
pub proof fn lemma_decimal_of_value(t: Seq<char>)
    requires
        t.len() >= 1,
        forall|i: int| 0 <= i < t.len() ==> is_dec_digit(#[trigger] t[i]),
        t.len() > 1 ==> t[0] != '0',
    ensures
        dec_value(t) >= 0,
        decimal(dec_value(t) as nat) == t,
    decreases t.len(),
{
    let head = t.drop_last();
    let c = t.last();
    assert(is_dec_digit(c));
    let d = digit_of(c);
    assert(digit_char(d) == c);
    if head.len() == 0 {
        assert(dec_value(head) == 0);
        assert(decimal(d as nat) =~= t);
    } else {
        assert forall|i: int| 0 <= i < head.len() implies is_dec_digit(#[trigger] head[i]) by {
            assert(head[i] == t[i]);
        }
        assert(head[0] == t[0]);
        lemma_decimal_of_value(head);
        let h = dec_value(head) as nat;
        lemma_decimal(h);
        assert(h != 0);
        let v = (h * 10 + d) as nat;
        assert(v / 10 == h && v % 10 == d);
        assert(decimal(v) == decimal(h).push(digit_char(d)));
        assert(decimal(v) =~= t);
    }
}

/// What the hexadecimal text of `n` looks like, and that it denotes `n`.
pub proof fn lemma_hexadecimal(n: nat)
    ensures
        hexadecimal(n).len() >= 1,
        forall|i: int| 0 <= i < hexadecimal(n).len() ==> is_hex_digit(#[trigger] hexadecimal(n)[i]),
        hex_value(hexadecimal(n)) == n,
        hexadecimal(n)[0] == '0' <==> n == 0,
        n < 16 ==> hexadecimal(n).len() == 1,
        n < 256 ==> hexadecimal(n).len() <= 2,
        n < 4096 ==> hexadecimal(n).len() <= 3,
        n < 65536 ==> hexadecimal(n).len() <= 4,
    decreases n,
{
    let t = hexadecimal(n);
    if n < 16 {
        lemma_digit_char(n as int);
        assert(t.drop_last() =~= Seq::<char>::empty());
        assert(hex_value(t) == hex_value(t.drop_last()) * 16 + digit_of(t.last()));
    } else {
        lemma_hexadecimal(n / 16);
        lemma_digit_char((n % 16) as int);
        assert(t.drop_last() =~= hexadecimal(n / 16));
        assert(t[0] == hexadecimal(n / 16)[0]);
        assert forall|i: int| 0 <= i < t.len() implies is_hex_digit(#[trigger] t[i]) by {
            if i < t.len() - 1 {
                assert(t[i] == hexadecimal(n / 16)[i]);
            }
        }
    }
}

/// The hexadecimal text of a group is a group's text, denotes the group, and
/// holds neither a colon nor a dot.
pub proof fn lemma_hexadecimal_group(n: u16)
    ensures
        is_group_text(hexadecimal(n as nat)),
        group_of(hexadecimal(n as nat)) == Some(n),
        forall|i: int|
            0 <= i < hexadecimal(n as nat).len() ==> hexadecimal(n as nat)[i] != ':'
                && hexadecimal(n as nat)[i] != '.',
{
    lemma_hexadecimal(n as nat);
    let t = hexadecimal(n as nat);
    assert forall|i: int| 0 <= i < t.len() implies t[i] != ':' && t[i] != '.' by {
        assert(is_hex_digit(t[i]));
    }
}

/// The one-character text of the digit `d`.
pub fn digit_str(d: u8) -> (r: &'static str)
    requires
        d < 16,
    ensures
        r@ == seq![digit_char(d as int)],
{
    let r = match d {
        0 => {
            proof {
                reveal_strlit("0");
            }
            "0"
        },
        1 => {
            proof {
                reveal_strlit("1");
            }
            "1"
        },
        2 => {
            proof {
                reveal_strlit("2");
            }
            "2"
        },
        3 => {
            proof {
                reveal_strlit("3");
            }
            "3"
        },
        4 => {
            proof {
                reveal_strlit("4");
            }
            "4"
        },
        5 => {
            proof {
                reveal_strlit("5");
            }
            "5"
        },
        6 => {
            proof {
                reveal_strlit("6");
            }
            "6"
        },
        7 => {
            proof {
                reveal_strlit("7");
            }
            "7"
        },
        8 => {
            proof {
                reveal_strlit("8");
            }
            "8"
        },
        9 => {
            proof {
                reveal_strlit("9");
            }
            "9"
        },
        10 => {
            proof {
                reveal_strlit("a");
            }
            "a"
        },
        11 => {
            proof {
                reveal_strlit("b");
            }
            "b"
        },
        12 => {
            proof {
                reveal_strlit("c");
            }
            "c"
        },
        13 => {
            proof {
                reveal_strlit("d");
            }
            "d"
        },
        14 => {
            proof {
                reveal_strlit("e");
            }
            "e"
        },
        _ => {
            proof {
                reveal_strlit("f");
            }
            "f"
        },
    };
    assert(r@ =~= seq![digit_char(d as int)]);
    r
}

/// Appends `n` in decimal to `out`.
pub fn push_decimal(out: &mut String, n: u8)
    ensures
        final(out)@ == old(out)@ + decimal(n as nat),
{
    if n >= 100 {
        out.append(digit_str(n / 100));
        out.append(digit_str(n / 10 % 10));
        out.append(digit_str(n % 10));
        proof {
            let q = (n / 10) as nat;
            assert(decimal(q / 10) == seq![digit_char((n / 100) as int)]);
            assert(decimal(q) == decimal(q / 10).push(digit_char((q % 10) as int)));
            assert(decimal(n as nat) == decimal(q).push(digit_char((n % 10) as int)));
            assert(final(out)@ =~= old(out)@ + decimal(n as nat));
        }
    } else if n >= 10 {
        out.append(digit_str(n / 10));
        out.append(digit_str(n % 10));
        proof {
            let q = (n / 10) as nat;
            assert(decimal(q) == seq![digit_char(q as int)]);
            assert(decimal(n as nat) == decimal(q).push(digit_char((n % 10) as int)));
            assert(final(out)@ =~= old(out)@ + decimal(n as nat));
        }
    } else {
        out.append(digit_str(n));
        assert(final(out)@ =~= old(out)@ + decimal(n as nat));
    }
}

/// Appends `n` in lower-case hexadecimal to `out`.
pub fn push_hexadecimal(out: &mut String, n: u16)
    ensures
        final(out)@ == old(out)@ + hexadecimal(n as nat),
{
    let ghost v1 = (n / 16) as nat;
    let ghost v2 = (n / 256) as nat;
    let ghost v3 = (n / 4096) as nat;
    if n >= 4096 {
        out.append(digit_str((n / 4096) as u8));
        out.append(digit_str((n / 256 % 16) as u8));
        out.append(digit_str((n / 16 % 16) as u8));
        out.append(digit_str((n % 16) as u8));
        proof {
            assert(v2 / 16 == v3 && v1 / 16 == v2);
            assert(hexadecimal(v3) == seq![digit_char(v3 as int)]);
            assert(hexadecimal(v2) == hexadecimal(v3).push(digit_char((v2 % 16) as int)));
            assert(hexadecimal(v1) == hexadecimal(v2).push(digit_char((v1 % 16) as int)));
            assert(hexadecimal(n as nat) == hexadecimal(v1).push(digit_char((n % 16) as int)));
            assert(final(out)@ =~= old(out)@ + hexadecimal(n as nat));
        }
    } else if n >= 256 {
        out.append(digit_str((n / 256) as u8));
        out.append(digit_str((n / 16 % 16) as u8));
        out.append(digit_str((n % 16) as u8));
        proof {
            assert(v1 / 16 == v2);
            assert(hexadecimal(v2) == seq![digit_char(v2 as int)]);
            assert(hexadecimal(v1) == hexadecimal(v2).push(digit_char((v1 % 16) as int)));
            assert(hexadecimal(n as nat) == hexadecimal(v1).push(digit_char((n % 16) as int)));
            assert(final(out)@ =~= old(out)@ + hexadecimal(n as nat));
        }
    } else if n >= 16 {
        out.append(digit_str((n / 16) as u8));
        out.append(digit_str((n % 16) as u8));
        proof {
            assert(hexadecimal(v1) == seq![digit_char(v1 as int)]);
            assert(hexadecimal(n as nat) == hexadecimal(v1).push(digit_char((n % 16) as int)));
            assert(final(out)@ =~= old(out)@ + hexadecimal(n as nat));
        }
    } else {
        out.append(digit_str(n as u8));
        assert(final(out)@ =~= old(out)@ + hexadecimal(n as nat));
    }
}

/// Reads the characters of `text` from `from` up to `to` as a decimal octet.
pub fn read_octet(text: &str, from: usize, to: usize) -> (r: Option<u8>)
    requires
        text.is_ascii(),
        from <= to <= text@.len(),
    ensures
        r == octet_of(text@.subrange(from as int, to as int)),
{
    let ghost t = text@.subrange(from as int, to as int);
    if to - from < 1 || to - from > 3 {
        return None;
    }
    let mut value: u16 = 0;
    let mut i: usize = from;
    while i < to
        invariant
            text.is_ascii(),
            from <= i <= to <= text@.len(),
            to - from <= 3,
            t == text@.subrange(from as int, to as int),
            forall|j: int| 0 <= j < i - from ==> is_dec_digit(#[trigger] t[j]),
            value == dec_value(t.take(i - from)),
            value <= 999,
            i - from < 3 ==> value <= 99,
            i - from < 2 ==> value <= 9,
            i - from < 1 ==> value == 0,
        decreases to - i,
    {
        let b = text.get_ascii(i);
        assert(t[i - from] == text@[i as int]);
        if b < 48 || b > 57 {
            assert(!is_dec_digit(t[i - from]));
            return None;
        }
        proof {
            let next = t.take(i - from + 1);
            assert(next.drop_last() =~= t.take(i - from));
            assert(next.last() == t[i - from]);
        }
        value = value * 10 + (b - 48) as u16;
        i = i + 1;
    }
    assert(t.take(to - from) =~= t);
    if to - from > 1 && text.get_ascii(from) == 48 {
        assert(t[0] == text@[from as int]);
        return None;
    }
    assert(t[0] == text@[from as int]);
    if value > 255 {
        return None;
    }
    Some(value as u8)
}

/// Reads the characters of `text` from `from` up to `to` as a hexadecimal
/// group.
pub fn read_group(text: &str, from: usize, to: usize) -> (r: Option<u16>)
    requires
        text.is_ascii(),
        from <= to <= text@.len(),
    ensures
        r == group_of(text@.subrange(from as int, to as int)),
{
    let ghost t = text@.subrange(from as int, to as int);
    if to - from < 1 || to - from > 4 {
        return None;
    }
    let mut value: u32 = 0;
    let mut i: usize = from;
    while i < to
        invariant
            text.is_ascii(),
            from <= i <= to <= text@.len(),
            to - from <= 4,
            t == text@.subrange(from as int, to as int),
            forall|j: int| 0 <= j < i - from ==> is_hex_digit(#[trigger] t[j]),
            value == hex_value(t.take(i - from)),
            value < 65536,
            i - from < 4 ==> value < 4096,
            i - from < 3 ==> value < 256,
            i - from < 2 ==> value < 16,
            i - from < 1 ==> value == 0,
        decreases to - i,
    {
        let b = text.get_ascii(i);
        assert(t[i - from] == text@[i as int]);
        let d: u8 = if 48 <= b && b <= 57 {
            b - 48
        } else if 97 <= b && b <= 102 {
            b - 87
        } else if 65 <= b && b <= 70 {
            b - 55
        } else {
            assert(!is_hex_digit(t[i - from]));
            return None;
        };
        proof {
            let next = t.take(i - from + 1);
            assert(next.drop_last() =~= t.take(i - from));
            assert(next.last() == t[i - from]);
        }
        value = value * 16 + d as u32;
        i = i + 1;
    }
    assert(t.take(to - from) =~= t);
    Some(value as u16)
}

} // verus!
