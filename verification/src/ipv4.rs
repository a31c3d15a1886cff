//! IPv4 addresses and their dotted-quad text.

use crate::digits::{
    dec_value, decimal, is_dec_digit, is_octet_text, lemma_decimal_octet, lemma_decimal_of_value,
    push_decimal, read_octet,
};
use crate::error::{AddrKind, AddrParseError};
use crate::text::{
    ascii_len, field_ranges, first_index, free_of, join, lemma_first_index_bounds,
    lemma_join_all, lemma_join_split, lemma_split_join, lemma_split_step, split,
};
use vstd::prelude::*;
use vstd::string::*;
use vstd::utf8::is_ascii_chars;

verus! {

/// An IPv4 address: four octets, the first one the most significant.
#[derive(Clone, Copy, Debug, PartialEq, Eq, Structural, Ord, Hash)]
pub struct Ipv4Addr {
    a: u8,
    b: u8,
    c: u8,
    d: u8,
}

impl View for Ipv4Addr {
    type V = Seq<u8>;

    /// The four octets.
    closed spec fn view(&self) -> Seq<u8> {
        seq![self.a, self.b, self.c, self.d]
    }
}

impl Ipv4Addr {
    /// The address with the octets `o`, which are four.
    pub closed spec fn from_seq(o: Seq<u8>) -> Ipv4Addr {
        Ipv4Addr { a: o[0], b: o[1], c: o[2], d: o[3] }
    }

    /// An address is its four octets, no more and no less.
    pub broadcast proof fn lemma_view(self)
        ensures
            (#[trigger] self@).len() == 4,
            Ipv4Addr::from_seq(self@) == self,
    {
    }

    pub broadcast proof fn lemma_from_seq(o: Seq<u8>)
        requires
            o.len() == 4,
        ensures
            (#[trigger] Ipv4Addr::from_seq(o))@ == o,
    {
        assert(Ipv4Addr::from_seq(o)@ =~= o);
    }

    /// The dotted-quad text of the address: its four octets in decimal, with
    /// a dot between neighbours.
    pub open spec fn text(self) -> Seq<char> {
        join(
            seq![
                decimal(self@[0] as nat),
                decimal(self@[1] as nat),
                decimal(self@[2] as nat),
                decimal(self@[3] as nat),
            ],
            '.',
        )
    }

    /// The address that the text `s` denotes, if it denotes one: `s` is four
    /// decimal octets with a dot between neighbours.
    pub open spec fn parse_spec(s: Seq<char>) -> Option<Ipv4Addr> {
        let f = split(s, '.');
        if f.len() == 4 && is_octet_text(f[0]) && is_octet_text(f[1]) && is_octet_text(f[2])
            && is_octet_text(f[3]) {
            Some(
                Ipv4Addr::from_seq(
                    seq![
                        dec_value(f[0]) as u8,
                        dec_value(f[1]) as u8,
                        dec_value(f[2]) as u8,
                        dec_value(f[3]) as u8,
                    ],
                ),
            )
        } else {
            None
        }
    }

    pub fn new(a: u8, b: u8, c: u8, d: u8) -> (r: Ipv4Addr)
        ensures
            r@ == seq![a, b, c, d],
    {
        Ipv4Addr { a, b, c, d }
    }

    pub fn octets(&self) -> (r: [u8; 4])
        ensures
            r@ == self@,
    {
        let r = [self.a, self.b, self.c, self.d];
        assert(r@ =~= self@);
        r
    }

    /// The address as one number, the first octet the most significant.
    /// Addresses are ordered as these numbers are.
    pub open spec fn bits(self) -> int {
        self@[0] * 0x100_0000 + self@[1] * 0x1_0000 + self@[2] * 0x100 + self@[3]
    }

    /// The address as one number of 32 bits.
    pub fn to_bits(&self) -> (r: u32)
        ensures
            r == self.bits(),
    {
        self.a as u32 * 0x100_0000 + self.b as u32 * 0x1_0000 + self.c as u32 * 0x100
            + self.d as u32
    }

    /// Two addresses with the same number are the same address.
    pub proof fn lemma_bits_injective(self, other: Ipv4Addr)
        requires
            self.bits() == other.bits(),
        ensures
            self == other,
    {
    }

    /// The address in dotted-quad notation.
    pub fn to_text(&self) -> (r: String)
        ensures
            r@ == self.text(),
    {
        let mut out = String::new();
        push_decimal(&mut out, self.a);
        out.append(".");
        push_decimal(&mut out, self.b);
        out.append(".");
        push_decimal(&mut out, self.c);
        out.append(".");
        push_decimal(&mut out, self.d);
        proof {
            reveal_strlit(".");
            reveal_with_fuel(join, 4);
            let f = seq![
                decimal(self@[0] as nat),
                decimal(self@[1] as nat),
                decimal(self@[2] as nat),
                decimal(self@[3] as nat),
            ];
            assert(f.skip(1).skip(1).skip(1) =~= seq![f[3]]);
            assert(f.skip(1).skip(1) =~= seq![f[2], f[3]]);
            assert(f.skip(1) =~= seq![f[1], f[2], f[3]]);
            assert(join(f.skip(1).skip(1).skip(1), '.') == f[3]);
            assert(join(f.skip(1).skip(1), '.') == f[2] + seq!['.'] + f[3]);
            assert(join(f.skip(1), '.') == f[1] + seq!['.'] + (f[2] + seq!['.'] + f[3]));
            assert(out@ =~= self.text());
        }
        out
    }

    /// Reads `text` as an address in dotted-quad notation.
    pub fn parse(text: &str) -> (r: Result<Ipv4Addr, AddrParseError>)
        ensures
            r == match Ipv4Addr::parse_spec(text@) {
                Some(a) => Ok::<Ipv4Addr, AddrParseError>(a),
                None => Err(AddrParseError { kind: AddrKind::Ipv4 }),
            },
    {
        if !text.is_ascii() {
            proof {
                if Ipv4Addr::parse_spec(text@).is_some() {
                    lemma_parsed_chars(text@);
                }
            }
            return Err(AddrParseError::new(AddrKind::Ipv4));
        }
        let n = ascii_len(text);
        assert(text@.subrange(0, n as int) =~= text@);
        match read_dotted_quad(text, 0, n) {
            Some(a) => Ok(a),
            None => Err(AddrParseError::new(AddrKind::Ipv4)),
        }
    }

    /// Parsing the text of an address gives the address back.
    pub proof fn lemma_parse_text(self)
        ensures
            Ipv4Addr::parse_spec(self.text()) == Some(self),
    {
        self.lemma_view();
        let f = seq![
            decimal(self@[0] as nat),
            decimal(self@[1] as nat),
            decimal(self@[2] as nat),
            decimal(self@[3] as nat),
        ];
        lemma_decimal_octet(self@[0]);
        lemma_decimal_octet(self@[1]);
        lemma_decimal_octet(self@[2]);
        lemma_decimal_octet(self@[3]);
        assert forall|k: int| 0 <= k < f.len() implies free_of(#[trigger] f[k], '.') by {}
        lemma_split_join(f, '.');
        assert(seq![
            dec_value(f[0]) as u8,
            dec_value(f[1]) as u8,
            dec_value(f[2]) as u8,
            dec_value(f[3]) as u8,
        ] =~= self@);
    }

    /// A text that denotes an address is the text of that address: the
    /// notation has one text for each address.
    pub proof fn lemma_text_parse(s: Seq<char>)
        requires
            Ipv4Addr::parse_spec(s).is_some(),
        ensures
            Ipv4Addr::parse_spec(s).unwrap().text() == s,
    {
        let f = split(s, '.');
        let a = Ipv4Addr::parse_spec(s).unwrap();
        let o = seq![
            dec_value(f[0]) as u8,
            dec_value(f[1]) as u8,
            dec_value(f[2]) as u8,
            dec_value(f[3]) as u8,
        ];
        Ipv4Addr::lemma_from_seq(o);
        lemma_decimal_of_value(f[0]);
        lemma_decimal_of_value(f[1]);
        lemma_decimal_of_value(f[2]);
        lemma_decimal_of_value(f[3]);
        assert(f =~= seq![
            decimal(a@[0] as nat),
            decimal(a@[1] as nat),
            decimal(a@[2] as nat),
            decimal(a@[3] as nat),
        ]);
        lemma_join_split(s, '.');
    }
}

/// A text that denotes an address holds decimal digits and dots only, so
/// ASCII characters only.
pub proof fn lemma_parsed_chars(s: Seq<char>)
    requires
        Ipv4Addr::parse_spec(s).is_some(),
    ensures
        forall|i: int| 0 <= i < s.len() ==> is_dec_digit(#[trigger] s[i]) || s[i] == '.',
        is_ascii_chars(s),
        s.contains('.'),
{
    let f = split(s, '.');
    let p = |c: char| is_dec_digit(c) || c == '.';
    assert forall|k: int, i: int| 0 <= k < f.len() && 0 <= i < f[k].len() implies p(
        #[trigger] f[k][i],
    ) by {
        assert(is_octet_text(f[k]));
        assert(is_dec_digit(f[k][i]));
    }
    lemma_join_all(f, '.', p);
    lemma_join_split(s, '.');
    assert forall|i: int| 0 <= i < s.len() implies is_dec_digit(#[trigger] s[i]) || s[i]
        == '.' by {
        assert(p(s[i]));
    }
    assert forall|i: int| 0 <= i < s.len() implies '\0' <= #[trigger] s[i] <= '\u{7f}' by {
        assert(p(s[i]));
    }
    lemma_split_step(s, '.');
    assert(s[first_index(s, '.')] == '.') by {
        lemma_first_index_bounds(s, '.');
    }
}

/// Reads the characters of `text` from `from` up to `to` as a dotted quad.
pub fn read_dotted_quad(text: &str, from: usize, to: usize) -> (r: Option<Ipv4Addr>)
    requires
        text.is_ascii(),
        from <= to <= text@.len(),
    ensures
        r == Ipv4Addr::parse_spec(text@.subrange(from as int, to as int)),
{
    let fields = field_ranges(text, from, to, 46);
    if fields.len() != 4 {
        return None;
    }
    let a = match read_octet(text, fields[0].0, fields[0].1) {
        Some(v) => v,
        None => {
            return None;
        },
    };
    let b = match read_octet(text, fields[1].0, fields[1].1) {
        Some(v) => v,
        None => {
            return None;
        },
    };
    let c = match read_octet(text, fields[2].0, fields[2].1) {
        Some(v) => v,
        None => {
            return None;
        },
    };
    let d = match read_octet(text, fields[3].0, fields[3].1) {
        Some(v) => v,
        None => {
            return None;
        },
    };
    let r = Ipv4Addr::new(a, b, c, d);
    proof {
        r.lemma_view();
    }
    Some(r)
}

} // verus!
