//! IPv6 addresses and their colon-hexadecimal text.

use crate::digits::{
    hex_value, hexadecimal, is_dec_digit, is_group_text, is_hex_digit, lemma_hexadecimal_group,
    push_hexadecimal, read_group,
};
use crate::error::{AddrKind, AddrParseError};
use crate::ipv4::{lemma_parsed_chars, read_dotted_quad, Ipv4Addr};
use crate::text::{
    ascii_len, find_sep, first_index, free_of, join, lemma_first_index_bounds, lemma_join_all,
    lemma_join_push, lemma_join_split, lemma_split_fields_free, lemma_split_join,
    lemma_split_step, split,
};
use vstd::prelude::*;
use vstd::string::*;
use vstd::utf8::is_ascii_chars;

verus! {

/// An IPv6 address: eight groups of sixteen bits, the first one the most
/// significant.
#[derive(Clone, Copy, Debug, PartialEq, Eq, Structural, Ord, Hash)]
pub struct Ipv6Addr {
    s0: u16,
    s1: u16,
    s2: u16,
    s3: u16,
    s4: u16,
    s5: u16,
    s6: u16,
    s7: u16,
}

impl View for Ipv6Addr {
    type V = Seq<u16>;

    /// The eight groups.
    closed spec fn view(&self) -> Seq<u16> {
        seq![self.s0, self.s1, self.s2, self.s3, self.s4, self.s5, self.s6, self.s7]
    }
}

/// The hexadecimal texts of the groups `g`.
pub open spec fn group_texts(g: Seq<u16>) -> Seq<Seq<char>> {
    Seq::new(g.len(), |k: int| hexadecimal(g[k] as nat))
}

/// The groups `g` in hexadecimal with a colon between neighbours; the empty
/// text where there is no group.
pub open spec fn groups_text(g: Seq<u16>) -> Seq<char> {
    join(group_texts(g), ':')
}

/// The number of zero groups of `g` in a row from index `i` on.
pub open spec fn zero_run(g: Seq<u16>, i: int) -> int
    decreases g.len() - i,
{
    if 0 <= i < g.len() && g[i] == 0 {
        1 + zero_run(g, i + 1)
    } else {
        0
    }
}

/// The index at or after `i` where the longest run of zero groups of `g`
/// starts, the first such index where several runs are longest; the length
/// of `g` where `i` is past the end.
pub open spec fn longest_run_from(g: Seq<u16>, i: int) -> int
    decreases g.len() - i,
{
    if 0 <= i < g.len() {
        let rest = longest_run_from(g, i + 1);
        if zero_run(g, i) >= zero_run(g, rest) {
            i
        } else {
            rest
        }
    } else {
        g.len() as int
    }
}

/// The groups stand for an IPv4 address: five zero groups, then `ffff`.
pub open spec fn is_v4_mapped(g: Seq<u16>) -> bool {
    g[0] == 0 && g[1] == 0 && g[2] == 0 && g[3] == 0 && g[4] == 0 && g[5] == 0xffff
}

/// The IPv4 address whose octets the two groups `hi` and `lo` hold.
pub open spec fn embedded_v4(hi: u16, lo: u16) -> Ipv4Addr {
    Ipv4Addr::from_seq(seq![(hi / 256) as u8, (hi % 256) as u8, (lo / 256) as u8, (lo % 256) as u8])
}

/// The two groups that hold the octets of `a`.
pub open spec fn quad_groups(a: Ipv4Addr) -> Seq<u16> {
    seq![(a@[0] * 256 + a@[1]) as u16, (a@[2] * 256 + a@[3]) as u16]
}

/// Every text of `f` is a group's text.
pub open spec fn all_groups(f: Seq<Seq<char>>) -> bool {
    forall|k: int| 0 <= k < f.len() ==> is_group_text(#[trigger] f[k])
}

/// The groups that the texts of `f` denote.
pub open spec fn group_values(f: Seq<Seq<char>>) -> Seq<u16> {
    Seq::new(f.len(), |k: int| hex_value(f[k]) as u16)
}

/// The groups that the list `s` denotes, if it is a list: the empty text
/// denotes no group; any other is groups with a colon between neighbours,
/// where, if `quad` allows it, a dotted quad may stand in the last place
/// for two groups.
pub open spec fn list_of(s: Seq<char>, quad: bool) -> Option<Seq<u16>> {
    let f = split(s, ':');
    if s.len() == 0 {
        Some(Seq::empty())
    } else if !all_groups(f.drop_last()) {
        None
    } else if is_group_text(f.last()) {
        Some(group_values(f))
    } else if quad && Ipv4Addr::parse_spec(f.last()).is_some() {
        Some(group_values(f.drop_last()) + quad_groups(Ipv4Addr::parse_spec(f.last()).unwrap()))
    } else {
        None
    }
}

/// The index of the first `::` in `s`, or the length of `s` where there is
/// none.
pub open spec fn first_gap(s: Seq<char>) -> int
    decreases s.len(),
{
    if s.len() < 2 {
        s.len() as int
    } else if s[0] == ':' && s[1] == ':' {
        0
    } else {
        1 + first_gap(s.skip(1))
    }
}

/// `n` zero groups.
pub open spec fn zeros(n: int) -> Seq<u16> {
    Seq::new(n as nat, |k: int| 0u16)
}

/// The eight groups that the text `s` denotes, if it denotes an address.
/// Without `::` it is a list of eight groups. With `::` it is a list of
/// groups without a dotted quad, `::` and a list, with seven groups at most
/// in the two together; `::` stands for the zero groups that are missing.
pub open spec fn groups_of(s: Seq<char>) -> Option<Seq<u16>> {
    let i = first_gap(s);
    if i >= s.len() {
        match list_of(s, true) {
            Some(g) => if g.len() == 8 {
                Some(g)
            } else {
                None
            },
            None => None,
        }
    } else {
        match (list_of(s.take(i), false), list_of(s.skip(i + 2), true)) {
            (Some(h), Some(t)) => if h.len() + t.len() <= 7 {
                Some(h + zeros(8 - h.len() - t.len()) + t)
            } else {
                None
            },
            _ => None,
        }
    }
}

impl Ipv6Addr {
    /// The address with the groups `g`, which are eight.
    pub closed spec fn from_seq(g: Seq<u16>) -> Ipv6Addr {
        Ipv6Addr {
            s0: g[0],
            s1: g[1],
            s2: g[2],
            s3: g[3],
            s4: g[4],
            s5: g[5],
            s6: g[6],
            s7: g[7],
        }
    }

    /// An address is its eight groups, no more and no less.
    pub broadcast proof fn lemma_view(self)
        ensures
            (#[trigger] self@).len() == 8,
            Ipv6Addr::from_seq(self@) == self,
    {
    }

    pub broadcast proof fn lemma_from_seq(g: Seq<u16>)
        requires
            g.len() == 8,
        ensures
            (#[trigger] Ipv6Addr::from_seq(g))@ == g,
    {
        assert(Ipv6Addr::from_seq(g)@ =~= g);
    }

    /// The canonical text of the address. An address that stands for an IPv4
    /// address is `::ffff:` and the dotted quad. In any other, the longest
    /// run of two or more zero groups (the first of them, where several are
    /// longest) is written `::`, and every other group in lower-case
    /// hexadecimal without leading zeros, with a colon between neighbours.
    pub open spec fn text(self) -> Seq<char> {
        let g = self@;
        let start = longest_run_from(g, 0);
        let len = zero_run(g, start);
        if is_v4_mapped(g) {
            seq![':', ':', 'f', 'f', 'f', 'f', ':'] + embedded_v4(g[6], g[7]).text()
        } else if len > 1 {
            groups_text(g.take(start)) + seq![':', ':'] + groups_text(g.skip(start + len))
        } else {
            groups_text(g)
        }
    }

    /// The address that the text `s` denotes, if it denotes one.
    pub open spec fn parse_spec(s: Seq<char>) -> Option<Ipv6Addr> {
        match groups_of(s) {
            Some(g) => Some(Ipv6Addr::from_seq(g)),
            None => None,
        }
    }

    pub fn new(a: u16, b: u16, c: u16, d: u16, e: u16, f: u16, g: u16, h: u16) -> (r: Ipv6Addr)
        ensures
            r@ == seq![a, b, c, d, e, f, g, h],
    {
        Ipv6Addr { s0: a, s1: b, s2: c, s3: d, s4: e, s5: f, s6: g, s7: h }
    }

    pub fn segments(&self) -> (r: [u16; 8])
        ensures
            r@ == self@,
    {
        let r = [self.s0, self.s1, self.s2, self.s3, self.s4, self.s5, self.s6, self.s7];
        assert(r@ =~= self@);
        r
    }

    /// The address with the eight groups of `v`.
    pub fn from_groups(v: &Vec<u16>) -> (r: Ipv6Addr)
        requires
            v.len() == 8,
        ensures
            r@ == v@,
            r == Ipv6Addr::from_seq(v@),
    {
        let a = Ipv6Addr::new(v[0], v[1], v[2], v[3], v[4], v[5], v[6], v[7]);
        proof {
            a.lemma_view();
            assert(a@ =~= v@);
        }
        a
    }

    /// Reads `text` as an address in colon-hexadecimal notation.
    pub fn parse(text: &str) -> (r: Result<Ipv6Addr, AddrParseError>)
        ensures
            r == match Ipv6Addr::parse_spec(text@) {
                Some(a) => Ok::<Ipv6Addr, AddrParseError>(a),
                None => Err(AddrParseError { kind: AddrKind::Ipv6 }),
            },
    {
        if !text.is_ascii() {
            proof {
                if groups_of(text@).is_some() {
                    lemma_groups_ascii(text@);
                }
            }
            return Err(AddrParseError::new(AddrKind::Ipv6));
        }
        match read_groups(text) {
            Some(v) => Ok(Ipv6Addr::from_groups(&v)),
            None => Err(AddrParseError::new(AddrKind::Ipv6)),
        }
    }

    /// Parsing the canonical text of an address gives the address back. The
    /// text holds a colon, so it is no dotted quad.
    pub proof fn lemma_parse_text(self)
        ensures
            Ipv6Addr::parse_spec(self.text()) == Some(self),
            self.text().contains(':'),
    {
        let g = self@;
        self.lemma_view();
        let start = longest_run_from(g, 0);
        let len = zero_run(g, start);
        lemma_longest_run(g, 0);
        lemma_zero_run(g, start);
        if is_v4_mapped(g) {
            let a = embedded_v4(g[6], g[7]);
            lemma_groups_of_mapped(a);
            Ipv4Addr::lemma_from_seq(
                seq![
                    (g[6] / 256) as u8,
                    (g[6] % 256) as u8,
                    (g[7] / 256) as u8,
                    (g[7] % 256) as u8,
                ],
            );
            assert(quad_groups(a) =~= seq![g[6], g[7]]);
            assert(zeros(5) + seq![0xffffu16] + quad_groups(a) =~= g);
            assert(self.text()[0] == ':');
        } else if len > 1 {
            let h = g.take(start);
            let t = g.skip(start + len);
            lemma_groups_of_gap(h, t);
            assert(h + zeros(8 - h.len() - t.len()) + t =~= g);
            assert(self.text()[groups_text(h).len() as int] == ':');
        } else {
            lemma_groups_of_plain(g);
        }
    }

    /// The address as one number, the first group the most significant.
    /// Addresses are ordered as these numbers are.
    pub open spec fn bits(self) -> int {
        self@[0] * 0x1_0000_0000_0000_0000_0000_0000_0000 + self@[1]
            * 0x1_0000_0000_0000_0000_0000_0000 + self@[2] * 0x1_0000_0000_0000_0000_0000
            + self@[3] * 0x1_0000_0000_0000_0000 + self@[4] * 0x1_0000_0000_0000 + self@[5]
            * 0x1_0000_0000 + self@[6] * 0x1_0000 + self@[7]
    }

    /// The address as one number of 128 bits.
    pub fn to_bits(&self) -> (r: u128)
        ensures
            r == self.bits(),
    {
        self.s0 as u128 * 0x1_0000_0000_0000_0000_0000_0000_0000 + self.s1 as u128
            * 0x1_0000_0000_0000_0000_0000_0000 + self.s2 as u128 * 0x1_0000_0000_0000_0000_0000
            + self.s3 as u128 * 0x1_0000_0000_0000_0000 + self.s4 as u128 * 0x1_0000_0000_0000
            + self.s5 as u128 * 0x1_0000_0000 + self.s6 as u128 * 0x1_0000 + self.s7 as u128
    }

    /// Two addresses with the same number are the same address.
    pub proof fn lemma_bits_injective(self, other: Ipv6Addr)
        requires
            self.bits() == other.bits(),
        ensures
            self == other,
    {
        let x = self@;
        let y = other@;
        self.lemma_view();
        other.lemma_view();
        lemma_same_digits(
            x[0] * 0x1_0000_0000_0000_0000_0000_0000 + x[1] * 0x1_0000_0000_0000_0000_0000 + x[2]
                * 0x1_0000_0000_0000_0000 + x[3] * 0x1_0000_0000_0000 + x[4] * 0x1_0000_0000
                + x[5] * 0x1_0000 + x[6],
            x[7] as int,
            y[0] * 0x1_0000_0000_0000_0000_0000_0000 + y[1] * 0x1_0000_0000_0000_0000_0000 + y[2]
                * 0x1_0000_0000_0000_0000 + y[3] * 0x1_0000_0000_0000 + y[4] * 0x1_0000_0000
                + y[5] * 0x1_0000 + y[6],
            y[7] as int,
        );
        lemma_same_digits(
            x[0] * 0x1_0000_0000_0000_0000_0000 + x[1] * 0x1_0000_0000_0000_0000 + x[2]
                * 0x1_0000_0000_0000 + x[3] * 0x1_0000_0000 + x[4] * 0x1_0000 + x[5],
            x[6] as int,
            y[0] * 0x1_0000_0000_0000_0000_0000 + y[1] * 0x1_0000_0000_0000_0000 + y[2]
                * 0x1_0000_0000_0000 + y[3] * 0x1_0000_0000 + y[4] * 0x1_0000 + y[5],
            y[6] as int,
        );
        lemma_same_digits(
            x[0] * 0x1_0000_0000_0000_0000 + x[1] * 0x1_0000_0000_0000 + x[2] * 0x1_0000_0000
                + x[3] * 0x1_0000 + x[4],
            x[5] as int,
            y[0] * 0x1_0000_0000_0000_0000 + y[1] * 0x1_0000_0000_0000 + y[2] * 0x1_0000_0000
                + y[3] * 0x1_0000 + y[4],
            y[5] as int,
        );
        lemma_same_digits(
            x[0] * 0x1_0000_0000_0000 + x[1] * 0x1_0000_0000 + x[2] * 0x1_0000 + x[3],
            x[4] as int,
            y[0] * 0x1_0000_0000_0000 + y[1] * 0x1_0000_0000 + y[2] * 0x1_0000 + y[3],
            y[4] as int,
        );
        lemma_same_digits(
            x[0] * 0x1_0000_0000 + x[1] * 0x1_0000 + x[2],
            x[3] as int,
            y[0] * 0x1_0000_0000 + y[1] * 0x1_0000 + y[2],
            y[3] as int,
        );
        lemma_same_digits(
            x[0] * 0x1_0000 + x[1],
            x[2] as int,
            y[0] * 0x1_0000 + y[1],
            y[2] as int,
        );
        lemma_same_digits(x[0] as int, x[1] as int, y[0] as int, y[1] as int);
        assert(x =~= y);
    }

    /// The address in its canonical text.
    pub fn to_text(&self) -> (r: String)
        ensures
            r@ == self.text(),
    {
        let segs = self.segments();
        let ghost g = self@;
        let mut out = String::new();
        if segs[0] == 0 && segs[1] == 0 && segs[2] == 0 && segs[3] == 0 && segs[4] == 0 && segs[5]
            == 0xffff {
            let v4 = Ipv4Addr::new(
                (segs[6] / 256) as u8,
                (segs[6] % 256) as u8,
                (segs[7] / 256) as u8,
                (segs[7] % 256) as u8,
            );
            out.append("::ffff:");
            let quad = v4.to_text();
            out.append(quad.as_str());
            proof {
                reveal_strlit("::ffff:");
                v4.lemma_view();
                assert(v4 == embedded_v4(g[6], g[7]));
                assert(out@ =~= seq![':', ':', 'f', 'f', 'f', 'f', ':'] + v4.text());
            }
        } else {
            let (start, len) = longest_zero_run(&segs);
            if len > 1 {
                push_groups(&mut out, &segs, 0, start);
                out.append("::");
                push_groups(&mut out, &segs, start + len, 8);
                proof {
                    reveal_strlit("::");
                    assert(segs@.subrange(0, start as int) =~= g.take(start as int));
                    assert(segs@.subrange(start + len, 8) =~= g.skip(start + len));
                    assert(out@ =~= groups_text(g.take(start as int)) + seq![':', ':']
                        + groups_text(g.skip(start + len)));
                }
            } else {
                push_groups(&mut out, &segs, 0, 8);
                proof {
                    assert(segs@.subrange(0, 8) =~= g);
                    assert(out@ =~= groups_text(g));
                }
            }
        }
        out
    }
}

/// Where the longest run of zero groups starts, and how long it is.
pub fn longest_zero_run(segs: &[u16; 8]) -> (r: (usize, usize))
    ensures
        r.0 == longest_run_from(segs@, 0),
        r.1 == zero_run(segs@, r.0 as int),
        r.0 + r.1 <= 8,
{
    let mut i: usize = 8;
    let mut run: usize = 0;
    let mut best: usize = 8;
    let mut best_len: usize = 0;
    while i > 0
        invariant
            i <= 8,
            run == zero_run(segs@, i as int),
            best == longest_run_from(segs@, i as int),
            best_len == zero_run(segs@, best as int),
            i + run <= 8,
            i <= best,
            best + best_len <= 8,
        decreases i,
    {
        i = i - 1;
        if segs[i] == 0 {
            run = run + 1;
        } else {
            run = 0;
        }
        if run >= best_len {
            best = i;
            best_len = run;
        }
    }
    (best, best_len)
}

/// Appends the groups of `segs` from `from` up to `to` to `out`, with a colon
/// between neighbours.
pub fn push_groups(out: &mut String, segs: &[u16; 8], from: usize, to: usize)
    requires
        from <= to <= 8,
    ensures
        final(out)@ == old(out)@ + groups_text(segs@.subrange(from as int, to as int)),
{
    let ghost g = segs@.subrange(from as int, to as int);
    let ghost before = out@;
    if from == to {
        assert(group_texts(g) =~= Seq::<Seq<char>>::empty());
        assert(out@ =~= before + groups_text(g));
        return ;
    }
    push_hexadecimal(out, segs[from]);
    let mut i: usize = from + 1;
    proof {
        assert(group_texts(g.take(1)) =~= seq![hexadecimal(segs@[from as int] as nat)]);
    }
    while i < to
        invariant
            from < i <= to <= 8,
            g == segs@.subrange(from as int, to as int),
            out@ == before + groups_text(g.take(i - from)),
        decreases to - i,
    {
        out.append(":");
        push_hexadecimal(out, segs[i]);
        proof {
            reveal_strlit(":");
            let done = group_texts(g.take(i - from));
            let last = hexadecimal(segs@[i as int] as nat);
            lemma_join_push(done, last, ':');
            assert(done.push(last) =~= group_texts(g.take(i - from + 1)));
            assert(out@ =~= before + groups_text(g.take(i - from + 1)));
        }
        i = i + 1;
    }
    assert(g.take(to - from) =~= g);
}

/// A `::` starts at index `j` of `s`.
pub open spec fn gap_at(s: Seq<char>, j: int) -> bool {
    0 <= j && j + 1 < s.len() && s[j] == ':' && s[j + 1] == ':'
}

/// Where no `::` starts before `i` and one starts at `i` (or the text ends
/// there), `i` is the first gap.
pub proof fn lemma_first_gap_is(s: Seq<char>, i: int)
    requires
        0 <= i <= s.len(),
        forall|j: int| 0 <= j < i ==> !#[trigger] gap_at(s, j),
        i == s.len() || gap_at(s, i),
    ensures
        first_gap(s) == i,
    decreases s.len(),
{
    if s.len() < 2 {
        if i < s.len() {
            assert(gap_at(s, i));
        }
    } else if s[0] == ':' && s[1] == ':' {
        assert(gap_at(s, 0));
    } else {
        let t = s.skip(1);
        assert(!gap_at(s, 0));
        assert forall|j: int| 0 <= j < i - 1 implies !#[trigger] gap_at(t, j) by {
            assert(!gap_at(s, j + 1));
            if j + 1 < t.len() {
                assert(t[j] == s[j + 1] && t[j + 1] == s[j + 1 + 1]);
            }
        }
        if i < s.len() {
            assert(gap_at(s, i));
            assert(t[i - 1] == s[i] && t[i] == s[i + 1]);
            assert(gap_at(t, i - 1));
        }
        lemma_first_gap_is(t, i - 1);
    }
}

/// The index of the first `::` in `text`, or its length where there is none.
pub fn find_gap(text: &str, n: usize) -> (r: usize)
    requires
        text.is_ascii(),
        n == text@.len(),
    ensures
        r == first_gap(text@),
        r <= n,
        r < n ==> r + 2 <= n,
{
    if n < 2 {
        proof {
            assert forall|j: int| 0 <= j < n implies !#[trigger] gap_at(text@, j) by {}
            lemma_first_gap_is(text@, n as int);
        }
        return n;
    }
    let mut i: usize = 0;
    while i + 1 < n
        invariant
            text.is_ascii(),
            n == text@.len(),
            i + 1 <= n,
            forall|j: int| 0 <= j < i ==> !#[trigger] gap_at(text@, j),
        decreases n - i,
    {
        if text.get_ascii(i) == 58 && text.get_ascii(i + 1) == 58 {
            proof {
                assert(gap_at(text@, i as int));
                lemma_first_gap_is(text@, i as int);
            }
            return i;
        }
        assert(!gap_at(text@, i as int));
        i = i + 1;
    }
    proof {
        assert forall|j: int| 0 <= j < n implies !#[trigger] gap_at(text@, j) by {}
        lemma_first_gap_is(text@, n as int);
    }
    n
}

/// Reads the characters of `text` from `from` up to `to` as a list of
/// groups, with a dotted quad in the last place if `quad` allows it.
pub fn read_list(text: &str, from: usize, to: usize, quad: bool) -> (r: Option<Vec<u16>>)
    requires
        text.is_ascii(),
        from <= to <= text@.len(),
    ensures
        match r {
            Some(v) => list_of(text@.subrange(from as int, to as int), quad) == Some(v@),
            None => list_of(text@.subrange(from as int, to as int), quad).is_none(),
        },
{
    let ghost s = text@.subrange(from as int, to as int);
    let mut out: Vec<u16> = Vec::new();
    if from == to {
        assert(out@ =~= Seq::<u16>::empty());
        return Some(out);
    }
    let mut pos: usize = from;
    let ghost mut done: Seq<Seq<char>> = Seq::empty();
    assert(split(s, ':') =~= done + split(text@.subrange(pos as int, to as int), ':'));
    loop
        invariant
            text.is_ascii(),
            from <= pos <= to <= text@.len(),
            from < to,
            s == text@.subrange(from as int, to as int),
            split(s, ':') == done + split(text@.subrange(pos as int, to as int), ':'),
            all_groups(done),
            out@ == group_values(done),
        decreases to - pos,
    {
        let ghost rest = text@.subrange(pos as int, to as int);
        let end = find_sep(text, pos, to, 58);
        let ghost field = text@.subrange(pos as int, end as int);
        let ghost f = split(s, ':');
        proof {
            lemma_split_step(rest, ':');
            assert(rest.take(end - pos) =~= field);
        }
        if end < to {
            let ghost after = text@.subrange(end + 1, to as int);
            proof {
                assert(rest.skip(end - pos + 1) =~= after);
                lemma_split_fields_free(after, ':');
                assert(f == done + (seq![field] + split(after, ':')));
                assert(f[done.len() as int] == field);
                assert(f.drop_last()[done.len() as int] == field);
            }
            match read_group(text, pos, end) {
                Some(v) => {
                    out.push(v);
                    proof {
                        let next = done.push(field);
                        assert(f =~= next + split(after, ':'));
                        assert(group_values(next) =~= group_values(done).push(v));
                        done = next;
                    }
                    pos = end + 1;
                },
                None => {
                    return None;
                },
            }
        } else {
            proof {
                assert(f =~= done.push(field));
                assert(f.drop_last() =~= done);
                assert(f.last() == field);
            }
            match read_group(text, pos, to) {
                Some(v) => {
                    out.push(v);
                    assert(out@ =~= group_values(f));
                    return Some(out);
                },
                None => {
                    if !quad {
                        return None;
                    }
                    match read_dotted_quad(text, pos, to) {
                        Some(a) => {
                            let o = a.octets();
                            out.push(o[0] as u16 * 256 + o[1] as u16);
                            out.push(o[2] as u16 * 256 + o[3] as u16);
                            assert(out@ =~= group_values(done) + quad_groups(a));
                            return Some(out);
                        },
                        None => {
                            return None;
                        },
                    }
                },
            }
        }
    }
}

/// The first gap lies within the text, and a `::` starts there unless it is
/// the end of the text.
pub proof fn lemma_first_gap_bounds(s: Seq<char>)
    ensures
        0 <= first_gap(s) <= s.len(),
        first_gap(s) < s.len() ==> gap_at(s, first_gap(s)),
        forall|j: int| 0 <= j < first_gap(s) ==> !#[trigger] gap_at(s, j),
    decreases s.len(),
{
    if s.len() < 2 {
    } else if s[0] == ':' && s[1] == ':' {
    } else {
        let t = s.skip(1);
        lemma_first_gap_bounds(t);
        let i = first_gap(t);
        if i < t.len() {
            assert(gap_at(t, i));
            assert(t[i] == s[i + 1] && t[i + 1] == s[i + 1 + 1]);
        }
        assert forall|j: int| 0 <= j < first_gap(s) implies !#[trigger] gap_at(s, j) by {
            if j > 0 && gap_at(s, j) {
                assert(t[j - 1] == s[j] && t[j] == s[j + 1]);
                assert(gap_at(t, j - 1));
            }
        }
    }
}

/// A list holds ASCII characters only.
pub proof fn lemma_list_ascii(s: Seq<char>, quad: bool)
    requires
        list_of(s, quad).is_some(),
    ensures
        is_ascii_chars(s),
{
    let f = split(s, ':');
    let p = |c: char| '\0' <= c <= '\u{7f}';
    lemma_split_fields_free(s, ':');
    if s.len() > 0 {
        assert forall|k: int, i: int| 0 <= k < f.len() && 0 <= i < f[k].len() implies p(
            #[trigger] f[k][i],
        ) by {
            if k < f.len() - 1 {
                assert(f.drop_last()[k] == f[k]);
                assert(is_group_text(f.drop_last()[k]));
                assert(is_hex_digit(f[k][i]));
            } else if is_group_text(f.last()) {
                assert(is_hex_digit(f[k][i]));
            } else {
                lemma_parsed_chars(f.last());
            }
        }
        lemma_join_all(f, ':', p);
        lemma_join_split(s, ':');
    }
    assert forall|i: int| 0 <= i < s.len() implies '\0' <= #[trigger] s[i] <= '\u{7f}' by {
        assert(p(s[i]));
    }
}

/// A text that denotes an address holds ASCII characters only.
pub proof fn lemma_groups_ascii(s: Seq<char>)
    requires
        groups_of(s).is_some(),
    ensures
        is_ascii_chars(s),
{
    lemma_first_gap_bounds(s);
    let i = first_gap(s);
    if i >= s.len() {
        lemma_list_ascii(s, true);
    } else {
        let head = s.take(i);
        let tail = s.skip(i + 2);
        lemma_list_ascii(head, false);
        lemma_list_ascii(tail, true);
        assert(gap_at(s, i));
        assert forall|j: int| 0 <= j < s.len() implies '\0' <= #[trigger] s[j] <= '\u{7f}' by {
            if j < i {
                assert(s[j] == head[j]);
            } else if j >= i + 2 {
                assert(s[j] == tail[j - i - 2]);
            }
        }
    }
}

/// The groups of `head`, then the zero groups that are missing from eight,
/// then the groups of `tail`.
pub fn fill_gap(head: &Vec<u16>, tail: &Vec<u16>) -> (all: Vec<u16>)
    requires
        head.len() + tail.len() <= 7,
    ensures
        all@ == head@ + zeros(8 - head.len() - tail.len()) + tail@,
        all.len() == 8,
{
    let mut all: Vec<u16> = Vec::new();
    let mut i: usize = 0;
    while i < head.len()
        invariant
            i <= head.len(),
            all@ == head@.take(i as int),
        decreases head.len() - i,
    {
        all.push(head[i]);
        assert(all@ =~= head@.take(i + 1));
        i = i + 1;
    }
    assert(head@.take(head.len() as int) =~= head@);
    let missing = 8 - head.len() - tail.len();
    i = 0;
    while i < missing
        invariant
            i <= missing,
            all@ == head@ + zeros(i as int),
        decreases missing - i,
    {
        all.push(0);
        assert(all@ =~= head@ + zeros(i + 1));
        i = i + 1;
    }
    i = 0;
    while i < tail.len()
        invariant
            i <= tail.len(),
            all@ == head@ + zeros(missing as int) + tail@.take(i as int),
        decreases tail.len() - i,
    {
        all.push(tail[i]);
        assert(all@ =~= head@ + zeros(missing as int) + tail@.take(i + 1));
        i = i + 1;
    }
    assert(tail@.take(tail.len() as int) =~= tail@);
    all
}

/// Reads `text` as the eight groups of an address.
pub fn read_groups(text: &str) -> (r: Option<Vec<u16>>)
    requires
        text.is_ascii(),
    ensures
        match r {
            Some(v) => groups_of(text@) == Some(v@),
            None => groups_of(text@).is_none(),
        },
{
    let n = ascii_len(text);
    let gap = find_gap(text, n);
    let ghost s = text@;
    if gap >= n {
        assert(text@.subrange(0, n as int) =~= s);
        match read_list(text, 0, n, true) {
            Some(v) => if v.len() == 8 {
                Some(v)
            } else {
                None
            },
            None => None,
        }
    } else {
        assert(text@.subrange(0, gap as int) =~= s.take(gap as int));
        assert(text@.subrange(gap + 2, n as int) =~= s.skip(gap + 2));
        let head = match read_list(text, 0, gap, false) {
            Some(v) => v,
            None => {
                return None;
            },
        };
        let tail = match read_list(text, gap + 2, n, true) {
            Some(v) => v,
            None => {
                return None;
            },
        };
        if head.len() > 7 || tail.len() > 7 - head.len() {
            return None;
        }
        Some(fill_gap(&head, &tail))
    }
}

/// The run of zero groups from `i` on stays within `g`, and holds zero
/// groups only.
pub proof fn lemma_zero_run(g: Seq<u16>, i: int)
    requires
        0 <= i <= g.len(),
    ensures
        0 <= zero_run(g, i) <= g.len() - i,
        forall|j: int| i <= j < i + zero_run(g, i) ==> g[j] == 0,
        i + zero_run(g, i) < g.len() ==> g[i + zero_run(g, i)] != 0,
    decreases g.len() - i,
{
    if i < g.len() && g[i] == 0 {
        lemma_zero_run(g, i + 1);
    }
}

/// The longest run at or after `i` starts within `g`, is at least as long as
/// the run from any index at or after `i`, and longer than the run from any
/// such index before it.
pub proof fn lemma_longest_run(g: Seq<u16>, i: int)
    requires
        0 <= i <= g.len(),
    ensures
        i <= longest_run_from(g, i) <= g.len(),
        forall|j: int|
            i <= j <= g.len() ==> #[trigger] zero_run(g, j) <= zero_run(
                g,
                longest_run_from(g, i),
            ),
        forall|j: int|
            i <= j < longest_run_from(g, i) ==> #[trigger] zero_run(g, j) < zero_run(
                g,
                longest_run_from(g, i),
            ),
    decreases g.len() - i,
{
    if i < g.len() {
        lemma_longest_run(g, i + 1);
    }
}

/// The texts of groups are groups' texts that denote them, and hold neither
/// a colon nor a dot.
pub proof fn lemma_group_texts(g: Seq<u16>)
    ensures
        all_groups(group_texts(g)),
        group_values(group_texts(g)) == g,
        forall|k: int| 0 <= k < g.len() ==> free_of(#[trigger] group_texts(g)[k], ':'),
{
    let f = group_texts(g);
    assert forall|k: int| 0 <= k < f.len() implies is_group_text(#[trigger] f[k]) && free_of(
        f[k],
        ':',
    ) && hex_value(f[k]) as u16 == g[k] by {
        lemma_hexadecimal_group(g[k]);
    }
    assert(group_values(f) =~= g);
}

/// The text of at least one group starts and ends with a digit, and holds no
/// `::`.
pub proof fn lemma_groups_text_shape(g: Seq<u16>)
    requires
        g.len() >= 1,
    ensures
        groups_text(g).len() >= 1,
        groups_text(g)[0] != ':',
        groups_text(g).last() != ':',
        forall|j: int| !#[trigger] gap_at(groups_text(g), j),
    decreases g.len(),
{
    let f = group_texts(g);
    let s = groups_text(g);
    lemma_hexadecimal_group(g[0]);
    let first = hexadecimal(g[0] as nat);
    assert(f[0] == first);
    if g.len() == 1 {
        assert(s == first);
        assert forall|j: int| !#[trigger] gap_at(s, j) by {}
    } else {
        let rest = g.skip(1);
        lemma_groups_text_shape(rest);
        assert(f.skip(1) =~= group_texts(rest));
        let r = groups_text(rest);
        assert(s == first + seq![':'] + r);
        let n = first.len() as int;
        assert(s[0] == first[0]);
        assert(s.last() == r.last());
        assert forall|j: int| !#[trigger] gap_at(s, j) by {
            if 0 <= j && j + 1 < s.len() {
                if j < n {
                    assert(s[j] == first[j]);
                } else if j == n {
                    assert(s[j + 1] == r[0]);
                } else {
                    assert(s[j] == r[j - n - 1] && s[j + 1] == r[j - n - 1 + 1]);
                    assert(!gap_at(r, j - n - 1));
                }
            }
        }
    }
}

/// The text of groups is a list that denotes them.
pub proof fn lemma_list_of_groups_text(g: Seq<u16>, quad: bool)
    ensures
        list_of(groups_text(g), quad) == Some(g),
{
    let f = group_texts(g);
    let s = groups_text(g);
    if g.len() == 0 {
        assert(s.len() == 0);
        assert(g =~= Seq::<u16>::empty());
    } else {
        lemma_group_texts(g);
        lemma_groups_text_shape(g);
        lemma_split_join(f, ':');
        assert(split(s, ':') == f);
        assert forall|k: int| 0 <= k < f.drop_last().len() implies is_group_text(
            #[trigger] f.drop_last()[k],
        ) by {
            assert(f.drop_last()[k] == f[k]);
        }
        assert(is_group_text(f.last()));
    }
}

/// The text of eight groups without `::` denotes them.
pub proof fn lemma_groups_of_plain(g: Seq<u16>)
    requires
        g.len() == 8,
    ensures
        groups_of(groups_text(g)) == Some(g),
        groups_text(g).contains(':'),
{
    let s = groups_text(g);
    lemma_groups_text_shape(g);
    lemma_first_gap_is(s, s.len() as int);
    lemma_list_of_groups_text(g, true);
    lemma_group_texts(g);
    lemma_split_join(group_texts(g), ':');
    lemma_split_step(s, ':');
    lemma_first_index_bounds(s, ':');
    assert(s[first_index(s, ':')] == ':');
}

/// The text of groups, `::` and the text of more groups, seven at most in
/// all, denotes the first groups, zero groups up to eight, and the last ones.
pub proof fn lemma_groups_of_gap(h: Seq<u16>, t: Seq<u16>)
    requires
        h.len() + t.len() <= 7,
    ensures
        groups_of(groups_text(h) + seq![':', ':'] + groups_text(t)) == Some(
            h + zeros(8 - h.len() - t.len()) + t,
        ),
{
    let hs = groups_text(h);
    let ts = groups_text(t);
    let s = hs + seq![':', ':'] + ts;
    let i = hs.len() as int;
    assert(s[i] == ':' && s[i + 1] == ':');
    assert(gap_at(s, i));
    if h.len() >= 1 {
        lemma_groups_text_shape(h);
    } else {
        assert(group_texts(h) =~= Seq::<Seq<char>>::empty());
    }
    assert forall|j: int| 0 <= j < i implies !#[trigger] gap_at(s, j) by {
        assert(s[j] == hs[j]);
        if j + 1 < i {
            assert(s[j + 1] == hs[j + 1]);
            assert(!gap_at(hs, j));
        } else {
            assert(hs[j] == hs.last());
        }
    }
    lemma_first_gap_is(s, i);
    assert(s.take(i) =~= hs);
    assert(s.skip(i + 2) =~= ts);
    lemma_list_of_groups_text(h, false);
    lemma_list_of_groups_text(t, true);
}

/// The text `::ffff:` and a dotted quad denotes five zero groups, `ffff` and
/// the two groups of the quad.
pub proof fn lemma_groups_of_mapped(a: Ipv4Addr)
    ensures
        groups_of(seq![':', ':', 'f', 'f', 'f', 'f', ':'] + a.text()) == Some(
            zeros(5) + seq![0xffffu16] + quad_groups(a),
        ),
{
    let q = a.text();
    let s = seq![':', ':', 'f', 'f', 'f', 'f', ':'] + q;
    let ffff = seq!['f', 'f', 'f', 'f'];
    assert(gap_at(s, 0));
    lemma_first_gap_is(s, 0);
    let head = s.take(0);
    let tail = s.skip(2);
    assert(head.len() == 0);
    a.lemma_parse_text();
    lemma_parsed_chars(q);
    assert(free_of(q, ':')) by {
        assert forall|i: int| 0 <= i < q.len() implies q[i] != ':' by {
            assert(is_dec_digit(q[i]) || q[i] == '.');
        }
    }
    assert(free_of(ffff, ':'));
    let f = seq![ffff, q];
    assert(join(f, ':') =~= tail) by {
        assert(f.skip(1) =~= seq![q]);
        assert(join(f.skip(1), ':') == q);
        assert(join(f, ':') == ffff + seq![':'] + q);
    }
    assert forall|k: int| 0 <= k < f.len() implies free_of(#[trigger] f[k], ':') by {}
    lemma_split_join(f, ':');
    assert(split(tail, ':') == f);
    assert(f.drop_last() =~= seq![ffff]);
    assert(is_group_text(ffff));
    assert(hex_value(ffff) == 0xffff) by {
        reveal_with_fuel(hex_value, 5);
        assert(ffff.drop_last() =~= seq!['f', 'f', 'f']);
        assert(ffff.drop_last().drop_last() =~= seq!['f', 'f']);
        assert(ffff.drop_last().drop_last().drop_last() =~= seq!['f']);
        assert(ffff.drop_last().drop_last().drop_last().drop_last() =~= Seq::<char>::empty());
    }
    assert(all_groups(f.drop_last()));
    assert(group_values(f.drop_last()) =~= seq![0xffffu16]);
    assert(f.last() == q);
    assert(!is_group_text(q)) by {
        let i = choose|i: int| 0 <= i < q.len() && q[i] == '.';
        assert(!is_hex_digit(q[i]));
    }
    assert(list_of(tail, true) == Some(seq![0xffffu16] + quad_groups(a)));
    assert(list_of(head, false) == Some(Seq::<u16>::empty()));
    assert(Seq::<u16>::empty() + zeros(5) + (seq![0xffffu16] + quad_groups(a)) =~= zeros(5)
        + seq![0xffffu16] + quad_groups(a));
}

/// Two numbers written as an upper part and a last group are equal only
/// where the upper parts and the last groups are.
pub proof fn lemma_same_digits(hi: int, lo: int, hi2: int, lo2: int)
    requires
        0 <= lo < 0x1_0000,
        0 <= lo2 < 0x1_0000,
        hi * 0x1_0000 + lo == hi2 * 0x1_0000 + lo2,
    ensures
        hi == hi2,
        lo == lo2,
{
}

} // verus!
