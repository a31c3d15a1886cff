//! Sequences of characters cut at a separator, and the lemmas that relate
//! cutting to joining.

use vstd::prelude::*;
use vstd::string::*;

verus! {

/// Index of the first `sep` in `s`, or the length of `s` where there is none.
pub open spec fn first_index(s: Seq<char>, sep: char) -> int
    decreases s.len(),
{
    if s.len() == 0 || s[0] == sep {
        0
    } else {
        1 + first_index(s.skip(1), sep)
    }
}

/// The fields of `s` between occurrences of `sep`. There is always at least
/// one field; an empty text has one empty field.
pub open spec fn split(s: Seq<char>, sep: char) -> Seq<Seq<char>>
    decreases s.len(),
{
    let i = first_index(s, sep);
    if 0 <= i < s.len() {
        seq![s.take(i)] + split(s.skip(i + 1), sep)
    } else {
        seq![s]
    }
}

/// The fields written one after another with `sep` between neighbours.
pub open spec fn join(fields: Seq<Seq<char>>, sep: char) -> Seq<char>
    decreases fields.len(),
{
    if fields.len() == 0 {
        Seq::empty()
    } else if fields.len() == 1 {
        fields[0]
    } else {
        fields[0] + seq![sep] + join(fields.skip(1), sep)
    }
}

/// No character of `s` is `sep`.
pub open spec fn free_of(s: Seq<char>, sep: char) -> bool {
    forall|i: int| 0 <= i < s.len() ==> s[i] != sep
}

pub proof fn lemma_first_index_bounds(s: Seq<char>, sep: char)
    ensures
        0 <= first_index(s, sep) <= s.len(),
        first_index(s, sep) < s.len() ==> s[first_index(s, sep)] == sep,
        forall|j: int| 0 <= j < first_index(s, sep) ==> s[j] != sep,
    decreases s.len(),
{
    if s.len() == 0 || s[0] == sep {
    } else {
        let t = s.skip(1);
        lemma_first_index_bounds(t, sep);
        assert forall|j: int| 0 <= j < first_index(s, sep) implies s[j] != sep by {
            if j > 0 {
                assert(t[j - 1] == s[j]);
            }
        }
    }
}

/// Where the first `i` characters hold no `sep` and the next one is `sep`
/// (or the text ends), `i` is the first index.
pub proof fn lemma_first_index_is(s: Seq<char>, sep: char, i: int)
    requires
        0 <= i <= s.len(),
        forall|j: int| 0 <= j < i ==> s[j] != sep,
        i < s.len() ==> s[i] == sep,
    ensures
        first_index(s, sep) == i,
{
    lemma_first_index_bounds(s, sep);
    let k = first_index(s, sep);
    if k < i {
        assert(s[k] == sep);
    } else if k > i {
        assert(s[i] != sep);
    }
}

/// Every field of a split is free of the separator.
pub proof fn lemma_split_fields_free(s: Seq<char>, sep: char)
    ensures
        split(s, sep).len() >= 1,
        forall|k: int| 0 <= k < split(s, sep).len() ==> free_of(#[trigger] split(s, sep)[k], sep),
    decreases s.len(),
{
    lemma_first_index_bounds(s, sep);
    let i = first_index(s, sep);
    if i < s.len() {
        let rest = s.skip(i + 1);
        lemma_split_fields_free(rest, sep);
        assert forall|k: int| 0 <= k < split(s, sep).len() implies free_of(
            #[trigger] split(s, sep)[k],
            sep,
        ) by {
            if k == 0 {
                assert(split(s, sep)[0] == s.take(i));
            } else {
                assert(split(s, sep)[k] == split(rest, sep)[k - 1]);
            }
        }
    }
}

/// Joining what a split gave returns the text.
pub proof fn lemma_join_split(s: Seq<char>, sep: char)
    ensures
        join(split(s, sep), sep) == s,
    decreases s.len(),
{
    lemma_first_index_bounds(s, sep);
    let i = first_index(s, sep);
    if i < s.len() {
        let rest = s.skip(i + 1);
        lemma_join_split(rest, sep);
        lemma_split_fields_free(rest, sep);
        let f = split(s, sep);
        assert(f.skip(1) =~= split(rest, sep));
        assert(f[0] == s.take(i));
        assert(s =~= s.take(i) + seq![sep] + rest);
    }
}

/// Splitting the join of separator-free fields returns the fields.
pub proof fn lemma_split_join(fields: Seq<Seq<char>>, sep: char)
    requires
        fields.len() >= 1,
        forall|k: int| 0 <= k < fields.len() ==> free_of(#[trigger] fields[k], sep),
    ensures
        split(join(fields, sep), sep) == fields,
    decreases fields.len(),
{
    let s = join(fields, sep);
    if fields.len() == 1 {
        assert(free_of(fields[0], sep));
        lemma_first_index_is(s, sep, s.len() as int);
        assert(split(s, sep) =~= fields);
    } else {
        let rest = fields.skip(1);
        assert forall|k: int| 0 <= k < rest.len() implies free_of(#[trigger] rest[k], sep) by {
            assert(rest[k] == fields[k + 1]);
        }
        lemma_split_join(rest, sep);
        let i = fields[0].len() as int;
        assert(free_of(fields[0], sep));
        lemma_first_index_is(s, sep, i);
        assert(s.take(i) =~= fields[0]);
        assert(s.skip(i + 1) =~= join(rest, sep));
        assert(split(s, sep) =~= fields);
    }
}

/// Joining with one more field at the end.
pub proof fn lemma_join_push(fields: Seq<Seq<char>>, last: Seq<char>, sep: char)
    requires
        fields.len() >= 1,
    ensures
        join(fields.push(last), sep) == join(fields, sep) + seq![sep] + last,
    decreases fields.len(),
{
    let all = fields.push(last);
    if fields.len() == 1 {
        assert(all.skip(1) =~= seq![last]);
        assert(join(all.skip(1), sep) == last);
    } else {
        lemma_join_push(fields.skip(1), last, sep);
        assert(all.skip(1) =~= fields.skip(1).push(last));
        assert(join(all, sep) =~= join(fields, sep) + seq![sep] + last);
    }
}

/// What holds of the separator and of every character of every field holds
/// of every character of the join.
pub proof fn lemma_join_all(fields: Seq<Seq<char>>, sep: char, p: spec_fn(char) -> bool)
    requires
        p(sep),
        forall|k: int, i: int|
            0 <= k < fields.len() && 0 <= i < fields[k].len() ==> p(#[trigger] fields[k][i]),
    ensures
        forall|i: int| 0 <= i < join(fields, sep).len() ==> p(#[trigger] join(fields, sep)[i]),
    decreases fields.len(),
{
    if fields.len() >= 2 {
        let rest = fields.skip(1);
        assert forall|k: int, i: int| 0 <= k < rest.len() && 0 <= i < rest[k].len() implies p(
            #[trigger] rest[k][i],
        ) by {
            assert(rest[k][i] == fields[k + 1][i]);
        }
        lemma_join_all(rest, sep, p);
        let s = join(fields, sep);
        let n = fields[0].len() as int;
        assert forall|i: int| 0 <= i < s.len() implies p(#[trigger] s[i]) by {
            if i < n {
                assert(s[i] == fields[0][i]);
            } else if i == n {
                assert(s[i] == sep);
            } else {
                assert(s[i] == join(rest, sep)[i - n - 1]);
            }
        }
    } else if fields.len() == 1 {
        assert forall|i: int| 0 <= i < fields[0].len() implies p(#[trigger] fields[0][i]) by {}
    }
}

/// The number of characters of an ASCII text.
pub fn ascii_len(text: &str) -> (n: usize)
    requires
        text.is_ascii(),
    ensures
        n == text@.len(),
{
    proof {
        is_ascii_spec_bytes(text);
    }
    text.as_bytes().len()
}

/// The index of the first `sep` in `text` at or after `from` and before `to`,
/// or `to` where there is none.
pub fn find_sep(text: &str, from: usize, to: usize, sep: u8) -> (r: usize)
    requires
        text.is_ascii(),
        from <= to <= text@.len(),
        sep < 128,
    ensures
        from <= r <= to,
        r - from == first_index(text@.subrange(from as int, to as int), sep as char),
{
    let ghost t = text@.subrange(from as int, to as int);
    let mut i: usize = from;
    while i < to
        invariant
            text.is_ascii(),
            from <= i <= to <= text@.len(),
            sep < 128,
            t == text@.subrange(from as int, to as int),
            forall|j: int| 0 <= j < i - from ==> t[j] != sep as char,
        decreases to - i,
    {
        let b = text.get_ascii(i);
        assert(t[i - from] == text@[i as int]);
        if b == sep {
            proof {
                lemma_first_index_is(t, sep as char, i - from);
            }
            return i;
        }
        i = i + 1;
    }
    proof {
        lemma_first_index_is(t, sep as char, to - from);
    }
    to
}

/// One step of a split: the field before the first separator, and the split
/// of what follows it.
pub proof fn lemma_split_step(s: Seq<char>, sep: char)
    ensures
        0 <= first_index(s, sep) <= s.len(),
        first_index(s, sep) < s.len() ==> split(s, sep) == seq![s.take(first_index(s, sep))]
            + split(s.skip(first_index(s, sep) + 1), sep),
        first_index(s, sep) == s.len() ==> split(s, sep) == seq![s],
{
    lemma_first_index_bounds(s, sep);
}

/// The fields of `fields` are the characters of `text` in the ranges of
/// `ranges`, which lie between `from` and `to`.
pub open spec fn ranges_of(
    text: Seq<char>,
    from: int,
    to: int,
    ranges: Seq<(usize, usize)>,
    fields: Seq<Seq<char>>,
) -> bool {
    &&& ranges.len() == fields.len()
    &&& forall|k: int|
        0 <= k < ranges.len() ==> from <= (#[trigger] ranges[k]).0 <= ranges[k].1 <= to
            && fields[k] == text.subrange(ranges[k].0 as int, ranges[k].1 as int)
}

/// Where the fields of `text` between `from` and `to` start and end.
pub fn field_ranges(text: &str, from: usize, to: usize, sep: u8) -> (r: Vec<(usize, usize)>)
    requires
        text.is_ascii(),
        from <= to <= text@.len(),
        sep < 128,
    ensures
        ranges_of(
            text@,
            from as int,
            to as int,
            r@,
            split(text@.subrange(from as int, to as int), sep as char),
        ),
{
    let ghost s = text@.subrange(from as int, to as int);
    let ghost c = sep as char;
    let mut out: Vec<(usize, usize)> = Vec::new();
    let mut pos: usize = from;
    let ghost mut done: Seq<Seq<char>> = Seq::empty();
    assert(split(s, c) =~= done + split(text@.subrange(pos as int, to as int), c));
    loop
        invariant
            text.is_ascii(),
            from <= pos <= to <= text@.len(),
            sep < 128,
            c == sep as char,
            s == text@.subrange(from as int, to as int),
            split(s, c) == done + split(text@.subrange(pos as int, to as int), c),
            ranges_of(text@, from as int, to as int, out@, done),
        decreases to - pos,
    {
        let ghost rest = text@.subrange(pos as int, to as int);
        let end = find_sep(text, pos, to, sep);
        let ghost field = text@.subrange(pos as int, end as int);
        proof {
            lemma_split_step(rest, c);
            assert(rest.take(end - pos) =~= field);
            if end < to {
                assert(rest.skip(end - pos + 1) =~= text@.subrange(end + 1, to as int));
            }
        }
        out.push((pos, end));
        proof {
            let next = done.push(field);
            if end < to {
                assert(split(s, c) =~= next + split(text@.subrange(end + 1, to as int), c));
            } else {
                assert(split(s, c) =~= next);
            }
            assert forall|k: int| 0 <= k < out@.len() implies from <= (#[trigger] out@[k]).0
                <= out@[k].1 <= to && next[k] == text@.subrange(
                out@[k].0 as int,
                out@[k].1 as int,
            ) by {
                if k < done.len() {
                    assert(next[k] == done[k]);
                }
            }
            done = next;
        }
        if end >= to {
            return out;
        }
        pos = end + 1;
    }
}

} // verus!
