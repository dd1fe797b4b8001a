//! Characters, their width in bytes, and the `std` string operations that
//! the rest of the crate builds on.

use vstd::prelude::*;
use vstd::utf8::*;

verus! {

/// `String::push` of `std` appends the character to the end of the string.
pub assume_specification[ String::push ](s: &mut String, c: char)
    ensures
        final(s)@ == old(s)@.push(c),
;

/// Whether a character has the Unicode property `White_Space`.
pub uninterp spec fn is_white_space(c: char) -> bool;

/// `char::is_whitespace` of `std` tells whether the character has the
/// Unicode property `White_Space`.
pub assume_specification[ char::is_whitespace ](c: char) -> (b: bool)
    ensures
        b == is_white_space(c),
;

/// The number of bytes that the UTF-8 encoding of `c` takes.
pub open spec fn char_width(c: char) -> nat {
    encode_scalar(c as u32).len()
}

/// The number of bytes that the UTF-8 encoding of `s` takes.
pub open spec fn byte_len(s: Seq<char>) -> nat
    decreases s.len(),
{
    if s.len() == 0 {
        0
    } else {
        byte_len(s.drop_last()) + char_width(s.last())
    }
}

/// Appending a character to a string appends its bytes to the encoding.
proof fn lemma_encoded_len_push(s: Seq<char>, c: char)
    ensures
        encode_utf8(s.push(c)).len() == encode_utf8(s).len() + char_width(c),
    decreases s.len(),
{
    let t = s.push(c);
    if s.len() == 0 {
        assert(t.drop_first() =~= Seq::empty());
        assert(encode_utf8(t.drop_first()).len() == 0);
    } else {
        assert(t.drop_first() =~= s.drop_first().push(c));
        lemma_encoded_len_push(s.drop_first(), c);
    }
}

/// `byte_len` is the length of the encoding that `vstd` defines.
pub proof fn lemma_byte_len_is_encoded_len(s: Seq<char>)
    ensures
        byte_len(s) == encode_utf8(s).len(),
    decreases s.len(),
{
    if s.len() > 0 {
        lemma_byte_len_is_encoded_len(s.drop_last());
        lemma_encoded_len_push(s.drop_last(), s.last());
        assert(s.drop_last().push(s.last()) =~= s);
    }
}

/// The bytes of a concatenation are those of its parts.
pub proof fn lemma_byte_len_concat(a: Seq<char>, b: Seq<char>)
    ensures
        byte_len(a + b) == byte_len(a) + byte_len(b),
    decreases b.len(),
{
    if b.len() == 0 {
        assert(a + b =~= a);
    } else {
        lemma_byte_len_concat(a, b.drop_last());
        assert((a + b).drop_last() =~= a + b.drop_last());
    }
}

/// A string takes at least one byte per character.
pub proof fn lemma_byte_len_at_least_len(s: Seq<char>)
    ensures
        s.len() <= byte_len(s),
    decreases s.len(),
{
    if s.len() > 0 {
        lemma_byte_len_at_least_len(s.drop_last());
    }
}

/// A part of a string takes no more bytes than the whole.
pub proof fn lemma_byte_len_subrange(s: Seq<char>, from: int, to: int)
    requires
        0 <= from <= to <= s.len(),
    ensures
        byte_len(s.subrange(from, to)) <= byte_len(s),
{
    let mid = s.subrange(from, to);
    lemma_byte_len_concat(s.take(from), mid);
    lemma_byte_len_concat(s.take(from) + mid, s.skip(to));
    assert(s =~= s.take(from) + mid + s.skip(to));
}

/// The number of bytes that the UTF-8 encoding of `c` takes.
pub fn utf8_width(c: char) -> (n: usize)
    ensures
        n == char_width(c),
        1 <= n <= 4,
{
    let code: u32 = c as u32;
    if code < 0x80 {
        1
    } else if code < 0x800 {
        2
    } else if code < 0x10000 {
        3
    } else {
        4
    }
}

/// The rows of characters that `rows` holds.
pub open spec fn char_rows(rows: Seq<Vec<char>>) -> Seq<Seq<char>> {
    Seq::new(rows.len(), |j: int| rows[j]@)
}

/// The number of bytes that the UTF-8 encoding of `chars` takes, or `None`
/// if the number does not fit in `usize`.
pub fn utf8_len(chars: &Vec<char>) -> (len: Option<usize>)
    ensures
        match len {
            Some(n) => n == byte_len(chars@),
            None => byte_len(chars@) > usize::MAX,
        },
{
    let mut total: usize = 0;
    let mut i: usize = 0;
    while i < chars.len()
        invariant
            i <= chars.len(),
            total == byte_len(chars@.take(i as int)),
        decreases chars.len() - i,
    {
        proof {
            assert(chars@.take(i + 1).drop_last() =~= chars@.take(i as int));
            lemma_byte_len_subrange(chars@, 0, i + 1);
        }
        match total.checked_add(utf8_width(chars[i])) {
            Some(sum) => {
                total = sum;
            },
            None => {
                return None;
            },
        }
        i += 1;
    }
    assert(chars@.take(i as int) =~= chars@);
    Some(total)
}

/// The characters of `s`. As `s` is held in memory, the length of its
/// encoding fits in `usize`.
pub fn chars_of(s: &str) -> (chars: Vec<char>)
    ensures
        chars@ == s@,
        byte_len(chars@) <= usize::MAX,
{
    let encoded = s.as_bytes().len();
    proof {
        lemma_byte_len_is_encoded_len(s@);
        assert(byte_len(s@) == encoded);
    }
    let mut chars: Vec<char> = Vec::new();
    for c in it: s.chars()
        invariant
            it.seq() == s@,
            chars@ == it.seq().take(it.index()),
    {
        chars.push(c);
    }
    chars
}

/// The string made of `chars`.
pub fn string_of(chars: &Vec<char>) -> (s: String)
    ensures
        s@ == chars@,
{
    let mut s = String::new();
    let mut i: usize = 0;
    while i < chars.len()
        invariant
            i <= chars.len(),
            s@ == chars@.take(i as int),
        decreases chars.len() - i,
    {
        s.push(chars[i]);
        i += 1;
    }
    s
}

/// The pieces of `s` between the occurrences of `sep`: one more piece than
/// there are occurrences, so that the empty string is one empty piece.
pub open spec fn split_on(s: Seq<char>, sep: char) -> Seq<Seq<char>>
    decreases s.len(),
{
    if s.len() == 0 {
        seq![Seq::<char>::empty()]
    } else if s.last() == sep {
        split_on(s.drop_last(), sep).push(Seq::empty())
    } else {
        let pieces = split_on(s.drop_last(), sep);
        pieces.update(pieces.len() - 1, pieces.last().push(s.last()))
    }
}

/// The pieces one after another, with `sep` between each two.
pub open spec fn joined(pieces: Seq<Seq<char>>, sep: char) -> Seq<char>
    decreases pieces.len(),
{
    if pieces.len() == 0 {
        Seq::empty()
    } else if pieces.len() == 1 {
        pieces[0]
    } else {
        joined(pieces.drop_last(), sep).push(sep) + pieces.last()
    }
}

/// `s` without the white space at its beginning.
pub open spec fn trim_start(s: Seq<char>) -> Seq<char>
    decreases s.len(),
{
    if s.len() > 0 && is_white_space(s[0]) {
        trim_start(s.drop_first())
    } else {
        s
    }
}

/// `s` without the white space at its end.
pub open spec fn trim_end(s: Seq<char>) -> Seq<char>
    decreases s.len(),
{
    if s.len() > 0 && is_white_space(s.last()) {
        trim_end(s.drop_last())
    } else {
        s
    }
}

/// `s` without the white space at its beginning and at its end.
pub open spec fn trimmed(s: Seq<char>) -> Seq<char> {
    trim_end(trim_start(s))
}

/// A string has at least one piece.
pub proof fn lemma_split_on_len(s: Seq<char>, sep: char)
    ensures
        split_on(s, sep).len() >= 1,
    decreases s.len(),
{
    if s.len() > 0 {
        lemma_split_on_len(s.drop_last(), sep);
    }
}

/// Joining the pieces of a string with the separator gives the string back.
pub proof fn lemma_join_split(s: Seq<char>, sep: char)
    ensures
        joined(split_on(s, sep), sep) == s,
    decreases s.len(),
{
    if s.len() > 0 {
        let front = s.drop_last();
        let pieces = split_on(front, sep);
        lemma_split_on_len(front, sep);
        lemma_join_split(front, sep);
        if s.last() == sep {
            let all = pieces.push(Seq::empty());
            assert(all.drop_last() =~= pieces);
            assert(joined(all, sep) =~= front.push(sep));
            assert(front.push(sep) =~= s);
        } else {
            let grown = pieces.last().push(s.last());
            let all = pieces.update(pieces.len() - 1, grown);
            if pieces.len() == 1 {
                assert(joined(all, sep) =~= front.push(s.last()));
            } else {
                assert(all.drop_last() =~= pieces.drop_last());
                assert(joined(all, sep) =~= joined(pieces.drop_last(), sep).push(sep) + grown);
                assert(joined(pieces.drop_last(), sep).push(sep) + grown =~= (joined(
                    pieces.drop_last(),
                    sep,
                ).push(sep) + pieces.last()).push(s.last()));
            }
            assert(front.push(s.last()) =~= s);
        }
    }
}

/// A string without the separator is its own single piece.
pub proof fn lemma_split_whole(s: Seq<char>, sep: char)
    requires
        forall|i: int| 0 <= i < s.len() ==> s[i] != sep,
    ensures
        split_on(s, sep) == seq![s],
    decreases s.len(),
{
    if s.len() > 0 {
        lemma_split_whole(s.drop_last(), sep);
        assert(s.drop_last().push(s.last()) =~= s);
        assert(seq![s.drop_last()].update(0, s.drop_last().push(s.last())) =~= seq![s]);
    } else {
        assert(Seq::<char>::empty() =~= s);
    }
}

/// After a separator, a string without the separator is a piece of its own.
pub proof fn lemma_split_after(s: Seq<char>, sep: char, tail: Seq<char>)
    requires
        forall|i: int| 0 <= i < tail.len() ==> tail[i] != sep,
    ensures
        split_on(s.push(sep) + tail, sep) == split_on(s, sep).push(tail),
    decreases tail.len(),
{
    let all = s.push(sep) + tail;
    if tail.len() == 0 {
        assert(all =~= s.push(sep));
        assert(all.drop_last() =~= s);
        assert(tail =~= Seq::<char>::empty());
    } else {
        lemma_split_after(s, sep, tail.drop_last());
        assert(all.drop_last() =~= s.push(sep) + tail.drop_last());
        assert(all.last() == tail.last());
        let pieces = split_on(s, sep).push(tail.drop_last());
        assert(pieces.update(pieces.len() - 1, pieces.last().push(tail.last())) =~= split_on(
            s,
            sep,
        ).push(tail)) by {
            assert(tail.drop_last().push(tail.last()) =~= tail);
        }
    }
}

/// Splitting what was joined gives the pieces back, if there is a piece at
/// all and none of them holds the separator.
pub proof fn lemma_split_join(pieces: Seq<Seq<char>>, sep: char)
    requires
        pieces.len() >= 1,
        forall|i: int, j: int|
            0 <= i < pieces.len() && 0 <= j < pieces[i].len() ==> #[trigger] pieces[i][j] != sep,
    ensures
        split_on(joined(pieces, sep), sep) == pieces,
    decreases pieces.len(),
{
    if pieces.len() == 1 {
        lemma_split_whole(pieces[0], sep);
        assert(seq![pieces[0]] =~= pieces);
    } else {
        let front = pieces.drop_last();
        assert forall|i: int, j: int|
            0 <= i < front.len() && 0 <= j < front[i].len() implies #[trigger] front[i][j]
            != sep by {
            assert(front[i][j] == pieces[i][j]);
        }
        lemma_split_join(front, sep);
        assert forall|j: int| 0 <= j < pieces.last().len() implies pieces.last()[j] != sep by {
            assert(pieces.last()[j] == pieces[pieces.len() - 1][j]);
        }
        lemma_split_after(joined(front, sep), sep, pieces.last());
        assert(front.push(pieces.last()) =~= pieces);
    }
}

/// The first pieces, joined, take no more bytes than all of them.
pub proof fn lemma_joined_prefix(pieces: Seq<Seq<char>>, sep: char, count: int)
    requires
        0 <= count <= pieces.len(),
    ensures
        byte_len(joined(pieces.take(count), sep)) <= byte_len(joined(pieces, sep)),
    decreases pieces.len() - count,
{
    if count < pieces.len() {
        lemma_joined_prefix(pieces, sep, count + 1);
        let more = pieces.take(count + 1);
        assert(more.drop_last() =~= pieces.take(count));
        if count > 0 {
            lemma_byte_len_concat(joined(pieces.take(count), sep).push(sep), more.last());
            lemma_byte_len_concat(joined(pieces.take(count), sep), seq![sep]);
            assert(joined(pieces.take(count), sep).push(sep) =~= joined(pieces.take(count), sep)
                + seq![sep]);
        } else {
            assert(pieces.take(0) =~= Seq::<Seq<char>>::empty());
        }
    } else {
        assert(pieces.take(count) =~= pieces);
    }
}

/// Trimming takes characters away, and so bytes.
pub proof fn lemma_trimmed_bytes(s: Seq<char>)
    ensures
        byte_len(trim_start(s)) <= byte_len(s),
        byte_len(trim_end(s)) <= byte_len(s),
        byte_len(trimmed(s)) <= byte_len(s),
    decreases s.len(),
{
    if s.len() > 0 {
        lemma_trimmed_bytes(s.drop_first());
        lemma_trimmed_bytes(s.drop_last());
        lemma_byte_len_subrange(s, 1, s.len() as int);
        lemma_byte_len_subrange(s, 0, s.len() - 1);
        assert(s.drop_first() =~= s.subrange(1, s.len() as int));
        assert(s.drop_last() =~= s.subrange(0, s.len() - 1));
    }
    lemma_trim_end_bytes(trim_start(s));
}

/// Trimming the end takes characters away, and so bytes.
proof fn lemma_trim_end_bytes(s: Seq<char>)
    ensures
        byte_len(trim_end(s)) <= byte_len(s),
    decreases s.len(),
{
    if s.len() > 0 {
        lemma_trim_end_bytes(s.drop_last());
        lemma_byte_len_subrange(s, 0, s.len() - 1);
        assert(s.drop_last() =~= s.subrange(0, s.len() - 1));
    }
}

/// A piece of a string takes no more bytes than the string.
pub proof fn lemma_piece_bytes(s: Seq<char>, sep: char, i: int)
    requires
        0 <= i < split_on(s, sep).len(),
    ensures
        byte_len(split_on(s, sep)[i]) <= byte_len(s),
{
    let pieces = split_on(s, sep);
    let front = pieces.take(i + 1);
    lemma_join_split(s, sep);
    lemma_joined_prefix(pieces, sep, i + 1);
    if i > 0 {
        lemma_byte_len_concat(joined(front.drop_last(), sep).push(sep), front.last());
    }
}

/// The pieces of `chars` between the occurrences of `sep`.
pub fn split(chars: &Vec<char>, sep: char) -> (pieces: Vec<Vec<char>>)
    ensures
        char_rows(pieces@) == split_on(chars@, sep),
{
    let mut pieces: Vec<Vec<char>> = Vec::new();
    let mut current: Vec<char> = Vec::new();
    let mut i: usize = 0;
    while i < chars.len()
        invariant
            i <= chars.len(),
            split_on(chars@.take(i as int), sep) == char_rows(pieces@).push(current@),
        decreases chars.len() - i,
    {
        let c = chars[i];
        let ghost rows = char_rows(pieces@);
        proof {
            assert(chars@.take(i + 1).drop_last() =~= chars@.take(i as int));
        }
        if c == sep {
            proof {
                assert(char_rows(pieces@.push(current)) =~= rows.push(current@));
            }
            pieces.push(current);
            current = Vec::new();
        } else {
            proof {
                assert(rows.push(current@).update(rows.len() as int, current@.push(c)) =~= rows.push(
                    current@.push(c),
                ));
            }
            current.push(c);
        }
        i += 1;
    }
    proof {
        assert(chars@.take(i as int) =~= chars@);
        assert(char_rows(pieces@.push(current)) =~= char_rows(pieces@).push(current@));
    }
    pieces.push(current);
    pieces
}

/// `chars` without the white space at its beginning and at its end.
pub fn trim(chars: &Vec<char>) -> (kept: Vec<char>)
    ensures
        kept@ == trimmed(chars@),
{
    let mut from: usize = 0;
    proof {
        assert(chars@.skip(0) =~= chars@);
    }
    while from < chars.len() && chars[from].is_whitespace()
        invariant
            from <= chars.len(),
            trim_start(chars@) == trim_start(chars@.skip(from as int)),
        decreases chars.len() - from,
    {
        proof {
            assert(chars@.skip(from as int).drop_first() =~= chars@.skip(from + 1));
        }
        from += 1;
    }
    let mut to: usize = chars.len();
    proof {
        assert(chars@.subrange(from as int, to as int) =~= chars@.skip(from as int));
    }
    while to > from && chars[to - 1].is_whitespace()
        invariant
            from <= to <= chars.len(),
            trimmed(chars@) == trim_end(chars@.subrange(from as int, to as int)),
        decreases to,
    {
        proof {
            assert(chars@.subrange(from as int, to as int).drop_last() =~= chars@.subrange(
                from as int,
                to - 1,
            ));
        }
        to -= 1;
    }
    let mut kept: Vec<char> = Vec::new();
    let mut i: usize = from;
    while i < to
        invariant
            from <= i <= to <= chars.len(),
            kept@ == chars@.subrange(from as int, i as int),
        decreases to - i,
    {
        kept.push(chars[i]);
        proof {
            assert(chars@.subrange(from as int, i + 1) =~= chars@.subrange(from as int, i as int).push(
                chars@[i as int],
            ));
        }
        i += 1;
    }
    kept
}

} // verus!
