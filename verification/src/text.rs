//! Text helpers shared by the codecs: splitting on a separator character and
//! reading unsigned decimal numbers.

use vstd::prelude::*;

verus! {

/// A digit character's numeric value, or 10 for a non-digit.
pub open spec fn digit_value(c: char) -> nat {
    if c == '0' {
        0
    } else if c == '1' {
        1
    } else if c == '2' {
        2
    } else if c == '3' {
        3
    } else if c == '4' {
        4
    } else if c == '5' {
        5
    } else if c == '6' {
        6
    } else if c == '7' {
        7
    } else if c == '8' {
        8
    } else if c == '9' {
        9
    } else {
        10
    }
}

/// Whether `c` is a decimal digit.
pub open spec fn is_digit_char(c: char) -> bool {
    digit_value(c) < 10
}

/// Whether `s` is a non-empty string of decimal digits.
pub open spec fn is_numeric(s: Seq<char>) -> bool {
    s.len() > 0 && forall|i: int| 0 <= i < s.len() ==> is_digit_char(s[i])
}

/// The number denoted by a string of decimal digits, read most significant
/// digit first.
pub open spec fn numeric_value(s: Seq<char>) -> nat
    decreases s.len(),
{
    if s.len() == 0 {
        0
    } else {
        numeric_value(s.drop_last()) * 10 + digit_value(s.last())
    }
}

/// Whether `c` occurs in `s`.
pub open spec fn has_char(s: Seq<char>, c: char) -> bool {
    exists|i: int| 0 <= i < s.len() && s[i] == c
}

/// The pieces of `s` between occurrences of `sep`, in order, separators
/// removed. There is always at least one piece; a separator at either end or
/// two adjacent separators yield empty pieces, exactly as `str::split` does.
pub open spec fn split_char(s: Seq<char>, sep: char) -> Seq<Seq<char>>
    decreases s.len(),
{
    if s.len() == 0 {
        seq![Seq::<char>::empty()]
    } else if s[0] == sep {
        seq![Seq::<char>::empty()] + split_char(s.drop_first(), sep)
    } else {
        let rest = split_char(s.drop_first(), sep);
        seq![seq![s[0]] + rest.first()] + rest.drop_first()
    }
}

pub proof fn lemma_split_char_nonempty(s: Seq<char>, sep: char)
    ensures
        split_char(s, sep).len() >= 1,
    decreases s.len(),
{
    if s.len() == 0 {
    } else if s[0] == sep {
        lemma_split_char_nonempty(s.drop_first(), sep);
    } else {
        lemma_split_char_nonempty(s.drop_first(), sep);
    }
}

/// A string without the separator is a single piece.
pub proof fn lemma_split_char_no_sep(s: Seq<char>, sep: char)
    requires
        !has_char(s, sep),
    ensures
        split_char(s, sep) == seq![s],
    decreases s.len(),
{
    if s.len() == 0 {
        assert(split_char(s, sep) =~~= seq![s]);
    } else {
        assert(s[0] != sep);
        assert(!has_char(s.drop_first(), sep)) by {
            assert(forall|i: int|
                0 <= i < s.drop_first().len() ==> s.drop_first()[i] == s[i + 1] && s[i + 1]
                    != sep);
        }
        lemma_split_char_no_sep(s.drop_first(), sep);
        lemma_split_char_nonempty(s.drop_first(), sep);
        assert(split_char(s, sep) =~~= seq![s]) by {
            assert(seq![s[0]] + s.drop_first() =~= s);
        }
    }
}

/// Splitting distributes over a separator: the pieces of `a + sep + b` are
/// the pieces of `a` followed by the pieces of `b`.
pub proof fn lemma_split_char_concat(a: Seq<char>, b: Seq<char>, sep: char)
    ensures
        split_char(a + seq![sep] + b, sep) == split_char(a, sep) + split_char(b, sep),
    decreases a.len(),
{
    let s = a + seq![sep] + b;
    if a.len() == 0 {
        assert(s[0] == sep);
        assert(s.drop_first() =~= b);
        assert(split_char(s, sep) =~~= split_char(a, sep) + split_char(b, sep));
    } else if a[0] == sep {
        assert(s[0] == sep);
        assert(s.drop_first() =~= a.drop_first() + seq![sep] + b);
        lemma_split_char_concat(a.drop_first(), b, sep);
        assert(split_char(s, sep) =~~= split_char(a, sep) + split_char(b, sep));
    } else {
        assert(s[0] == a[0] && s[0] != sep);
        assert(s.drop_first() =~= a.drop_first() + seq![sep] + b);
        lemma_split_char_concat(a.drop_first(), b, sep);
        lemma_split_char_nonempty(a.drop_first(), sep);
        let ra = split_char(a.drop_first(), sep);
        let rb = split_char(b, sep);
        assert((ra + rb).first() == ra.first());
        assert((ra + rb).drop_first() =~~= ra.drop_first() + rb);
        assert(split_char(s, sep) =~~= split_char(a, sep) + split_char(b, sep));
    }
}

/// No piece of a split contains the separator; and a character that does not
/// occur in the whole string occurs in no piece.
pub proof fn lemma_split_char_pieces(s: Seq<char>, sep: char, c: char)
    requires
        sep == c || !has_char(s, c),
    ensures
        forall|k: int| 0 <= k < split_char(s, sep).len() ==> !has_char(
            #[trigger] split_char(s, sep)[k],
            c,
        ),
    decreases s.len(),
{
    let pieces = split_char(s, sep);
    if s.len() == 0 {
        assert(!has_char(pieces[0], c));
    } else {
        assert(sep != c ==> s[0] != c);
        assert(sep == c || !has_char(s.drop_first(), c)) by {
            if sep != c {
                assert(forall|i: int|
                    0 <= i < s.drop_first().len() ==> s.drop_first()[i] == s[i + 1] && s[i + 1]
                        != c);
            }
        }
        lemma_split_char_pieces(s.drop_first(), sep, c);
        let rest = split_char(s.drop_first(), sep);
        if s[0] == sep {
            assert forall|k: int| 0 <= k < pieces.len() implies !has_char(pieces[k], c) by {
                if k == 0 {
                    assert(!has_char(pieces[0], c));
                } else {
                    assert(pieces[k] == rest[k - 1]);
                }
            }
        } else {
            lemma_split_char_nonempty(s.drop_first(), sep);
            assert forall|k: int| 0 <= k < pieces.len() implies !has_char(pieces[k], c) by {
                if k == 0 {
                    let p = pieces[0];
                    assert(p == seq![s[0]] + rest.first());
                    assert(!has_char(rest[0], c));
                    assert forall|i: int| 0 <= i < p.len() implies p[i] != c by {
                        if i == 0 {
                            assert(p[0] == s[0]);
                        } else {
                            assert(p[i] == rest[0][i - 1]);
                        }
                    }
                } else {
                    assert(pieces[k] == rest[k]);
                }
            }
        }
    }
}

/// Splits `s` into the pieces between occurrences of `sep`, as `str::split`
/// does.
pub fn split_str(s: &str, sep: char) -> (parts: Vec<String>)
    ensures
        parts.deep_view() == split_char(s@, sep),
        parts.len() >= 1,
{
    let len = s.unicode_len();
    let mut parts: Vec<String> = Vec::new();
    let mut start: usize = 0;
    let mut i: usize = 0;
    proof {
        assert(s@.skip(0) =~= s@);
        assert(parts.deep_view() =~~= Seq::<Seq<char>>::empty());
    }
    while i < len
        invariant
            start <= i <= len,
            len == s@.len(),
            split_char(s@, sep) == parts.deep_view() + split_char(s@.skip(start as int), sep),
            forall|j: int| start <= j < i ==> s@[j] != sep,
        decreases len - i,
    {
        let c = s.get_char(i);
        if c == sep {
            let ghost old_parts = parts.deep_view();
            let piece = s.substring_char(start, i).to_owned();
            parts.push(piece);
            proof {
                let tail = s@.skip(start as int);
                let piece_v = s@.subrange(start as int, i as int);
                let rest = s@.skip(i + 1);
                assert(tail =~= piece_v + seq![sep] + rest);
                assert(!has_char(piece_v, sep));
                lemma_split_char_no_sep(piece_v, sep);
                lemma_split_char_concat(piece_v, rest, sep);
                assert(parts.deep_view() =~~= old_parts + seq![piece_v]);
                assert(split_char(s@, sep) =~~= parts.deep_view() + split_char(rest, sep));
            }
            start = i + 1;
        }
        i += 1;
    }
    let ghost old_parts = parts.deep_view();
    let piece = s.substring_char(start, len).to_owned();
    parts.push(piece);
    proof {
        let piece_v = s@.subrange(start as int, len as int);
        assert(s@.skip(start as int) =~= piece_v);
        assert(!has_char(piece_v, sep));
        lemma_split_char_no_sep(piece_v, sep);
        assert(parts.deep_view() =~~= old_parts + seq![piece_v]);
        assert(parts.deep_view() =~~= split_char(s@, sep));
    }
    parts
}

/// The numeric value of a digit character, or `None` for any other character.
pub fn char_digit(c: char) -> (r: Option<u32>)
    ensures
        r is Some <==> is_digit_char(c),
        r is Some ==> r->Some_0 == digit_value(c),
{
    match c {
        '0' => Some(0),
        '1' => Some(1),
        '2' => Some(2),
        '3' => Some(3),
        '4' => Some(4),
        '5' => Some(5),
        '6' => Some(6),
        '7' => Some(7),
        '8' => Some(8),
        '9' => Some(9),
        _ => None,
    }
}

/// A longer digit string denotes at least as large a number: the value of a
/// prefix never exceeds the value of the whole.
proof fn lemma_numeric_value_prefix(s: Seq<char>, i: int)
    requires
        0 <= i <= s.len(),
    ensures
        numeric_value(s) >= numeric_value(s.take(i)),
    decreases s.len() - i,
{
    if i == s.len() {
        assert(s.take(i) =~= s);
    } else {
        assert(s.take(i + 1).drop_last() =~= s.take(i));
        assert(s.take(i + 1).last() == s[i]);
        assert(numeric_value(s.take(i + 1)) == numeric_value(s.take(i)) * 10 + digit_value(s[i]));
        lemma_numeric_value_prefix(s, i + 1);
    }
}

/// Reads a non-empty all-digit string as a decimal number; `None` on any
/// non-digit, on the empty string, and on a value that does not fit in `u32`.
pub fn parse_u32(s: &str) -> (r: Option<u32>)
    ensures
        r is Some <==> is_numeric(s@) && numeric_value(s@) <= u32::MAX,
        r is Some ==> r->Some_0 == numeric_value(s@),
{
    let len = s.unicode_len();
    if len == 0 {
        return None;
    }
    let mut acc: u64 = 0;
    let mut i: usize = 0;
    while i < len
        invariant
            i <= len,
            0 < len == s@.len(),
            forall|j: int| 0 <= j < i ==> is_digit_char(s@[j]),
            acc == numeric_value(s@.take(i as int)),
            acc <= u32::MAX,
        decreases len - i,
    {
        let c = s.get_char(i);
        match char_digit(c) {
            None => {
                return None;
            },
            Some(d) => {
                proof {
                    assert(s@.take(i + 1).drop_last() =~= s@.take(i as int));
                    assert(s@.take(i + 1).last() == s@[i as int]);
                }
                let next: u64 = acc * 10 + d as u64;
                if next > u32::MAX as u64 {
                    proof {
                        if is_numeric(s@) && numeric_value(s@) <= u32::MAX {
                            lemma_numeric_value_prefix(s@, i + 1);
                        }
                    }
                    return None;
                }
                acc = next;
            },
        }
        i += 1;
    }
    proof {
        assert(s@.take(len as int) =~= s@);
    }
    Some(acc as u32)
}

} // verus!
