//! What holds of splitting, joining and trimming together.

use crate::text;
use crate::order;
use vstd::prelude::*;

verus! {

/// Whether a character does not occur in a text.
pub open spec fn lacks(s: Seq<char>, c: char) -> bool {
    forall|i: int| 0 <= i < s.len() ==> #[trigger] s[i] != c
}

/// Whether a text occurs in another.
pub open spec fn occurs(part: Seq<char>, whole: Seq<char>) -> bool {
    exists|before: Seq<char>, after: Seq<char>| whole == #[trigger] (before + part + after)
}

/// The first occurrence of a character stands behind a front that lacks it.
pub proof fn lemma_upto_is(front: Seq<char>, c: char, back: Seq<char>)
    requires
        lacks(front, c),
    ensures
        text::upto(front + seq![c] + back, c) == front.len(),
    decreases front.len(),
{
    let s = front + seq![c] + back;
    if front.len() > 0 {
        let rest = front.skip(1);
        assert forall|i: int| 0 <= i < rest.len() implies #[trigger] rest[i] != c by {
            assert(rest[i] == front[i + 1]);
        }
        lemma_upto_is(rest, c, back);
        assert(s.skip(1) =~= rest + seq![c] + back);
        assert(s[0] == front[0]);
    } else {
        assert(s[0] == c);
    }
}

/// A text that lacks a character goes on up to its end.
pub proof fn lemma_upto_end(s: Seq<char>, c: char)
    requires
        lacks(s, c),
    ensures
        text::upto(s, c) == s.len(),
{
    text::lemma_upto(s, c);
    if text::upto(s, c) < s.len() {
        assert(s[text::upto(s, c) as int] == c);
    }
}

/// Splitting at the first occurrence gives back what stood before it and after
/// it.
pub proof fn a_pair_is_split_where_it_was_put_together(
    front: Seq<char>,
    c: char,
    back: Seq<char>,
)
    requires
        lacks(front, c),
    ensures
        text::split_pair(front + seq![c] + back, c) == Some((front, back)),
{
    lemma_upto_is(front, c, back);
    let s = front + seq![c] + back;
    assert(s.take(front.len() as int) =~= front);
    assert(s.skip(front.len() as int + 1) =~= back);
}

/// A piece in front is the first of the pieces.
pub proof fn lemma_split_front(front: Seq<char>, c: char, back: Seq<char>)
    requires
        lacks(front, c),
    ensures
        text::split_all(front + seq![c] + back, c) == seq![front] + text::split_all(back, c),
{
    lemma_upto_is(front, c, back);
    let s = front + seq![c] + back;
    assert(s.take(front.len() as int) =~= front);
    assert(s.skip(front.len() as int + 1) =~= back);
}

/// A text without the separator is one piece.
pub proof fn lemma_split_one(s: Seq<char>, c: char)
    requires
        lacks(s, c),
    ensures
        text::split_all(s, c) == seq![s],
{
    lemma_upto_end(s, c);
}

/// Pieces joined by a character are given back by splitting at it.
pub proof fn joined_pieces_are_split_again(list: Seq<Seq<char>>, c: char)
    requires
        list.len() > 0,
        forall|i: int| 0 <= i < list.len() ==> lacks(#[trigger] list[i], c),
    ensures
        text::split_all(text::joined(list, seq![c]), c) == list,
    decreases list.len(),
{
    if list.len() == 1 {
        lemma_split_one(list[0], c);
        assert(list =~= seq![list[0]]);
    } else {
        let rest = list.skip(1);
        assert forall|i: int| 0 <= i < rest.len() implies lacks(#[trigger] rest[i], c) by {
            assert(rest[i] == list[i + 1]);
        }
        joined_pieces_are_split_again(rest, c);
        lemma_joined_front(list, seq![c]);
        lemma_split_front(list[0], c, text::joined(rest, seq![c]));
        assert(list =~= seq![list[0]] + rest);
    }
}

/// Joining from the front.
pub proof fn lemma_joined_front(list: Seq<Seq<char>>, sep: Seq<char>)
    requires
        list.len() > 1,
    ensures
        text::joined(list, sep) == list[0] + sep + text::joined(list.skip(1), sep),
    decreases list.len(),
{
    reveal_with_fuel(text::joined, 3);
    if list.len() == 2 {
        assert(list.drop_last().len() == 1);
        assert(list.skip(1).len() == 1);
        assert(text::joined(list, sep) =~= list[0] + sep + text::joined(list.skip(1), sep));
    } else {
        let front = list.drop_last();
        lemma_joined_front(front, sep);
        assert(front.skip(1) =~= list.skip(1).drop_last());
        assert(list.skip(1).last() == list.last());
        assert(text::joined(list, sep) =~= list[0] + sep + text::joined(list.skip(1), sep));
    }
}

/// Every text of a list occurs in what they are joined to.
pub proof fn every_text_occurs_in_the_join(list: Seq<Seq<char>>, sep: Seq<char>, k: int)
    requires
        0 <= k < list.len(),
    ensures
        occurs(list[k], text::joined(list, sep)),
    decreases list.len(),
{
    let whole = text::joined(list, sep);
    if list.len() == 1 {
        lemma_occurs(seq![], list[0], seq![]);
        assert(seq![] + list[0] + seq![] =~= list[0]);
    } else if k == list.len() - 1 {
        let before = text::joined(list.drop_last(), sep) + sep;
        lemma_occurs(before, list[k], seq![]);
        assert(before + list[k] + seq![] =~= whole);
    } else {
        every_text_occurs_in_the_join(list.drop_last(), sep, k);
        assert(list.drop_last()[k] == list[k]);
        lemma_occurs_within(list[k], text::joined(list.drop_last(), sep), seq![], sep + list.last());
        assert(seq![] + text::joined(list.drop_last(), sep) + (sep + list.last()) =~= whole);
    }
}

/// What stands between two parts occurs in the whole.
pub proof fn lemma_occurs(before: Seq<char>, part: Seq<char>, after: Seq<char>)
    ensures
        occurs(part, before + part + after),
{
    let whole = before + part + after;
    assert(whole == before + part + after);
}

/// What occurs in a part occurs in the whole.
pub proof fn lemma_occurs_within(
    inner: Seq<char>,
    part: Seq<char>,
    before: Seq<char>,
    after: Seq<char>,
)
    requires
        occurs(inner, part),
    ensures
        occurs(inner, before + part + after),
{
    let (x, y) = choose|x: Seq<char>, y: Seq<char>| part == #[trigger] (x + inner + y);
    lemma_occurs(before + x, inner, y + after);
    assert((before + x) + inner + (y + after) =~= before + part + after);
}

/// A part of a part is a part of the whole.
pub proof fn lemma_occurs_chain(inner: Seq<char>, part: Seq<char>, whole: Seq<char>)
    requires
        occurs(inner, part),
        occurs(part, whole),
    ensures
        occurs(inner, whole),
{
    let (x, y) = choose|x: Seq<char>, y: Seq<char>| whole == #[trigger] (x + part + y);
    lemma_occurs_within(inner, part, x, y);
}

/// Every part occurs in what they run together to.
pub proof fn lemma_occurs_in_run(list: Seq<Seq<char>>, k: int)
    requires
        0 <= k < list.len(),
    ensures
        occurs(list[k], text::run_together(list)),
    decreases list.len(),
{
    let whole = text::run_together(list);
    let front = text::run_together(list.drop_last());
    if k == list.len() - 1 {
        lemma_occurs(front, list[k], seq![]);
        assert(front + list[k] + seq![] =~= whole);
    } else {
        lemma_occurs_in_run(list.drop_last(), k);
        assert(list.drop_last()[k] == list[k]);
        lemma_occurs_within(list[k], front, seq![], list.last());
        assert(seq![] + front + list.last() =~= whole);
    }
}

/// Whether a text has no white space at its ends, and is not empty.
pub open spec fn is_tight(s: Seq<char>) -> bool {
    s.len() > 0 && !text::is_space(s[0]) && !text::is_space(s.last())
}

/// Trimming takes the white space off both ends, and nothing else.
pub proof fn trimming_takes_off_white_space(before: Seq<char>, s: Seq<char>, after: Seq<char>)
    requires
        is_tight(s),
        forall|i: int| 0 <= i < before.len() ==> text::is_space(#[trigger] before[i]),
        forall|i: int| 0 <= i < after.len() ==> text::is_space(#[trigger] after[i]),
    ensures
        text::trimmed(before + s + after) == s,
    decreases before.len() + after.len(),
{
    let whole = before + s + after;
    if before.len() > 0 {
        let rest = before.skip(1);
        assert forall|i: int| 0 <= i < rest.len() implies text::is_space(#[trigger] rest[i]) by {
            assert(rest[i] == before[i + 1]);
        }
        trimming_takes_off_white_space(rest, s, after);
        assert(whole[0] == before[0]);
        assert(whole.skip(1) =~= rest + s + after);
    } else if after.len() > 0 {
        let rest = after.drop_last();
        assert forall|i: int| 0 <= i < rest.len() implies text::is_space(#[trigger] rest[i]) by {
            assert(rest[i] == after[i]);
        }
        trimming_takes_off_white_space(before, s, rest);
        let shorter = before + s + rest;
        assert(whole[0] == s[0] && shorter[0] == s[0]);
        assert(whole.last() == after[after.len() - 1]);
        assert(whole.drop_last() =~= shorter);
    } else {
        assert(whole =~= s);
    }
}

/// White space alone is trimmed to nothing.
pub proof fn white_space_is_trimmed_to_nothing(s: Seq<char>)
    requires
        forall|i: int| 0 <= i < s.len() ==> text::is_space(#[trigger] s[i]),
    ensures
        text::trimmed(s) == Seq::<char>::empty(),
    decreases s.len(),
{
    if s.len() > 0 {
        let rest = s.skip(1);
        assert forall|i: int| 0 <= i < rest.len() implies text::is_space(#[trigger] rest[i]) by {
            assert(rest[i] == s[i + 1]);
        }
        white_space_is_trimmed_to_nothing(rest);
        assert(text::is_space(s[0]));
    } else {
        assert(text::trimmed(s) =~= Seq::<char>::empty());
    }
}

/// A text with a character that is no white space is not trimmed to nothing.
pub proof fn lemma_not_blank(s: Seq<char>, k: int)
    requires
        0 <= k < s.len(),
        !text::is_space(s[k]),
    ensures
        text::trimmed(s).len() > 0,
    decreases s.len(),
{
    if text::is_space(s[0]) {
        lemma_not_blank(s.skip(1), k - 1);
    } else {
        lemma_back_not_blank(s, 0);
    }
}

proof fn lemma_back_not_blank(s: Seq<char>, k: int)
    requires
        0 <= k < s.len(),
        !text::is_space(s[k]),
    ensures
        text::trim_back(s).len() > 0,
    decreases s.len(),
{
    if text::is_space(s.last()) {
        lemma_back_not_blank(s.drop_last(), k);
    }
}

/// A line that was ended is the first of the lines.
pub proof fn lemma_line_front(line: Seq<char>, back: Seq<char>)
    requires
        lacks(line, '\n'),
        line.len() > 0 ==> line.last() != '\r',
    ensures
        text::line_seq(line + seq!['\n'] + back) == seq![line] + text::line_seq(back),
{
    lemma_upto_is(line, '\n', back);
    let s = line + seq!['\n'] + back;
    assert(s.take(line.len() as int) =~= line);
    assert(s.skip(line.len() as int + 1) =~= back);
}

/// Lines, each ended by a line feed.
pub open spec fn lines_text(lines: Seq<Seq<char>>) -> Seq<char>
    decreases lines.len(),
{
    if lines.len() == 0 {
        seq![]
    } else {
        lines[0] + seq!['\n'] + lines_text(lines.skip(1))
    }
}

/// Lines that were ended by line feeds are read back.
pub proof fn ended_lines_are_read_back(lines: Seq<Seq<char>>)
    requires
        forall|i: int|
            0 <= i < lines.len() ==> lacks(#[trigger] lines[i], '\n') && (lines[i].len() > 0
                ==> lines[i].last() != '\r'),
    ensures
        text::line_seq(lines_text(lines)) == lines,
    decreases lines.len(),
{
    if lines.len() > 0 {
        let rest = lines.skip(1);
        assert forall|i: int| 0 <= i < rest.len() implies lacks(#[trigger] rest[i], '\n') && (
        rest[i].len() > 0 ==> rest[i].last() != '\r') by {
            assert(rest[i] == lines[i + 1]);
        }
        ended_lines_are_read_back(rest);
        lemma_line_front(lines[0], lines_text(rest));
        assert(lines =~= seq![lines[0]] + rest);
    } else {
        assert(text::line_seq(lines_text(lines)) =~= lines);
    }
}

/// A signed number is read back from its digits.
pub proof fn a_signed_number_is_read_back(n: int)
    requires
        i64::MIN <= n <= i64::MAX,
    ensures
        text::parsed_i64(text::decimal_signed(n)) == Some(n as i64),
{
    if n < 0 {
        text::decimal_reads_back((-n) as nat);
        let s = text::decimal_signed(n);
        assert(s.skip(1) =~= text::decimal((-n) as nat));
        assert(s[0] == '-');
    } else {
        text::decimal_reads_back(n as nat);
        assert(text::is_digit(text::decimal(n as nat)[0]));
    }
}

/// Bytes add up.
pub proof fn lemma_bytes_add_up(a: Seq<char>, b: Seq<char>)
    ensures
        text::byte_len(a + b) == text::byte_len(a) + text::byte_len(b),
        text::byte_len(b) >= b.len(),
    decreases b.len(),
{
    if b.len() > 0 {
        lemma_bytes_add_up(a, b.drop_last());
        assert((a + b).drop_last() =~= a + b.drop_last());
    } else {
        assert(a + b =~= a);
    }
}

// --- order ---------------------------------------------------------------

/// The first character in which two texts differ decides which stands before
/// the other, and a text stands before what begins with it.
pub proof fn the_first_difference_decides(
    front: Seq<char>,
    a: char,
    rest: Seq<char>,
    b: char,
    other: Seq<char>,
)
    requires
        a < b,
    ensures
        text::precedes(front + seq![a] + rest, front + seq![b] + other),
        !text::precedes(front + seq![b] + other, front + seq![a] + rest),
        text::precedes(front, front + seq![a] + rest),
        !text::precedes(front + seq![a] + rest, front),
    decreases front.len(),
{
    let x = front + seq![a] + rest;
    let y = front + seq![b] + other;
    if front.len() > 0 {
        the_first_difference_decides(front.skip(1), a, rest, b, other);
        assert(x.skip(1) =~= front.skip(1) + seq![a] + rest);
        assert(y.skip(1) =~= front.skip(1) + seq![b] + other);
        assert(x[0] == front[0] && y[0] == front[0]);
    } else {
        assert(x[0] == a && y[0] == b);
    }
}

// --- words ---------------------------------------------------------------

/// Whether a text is not empty and has no white space.
pub open spec fn is_word(s: Seq<char>) -> bool {
    s.len() > 0 && forall|i: int| 0 <= i < s.len() ==> !text::is_space(#[trigger] s[i])
}

/// A word more behind a space is a word more.
proof fn lemma_one_word_more(s: Seq<char>, word: Seq<char>)
    requires
        is_word(word),
        s.len() == 0 || text::is_space(s.last()),
    ensures
        text::word_count(s + word) == text::word_count(s) + 1,
    decreases word.len(),
{
    let t = s + word;
    assert(t.last() == word[word.len() - 1]);
    assert(t.drop_last() =~= s + word.drop_last());
    if word.len() == 1 {
        assert(s + word.drop_last() =~= s);
        if s.len() > 0 {
            assert(t[t.len() - 2] == s.last());
        }
    } else {
        let rest = word.drop_last();
        assert forall|i: int| 0 <= i < rest.len() implies !text::is_space(#[trigger] rest[i]) by {
            assert(rest[i] == word[i]);
        }
        lemma_one_word_more(s, rest);
        assert(t[t.len() - 2] == word[word.len() - 2]);
    }
}

/// Words with a space between them are as many as they are.
pub proof fn words_are_counted(words: Seq<Seq<char>>)
    requires
        forall|i: int| 0 <= i < words.len() ==> is_word(#[trigger] words[i]),
    ensures
        text::word_count(text::joined(words, seq![' '])) == words.len(),
    decreases words.len(),
{
    let space = seq![' '];
    assert(text::is_space(' '));
    if words.len() > 0 {
        let rest = words.drop_last();
        let word = words[words.len() - 1];
        assert(is_word(word));
        assert forall|i: int| 0 <= i < rest.len() implies is_word(#[trigger] rest[i]) by {
            assert(rest[i] == words[i]);
        }
        words_are_counted(rest);
        if words.len() == 1 {
            lemma_one_word_more(seq![], word);
            assert(seq![] + word =~= word);
            assert(text::joined(words, space) =~= word);
        } else {
            let front = text::joined(rest, space);
            let gap = front + space;
            assert(gap.drop_last() =~= front);
            assert(gap.last() == ' ');
            assert(text::word_count(gap) == text::word_count(front));
            lemma_one_word_more(gap, word);
            assert(text::joined(words, space) =~= gap + word);
        }
    }
}

// --- line endings --------------------------------------------------------

/// Lines, each ended by a carriage return and a line feed.
pub open spec fn returned_lines_text(lines: Seq<Seq<char>>) -> Seq<char>
    decreases lines.len(),
{
    if lines.len() == 0 {
        seq![]
    } else {
        lines[0] + seq!['\r', '\n'] + returned_lines_text(lines.skip(1))
    }
}

/// Lines that were ended by carriage returns and line feeds are read back
/// without either, and a last line without an ending is read whole.
pub proof fn returned_lines_are_read_back(lines: Seq<Seq<char>>, last: Seq<char>)
    requires
        forall|i: int| 0 <= i < lines.len() ==> lacks(#[trigger] lines[i], '\n'),
        lacks(last, '\n'),
    ensures
        text::line_seq(returned_lines_text(lines) + last) == (if last.len() > 0 {
            lines.push(last)
        } else {
            lines
        }),
    decreases lines.len(),
{
    let whole = returned_lines_text(lines) + last;
    if lines.len() > 0 {
        let rest = lines.skip(1);
        assert forall|i: int| 0 <= i < rest.len() implies lacks(#[trigger] rest[i], '\n') by {
            assert(rest[i] == lines[i + 1]);
        }
        returned_lines_are_read_back(rest, last);
        let front = lines[0].push('\r');
        let back = returned_lines_text(rest) + last;
        assert forall|i: int| 0 <= i < front.len() implies #[trigger] front[i] != '\n' by {
            if i < lines[0].len() {
                assert(front[i] == lines[0][i]);
            }
        }
        assert(whole =~= front + seq!['\n'] + back);
        lemma_upto_is(front, '\n', back);
        assert(whole.take(front.len() as int) =~= front);
        assert(whole.skip(front.len() as int + 1) =~= back);
        assert(front.drop_last() =~= lines[0]);
        assert(text::line_seq(whole) == seq![lines[0]] + text::line_seq(back));
        if last.len() > 0 {
            assert(seq![lines[0]] + rest.push(last) =~= lines.push(last));
        } else {
            assert(seq![lines[0]] + rest =~= lines);
        }
    } else {
        assert(whole =~= last);
        lemma_upto_end(last, '\n');
        if last.len() > 0 {
            assert(seq![last] =~= lines.push(last));
        } else {
            assert(text::line_seq(whole) =~= lines);
        }
    }
}

// --- bytes ---------------------------------------------------------------

/// UTF-8 takes one byte for what seven bits can hold, two for eleven bits,
/// three for sixteen, and four for the rest.
pub proof fn more_bits_take_more_bytes(c: char)
    ensures
        1 <= text::char_bytes(c) <= 4,
        text::char_bytes(c) <= 1 <==> (c as int) < 128,
        text::char_bytes(c) <= 2 <==> (c as int) < 2048,
        text::char_bytes(c) <= 3 <==> (c as int) < 65536,
{
}

/// The first elements are a front of the whole, as long as it may be.
pub proof fn the_first_are_the_front<A>(s: Seq<A>, n: int)
    requires
        n >= 0,
    ensures
        order::first(s, n).is_prefix_of(s),
        order::first(s, n).len() <= n,
        order::first(s, n).len() == n || order::first(s, n) == s,
{
    let f = order::first(s, n);
    assert(s.subrange(0, f.len() as int) =~= f);
}

// --- white space ---------------------------------------------------------

/// Of the characters of ASCII the blank, the tabs, the line and form feeds and
/// the carriage return are white space, and no others. Among all characters
/// there are twenty-five.
pub proof fn the_blanks_of_ascii(c: char)
    ensures
        (c as int) < 128 ==> (text::is_space(c) <==> c == ' ' || c == '\t' || c == '\n' || c == '\r'
            || c as int == 11 || c as int == 12),
        text::is_space(c) && c as int >= 128 ==> blanks_beyond_ascii().contains(c as int),
        blanks_beyond_ascii().contains(c as int) ==> text::is_space(c),
{
    let all = blanks_beyond_ascii();
    let n = c as int;
    if text::is_space(c) && n >= 128 {
        let k = if n == 0x85 {
            0
        } else if n == 0xa0 {
            1
        } else if n == 0x1680 {
            2
        } else if n <= 0x200a {
            n - 0x2000 + 3
        } else if n == 0x2028 {
            14
        } else if n == 0x2029 {
            15
        } else if n == 0x202f {
            16
        } else if n == 0x205f {
            17
        } else {
            18
        };
        assert(all[k] == n);
    }
}

/// The code points of white space beyond ASCII.
pub open spec fn blanks_beyond_ascii() -> Seq<int> {
    seq![
        0x85,
        0xa0,
        0x1680,
        0x2000,
        0x2001,
        0x2002,
        0x2003,
        0x2004,
        0x2005,
        0x2006,
        0x2007,
        0x2008,
        0x2009,
        0x200a,
        0x2028,
        0x2029,
        0x202f,
        0x205f,
        0x3000,
    ]
}

// --- numbers -------------------------------------------------------------

/// A number is spelled without zeros in front, in digits alone, behind a minus
/// sign if and only if it is negative.
pub proof fn numbers_are_spelled_shortly(n: nat, m: int)
    ensures
        text::decimal(n).len() > 0,
        forall|i: int| 0 <= i < text::decimal(n).len() ==> '0' <= #[trigger] text::decimal(n)[i] <= '9',
        n > 0 ==> text::decimal(n)[0] != '0',
        n == 0 ==> text::decimal(n).len() == 1,
        text::decimal_signed(m).len() > 0,
        text::decimal_signed(m)[0] == '-' <==> m < 0,
        m < 0 ==> text::decimal_signed(m).skip(1) == text::decimal_signed(-m),
        m >= 0 ==> '0' <= text::decimal_signed(m)[0] <= '9',
{
    text::decimal_reads_back(n);
    lemma_no_zero_in_front(n);
    assert forall|i: int| 0 <= i < text::decimal(n).len() implies '0' <= #[trigger] text::decimal(
        n,
    )[i] <= '9' by {
        assert(text::is_digit(text::decimal(n)[i]));
    }
    let k = if m < 0 {
        (-m) as nat
    } else {
        m as nat
    };
    text::decimal_reads_back(k);
    assert(text::is_digit(text::decimal(k)[0]));
    if m < 0 {
        assert((seq!['-'] + text::decimal(k)).skip(1) =~= text::decimal(k));
    }
}

proof fn lemma_no_zero_in_front(n: nat)
    ensures
        text::decimal(n).len() > 0,
        n > 0 ==> text::decimal(n)[0] != '0',
    decreases n,
{
    if n >= 10 {
        lemma_no_zero_in_front(n / 10);
    } else if n > 0 {
        assert(text::decimal(n)[0] == text::digit_char(n));
        assert(('0' as int) == 48);
        assert(text::digit_char(n) as int == 48 + n);
    }
}

/// Only digits are a number, behind one sign at most; a text without digits is
/// none, and a count has no minus sign.
pub proof fn only_digits_are_a_number(s: Seq<char>)
    ensures
        text::parsed_u64(s) is Some ==> s.len() > 0 && forall|i: int|
            0 < i < s.len() ==> '0' <= #[trigger] s[i] <= '9',
        text::parsed_u64(s) is Some ==> ('0' <= s[0] <= '9') || (s[0] == '+' && s.len() > 1),
        text::parsed_i64(s) is Some ==> s.len() > 0 && forall|i: int|
            0 < i < s.len() ==> '0' <= #[trigger] s[i] <= '9',
        text::parsed_i64(s) is Some ==> ('0' <= s[0] <= '9') || ((s[0] == '+' || s[0] == '-')
            && s.len() > 1),
{
    if text::parsed_u64(s) is Some || text::parsed_i64(s) is Some {
        let signed = s.len() > 0 && (s[0] == '+' || s[0] == '-');
        let body = s.skip(1);
        if signed && text::all_digits(body) {
            assert forall|i: int| 0 < i < s.len() implies '0' <= #[trigger] s[i] <= '9' by {
                assert(body[i - 1] == s[i]);
                assert(text::is_digit(body[i - 1]));
            }
        } else {
            assert(text::all_digits(s));
            assert(text::is_digit(s[0]));
            assert forall|i: int| 0 < i < s.len() implies '0' <= #[trigger] s[i] <= '9' by {
                assert(text::is_digit(s[i]));
            }
        }
    }
}

/// A plus sign in front of digits makes no difference, and a minus sign turns
/// the number round.
pub proof fn a_sign_may_stand_in_front(s: Seq<char>)
    requires
        s.len() > 0,
        text::all_digits(s),
    ensures
        text::parsed_u64(seq!['+'] + s) == text::parsed_u64(s),
        text::parsed_i64(seq!['+'] + s) == text::parsed_i64(s),
        text::parsed_u64(seq!['-'] + s) is None,
        text::parsed_i64(s) matches Some(n) ==> text::parsed_i64(seq!['-'] + s) == Some((-n) as i64),
{
    let plus = seq!['+'] + s;
    let minus = seq!['-'] + s;
    assert(text::is_digit(s[0]));
    assert(plus[0] == '+' && minus[0] == '-');
    assert(plus.skip(1) =~= s);
    assert(minus.skip(1) =~= s);
    assert(!text::is_digit(minus[0]));
}

} // verus!
