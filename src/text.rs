//! Splitting a source line into words, and reading decimal literals.
use vstd::prelude::*;

verus! {

/// White space, as Unicode's `White_Space` property lists it: tab, line
/// feed, vertical tab, form feed, carriage return, space, next line,
/// no-break space, ogham space mark, the spaces U+2000 to U+200A, line and
/// paragraph separators, narrow no-break space, medium mathematical space
/// and ideographic space.
pub open spec fn is_white_space(c: char) -> bool {
    let u = c as u32;
    ||| 0x09 <= u <= 0x0D
    ||| u == 0x20
    ||| u == 0x85
    ||| u == 0xA0
    ||| u == 0x1680
    ||| 0x2000 <= u <= 0x200A
    ||| u == 0x2028
    ||| u == 0x2029
    ||| u == 0x202F
    ||| u == 0x205F
    ||| u == 0x3000
}

/// Characters that separate words: any white space, and the comma.
pub open spec fn is_blank(c: char) -> bool {
    is_white_space(c) || c == ','
}

/// The comment marker: it ends the code part of a line.
pub open spec fn is_comment_start(c: char) -> bool {
    c == ';'
}

/// The words of `s`, scanning left to right with `cur` as the word read so
/// far: blanks close the current word, a comment marker ends the scan.
pub open spec fn words_after(s: Seq<char>, cur: Seq<char>) -> Seq<Seq<char>>
    decreases s.len(),
{
    if s.len() == 0 || is_comment_start(s[0]) {
        if cur.len() > 0 {
            seq![cur]
        } else {
            seq![]
        }
    } else if is_blank(s[0]) {
        (if cur.len() > 0 {
            seq![cur]
        } else {
            seq![]
        }) + words_after(s.drop_first(), seq![])
    } else {
        words_after(s.drop_first(), cur.push(s[0]))
    }
}

/// The words of a source line, in order.
pub open spec fn words(line: Seq<char>) -> Seq<Seq<char>> {
    words_after(line, seq![])
}

pub open spec fn string_views(ws: Seq<String>) -> Seq<Seq<char>> {
    ws.map_values(|w: String| w@)
}

fn is_blank_exec(c: char) -> (r: bool)
    ensures
        r == is_blank(c),
{
    let u = c as u32;
    (0x09 <= u && u <= 0x0D) || u == 0x20 || u == 0x85 || u == 0xA0 || u == 0x1680 || (0x2000
        <= u && u <= 0x200A) || u == 0x2028 || u == 0x2029 || u == 0x202F || u == 0x205F || u
        == 0x3000 || c == ','
}

/// Splits a line into its words: the longest runs of characters that are
/// neither white space nor a comma, in the part of the line before the
/// first `;`.
pub fn get_words(line: &str) -> (r: Vec<String>)
    ensures
        string_views(r@) == words(line@),
{
    let n = line.unicode_len();
    let mut out: Vec<String> = Vec::new();
    let mut start: usize = 0;
    let mut i: usize = 0;
    let mut at_comment = false;
    proof {
        assert(line@.skip(0) =~= line@);
        assert(line@.subrange(0, 0) =~= seq![]);
        assert(string_views(out@) + words(line@) =~= words(line@));
    }
    while i < n && !at_comment
        invariant
            n == line@.len(),
            start <= i <= n,
            at_comment ==> i < n && is_comment_start(line@[i as int]),
            words(line@) == string_views(out@) + words_after(
                line@.skip(i as int),
                line@.subrange(start as int, i as int),
            ),
        decreases n - i + (if at_comment { 0int } else { 1int }),
    {
        let c = line.get_char(i);
        let ghost rest = line@.skip(i as int);
        let ghost cur = line@.subrange(start as int, i as int);
        assert(rest[0] == c);
        assert(rest.drop_first() =~= line@.skip(i + 1));
        if c == ';' {
            at_comment = true;
        } else if is_blank_exec(c) {
            if start < i {
                let ghost before = out@;
                let w = line.substring_char(start, i).to_owned();
                out.push(w);
                assert(string_views(out@) =~= string_views(before).push(cur));
                assert(string_views(before) + (seq![cur] + words_after(
                    line@.skip(i + 1),
                    seq![],
                )) =~= string_views(before).push(cur) + words_after(line@.skip(i + 1), seq![]));
            } else {
                assert(cur.len() == 0);
                assert(seq![] + words_after(line@.skip(i + 1), seq![]) =~= words_after(
                    line@.skip(i + 1),
                    seq![],
                ));
            }
            start = i + 1;
            assert(line@.subrange(start as int, i + 1) =~= seq![]);
        } else {
            assert(cur.push(c) =~= line@.subrange(start as int, i + 1));
        }
        if !at_comment {
            i = i + 1;
        }
    }
    proof {
        let rest = line@.skip(i as int);
        assert(rest.len() == 0 || is_comment_start(rest[0]));
    }
    if start < i {
        let ghost before = out@;
        let w = line.substring_char(start, i).to_owned();
        out.push(w);
        assert(string_views(out@) =~= string_views(before) + seq![
            line@.subrange(start as int, i as int),
        ]);
    } else {
        assert(string_views(out@) + seq![] =~= string_views(out@));
    }
    out
}


pub open spec fn is_digit(c: char) -> bool {
    48 <= c as u32 <= 57
}

pub open spec fn digit_value(c: char) -> nat {
    (c as u32 - 48) as nat
}

/// `s` is a non-empty run of decimal digits.
pub open spec fn is_decimal(s: Seq<char>) -> bool {
    s.len() > 0 && forall|i: int| 0 <= i < s.len() ==> is_digit(#[trigger] s[i])
}

/// The value of a run of decimal digits.
pub open spec fn decimal_value(s: Seq<char>) -> nat
    decreases s.len(),
{
    if s.len() == 0 {
        0
    } else {
        decimal_value(s.drop_last()) * 10 + digit_value(s.last())
    }
}

/// A value, or 256 for any value that does not fit in a byte.
pub open spec fn capped(v: nat) -> nat {
    if v > 255 {
        256
    } else {
        v
    }
}

/// Reads the characters of `w` from index `from` on as a decimal literal.
/// `None` when they are not a non-empty run of digits; otherwise the value,
/// or 256 when it does not fit in a byte.
pub fn parse_decimal(w: &str, from: usize) -> (r: Option<u16>)
    requires
        from <= w@.len(),
    ensures
        match r {
            None => !is_decimal(w@.skip(from as int)),
            Some(v) => is_decimal(w@.skip(from as int)) && v as nat == capped(
                decimal_value(w@.skip(from as int)),
            ),
        },
{
    let n = w.unicode_len();
    if from >= n {
        assert(w@.skip(from as int).len() == 0);
        return None;
    }
    let mut v: u16 = 0;
    let mut i: usize = from;
    proof {
        assert(w@.subrange(from as int, from as int) =~= seq![]);
    }
    while i < n
        invariant
            n == w@.len(),
            from <= i <= n,
            forall|j: int| from <= j < i ==> is_digit(#[trigger] w@[j]),
            v as nat == capped(decimal_value(w@.subrange(from as int, i as int))),
        decreases n - i,
    {
        let c = w.get_char(i);
        if !('0' <= c && c <= '9') {
            assert(!is_digit(w@.skip(from as int)[i - from]));
            return None;
        }
        let ghost prev = w@.subrange(from as int, i as int);
        let ghost next = w@.subrange(from as int, i + 1);
        assert(next.drop_last() =~= prev);
        let d = (c as u32 - 48) as u16;
        if v > 255 {
            v = 256;
        } else {
            v = v * 10 + d;
            if v > 255 {
                v = 256;
            }
        }
        i = i + 1;
    }
    assert(w@.subrange(from as int, n as int) =~= w@.skip(from as int));
    Some(v)
}

} // verus!
