//! The range-line law: however many well-formed range lines stand in a block
//! body, the parse reads exactly those ranges, in source order — one `Range`
//! per line, none dropped, none invented.

use vstd::prelude::*;

use crate::chars::{is_ws, is_ws_or_ctl, is_digit, digit_val, dec_val, dec_str, digit_char,
    trim_end};
use crate::ast::RangeV;
use crate::model::{at, skip_ws_from, skip_ws_ctl_from, digits_end, digits_step, title_eol,
    range_step, ranges_step, DigitsRes, RangeRes, RangesRes};

verus! {

/// A title that renders back to itself: one line of text with no carriage
/// return and no surrounding whitespace — possibly empty.
pub open spec fn wf_title(t: Seq<char>) -> bool {
    &&& (t.len() == 0 || (!is_ws(t[0]) && !is_ws(t.last())))
    &&& forall|k: int| 0 <= k < t.len() ==> t[k] != '\n' && t[k] != '\r'
}

/// The text of one range line: `from..to => title` and the line break.
pub open spec fn render_line(r: RangeV) -> Seq<char> {
    dec_str(r.from as nat) + seq!['.', '.'] + dec_str(r.to as nat) + seq![' ', '=', '>', ' ']
        + r.title + seq!['\n']
}

/// The text of a run of range lines.
pub open spec fn render_lines(rs: Seq<RangeV>) -> Seq<char>
    decreases rs.len(),
{
    if rs.len() == 0 {
        Seq::empty()
    } else {
        render_line(rs[0]) + render_lines(rs.subrange(1, rs.len() as int))
    }
}

/// A digit is an ordinary printable character: never skipped, never a line
/// break.
proof fn lemma_digit_plain(c: char)
    requires
        is_digit(c),
    ensures
        !is_ws_or_ctl(c),
        c != '\n',
{
}

proof fn lemma_digit_char_digit(d: nat)
    requires
        d < 10,
    ensures
        is_digit(digit_char(d)),
        !is_ws_or_ctl(digit_char(d)),
        digit_char(d) != '\n',
        digit_val(digit_char(d)) == d,
{
}

/// The decimal rendering holds nothing but digits, at least one.
proof fn lemma_dec_str_digits(n: nat)
    ensures
        dec_str(n).len() >= 1,
        forall|k: int| 0 <= k < dec_str(n).len() ==> #[trigger] is_digit(dec_str(n)[k]),
    decreases n,
{
    if n < 10 {
        lemma_digit_char_digit(n);
    } else {
        lemma_dec_str_digits(n / 10);
        lemma_digit_char_digit(n % 10);
        assert forall|k: int| 0 <= k < dec_str(n).len() implies #[trigger] is_digit(
            dec_str(n)[k],
        ) by {
            if k < dec_str(n / 10).len() {
                assert(dec_str(n)[k] == dec_str(n / 10)[k]);
            } else {
                assert(dec_str(n)[k] == digit_char(n % 10));
            }
        }
    }
}

/// Reading the decimal rendering back gives the number.
proof fn lemma_dec_val_of_dec_str(n: nat)
    ensures
        dec_val(dec_str(n)) == n,
    decreases n,
{
    if n < 10 {
        lemma_digit_char_digit(n);
        assert(dec_str(n).drop_last() =~= Seq::<char>::empty());
        assert(dec_val(Seq::<char>::empty()) == 0);
        assert(dec_str(n).last() == digit_char(n));
        assert(dec_val(dec_str(n)) == 0 * 10 + digit_val(digit_char(n)));
    } else {
        lemma_dec_val_of_dec_str(n / 10);
        lemma_digit_char_digit(n % 10);
        assert(dec_str(n).drop_last() =~= dec_str(n / 10));
        assert(dec_str(n).last() == digit_char(n % 10));
        assert(dec_val(dec_str(n)) == dec_val(dec_str(n / 10)) * 10 + digit_val(
            digit_char(n % 10)));
        assert(dec_val(dec_str(n)) == (n / 10) * 10 + n % 10);
    }
}

/// Where every character before `e` is a digit and the one at `e` is not,
/// the digit run ends exactly at `e`.
proof fn lemma_digits_end_at(s: Seq<char>, pos: int, e: int)
    requires
        0 <= pos <= e <= s.len(),
        forall|k: int| pos <= k < e ==> #[trigger] is_digit(s[k]),
        e < s.len() ==> !is_digit(s[e]),
    ensures
        digits_end(s, pos) == e,
    decreases e - pos,
{
    if pos < e {
        lemma_digits_end_at(s, pos + 1, e);
    }
}

/// A line of clean text ends exactly at its newline, kept out of the title.
proof fn lemma_title_eol_exact(s: Seq<char>, pos: int, t: Seq<char>)
    requires
        0 <= pos,
        pos + t.len() < s.len(),
        forall|k: int| 0 <= k < t.len() ==> s[pos + k] == t[k],
        forall|k: int| 0 <= k < t.len() ==> t[k] != '\n' && t[k] != '\r',
        s[pos + t.len()] == '\n',
    ensures
        title_eol(s, pos) == (t, pos + t.len() + 1),
    decreases t.len(),
{
    if t.len() == 0 {
        assert(at(s, pos) == Option::Some('\n'));
    } else {
        assert(s[pos + 0] == t[0]);
        let t2 = t.subrange(1, t.len() as int);
        assert forall|k: int| 0 <= k < t2.len() implies s[pos + 1 + k] == t2[k] by {
            assert(t2[k] == t[k + 1]);
            assert(s[pos + (k + 1)] == t[k + 1]);
        }
        lemma_title_eol_exact(s, pos + 1, t2);
        assert(seq![t[0]] + t2 =~= t);
    }
}

proof fn proof_digit_plain_at(s: Seq<char>, pos: int)
    requires
        0 <= pos < s.len(),
        is_digit(s[pos]),
    ensures
        !is_ws_or_ctl(s[pos]),
{
    lemma_digit_plain(s[pos]);
}

/// One well-formed range line parses to exactly its range.
proof fn lemma_range_line_parses(s: Seq<char>, pos: int, r: RangeV)
    requires
        0 <= pos,
        pos + render_line(r).len() <= s.len(),
        s.subrange(pos, pos + render_line(r).len()) == render_line(r),
        wf_title(r.title),
    ensures
        range_step(s, pos) == RangeRes::GotRange(r, pos + render_line(r).len()),
{
    let d1 = dec_str(r.from as nat);
    let d2 = dec_str(r.to as nat);
    let t = r.title;
    let line = render_line(r);
    let l1 = d1.len() as int;
    let l2 = d2.len() as int;
    let tl = t.len() as int;
    let ln = line.len() as int;
    lemma_dec_str_digits(r.from as nat);
    lemma_dec_str_digits(r.to as nat);
    lemma_dec_val_of_dec_str(r.from as nat);
    lemma_dec_val_of_dec_str(r.to as nat);
    assert(ln == l1 + 2 + l2 + 4 + tl + 1);
    assert forall|k: int| 0 <= k < ln implies s[pos + k] == line[k] by {
        assert(s.subrange(pos, pos + ln)[k] == s[pos + k]);
    }
    // the line, piece by piece
    assert forall|k: int| 0 <= k < l1 implies s[pos + k] == d1[k] by {
        assert(line[k] == d1[k]);
        assert(s[pos + k] == line[k]);
    }
    assert(line[l1] == '.' && line[l1 + 1] == '.');
    assert(s[pos + l1] == '.' && s[pos + l1 + 1] == '.');
    assert forall|k: int| 0 <= k < l2 implies s[pos + l1 + 2 + k] == d2[k] by {
        assert(line[l1 + 2 + k] == d2[k]);
        assert(s[pos + (l1 + 2 + k)] == line[l1 + 2 + k]);
    }
    let a = pos + l1 + 2 + l2;
    assert(line[l1 + 2 + l2] == ' ' && line[l1 + 2 + l2 + 1] == '='
        && line[l1 + 2 + l2 + 2] == '>' && line[l1 + 2 + l2 + 3] == ' ');
    assert(s[a] == ' ' && s[a + 1] == '=' && s[a + 2] == '>' && s[a + 3] == ' ');
    assert forall|k: int| 0 <= k < tl implies s[a + 4 + k] == t[k] by {
        assert(line[l1 + 2 + l2 + 4 + k] == t[k]);
        assert(s[pos + (l1 + 2 + l2 + 4 + k)] == line[l1 + 2 + l2 + 4 + k]);
    }
    assert(line[ln - 1] == '\n');
    assert(s[pos + (ln - 1)] == '\n');
    // the first number
    assert(is_digit(s[pos + 0])) by {
        assert(s[pos + 0] == d1[0]);
        assert(is_digit(d1[0]));
    }
    proof_digit_plain_at(s, pos);
    assert(skip_ws_ctl_from(s, pos) == pos);
    assert forall|k: int| pos <= k < pos + l1 implies #[trigger] is_digit(s[k]) by {
        assert(s[pos + (k - pos)] == d1[k - pos]);
        assert(is_digit(d1[k - pos]));
    }
    lemma_digits_end_at(s, pos, pos + l1);
    assert(s.subrange(pos, pos + l1) =~= d1);
    assert(digits_step(s, pos) == DigitsRes::GotNum(r.from, pos + l1));
    // the dots and the second number
    assert(at(s, pos + l1) == Option::Some('.'));
    assert(at(s, pos + l1 + 1) == Option::Some('.'));
    assert forall|k: int| pos + l1 + 2 <= k < a implies #[trigger] is_digit(s[k]) by {
        assert(s[pos + l1 + 2 + (k - (pos + l1 + 2))] == d2[k - (pos + l1 + 2)]);
        assert(is_digit(d2[k - (pos + l1 + 2)]));
    }
    lemma_digits_end_at(s, pos + l1 + 2, a);
    assert(s.subrange(pos + l1 + 2, a) =~= d2);
    assert(digits_step(s, pos + l1 + 2) == DigitsRes::GotNum(r.to, a));
    // the arrow
    assert(skip_ws_from(s, a + 1) == a + 1);
    assert(skip_ws_from(s, a) == a + 1);
    if tl == 0 {
        assert(s[a + 4] == '\n');
    } else {
        assert(s[a + 4] == t[0]);
        assert(!is_ws(s[a + 4]));
    }
    assert(skip_ws_from(s, a + 4) == a + 4);
    assert(skip_ws_from(s, a + 3) == a + 4);
    // the title
    lemma_title_eol_exact(s, a + 4, t);
    if tl > 0 {
        assert(!is_ws(t.last()));
    }
    assert(trim_end(t) == t);
    assert(range_step(s, pos) == RangeRes::GotRange(
        RangeV { title: t, from: r.from, to: r.to },
        pos + ln,
    ));
    assert(r == RangeV { title: t, from: r.from, to: r.to });
}

/// The range-line law: a run of well-formed range lines, followed by anything
/// that does not open a further range line, parses to exactly those ranges in
/// source order.
pub proof fn lemma_range_lines_parse(s: Seq<char>, pos: int, rs: Seq<RangeV>)
    requires
        0 <= pos,
        pos + render_lines(rs).len() <= s.len(),
        s.subrange(pos, pos + render_lines(rs).len()) == render_lines(rs),
        forall|i: int| 0 <= i < rs.len() ==> wf_title(#[trigger] rs[i].title),
        pos + render_lines(rs).len() < s.len() ==> {
            let c = s[pos + render_lines(rs).len()];
            !is_digit(c) && !is_ws_or_ctl(c)
        },
    ensures
        ranges_step(s, pos) == RangesRes::GotRanges(rs, pos + render_lines(rs).len()),
    decreases rs.len(),
{
    if rs.len() == 0 {
        if pos < s.len() {
            assert(skip_ws_ctl_from(s, pos) == pos);
        }
        assert(range_step(s, pos) == RangeRes::NoRange(pos));
        assert(rs =~= Seq::<RangeV>::empty());
    } else {
        let r = rs[0];
        let rest = rs.subrange(1, rs.len() as int);
        let line = render_line(r);
        let ln = line.len() as int;
        let whole = render_lines(rs);
        let wl = whole.len() as int;
        assert(whole == line + render_lines(rest));
        assert(wl == ln + render_lines(rest).len());
        assert forall|k: int| 0 <= k < ln implies s.subrange(pos, pos + ln)[k] == line[k] by {
            assert(s.subrange(pos, pos + ln)[k] == s[pos + k]);
            assert(s.subrange(pos, pos + wl)[k] == s[pos + k]);
            assert(whole[k] == line[k]);
        }
        assert(s.subrange(pos, pos + ln) =~= line);
        lemma_range_line_parses(s, pos, r);
        let p2 = pos + ln;
        assert forall|k: int| 0 <= k < wl - ln implies s.subrange(p2, p2 + (wl - ln))[k]
            == render_lines(rest)[k] by {
            assert(s.subrange(p2, p2 + (wl - ln))[k] == s[p2 + k]);
            assert(s.subrange(pos, pos + wl)[ln + k] == s[pos + (ln + k)]);
            assert(whole[ln + k] == render_lines(rest)[k]);
        }
        assert(s.subrange(p2, p2 + (wl - ln)) =~= render_lines(rest));
        assert forall|i: int| 0 <= i < rest.len() implies wf_title(#[trigger] rest[i].title) by {
            assert(rest[i] == rs[i + 1]);
        }
        lemma_range_lines_parse(s, p2, rest);
        assert(seq![r] + rest =~= rs);
    }
}

} // verus!
