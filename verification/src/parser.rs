//! The executable parser. Every method is proved to behave exactly as the
//! corresponding spec function of [`crate::model`] says.

use vstd::prelude::*;
use vstd::string::StrSliceExecFns;
use vstd::string::StringExecFns;

use crate::chars;
use crate::chars::{is_ws_or_ctl, is_digit, dec_val};
use crate::ast::{Range, Span, SumType, SynErr, view_opt_str, view_range, view_ranges, view_span,
    view_spans, RangeV, SpanV, lemma_view_ranges_push, lemma_view_spans_push};
use crate::model::{at, skip_ws_from, skip_ws_ctl_from, digits_end, digits_step, delim_idx,
    title_eol, label_eol, range_step, ranges_step, start_step, end_scan, end_step, block_step,
    blocks_step, opens_from, DigitsRes, RangeRes, RangesRes, StartRes, EndScan, EndRes, BlockRes,
    BlocksRes, lemma_skip_ws_from, lemma_skip_ws_ctl_from, lemma_skip_ws_ctl_stops_before,
    lemma_digits_end, lemma_delim_idx, lemma_opens_mono, lemma_opens_strict, lemma_opens_le_len,
    lemma_title_eol_bounds, lemma_label_eol_bounds, lemma_end_scan_bounds, lemma_digits_step_bounds,
    lemma_range_bounds, lemma_ranges_bounds, lemma_start_bounds, lemma_end_bounds,
    lemma_block_bounds, lemma_blocks_bounds, cons_ranges, cons_blocks};
use crate::text::{string_of_trimmed, itoa};
use crate::diag::{diag, err_msg, err_text, count_nl, line_start, eol_idx, dashes,
    lemma_line_start, lemma_eol_idx};
use crate::laws::{top_spans_tagged, lemma_blocks_tag};

verus! {

/// The parser: the source text held as one character per position, and the
/// cursor that the grammar procedures advance.
pub struct Parser {
    input: Vec<char>,
    cursor: usize,
}

impl Parser {
    /// The source text.
    pub closed spec fn text(&self) -> Seq<char> {
        self.input@
    }

    /// The cursor position.
    pub closed spec fn pos(&self) -> int {
        self.cursor as int
    }

    /// The machine-size margin under which every cursor step in a parse stays
    /// within `usize`.
    pub open spec fn fits(&self) -> bool {
        2 * self.text().len() + 16 <= usize::MAX
    }

    /// Space for the cursor to stand anywhere a parse can put it.
    pub open spec fn inb(&self) -> bool {
        self.fits() && self.pos() <= 2 * self.text().len() + 8
    }

    /// Creates a new parser over a copy of the text, one `char` per position.
    pub fn new(input: &str) -> (p: Parser)
        ensures
            p.text() == input@,
            p.pos() == 0,
    {
        let n = input.unicode_len();
        let mut v: Vec<char> = Vec::new();
        let mut i: usize = 0;
        while i < n
            invariant
                i <= n,
                n == input@.len(),
                v@ == input@.subrange(0, i as int),
            decreases n - i,
        {
            v.push(input.get_char(i));
            proof {
                assert(input@.subrange(0, i + 1 as int) =~= input@.subrange(0, i as int).push(
                    input@[i as int]));
            }
            i = i + 1;
        }
        proof {
            assert(input@.subrange(0, input@.len() as int) =~= input@);
        }
        Parser { input: v, cursor: 0 }
    }

    /// The character under the cursor, which moves one step whether or not a
    /// character was there: past the end the position keeps growing, which is
    /// what places a diagnostic after the last character.
    fn next(&mut self) -> (c: Option<char>)
        requires
            old(self).cursor < usize::MAX,
        ensures
            final(self).text() == old(self).text(),
            c == at(old(self).text(), old(self).pos()),
            final(self).pos() == old(self).pos() + 1,
    {
        let c = if self.cursor < self.input.len() {
            Option::Some(self.input[self.cursor])
        } else {
            Option::None
        };
        self.cursor = self.cursor + 1;
        c
    }

    /// The character `n` ahead of the cursor, 1-based, without moving it.
    fn peek(&self, n: usize) -> (c: Option<char>)
        requires
            n >= 1,
            self.cursor + n <= usize::MAX,
        ensures
            c == at(self.text(), self.pos() + n - 1),
    {
        let idx = self.cursor + (n - 1);
        if idx < self.input.len() {
            Option::Some(self.input[idx])
        } else {
            Option::None
        }
    }

    fn is_space_or_newline(c: char) -> (b: bool)
        ensures
            b == is_ws_or_ctl(c),
    {
        chars::ws(c) || chars::ctl(c)
    }

    /// Advances past consecutive spaces and tabs, never past a line end.
    fn skip_ws(&mut self)
        requires
            old(self).inb(),
        ensures
            final(self).text() == old(self).text(),
            final(self).pos() == skip_ws_from(old(self).text(), old(self).pos()),
            final(self).inb(),
    {
        let ghost s = self.text();
        let ghost p0 = self.pos();
        proof {
            lemma_skip_ws_from(s, p0);
        }
        loop
            invariant
                self.text() == s,
                self.fits(),
                p0 <= self.pos() <= skip_ws_from(s, p0),
                skip_ws_from(s, self.pos()) == skip_ws_from(s, p0),
                skip_ws_from(s, p0) <= 2 * s.len() + 8,
            ensures
                self.text() == s,
                self.pos() == skip_ws_from(s, p0),
            decreases 2 * s.len() + 16 - self.pos(),
        {
            proof {
                lemma_skip_ws_from(s, self.pos());
            }
            let c_opt = self.peek(1);
            match c_opt {
                Option::Some(c) => {
                    if chars::blank(c) {
                        let _ = self.next();
                    } else {
                        break;
                    }
                },
                Option::None => {
                    break;
                },
            }
        }
        proof {
            lemma_skip_ws_from(s, p0);
        }
    }

    /// Advances past consecutive whitespace and control characters.
    fn skip_ws_and_nl(&mut self)
        requires
            old(self).inb(),
        ensures
            final(self).text() == old(self).text(),
            final(self).pos() == skip_ws_ctl_from(old(self).text(), old(self).pos()),
            final(self).inb(),
    {
        let ghost s = self.text();
        let ghost p0 = self.pos();
        proof {
            lemma_skip_ws_ctl_from(s, p0);
        }
        loop
            invariant
                self.text() == s,
                self.fits(),
                p0 <= self.pos() <= skip_ws_ctl_from(s, p0),
                skip_ws_ctl_from(s, self.pos()) == skip_ws_ctl_from(s, p0),
                skip_ws_ctl_from(s, p0) <= 2 * s.len() + 8,
            ensures
                self.text() == s,
                self.pos() == skip_ws_ctl_from(s, p0),
            decreases 2 * s.len() + 16 - self.pos(),
        {
            proof {
                lemma_skip_ws_ctl_from(s, self.pos());
            }
            let c_opt = self.peek(1);
            match c_opt {
                Option::Some(c) => {
                    if Parser::is_space_or_newline(c) {
                        let _ = self.next();
                    } else {
                        break;
                    }
                },
                Option::None => {
                    break;
                },
            }
        }
        proof {
            lemma_skip_ws_ctl_from(s, p0);
        }
    }
    /// Reads one maximal digit run as a number, if a digit stands at the
    /// cursor. A run whose value does not fit `u32` is consumed whole and
    /// rejected, leaving the cursor on the character after the run.
    fn check_range_part(&mut self) -> (r: Result<Option<u32>, SynErr>)
        requires
            old(self).inb(),
        ensures
            final(self).text() == old(self).text(),
            final(self).inb(),
            match digits_step(old(self).text(), old(self).pos()) {
                DigitsRes::NoDigits => r == Result::<Option<u32>, SynErr>::Ok(Option::None)
                    && final(self).pos() == old(self).pos(),
                DigitsRes::GotNum(v, e) => r == Result::<Option<u32>, SynErr>::Ok(
                    Option::Some(v),
                ) && final(self).pos() == e,
                DigitsRes::NumTooBig(e) => r == Result::<Option<u32>, SynErr>::Err(
                    SynErr::NumberOverflow,
                ) && final(self).pos() == e,
            },
    {
        let ghost s = self.text();
        let ghost p0 = self.pos();
        let first = self.peek(1);
        match first {
            Option::None => {
                return Result::Ok(Option::None);
            },
            Option::Some(c0) => {
                if !chars::digit(c0) {
                    return Result::Ok(Option::None);
                }
            },
        }
        proof {
            lemma_digits_end(s, p0);
        }
        let ghost e = digits_end(s, p0);
        let mut val: u64 = 0;
        let mut big = false;
        loop
            invariant
                self.text() == s,
                self.fits(),
                0 <= p0 <= self.pos() <= e <= s.len(),
                digits_end(s, self.pos()) == e,
                forall|k: int| p0 <= k < e ==> is_digit(s[k]),
                big <==> dec_val(s.subrange(p0, self.pos())) > u32::MAX,
                !big ==> val == dec_val(s.subrange(p0, self.pos())),
            ensures
                self.text() == s,
                self.pos() == e,
                big <==> dec_val(s.subrange(p0, e)) > u32::MAX,
                !big ==> val == dec_val(s.subrange(p0, e)),
            decreases s.len() - self.pos(),
        {
            proof {
                lemma_digits_end(s, self.pos());
            }
            let nx = self.peek(1);
            let d: u64 = match nx {
                Option::None => {
                    break;
                },
                Option::Some(c) => {
                    if chars::digit(c) {
                        (c as u32 - 48) as u64
                    } else {
                        break;
                    }
                },
            };
            let ghost pr = self.pos();
            let _ = self.next();
            proof {
                assert(s.subrange(p0, pr + 1).drop_last() =~= s.subrange(p0, pr));
                assert(s.subrange(p0, pr + 1).last() == s[pr]);
            }
            if !big {
                val = val * 10 + d;
                if val > 0xffff_ffff {
                    big = true;
                }
            } else {
                proof {
                    let prev = dec_val(s.subrange(p0, pr));
                    assert(dec_val(s.subrange(p0, pr + 1)) == prev * 10 + (s[pr] as u32 - '0'
                        as u32));
                    assert(prev * 10 >= prev);
                }
            }
        }
        if big {
            Result::Err(SynErr::NumberOverflow)
        } else {
            Result::Ok(Option::Some(val as u32))
        }
    }
    /// Reads one range line: `from..to => title`, with its leading whitespace.
    /// Answers `Ok(None)` where no digit begins a range, the first grammar
    /// violation otherwise.
    fn range(&mut self) -> (r: Result<Option<Range>, SynErr>)
        requires
            old(self).inb(),
        ensures
            final(self).text() == old(self).text(),
            final(self).inb(),
            match range_step(old(self).text(), old(self).pos()) {
                RangeRes::NoRange(p) => r == Result::<Option<Range>, SynErr>::Ok(Option::None)
                    && final(self).pos() == p,
                RangeRes::GotRange(rv, p) => (match r {
                    Result::Ok(Option::Some(rg)) => view_range(rg) == rv,
                    _ => false,
                }) && final(self).pos() == p,
                RangeRes::RangeFail(e, p) => r == Result::<Option<Range>, SynErr>::Err(e)
                    && final(self).pos() == p,
            },
    {
        let ghost s = self.text();
        let ghost pz = self.pos();
        proof {
            lemma_skip_ws_ctl_from(s, pz);
        }
        self.skip_ws_and_nl();
        let ghost p0 = self.pos();
        proof {
            lemma_digits_step_bounds(s, p0);
        }
        let from_v = match self.check_range_part() {
            Result::Err(e) => {
                return Result::Err(e);
            },
            Result::Ok(Option::None) => {
                return Result::Ok(Option::None);
            },
            Result::Ok(Option::Some(v)) => v,
        };
        let ghost e1 = self.pos();
        let c1 = self.next();
        let ok1 = match c1 {
            Option::Some(ch) => ch == '.',
            Option::None => false,
        };
        if !ok1 {
            self.cursor = self.cursor - 1;
            return Result::Err(SynErr::InvalidRangeSyntax);
        }
        let c2 = self.next();
        let ok2 = match c2 {
            Option::Some(ch) => ch == '.',
            Option::None => false,
        };
        if !ok2 {
            self.cursor = self.cursor - 1;
            return Result::Err(SynErr::InvalidRangeSyntax);
        }
        proof {
            lemma_digits_step_bounds(s, self.pos());
        }
        let to_v = match self.check_range_part() {
            Result::Err(e) => {
                return Result::Err(e);
            },
            Result::Ok(Option::None) => {
                return Result::Err(SynErr::InvalidRange);
            },
            Result::Ok(Option::Some(v)) => v,
        };
        let ghost e2 = self.pos();
        proof {
            lemma_skip_ws_from(s, e2);
        }
        self.skip_ws();
        let ghost p3 = self.pos();
        let a = self.next();
        match a {
            Option::None => {},
            Option::Some(ca) => {
                if ca == '=' {
                    match self.peek(1) {
                        Option::Some(g) => {
                            if g == '>' {
                                let _ = self.next();
                            } else {
                                return Result::Err(SynErr::UnexpectedSyntaxAfterArrow);
                            }
                        },
                        Option::None => {
                            return Result::Err(SynErr::UnexpectedEof);
                        },
                    }
                } else {
                    return Result::Err(SynErr::UnexpectedSyntax);
                }
            },
        }
        proof {
            lemma_skip_ws_from(s, self.pos());
        }
        self.skip_ws();
        let ghost p4 = self.pos();
        proof {
            lemma_title_eol_bounds(s, p4);
        }
        let mut buf: Vec<char> = Vec::new();
        loop
            invariant_except_break
                self.pos() <= s.len() + 3,
                title_eol(s, p4).0 == buf@ + title_eol(s, self.pos()).0,
                title_eol(s, p4).1 == title_eol(s, self.pos()).1,
            invariant
                self.text() == s,
                self.fits(),
                0 <= p4 <= self.pos(),
            ensures
                self.text() == s,
                buf@ == title_eol(s, p4).0,
                self.pos() == title_eol(s, p4).1,
            decreases 2 * s.len() + 16 - self.pos(),
        {
            let ghost pc = self.pos();
            proof {
                lemma_title_eol_bounds(s, pc);
            }
            let c = self.next();
            match c {
                Option::None => {
                    proof {
                        assert(buf@ + title_eol(s, pc).0 =~= buf@);
                    }
                    break;
                },
                Option::Some(ch) => {
                    if ch == '\n' {
                        proof {
                            assert(buf@ + title_eol(s, pc).0 =~= buf@);
                        }
                        break;
                    } else if ch == '\r' {
                        match self.peek(1) {
                            Option::Some(g) => {
                                if g == '\n' {
                                    let _ = self.next();
                                    proof {
                                        assert(buf@ + title_eol(s, pc).0 =~= buf@);
                                    }
                                    break;
                                } else {
                                    let ghost bo = buf@;
                                    let g2 = self.next();
                                    match g2 {
                                        Option::Some(ch2) => {
                                            buf.push(ch2);
                                            proof {
                                                assert(title_eol(s, pc).0 == seq![ch2]
                                                    + title_eol(s, pc + 2).0);
                                                assert(bo + title_eol(s, pc).0 =~= buf@
                                                    + title_eol(s, pc + 2).0);
                                            }
                                        },
                                        Option::None => {
                                            proof {
                                                assert(false);
                                            }
                                        },
                                    }
                                }
                            },
                            Option::None => {},
                        }
                    } else {
                        let ghost bo = buf@;
                        buf.push(ch);
                        proof {
                            assert(title_eol(s, pc).0 == seq![ch] + title_eol(s, pc + 1).0);
                            assert(bo + title_eol(s, pc).0 =~= buf@ + title_eol(s, pc + 1).0);
                        }
                    }
                },
            }
        }
        let title = string_of_trimmed(&buf);
        Result::Ok(Option::Some(Range { title, from: from_v, to: to_v }))
    }
    /// Scans ahead for a block header. Only a `(` before any `)` or `=`
    /// commits to a block; then the text before it becomes the title and the
    /// cursor moves past the `(`. Otherwise the cursor stays put.
    fn block_start(&mut self) -> (r: Result<Option<Option<String>>, SynErr>)
        requires
            old(self).inb(),
        ensures
            final(self).text() == old(self).text(),
            final(self).inb(),
            match start_step(old(self).text(), old(self).pos()) {
                StartRes::NoBlock => r == Result::<Option<Option<String>>, SynErr>::Ok(
                    Option::None,
                ) && final(self).pos() == old(self).pos(),
                StartRes::Header(nm, p1) => (match r {
                    Result::Ok(Option::Some(o)) => view_opt_str(o) == nm,
                    _ => false,
                }) && final(self).pos() == p1,
            },
    {
        let ghost s = self.text();
        let ghost pz = self.pos();
        proof {
            lemma_delim_idx(s, pz);
        }
        let mut la: usize = 1;
        let mut found = false;
        loop
            invariant_except_break
                !found,
            invariant
                self.text() == s,
                self.fits(),
                self.pos() == pz,
                0 <= pz <= 2 * s.len() + 8,
                la >= 1,
                pz + la <= if pz <= s.len() {
                    s.len() as int + 1
                } else {
                    pz + 1
                },
                delim_idx(s, pz + la - 1) == delim_idx(s, pz),
            ensures
                self.text() == s,
                self.pos() == pz,
                found ==> (delim_idx(s, pz) == Option::Some(pz + la - 1) && at(s, pz + la - 1)
                    == Option::Some('(')),
                !found ==> start_step(s, pz) == StartRes::NoBlock,
            decreases 2 * s.len() + 16 - (pz + la),
        {
            let c = self.peek(la);
            match c {
                Option::None => {
                    proof {
                        assert(delim_idx(s, pz + la - 1) == Option::<int>::None);
                        assert(start_step(s, pz) == StartRes::NoBlock);
                    }
                    break;
                },
                Option::Some(ch) => {
                    if ch == '(' {
                        found = true;
                        proof {
                            assert(delim_idx(s, pz + la - 1) == Option::Some(pz + la - 1));
                        }
                        break;
                    } else if ch == ')' || ch == '=' {
                        proof {
                            assert(delim_idx(s, pz + la - 1) == Option::Some(pz + la - 1));
                            assert(start_step(s, pz) == StartRes::NoBlock);
                        }
                        break;
                    } else {
                        la = la + 1;
                    }
                },
            }
        }
        if !found {
            return Result::Ok(Option::None);
        }
        let ghost i = pz + la - 1;
        proof {
            lemma_delim_idx(s, pz);
            assert(!is_ws_or_ctl('('));
            lemma_skip_ws_ctl_stops_before(s, pz, i);
            lemma_skip_ws_ctl_from(s, pz);
        }
        self.skip_ws_and_nl();
        let ghost p0 = self.pos();
        let mut buf: Vec<char> = Vec::new();
        loop
            invariant_except_break
                self.pos() <= i,
                buf@ == s.subrange(p0, self.pos()),
            invariant
                self.text() == s,
                self.fits(),
                0 <= pz <= p0 <= self.pos(),
                p0 <= i < s.len(),
                s[i] == '(',
                forall|k: int| pz <= k < i ==> !(s[k] == '(' || s[k] == ')' || s[k] == '='),
            ensures
                self.text() == s,
                self.pos() == i + 1,
                buf@ == s.subrange(p0, i),
            decreases i - self.pos(),
        {
            let ghost pc = self.pos();
            let c = self.next();
            match c {
                Option::Some(ch) => {
                    if ch == '(' {
                        proof {
                            assert(pc == i);
                        }
                        break;
                    }
                    buf.push(ch);
                    proof {
                        assert(s.subrange(p0, pc + 1) =~= s.subrange(p0, pc).push(s[pc]));
                    }
                },
                Option::None => {
                    proof {
                        assert(false);
                    }
                },
            }
        }
        if buf.len() == 0 {
            Result::Ok(Option::Some(Option::None))
        } else {
            let nm = string_of_trimmed(&buf);
            Result::Ok(Option::Some(Option::Some(nm)))
        }
    }

    /// Reads a block terminator `) => label`. A malformed `=>` after the `)`
    /// is the error; any other unexpected character gives the terminator up
    /// silently, leaving the block without a label — a deliberate fallback.
    /// The label is the rest of the `=>`'s own line, leading spaces skipped
    /// and trailing whitespace trimmed; an empty label is absent rather than
    /// empty text, and a label never comes from a later line.
    fn block_end(&mut self) -> (r: Result<Option<String>, SynErr>)
        requires
            old(self).inb(),
        ensures
            final(self).text() == old(self).text(),
            match end_step(old(self).text(), old(self).pos()) {
                EndRes::Ended(lbl, p) => (match r {
                    Result::Ok(o) => view_opt_str(o) == lbl,
                    _ => false,
                }) && final(self).pos() == p,
                EndRes::EndFail(e, p) => r == Result::<Option<String>, SynErr>::Err(e)
                    && final(self).pos() == p,
            },
    {
        let ghost s = self.text();
        let ghost pz = self.pos();
        proof {
            lemma_skip_ws_ctl_from(s, pz);
        }
        self.skip_ws_and_nl();
        let ghost p0 = self.pos();
        proof {
            lemma_end_scan_bounds(s, p0, false);
        }
        let mut inp = false;
        loop
            invariant_except_break
                end_scan(s, p0, false) == end_scan(s, self.pos(), inp),
                self.pos() <= 2 * s.len() + 14,
            invariant
                self.text() == s,
                s == old(self).text(),
                pz == old(self).pos(),
                self.fits(),
                0 <= pz,
                p0 == skip_ws_ctl_from(s, pz),
                0 <= p0 <= self.pos(),
                p0 <= 2 * s.len() + 8,
            ensures
                self.text() == s,
                match end_scan(s, p0, false) {
                    EndScan::LabelAt(p) => self.pos() == p,
                    _ => false,
                },
            decreases 2 * s.len() + 16 - self.pos(),
        {
            let ghost pc = self.pos();
            let c = self.next();
            match c {
                Option::None => {
                    return Result::Ok(Option::None);
                },
                Option::Some(ch) => {
                    if !inp {
                        if ch == ')' {
                            inp = true;
                        } else {
                            return Result::Ok(Option::None);
                        }
                    } else {
                        if ch == ' ' {
                        } else if ch == '=' {
                            match self.peek(1) {
                                Option::Some(g) => {
                                    if g == '>' {
                                        let _ = self.next();
                                        break;
                                    } else {
                                        return Result::Err(SynErr::ExpectedCloseArrow);
                                    }
                                },
                                Option::None => {
                                    return Result::Err(SynErr::ExpectedArrowAfterParen);
                                },
                            }
                        } else {
                            return Result::Ok(Option::None);
                        }
                    }
                },
            }
        }
        proof {
            lemma_skip_ws_from(s, self.pos());
        }
        self.skip_ws();
        let ghost p1 = self.pos();
        proof {
            lemma_label_eol_bounds(s, p1);
        }
        let mut buf: Vec<char> = Vec::new();
        loop
            invariant_except_break
                self.pos() <= s.len() + 3,
                label_eol(s, p1).0 == buf@ + label_eol(s, self.pos()).0,
                label_eol(s, p1).1 == label_eol(s, self.pos()).1,
            invariant
                self.text() == s,
                self.fits(),
                0 <= p1 <= self.pos(),
            ensures
                self.text() == s,
                buf@ == label_eol(s, p1).0,
                self.pos() == label_eol(s, p1).1,
            decreases 2 * s.len() + 16 - self.pos(),
        {
            let ghost pc = self.pos();
            let c = self.next();
            match c {
                Option::None => {
                    proof {
                        assert(buf@ + label_eol(s, pc).0 =~= buf@);
                    }
                    break;
                },
                Option::Some(ch) => {
                    if ch == '\n' {
                        proof {
                            assert(buf@ + label_eol(s, pc).0 =~= buf@);
                        }
                        break;
                    } else if ch == '\r' {
                        let keep = match self.peek(1) {
                            Option::Some(g) => g != '\n',
                            Option::None => true,
                        };
                        if !keep {
                            let _ = self.next();
                            proof {
                                assert(buf@ + label_eol(s, pc).0 =~= buf@);
                            }
                            break;
                        } else {
                            let ghost bo = buf@;
                            buf.push(ch);
                            proof {
                                assert(label_eol(s, pc).0 == seq![ch] + label_eol(s, pc + 1).0);
                                assert(bo + label_eol(s, pc).0 =~= buf@ + label_eol(s, pc + 1).0);
                            }
                        }
                    } else {
                        let ghost bo = buf@;
                        buf.push(ch);
                        proof {
                            assert(label_eol(s, pc).0 == seq![ch] + label_eol(s, pc + 1).0);
                            assert(bo + label_eol(s, pc).0 =~= buf@ + label_eol(s, pc + 1).0);
                        }
                    }
                },
            }
        }
        let lbl = string_of_trimmed(&buf);
        if lbl.as_str().unicode_len() == 0 {
            Result::Ok(Option::None)
        } else {
            Result::Ok(Option::Some(lbl))
        }
    }
    /// Reads one whole block: header, range lines, nested blocks, terminator.
    /// `sub` tells whether the block lies inside another one and decides its
    /// summary tag. Answers `Ok(None)` where no block starts.
    fn block(&mut self, sub: bool) -> (r: Result<Option<Span>, SynErr>)
        requires
            old(self).inb(),
        ensures
            final(self).text() == old(self).text(),
            final(self).inb(),
            match block_step(old(self).text(), old(self).pos(), sub) {
                BlockRes::NoSpan => r == Result::<Option<Span>, SynErr>::Ok(Option::None)
                    && final(self).pos() == old(self).pos(),
                BlockRes::GotSpan(spv, p) => (match r {
                    Result::Ok(Option::Some(sp)) => view_span(sp) == spv,
                    _ => false,
                }) && final(self).pos() == p,
                BlockRes::BlockFail(e, p) => r == Result::<Option<Span>, SynErr>::Err(e)
                    && final(self).pos() == p,
            },
        decreases opens_from(old(self).text(), old(self).pos()),
    {
        let ghost s = self.text();
        let ghost pz = self.pos();
        proof {
            lemma_start_bounds(s, pz);
            lemma_opens_le_len(s, pz);
        }
        let start_o = match self.block_start() {
            Result::Ok(o) => o,
            Result::Err(e) => {
                return Result::Err(e);
            },
        };
        let name = match start_o {
            Option::None => {
                return Result::Ok(Option::None);
            },
            Option::Some(nm) => nm,
        };
        let ghost p1 = self.pos();
        proof {
            lemma_ranges_bounds(s, p1);
        }
        let mut ranges: Vec<Range> = Vec::new();
        loop
            invariant_except_break
                ranges_step(s, p1) == cons_ranges(
                    view_ranges(ranges@),
                    ranges_step(s, self.pos()),
                ),
            invariant
                self.text() == s,
                s == old(self).text(),
                pz == old(self).pos(),
                self.fits(),
                0 <= p1 <= self.pos(),
                self.pos() <= s.len() + 2,
                p1 <= s.len(),
                start_step(s, pz) == StartRes::Header(view_opt_str(name), p1),
            ensures
                self.text() == s,
                ranges_step(s, p1) == RangesRes::GotRanges(view_ranges(ranges@), self.pos()),
                self.pos() <= s.len() + 2,
            decreases 2 * s.len() + 16 - self.pos(),
        {
            let ghost pc = self.pos();
            proof {
                lemma_range_bounds(s, pc);
            }
            let rr = match self.range() {
                Result::Ok(o) => o,
                Result::Err(e) => {
                    return Result::Err(e);
                },
            };
            match rr {
                Option::None => {
                    proof {
                        assert(view_ranges(ranges@) + Seq::<RangeV>::empty() =~= view_ranges(
                            ranges@));
                    }
                    break;
                },
                Option::Some(rg) => {
                    let ghost ro = ranges@;
                    ranges.push(rg);
                    proof {
                        lemma_view_ranges_push(ro, rg);
                        match range_step(s, pc) {
                            RangeRes::GotRange(rv, p) => {
                                assert(ranges_step(s, pc) == cons_ranges(
                                    seq![rv],
                                    ranges_step(s, p),
                                ));
                                assert forall|x: RangesRes|
                                    cons_ranges(view_ranges(ro), cons_ranges(seq![rv], x))
                                        == cons_ranges(view_ranges(ranges@), x) by {
                                    match x {
                                        RangesRes::GotRanges(rs, q) => {
                                            assert(view_ranges(ro) + (seq![rv] + rs)
                                                =~= view_ranges(ro).push(rv) + rs);
                                        },
                                        RangesRes::RangesFail(e, q) => {},
                                    }
                                }
                            },
                            _ => {
                                assert(false);
                            },
                        }
                    }
                },
            }
        }
        let ghost p2 = self.pos();
        proof {
            lemma_ranges_bounds(s, p1);
            lemma_opens_strict(s, pz, p1 - 1, p2);
            lemma_blocks_bounds(s, p2, true);
            lemma_opens_le_len(s, 0);
            lemma_opens_mono(s, 0, p2);
        }
        let mut subspans: Vec<Span> = Vec::new();
        loop
            invariant_except_break
                blocks_step(s, p2, true) == cons_blocks(
                    view_spans(subspans@),
                    blocks_step(s, self.pos(), true),
                ),
            invariant
                self.text() == s,
                s == old(self).text(),
                pz == old(self).pos(),
                self.fits(),
                0 <= p1 <= s.len(),
                0 <= p2 <= self.pos(),
                self.pos() <= 2 * s.len() + 8,
                opens_from(s, self.pos()) < opens_from(s, pz),
                opens_from(s, p2) < opens_from(s, pz),
                start_step(s, pz) == StartRes::Header(view_opt_str(name), p1),
                ranges_step(s, p1) == RangesRes::GotRanges(view_ranges(ranges@), p2),
            ensures
                self.text() == s,
                blocks_step(s, p2, true) == BlocksRes::GotSpans(view_spans(subspans@), self.pos()),
                self.pos() <= 2 * s.len() + 8,
                opens_from(s, self.pos()) < opens_from(s, pz),
            decreases opens_from(s, self.pos()),
        {
            let ghost pc = self.pos();
            proof {
                lemma_block_bounds(s, pc, true);
                lemma_opens_le_len(s, 0);
                lemma_opens_mono(s, 0, pc);
            }
            let br = match self.block(true) {
                Result::Ok(o) => o,
                Result::Err(e) => {
                    return Result::Err(e);
                },
            };
            match br {
                Option::None => {
                    proof {
                        assert(view_spans(subspans@) + Seq::<SpanV>::empty() =~= view_spans(
                            subspans@));
                    }
                    break;
                },
                Option::Some(sp) => {
                    let ghost so = subspans@;
                    subspans.push(sp);
                    proof {
                        lemma_view_spans_push(so, sp);
                        match block_step(s, pc, true) {
                            BlockRes::GotSpan(spv, p) => {
                                assert(blocks_step(s, pc, true) == cons_blocks(
                                    seq![spv],
                                    blocks_step(s, p, true),
                                ));
                                assert forall|x: BlocksRes|
                                    cons_blocks(view_spans(so), cons_blocks(seq![spv], x))
                                        == cons_blocks(view_spans(subspans@), x) by {
                                    match x {
                                        BlocksRes::GotSpans(ss, q) => {
                                            assert(view_spans(so) + (seq![spv] + ss)
                                                =~= view_spans(so).push(spv) + ss);
                                        },
                                        BlocksRes::BlocksFail(e, q) => {},
                                    }
                                }
                            },
                            _ => {
                                assert(false);
                            },
                        }
                    }
                },
            }
        }
        let ghost p3 = self.pos();
        proof {
            lemma_end_bounds(s, p3);
        }
        let sum_name = match self.block_end() {
            Result::Ok(o) => o,
            Result::Err(e) => {
                return Result::Err(e);
            },
        };
        let sum_type = if sub {
            SumType::SubTotal(sum_name)
        } else {
            SumType::SumTotal(sum_name)
        };
        let span = Span { name, ranges, subspans, sum_type };
        Result::Ok(Option::Some(span))
    }
    /// Renders the diagnostic for the current cursor offset: one-based line
    /// and column, the source line, a dash-and-caret indicator, and the
    /// message. The line and column name exactly the character at the offset;
    /// an offset at or past the end of the input is tolerated, the indicator
    /// then carrying dashes and no caret.
    fn report_err(&self, msg: &str) -> (m: String)
        requires
            self.fits(),
        ensures
            m@ == diag(self.text(), self.pos(), msg@),
    {
        let ghost s = self.text();
        let ghost c = self.pos();
        let end = if self.cursor < self.input.len() {
            self.cursor
        } else {
            self.input.len()
        };
        let ghost t = s.subrange(0, end as int);
        let mut line: usize = 0;
        let mut col: usize = 0;
        let mut ls: usize = 0;
        let mut i: usize = 0;
        proof {
            assert(s.subrange(0, 0) =~= Seq::<char>::empty());
        }
        while i < end
            invariant
                self.fits(),
                self.text() == s,
                self.pos() == c,
                end == if c <= s.len() { c } else { s.len() as int },
                i <= end <= s.len(),
                line == count_nl(s.subrange(0, i as int)),
                ls == line_start(s.subrange(0, i as int)),
                ls <= i,
                line <= i,
                col == i - ls,
            decreases end - i,
        {
            let ch = self.input[i];
            proof {
                assert(s.subrange(0, i + 1 as int).drop_last() =~= s.subrange(0, i as int));
                assert(s.subrange(0, i + 1 as int).last() == s[i as int]);
            }
            if ch == '\n' {
                line = line + 1;
                col = 0;
                ls = i + 1;
            } else {
                col = col + 1;
            }
            i = i + 1;
        }
        proof {
            lemma_line_start(t);
            lemma_eol_idx(s, ls as int);
        }
        let mut text_s = String::new();
        let mut j: usize = ls;
        loop
            invariant_except_break
                self.fits(),
                self.text() == s,
                ls <= j <= s.len(),
                ls <= s.len(),
                text_s@ == s.subrange(ls as int, j as int),
                eol_idx(s, j as int) == eol_idx(s, ls as int),
            ensures
                self.text() == s,
                j == eol_idx(s, ls as int),
                text_s@ == s.subrange(ls as int, j as int),
            decreases s.len() - j,
        {
            if j < self.input.len() {
                let ch = self.input[j];
                if ch == '\n' {
                    break;
                }
                text_s.push(ch);
                proof {
                    assert(s.subrange(ls as int, j + 1 as int) =~= s.subrange(
                        ls as int,
                        j as int,
                    ).push(s[j as int]));
                }
                j = j + 1;
            } else {
                break;
            }
        }
        let mut ind = String::new();
        let mut k: usize = ls;
        proof {
            assert(ind@ =~= dashes(0));
        }
        while k < j && k < self.cursor
            invariant
                self.fits(),
                self.text() == s,
                ls <= k <= j <= s.len(),
                c == self.pos(),
                k <= c,
                ind@ == dashes(k - ls),
            decreases j - k,
        {
            ind.push('-');
            proof {
                assert(dashes(k - ls).push('-') =~= dashes(k + 1 - ls));
            }
            k = k + 1;
        }
        if k < j {
            ind.push('^');
        }
        proof {
            assert(line <= s.len());
            assert(col <= s.len());
        }
        let lnum = itoa((line as u64) + 1);
        let cnum = itoa((col as u64) + 1);
        let mut m = String::new();
        m.append("\nline: ");
        m.append(lnum.as_str());
        m.append(", pos: ");
        m.append(cnum.as_str());
        m.append("\n");
        m.append(text_s.as_str());
        m.append("\n");
        m.append(ind.as_str());
        m.append("\n\nERROR: ");
        m.append(msg);
        m.append("\n");
        proof {
            assert(m@ =~= diag(s, c, msg@));
        }
        m
    }

    /// Parses the whole text: the top-level blocks in source order, or the
    /// rendered diagnostic of the first grammar violation. Every top-level
    /// span carries a `SumTotal` tag; every nested one a `SubTotal` tag.
    pub fn parse(&mut self) -> (r: Result<Vec<Span>, String>)
        requires
            old(self).fits(),
            0 <= old(self).pos() <= old(self).text().len(),
        ensures
            final(self).text() == old(self).text(),
            match blocks_step(old(self).text(), old(self).pos(), false) {
                BlocksRes::GotSpans(ss, p) => (match r {
                    Result::Ok(spans) => view_spans(spans@) == ss,
                    _ => false,
                }) && final(self).pos() == p,
                BlocksRes::BlocksFail(e, ep) => (match r {
                    Result::Err(msg) => msg@ == diag(old(self).text(), ep, err_msg(e)),
                    _ => false,
                }) && final(self).pos() == ep,
            },
            match r {
                Result::Ok(spans) => top_spans_tagged(view_spans(spans@)),
                Result::Err(msg) => true,
            },
    {
        let ghost s = self.text();
        let ghost pz = self.pos();
        proof {
            lemma_blocks_bounds(s, pz, false);
        }
        let mut spans: Vec<Span> = Vec::new();
        loop
            invariant_except_break
                blocks_step(s, pz, false) == cons_blocks(
                    view_spans(spans@),
                    blocks_step(s, self.pos(), false),
                ),
            invariant
                self.text() == s,
                s == old(self).text(),
                pz == old(self).pos(),
                self.fits(),
                0 <= pz <= self.pos(),
                self.pos() <= 2 * s.len() + 8,
            ensures
                self.text() == s,
                blocks_step(s, pz, false) == BlocksRes::GotSpans(view_spans(spans@), self.pos()),
            decreases opens_from(s, self.pos()),
        {
            let ghost pc = self.pos();
            proof {
                lemma_block_bounds(s, pc, false);
                lemma_opens_le_len(s, 0);
                lemma_opens_mono(s, 0, pc);
            }
            let br = match self.block(false) {
                Result::Ok(o) => o,
                Result::Err(e) => {
                    proof {
                        lemma_blocks_bounds(s, pc, false);
                    }
                    let msg_text = err_text(e);
                    let m = self.report_err(msg_text);
                    return Result::Err(m);
                },
            };
            match br {
                Option::None => {
                    proof {
                        assert(view_spans(spans@) + Seq::<SpanV>::empty() =~= view_spans(spans@));
                    }
                    break;
                },
                Option::Some(sp) => {
                    let ghost so = spans@;
                    spans.push(sp);
                    proof {
                        lemma_view_spans_push(so, sp);
                        match block_step(s, pc, false) {
                            BlockRes::GotSpan(spv, p) => {
                                assert(blocks_step(s, pc, false) == cons_blocks(
                                    seq![spv],
                                    blocks_step(s, p, false),
                                ));
                                assert forall|x: BlocksRes|
                                    cons_blocks(view_spans(so), cons_blocks(seq![spv], x))
                                        == cons_blocks(view_spans(spans@), x) by {
                                    match x {
                                        BlocksRes::GotSpans(ss, q) => {
                                            assert(view_spans(so) + (seq![spv] + ss)
                                                =~= view_spans(so).push(spv) + ss);
                                        },
                                        BlocksRes::BlocksFail(e, q) => {},
                                    }
                                }
                            },
                            _ => {
                                assert(false);
                            },
                        }
                    }
                },
            }
        }
        proof {
            lemma_blocks_tag(s, pz, false);
        }
        Result::Ok(spans)
    }
}

} // verus!
