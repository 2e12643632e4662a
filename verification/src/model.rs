//! The mathematical model of the parse: one spec function per grammar
//! procedure, each mapping the input sequence and a cursor position to the
//! construct read and the position after it. The executable parser in
//! [`crate::parser`] is proved to return exactly what these functions say.
//!
//! Positions are `int`s. The cursor walks one past the end of the input when a
//! read at the end fails, so positions slightly beyond `s.len()` are ordinary
//! values here, and `at` answers `None` for them.

use vstd::prelude::*;

use crate::chars::{is_blank, is_ws_or_ctl, is_digit, dec_val, trim_end};
use crate::ast::{SynErr, RangeV, SpanV, SumV};

verus! {

/// The character at position `i`, or `None` outside the input.
pub open spec fn at(s: Seq<char>, i: int) -> Option<char> {
    if 0 <= i < s.len() {
        Option::Some(s[i])
    } else {
        Option::None
    }
}

/// First position at or after `pos` whose character is neither a space nor a
/// tab: the in-line skip never crosses a line end.
pub open spec fn skip_ws_from(s: Seq<char>, pos: int) -> int
    decreases s.len() - pos,
{
    if 0 <= pos < s.len() && is_blank(s[pos]) {
        skip_ws_from(s, pos + 1)
    } else {
        pos
    }
}

/// First position at or after `pos` whose character is neither whitespace nor
/// a control character.
pub open spec fn skip_ws_ctl_from(s: Seq<char>, pos: int) -> int
    decreases s.len() - pos,
{
    if 0 <= pos < s.len() && is_ws_or_ctl(s[pos]) {
        skip_ws_ctl_from(s, pos + 1)
    } else {
        pos
    }
}

/// First position at or after `pos` whose character is not an ASCII digit.
pub open spec fn digits_end(s: Seq<char>, pos: int) -> int
    decreases s.len() - pos,
{
    if 0 <= pos < s.len() && is_digit(s[pos]) {
        digits_end(s, pos + 1)
    } else {
        pos
    }
}

/// Position of the first `(`, `)` or `=` at or after `pos`, if any: the
/// characters that decide whether free text before them is a block title.
pub open spec fn delim_idx(s: Seq<char>, pos: int) -> Option<int>
    decreases s.len() - pos,
{
    if !(0 <= pos < s.len()) {
        Option::None
    } else if s[pos] == '(' || s[pos] == ')' || s[pos] == '=' {
        Option::Some(pos)
    } else {
        delim_idx(s, pos + 1)
    }
}

pub proof fn lemma_skip_ws_from(s: Seq<char>, pos: int)
    requires
        0 <= pos,
    ensures
        pos <= skip_ws_from(s, pos),
        pos <= s.len() ==> skip_ws_from(s, pos) <= s.len(),
        pos > s.len() ==> skip_ws_from(s, pos) == pos,
        forall|k: int| pos <= k < skip_ws_from(s, pos) ==> is_blank(s[k]),
        skip_ws_from(s, pos) < s.len() ==> !is_blank(s[skip_ws_from(s, pos)]),
    decreases s.len() - pos,
{
    if 0 <= pos < s.len() && is_blank(s[pos]) {
        lemma_skip_ws_from(s, pos + 1);
    }
}

pub proof fn lemma_skip_ws_ctl_from(s: Seq<char>, pos: int)
    requires
        0 <= pos,
    ensures
        pos <= skip_ws_ctl_from(s, pos),
        pos <= s.len() ==> skip_ws_ctl_from(s, pos) <= s.len(),
        pos > s.len() ==> skip_ws_ctl_from(s, pos) == pos,
        forall|k: int| pos <= k < skip_ws_ctl_from(s, pos) ==> is_ws_or_ctl(s[k]),
        skip_ws_ctl_from(s, pos) < s.len() ==> !is_ws_or_ctl(s[skip_ws_ctl_from(s, pos)]),
    decreases s.len() - pos,
{
    if 0 <= pos < s.len() && is_ws_or_ctl(s[pos]) {
        lemma_skip_ws_ctl_from(s, pos + 1);
    }
}

/// The skip stops at or before any non-skippable character ahead of it.
pub proof fn lemma_skip_ws_ctl_stops_before(s: Seq<char>, pos: int, i: int)
    requires
        0 <= pos <= i < s.len(),
        !is_ws_or_ctl(s[i]),
    ensures
        skip_ws_ctl_from(s, pos) <= i,
    decreases s.len() - pos,
{
    if 0 <= pos < s.len() && is_ws_or_ctl(s[pos]) {
        lemma_skip_ws_ctl_stops_before(s, pos + 1, i);
    }
}

pub proof fn lemma_digits_end(s: Seq<char>, pos: int)
    requires
        0 <= pos,
    ensures
        pos <= digits_end(s, pos),
        pos <= s.len() ==> digits_end(s, pos) <= s.len(),
        pos > s.len() ==> digits_end(s, pos) == pos,
        forall|k: int| pos <= k < digits_end(s, pos) ==> is_digit(s[k]),
        digits_end(s, pos) < s.len() ==> !is_digit(s[digits_end(s, pos)]),
    decreases s.len() - pos,
{
    if 0 <= pos < s.len() && is_digit(s[pos]) {
        lemma_digits_end(s, pos + 1);
    }
}

/// Outcome of reading a digit run at the cursor.
pub ghost enum DigitsRes {
    /// No digit stands at the cursor; the cursor does not move.
    NoDigits,
    /// A run with this value was consumed; the position after it.
    GotNum(u32, int),
    /// A run was consumed but its value does not fit `u32`; the position
    /// after the run.
    NumTooBig(int),
}

/// What reading a digit run at `pos` yields. The run is maximal; a value
/// beyond `u32::MAX` is rejected once the whole run is consumed, so the
/// cursor then rests on the character after the run.
pub open spec fn digits_step(s: Seq<char>, pos: int) -> DigitsRes {
    if !(0 <= pos < s.len() && is_digit(s[pos])) {
        DigitsRes::NoDigits
    } else {
        let e = digits_end(s, pos);
        let v = dec_val(s.subrange(pos, e));
        if v <= u32::MAX {
            DigitsRes::GotNum(v as u32, e)
        } else {
            DigitsRes::NumTooBig(e)
        }
    }
}

/// A range line's title: the characters from `pos` up to the line end. A
/// carriage return followed by a newline ends the line; one followed by any
/// other character is dropped while that character is kept. Returns the raw
/// title and the position after the line terminator.
pub open spec fn title_eol(s: Seq<char>, pos: int) -> (Seq<char>, int)
    decreases s.len() + 2 - pos,
{
    match at(s, pos) {
        Option::None => (Seq::empty(), pos + 1),
        Option::Some(c) => {
            if c == '\n' {
                (Seq::empty(), pos + 1)
            } else if c == '\r' {
                match at(s, pos + 1) {
                    Option::Some(c2) => {
                        if c2 == '\n' {
                            (Seq::empty(), pos + 2)
                        } else {
                            let r = title_eol(s, pos + 2);
                            (seq![c2] + r.0, r.1)
                        }
                    },
                    Option::None => (Seq::empty(), pos + 2),
                }
            } else {
                let r = title_eol(s, pos + 1);
                (seq![c] + r.0, r.1)
            }
        },
    }
}

/// A summary label's text: like [`title_eol`], except that a carriage return
/// not followed by a newline is kept as an ordinary character. The asymmetry
/// between titles and labels is a deliberate trait of the dialect, kept as
/// the silent terminator fallback is.
pub open spec fn label_eol(s: Seq<char>, pos: int) -> (Seq<char>, int)
    decreases s.len() + 2 - pos,
{
    match at(s, pos) {
        Option::None => (Seq::empty(), pos + 1),
        Option::Some(c) => {
            if c == '\n' {
                (Seq::empty(), pos + 1)
            } else if c == '\r' && at(s, pos + 1) == Option::Some('\n') {
                (Seq::empty(), pos + 2)
            } else {
                let r = label_eol(s, pos + 1);
                (seq![c] + r.0, r.1)
            }
        },
    }
}

/// Outcome of trying to read one range line.
pub ghost enum RangeRes {
    /// No digit run starts here: not a range line. The position after the
    /// skipped leading whitespace.
    NoRange(int),
    /// A full range line; the position after its line terminator.
    GotRange(RangeV, int),
    /// The line violates the range grammar; the error and the cursor at the
    /// moment it is detected.
    RangeFail(SynErr, int),
}

/// One range line: whitespace, digits, `..`, digits, whitespace, `=>`, then
/// the title text to the end of the line.
///
/// When the input ends where `=>` was expected with nothing at all in its
/// place, the line is accepted with an empty title rather than rejected: a
/// deliberate leniency of the dialect at the very end of the input, kept as
/// the silent terminator fallback is.
pub open spec fn range_step(s: Seq<char>, pos: int) -> RangeRes {
    let p0 = skip_ws_ctl_from(s, pos);
    match digits_step(s, p0) {
        DigitsRes::NoDigits => RangeRes::NoRange(p0),
        DigitsRes::NumTooBig(e) => RangeRes::RangeFail(SynErr::NumberOverflow, e),
        DigitsRes::GotNum(from, e1) => {
            if at(s, e1) != Option::Some('.') {
                RangeRes::RangeFail(SynErr::InvalidRangeSyntax, e1)
            } else if at(s, e1 + 1) != Option::Some('.') {
                RangeRes::RangeFail(SynErr::InvalidRangeSyntax, e1 + 1)
            } else {
                match digits_step(s, e1 + 2) {
                    DigitsRes::NoDigits => RangeRes::RangeFail(SynErr::InvalidRange, e1 + 2),
                    DigitsRes::NumTooBig(e) => RangeRes::RangeFail(SynErr::NumberOverflow, e),
                    DigitsRes::GotNum(to, e2) => {
                        let p3 = skip_ws_from(s, e2);
                        match at(s, p3) {
                            Option::None => {
                                let p4 = skip_ws_from(s, p3 + 1);
                                let r = title_eol(s, p4);
                                RangeRes::GotRange(
                                    RangeV { title: trim_end(r.0), from, to },
                                    r.1,
                                )
                            },
                            Option::Some(c) => {
                                if c != '=' {
                                    RangeRes::RangeFail(SynErr::UnexpectedSyntax, p3 + 1)
                                } else {
                                    match at(s, p3 + 1) {
                                        Option::None => RangeRes::RangeFail(
                                            SynErr::UnexpectedEof,
                                            p3 + 1,
                                        ),
                                        Option::Some(c2) => {
                                            if c2 != '>' {
                                                RangeRes::RangeFail(
                                                    SynErr::UnexpectedSyntaxAfterArrow,
                                                    p3 + 1,
                                                )
                                            } else {
                                                let p4 = skip_ws_from(s, p3 + 2);
                                                let r = title_eol(s, p4);
                                                RangeRes::GotRange(
                                                    RangeV { title: trim_end(r.0), from, to },
                                                    r.1,
                                                )
                                            }
                                        },
                                    }
                                }
                            },
                        }
                    },
                }
            }
        },
    }
}

/// Outcome of scanning for a block header.
pub ghost enum StartRes {
    /// The next delimiter ahead is `)` or `=`, or there is none: no block
    /// starts here. The cursor does not move.
    NoBlock,
    /// A block starts: its optional title, and the position right after the
    /// opening `(`.
    Header(Option<Seq<char>>, int),
}

/// The block-header scan: look ahead for the first `(`, `)` or `=`. Only a
/// `(` commits to a block; the text before it, leading whitespace skipped and
/// trailing whitespace trimmed, is the title, absent when nothing remains.
pub open spec fn start_step(s: Seq<char>, pos: int) -> StartRes {
    match delim_idx(s, pos) {
        Option::None => StartRes::NoBlock,
        Option::Some(i) => {
            if s[i] != '(' {
                StartRes::NoBlock
            } else {
                let p0 = skip_ws_ctl_from(s, pos);
                if p0 == i {
                    StartRes::Header(Option::None, i + 1)
                } else {
                    StartRes::Header(Option::Some(trim_end(s.subrange(p0, i))), i + 1)
                }
            }
        },
    }
}

/// Outcome of the terminator scan that looks for `) =>`.
pub ghost enum EndScan {
    /// No terminator found; the block ends silently without a label. The
    /// cursor as the scan left it.
    NoEndAt(int),
    /// `) =>` confirmed; this position stands right after the `>`.
    LabelAt(int),
    /// A malformed `=>` after the `)`.
    ScanFail(SynErr, int),
}

/// The terminator scan. Outside a `)` (`inp` false) any character other than
/// `)` stops the scan without a terminator. After a `)` (`inp` true) spaces
/// are skipped and `=` must begin `=>`; any other character gives the scan up
/// silently — a deliberate fallback that turns a malformed terminator into a
/// block without a label rather than a diagnostic. Once `=>` is confirmed the
/// scan ends right after the `>`: the label is whatever follows on that same
/// line.
pub open spec fn end_scan(s: Seq<char>, pos: int, inp: bool) -> EndScan
    decreases s.len() + 2 - pos,
{
    match at(s, pos) {
        Option::None => EndScan::NoEndAt(pos + 1),
        Option::Some(c) => {
            if !inp {
                if c == ')' {
                    end_scan(s, pos + 1, true)
                } else {
                    EndScan::NoEndAt(pos + 1)
                }
            } else {
                if c == ' ' {
                    end_scan(s, pos + 1, true)
                } else if c == '=' {
                    match at(s, pos + 1) {
                        Option::Some(c2) => {
                            if c2 == '>' {
                                EndScan::LabelAt(pos + 2)
                            } else {
                                EndScan::ScanFail(SynErr::ExpectedCloseArrow, pos + 1)
                            }
                        },
                        Option::None => EndScan::ScanFail(SynErr::ExpectedArrowAfterParen, pos + 1),
                    }
                } else {
                    EndScan::NoEndAt(pos + 1)
                }
            }
        },
    }
}

/// Outcome of reading a block terminator.
pub ghost enum EndRes {
    /// The terminator (or the silent fallback) with its optional label, and
    /// the position after it. An empty label is absent, not the empty text.
    Ended(Option<Seq<char>>, int),
    /// A malformed `=>` after the `)`.
    EndFail(SynErr, int),
}

/// A block terminator: skip whitespace, scan for `) =>`, then skip spaces on
/// the same line and take the label text up to the end of that line, trimmed;
/// an empty label is absent, and a label never comes from a later line.
pub open spec fn end_step(s: Seq<char>, pos: int) -> EndRes {
    let p0 = skip_ws_ctl_from(s, pos);
    match end_scan(s, p0, false) {
        EndScan::ScanFail(e, p) => EndRes::EndFail(e, p),
        EndScan::NoEndAt(p) => EndRes::Ended(Option::None, p),
        EndScan::LabelAt(p) => {
            let p1 = skip_ws_from(s, p);
            let r = label_eol(s, p1);
            let t = trim_end(r.0);
            EndRes::Ended(
                if t.len() == 0 {
                    Option::None
                } else {
                    Option::Some(t)
                },
                r.1,
            )
        },
    }
}

/// Number of `(` characters at or after `pos`. Every block consumes one, so
/// this is the measure that bounds the nesting recursion.
pub open spec fn opens_from(s: Seq<char>, pos: int) -> nat
    decreases s.len() - pos,
{
    if pos >= s.len() {
        0
    } else if pos < 0 {
        opens_from(s, 0)
    } else {
        (if s[pos] == '(' {
            1nat
        } else {
            0nat
        }) + opens_from(s, pos + 1)
    }
}

pub proof fn lemma_opens_le_len(s: Seq<char>, pos: int)
    ensures
        0 <= pos <= s.len() ==> opens_from(s, pos) + pos <= s.len(),
        pos >= s.len() ==> opens_from(s, pos) == 0,
        opens_from(s, pos) <= s.len(),
    decreases s.len() - pos,
{
    if pos < s.len() {
        if pos < 0 {
            lemma_opens_le_len(s, 0);
        } else {
            lemma_opens_le_len(s, pos + 1);
        }
    }
}

/// A run already read, put in front of what a run-reading step yields.
pub open spec fn cons_ranges(pre: Seq<RangeV>, r: RangesRes) -> RangesRes {
    match r {
        RangesRes::GotRanges(rs, p) => RangesRes::GotRanges(pre + rs, p),
        RangesRes::RangesFail(e, p) => RangesRes::RangesFail(e, p),
    }
}

/// Blocks already read, put in front of what a block-run step yields.
pub open spec fn cons_blocks(pre: Seq<SpanV>, r: BlocksRes) -> BlocksRes {
    match r {
        BlocksRes::GotSpans(ss, p) => BlocksRes::GotSpans(pre + ss, p),
        BlocksRes::BlocksFail(e, p) => BlocksRes::BlocksFail(e, p),
    }
}

pub proof fn lemma_opens_mono(s: Seq<char>, a: int, b: int)
    requires
        a <= b,
    ensures
        opens_from(s, b) <= opens_from(s, a),
    decreases b - a,
{
    if a < b {
        lemma_opens_mono(s, a + 1, b);
    }
}

/// A `(` strictly between the two positions makes the count strictly drop.
pub proof fn lemma_opens_strict(s: Seq<char>, a: int, i: int, b: int)
    requires
        a <= i < b,
        0 <= i < s.len(),
        s[i] == '(',
    ensures
        opens_from(s, b) < opens_from(s, a),
{
    lemma_opens_mono(s, a, i);
    lemma_opens_mono(s, i + 1, b);
    assert(opens_from(s, i) == 1 + opens_from(s, i + 1));
}

/// Outcome of trying to read one whole block.
pub ghost enum BlockRes {
    /// No block starts here; the cursor does not move.
    NoSpan,
    /// A block and the position after its terminator.
    GotSpan(SpanV, int),
    /// The first grammar violation inside the block.
    BlockFail(SynErr, int),
}

/// Outcome of reading a run of blocks.
pub ghost enum BlocksRes {
    /// The blocks in source order and the position after the last one.
    GotSpans(Seq<SpanV>, int),
    /// The first grammar violation inside any of them.
    BlocksFail(SynErr, int),
}

/// Outcome of reading a run of range lines.
pub ghost enum RangesRes {
    /// The ranges in source order and the position after the last one (after
    /// the skipped whitespace when there is none).
    GotRanges(Seq<RangeV>, int),
    /// The first grammar violation among them.
    RangesFail(SynErr, int),
}

/// Range lines until one is not a range. The conditions on the recursion are
/// facts [`lemma_range_bounds`] proves always hold; they only serve the
/// termination measure.
pub open spec fn ranges_step(s: Seq<char>, pos: int) -> RangesRes
    decreases s.len() + 2 - pos,
{
    match range_step(s, pos) {
        RangeRes::NoRange(p) => RangesRes::GotRanges(Seq::empty(), p),
        RangeRes::RangeFail(e, p) => RangesRes::RangesFail(e, p),
        RangeRes::GotRange(r, p) => {
            if pos < p <= s.len() + 2 {
                match ranges_step(s, p) {
                    RangesRes::GotRanges(rs, p2) => RangesRes::GotRanges(seq![r] + rs, p2),
                    RangesRes::RangesFail(e, p2) => RangesRes::RangesFail(e, p2),
                }
            } else {
                RangesRes::GotRanges(seq![r], p)
            }
        },
    }
}

/// One block: header, range lines, nested blocks, terminator. The `sub` flag
/// records whether the block lies inside another one and decides its summary
/// tag. The condition on the nested call is a fact [`lemma_block_bounds`]
/// proves always holds; it only serves the termination measure.
pub open spec fn block_step(s: Seq<char>, pos: int, sub: bool) -> BlockRes
    decreases opens_from(s, pos), 0int,
{
    match start_step(s, pos) {
        StartRes::NoBlock => BlockRes::NoSpan,
        StartRes::Header(name, p1) => {
            match ranges_step(s, p1) {
                RangesRes::RangesFail(e, p) => BlockRes::BlockFail(e, p),
                RangesRes::GotRanges(rs, p2) => {
                    if opens_from(s, p2) < opens_from(s, pos) {
                        match blocks_step(s, p2, true) {
                            BlocksRes::BlocksFail(e, p) => BlockRes::BlockFail(e, p),
                            BlocksRes::GotSpans(ss, p3) => {
                                match end_step(s, p3) {
                                    EndRes::EndFail(e, p) => BlockRes::BlockFail(e, p),
                                    EndRes::Ended(label, p4) => BlockRes::GotSpan(
                                        SpanV {
                                            name,
                                            ranges: rs,
                                            subspans: ss,
                                            sum: if sub {
                                                SumV::Sub(label)
                                            } else {
                                                SumV::Total(label)
                                            },
                                        },
                                        p4,
                                    ),
                                }
                            },
                        }
                    } else {
                        BlockRes::NoSpan
                    }
                },
            }
        },
    }
}

/// Blocks until one is not a block: the top-level loop of the parse, and the
/// loop that collects a block's nested spans. The conditions on the recursion
/// are facts [`lemma_block_bounds`] proves always hold; they only serve the
/// termination measure.
pub open spec fn blocks_step(s: Seq<char>, pos: int, sub: bool) -> BlocksRes
    decreases opens_from(s, pos), 1int,
{
    match block_step(s, pos, sub) {
        BlockRes::NoSpan => BlocksRes::GotSpans(Seq::empty(), pos),
        BlockRes::BlockFail(e, p) => BlocksRes::BlocksFail(e, p),
        BlockRes::GotSpan(sp, p) => {
            if pos < p && opens_from(s, p) < opens_from(s, pos) {
                match blocks_step(s, p, sub) {
                    BlocksRes::GotSpans(ss, p2) => BlocksRes::GotSpans(seq![sp] + ss, p2),
                    BlocksRes::BlocksFail(e, p2) => BlocksRes::BlocksFail(e, p2),
                }
            } else {
                BlocksRes::GotSpans(seq![sp], p)
            }
        },
    }
}

pub proof fn lemma_delim_idx(s: Seq<char>, pos: int)
    requires
        0 <= pos,
    ensures
        match delim_idx(s, pos) {
            Option::Some(i) => pos <= i < s.len() && (s[i] == '(' || s[i] == ')' || s[i] == '=')
                && forall|k: int|
                pos <= k < i ==> !(s[k] == '(' || s[k] == ')' || s[k] == '='),
            Option::None => forall|k: int|
                pos <= k < s.len() ==> !(s[k] == '(' || s[k] == ')' || s[k] == '='),
        },
    decreases s.len() - pos,
{
    if 0 <= pos < s.len() && !(s[pos] == '(' || s[pos] == ')' || s[pos] == '=') {
        lemma_delim_idx(s, pos + 1);
    }
}

pub proof fn lemma_title_eol_bounds(s: Seq<char>, pos: int)
    requires
        0 <= pos,
    ensures
        pos < title_eol(s, pos).1,
        pos <= s.len() ==> title_eol(s, pos).1 <= s.len() + 2,
        pos > s.len() ==> title_eol(s, pos).1 == pos + 1,
    decreases s.len() + 2 - pos,
{
    match at(s, pos) {
        Option::None => {},
        Option::Some(c) => {
            if c == '\r' {
                if at(s, pos + 1) is Some && at(s, pos + 1) != Option::Some('\n') {
                    lemma_title_eol_bounds(s, pos + 2);
                }
            } else if c != '\n' {
                lemma_title_eol_bounds(s, pos + 1);
            }
        },
    }
}

pub proof fn lemma_label_eol_bounds(s: Seq<char>, pos: int)
    requires
        0 <= pos,
    ensures
        pos < label_eol(s, pos).1,
        pos <= s.len() ==> label_eol(s, pos).1 <= s.len() + 2,
        pos > s.len() ==> label_eol(s, pos).1 == pos + 1,
    decreases s.len() + 2 - pos,
{
    match at(s, pos) {
        Option::None => {},
        Option::Some(c) => {
            if c != '\n' && !(c == '\r' && at(s, pos + 1) == Option::Some('\n')) {
                lemma_label_eol_bounds(s, pos + 1);
            }
        },
    }
}

pub proof fn lemma_end_scan_bounds(s: Seq<char>, pos: int, inp: bool)
    requires
        0 <= pos,
    ensures
        match end_scan(s, pos, inp) {
            EndScan::NoEndAt(p) => pos < p && (pos <= s.len() ==> p <= s.len() + 2) && (pos
                > s.len() ==> p <= pos + 2),
            EndScan::LabelAt(p) => pos < p && (pos <= s.len() ==> p <= s.len() + 2) && (pos
                > s.len() ==> p <= pos + 2),
            EndScan::ScanFail(e, p) => 0 < p <= s.len(),
        },
    decreases s.len() + 2 - pos,
{
    match at(s, pos) {
        Option::None => {},
        Option::Some(c) => {
            if !inp {
                if c == ')' {
                    lemma_end_scan_bounds(s, pos + 1, true);
                }
            } else {
                if c == ' ' {
                    lemma_end_scan_bounds(s, pos + 1, true);
                }
            }
        },
    }
}

pub proof fn lemma_digits_step_bounds(s: Seq<char>, pos: int)
    requires
        0 <= pos,
    ensures
        match digits_step(s, pos) {
            DigitsRes::NoDigits => true,
            DigitsRes::GotNum(v, e) => pos < e <= s.len(),
            DigitsRes::NumTooBig(e) => pos < e <= s.len(),
        },
{
    lemma_digits_end(s, pos);
    if 0 <= pos < s.len() && is_digit(s[pos]) {
        assert(digits_end(s, pos) == digits_end(s, pos + 1));
        lemma_digits_end(s, pos + 1);
    }
}

pub proof fn lemma_range_bounds(s: Seq<char>, pos: int)
    requires
        0 <= pos,
    ensures
        match range_step(s, pos) {
            RangeRes::NoRange(p) => pos <= p && (pos <= s.len() ==> p <= s.len()) && (pos
                > s.len() ==> p == pos),
            RangeRes::GotRange(r, p) => pos < p <= s.len() + 2,
            RangeRes::RangeFail(e, p) => 0 <= p <= s.len(),
        },
{
    let p0 = skip_ws_ctl_from(s, pos);
    lemma_skip_ws_ctl_from(s, pos);
    lemma_digits_step_bounds(s, p0);
    match digits_step(s, p0) {
        DigitsRes::NoDigits => {},
        DigitsRes::NumTooBig(e) => {},
        DigitsRes::GotNum(from, e1) => {
            if at(s, e1) == Option::Some('.') && at(s, e1 + 1) == Option::Some('.') {
                lemma_digits_step_bounds(s, e1 + 2);
                match digits_step(s, e1 + 2) {
                    DigitsRes::NoDigits => {},
                    DigitsRes::NumTooBig(e) => {},
                    DigitsRes::GotNum(to, e2) => {
                        let p3 = skip_ws_from(s, e2);
                        lemma_skip_ws_from(s, e2);
                        match at(s, p3) {
                            Option::None => {
                                let p4 = skip_ws_from(s, p3 + 1);
                                lemma_skip_ws_from(s, p3 + 1);
                                lemma_title_eol_bounds(s, p4);
                            },
                            Option::Some(c) => {
                                if c == '=' && at(s, p3 + 1) == Option::Some('>') {
                                    let p4 = skip_ws_from(s, p3 + 2);
                                    lemma_skip_ws_from(s, p3 + 2);
                                    lemma_title_eol_bounds(s, p4);
                                }
                            },
                        }
                    },
                }
            }
        },
    }
}

pub proof fn lemma_ranges_bounds(s: Seq<char>, pos: int)
    requires
        0 <= pos,
    ensures
        match ranges_step(s, pos) {
            RangesRes::GotRanges(rs, p) => pos <= p && (pos <= s.len() ==> p <= s.len() + 2) && (
            pos > s.len() ==> p == pos),
            RangesRes::RangesFail(e, p) => 0 <= p <= s.len(),
        },
    decreases s.len() + 2 - pos,
{
    lemma_range_bounds(s, pos);
    match range_step(s, pos) {
        RangeRes::NoRange(p) => {},
        RangeRes::RangeFail(e, p) => {},
        RangeRes::GotRange(r, p) => {
            lemma_ranges_bounds(s, p);
        },
    }
}

pub proof fn lemma_start_bounds(s: Seq<char>, pos: int)
    requires
        0 <= pos,
    ensures
        match start_step(s, pos) {
            StartRes::NoBlock => true,
            StartRes::Header(name, p1) => pos < p1 <= s.len() && s[p1 - 1] == '(',
        },
{
    lemma_delim_idx(s, pos);
}

pub proof fn lemma_end_bounds(s: Seq<char>, pos: int)
    requires
        0 <= pos,
    ensures
        match end_step(s, pos) {
            EndRes::Ended(label, p) => pos < p && (pos <= s.len() ==> p <= s.len() + 3) && (pos
                > s.len() ==> p == pos + 1),
            EndRes::EndFail(e, p) => 0 < p <= s.len(),
        },
{
    let p0 = skip_ws_ctl_from(s, pos);
    lemma_skip_ws_ctl_from(s, pos);
    lemma_end_scan_bounds(s, p0, false);
    match end_scan(s, p0, false) {
        EndScan::ScanFail(e, p) => {},
        EndScan::NoEndAt(p) => {},
        EndScan::LabelAt(p) => {
            let p1 = skip_ws_from(s, p);
            lemma_skip_ws_from(s, p);
            lemma_label_eol_bounds(s, p1);
        },
    }
}

pub proof fn lemma_block_bounds(s: Seq<char>, pos: int, sub: bool)
    requires
        0 <= pos,
    ensures
        match block_step(s, pos, sub) {
            BlockRes::NoSpan => true,
            BlockRes::GotSpan(sp, p) => pos < p && opens_from(s, p) < opens_from(s, pos) && p
                <= s.len() + 3 + opens_from(s, pos) - opens_from(s, p),
            BlockRes::BlockFail(e, p) => 0 <= p <= s.len(),
        },
    decreases opens_from(s, pos), 0int,
{
    match start_step(s, pos) {
        StartRes::NoBlock => {},
        StartRes::Header(name, p1) => {
            lemma_start_bounds(s, pos);
            lemma_ranges_bounds(s, p1);
            match ranges_step(s, p1) {
                RangesRes::RangesFail(e, p) => {},
                RangesRes::GotRanges(rs, p2) => {
                    lemma_opens_strict(s, pos, p1 - 1, p2);
                    lemma_blocks_bounds(s, p2, true);
                    match blocks_step(s, p2, true) {
                        BlocksRes::BlocksFail(e, p) => {},
                        BlocksRes::GotSpans(ss, p3) => {
                            lemma_end_bounds(s, p3);
                            lemma_opens_mono(s, p2, p3);
                            match end_step(s, p3) {
                                EndRes::EndFail(e, p) => {},
                                EndRes::Ended(label, p4) => {
                                    lemma_opens_mono(s, p3, p4);
                                    lemma_opens_strict(s, pos, p1 - 1, p4);
                                },
                            }
                        },
                    }
                },
            }
        },
    }
}

pub proof fn lemma_blocks_bounds(s: Seq<char>, pos: int, sub: bool)
    requires
        0 <= pos,
    ensures
        match blocks_step(s, pos, sub) {
            BlocksRes::GotSpans(ss, q) => pos <= q && opens_from(s, q) <= opens_from(s, pos) && (q
                == pos || q <= s.len() + 3 + opens_from(s, pos) - opens_from(s, q)),
            BlocksRes::BlocksFail(e, p) => 0 <= p <= s.len(),
        },
    decreases opens_from(s, pos), 1int,
{
    lemma_block_bounds(s, pos, sub);
    match block_step(s, pos, sub) {
        BlockRes::NoSpan => {},
        BlockRes::BlockFail(e, p) => {},
        BlockRes::GotSpan(sp, p) => {
            lemma_blocks_bounds(s, p, sub);
        },
    }
}

} // verus!
