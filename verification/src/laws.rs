//! Properties of the parse stated and proved once for all inputs: how summary
//! tags follow nesting depth, when a header title is absent, and where the
//! range-syntax diagnostic points.

use vstd::prelude::*;

use crate::chars::{is_ws, is_ws_or_ctl, trim_end};
use crate::ast::{SynErr, SpanV, SumV};
use crate::model::{at, skip_ws_ctl_from, digits_end, range_step, ranges_step,
    start_step, end_scan, end_step, block_step, blocks_step, opens_from, RangeRes, RangesRes,
    StartRes, EndScan, EndRes, BlockRes, BlocksRes, lemma_skip_ws_ctl_from, lemma_delim_idx,
    lemma_opens_strict, lemma_start_bounds, lemma_ranges_bounds, lemma_block_bounds};

verus! {

/// Every span of the sequence, a nested one, carries a `SubTotal` tag, as do
/// all spans below it.
pub open spec fn sub_spans_tagged(ss: Seq<SpanV>) -> bool
    decreases ss,
{
    if ss.len() == 0 {
        true
    } else {
        (ss[0].sum is Sub) && sub_spans_tagged(ss[0].subspans) && sub_spans_tagged(
            ss.subrange(1, ss.len() as int),
        )
    }
}

/// Every span of the sequence, a top-level one, carries a `SumTotal` tag,
/// while all spans nested below it carry `SubTotal` tags.
pub open spec fn top_spans_tagged(ss: Seq<SpanV>) -> bool
    decreases ss,
{
    if ss.len() == 0 {
        true
    } else {
        (ss[0].sum is Total) && sub_spans_tagged(ss[0].subspans) && top_spans_tagged(
            ss.subrange(1, ss.len() as int),
        )
    }
}

proof fn lemma_sub_spans_tagged_cons(sp: SpanV, ss: Seq<SpanV>)
    requires
        sp.sum is Sub,
        sub_spans_tagged(sp.subspans),
        sub_spans_tagged(ss),
    ensures
        sub_spans_tagged(seq![sp] + ss),
{
    let w = seq![sp] + ss;
    assert(w[0] == sp);
    assert(w.subrange(1, w.len() as int) =~= ss);
}

proof fn lemma_top_spans_tagged_cons(sp: SpanV, ss: Seq<SpanV>)
    requires
        sp.sum is Total,
        sub_spans_tagged(sp.subspans),
        top_spans_tagged(ss),
    ensures
        top_spans_tagged(seq![sp] + ss),
{
    let w = seq![sp] + ss;
    assert(w[0] == sp);
    assert(w.subrange(1, w.len() as int) =~= ss);
}

/// The tag of a span follows only the nesting flag of the recursion that
/// produced it, and every span in its body is tagged as nested.
pub proof fn lemma_block_tag(s: Seq<char>, pos: int, sub: bool)
    requires
        0 <= pos,
    ensures
        match block_step(s, pos, sub) {
            BlockRes::GotSpan(sp, p) => (if sub {
                sp.sum is Sub
            } else {
                sp.sum is Total
            }) && sub_spans_tagged(sp.subspans),
            _ => true,
        },
    decreases opens_from(s, pos), 0int,
{
    match start_step(s, pos) {
        StartRes::NoBlock => {},
        StartRes::Header(name, p1) => {
            lemma_start_bounds(s, pos);
            lemma_ranges_bounds(s, p1);
            match ranges_step(s, p1) {
                RangesRes::RangesFail(e, p) => {},
                RangesRes::GotRanges(rs, p2) => {
                    lemma_opens_strict(s, pos, p1 - 1, p2);
                    lemma_blocks_tag(s, p2, true);
                },
            }
        },
    }
}

/// Every top-level span of a document carries a `SumTotal` tag, and every
/// span produced while the recursion stands inside another span's body a
/// `SubTotal` tag.
pub proof fn lemma_blocks_tag(s: Seq<char>, pos: int, sub: bool)
    requires
        0 <= pos,
    ensures
        match blocks_step(s, pos, sub) {
            BlocksRes::GotSpans(ss, p) => if sub {
                sub_spans_tagged(ss)
            } else {
                top_spans_tagged(ss)
            },
            _ => true,
        },
    decreases opens_from(s, pos), 1int,
{
    lemma_block_tag(s, pos, sub);
    lemma_block_bounds(s, pos, sub);
    match block_step(s, pos, sub) {
        BlockRes::NoSpan => {},
        BlockRes::BlockFail(e, p) => {},
        BlockRes::GotSpan(sp, p) => {
            lemma_blocks_tag(s, p, sub);
            match blocks_step(s, p, sub) {
                BlocksRes::GotSpans(ss, p2) => {
                    if sub {
                        lemma_sub_spans_tagged_cons(sp, ss);
                    } else {
                        lemma_top_spans_tagged_cons(sp, ss);
                    }
                },
                BlocksRes::BlocksFail(e, p2) => {},
            }
        },
    }
}

proof fn lemma_trim_end_keeps_head(t: Seq<char>)
    requires
        t.len() > 0,
        !is_ws(t[0]),
    ensures
        trim_end(t).len() > 0,
    decreases t.len(),
{
    if is_ws(t.last()) {
        assert(t.drop_last()[0] == t[0]);
        lemma_trim_end_keeps_head(t.drop_last());
    }
}

/// A block header's title is absent exactly when the text between the scan's
/// start and the opening `(` holds nothing but the whitespace and control
/// characters the scanner skips; otherwise the title is that text with its
/// trailing whitespace trimmed, and it is never empty.
pub proof fn lemma_header_title(s: Seq<char>, pos: int)
    requires
        0 <= pos,
    ensures
        match start_step(s, pos) {
            StartRes::NoBlock => true,
            StartRes::Header(name, p1) => {
                &&& at(s, p1 - 1) == Option::Some('(')
                &&& ((name is None) <==> (forall|k: int|
                    pos <= k < p1 - 1 ==> is_ws_or_ctl(s[k])))
                &&& (name is Some ==> name->0 == trim_end(
                    s.subrange(skip_ws_ctl_from(s, pos), p1 - 1),
                ) && name->0.len() > 0)
            },
        },
{
    lemma_delim_idx(s, pos);
    match start_step(s, pos) {
        StartRes::NoBlock => {},
        StartRes::Header(name, p1) => {
            let i = p1 - 1;
            let p0 = skip_ws_ctl_from(s, pos);
            lemma_skip_ws_ctl_from(s, pos);
            crate::model::lemma_skip_ws_ctl_stops_before(s, pos, i);
            if p0 == i {
                assert(forall|k: int| pos <= k < i ==> is_ws_or_ctl(s[k]));
            } else {
                assert(!is_ws_or_ctl(s[p0]));
                let raw = s.subrange(p0, i);
                assert(raw[0] == s[p0]);
                assert(!is_ws(raw[0]));
                lemma_trim_end_keeps_head(raw);
            }
        },
    }
}

/// Where a digit run is not followed by two dots, the diagnostic's offset is
/// intentionally rewound onto the offending character: the one right after
/// the run when the first dot is missing, the one after that first dot when
/// the second is missing — never one past the violation.
pub proof fn lemma_range_syntax_position(s: Seq<char>, pos: int)
    requires
        0 <= pos,
    ensures
        match range_step(s, pos) {
            RangeRes::RangeFail(e, ep) => e == SynErr::InvalidRangeSyntax ==> {
                let p0 = skip_ws_ctl_from(s, pos);
                let e1 = digits_end(s, p0);
                if at(s, e1) != Option::Some('.') {
                    ep == e1
                } else {
                    ep == e1 + 1 && at(s, e1 + 1) != Option::Some('.')
                }
            },
            _ => true,
        },
{
}

proof fn lemma_end_scan_fail_position(s: Seq<char>, pos: int, inp: bool)
    requires
        0 <= pos,
    ensures
        match end_scan(s, pos, inp) {
            EndScan::ScanFail(e, ep) => {
                &&& at(s, ep - 1) == Option::Some('=')
                &&& (e == SynErr::ExpectedCloseArrow ==> at(s, ep) is Some && at(s, ep)
                    != Option::Some('>'))
                &&& (e == SynErr::ExpectedArrowAfterParen ==> at(s, ep) is None)
                &&& (e == SynErr::ExpectedCloseArrow || e == SynErr::ExpectedArrowAfterParen)
            },
            _ => true,
        },
    decreases s.len() + 2 - pos,
{
    match at(s, pos) {
        Option::None => {},
        Option::Some(c) => {
            if !inp {
                if c == ')' {
                    lemma_end_scan_fail_position(s, pos + 1, true);
                }
            } else {
                if c == ' ' {
                    lemma_end_scan_fail_position(s, pos + 1, true);
                }
            }
        },
    }
}

/// Where a block terminator's `=>` is malformed, the diagnostic's offset
/// stands exactly one past the offending `=`: `ExpectedCloseArrow` when some
/// character other than `>` follows the `=`, `ExpectedArrowAfterParen` when
/// the input ends right after it — and the terminator raises no other error.
pub proof fn lemma_terminator_arrow_position(s: Seq<char>, pos: int)
    requires
        0 <= pos,
    ensures
        match end_step(s, pos) {
            EndRes::EndFail(e, ep) => {
                &&& at(s, ep - 1) == Option::Some('=')
                &&& (e == SynErr::ExpectedCloseArrow ==> at(s, ep) is Some && at(s, ep)
                    != Option::Some('>'))
                &&& (e == SynErr::ExpectedArrowAfterParen ==> at(s, ep) is None)
                &&& (e == SynErr::ExpectedCloseArrow || e == SynErr::ExpectedArrowAfterParen)
            },
            EndRes::Ended(lbl, p) => true,
        },
{
    lemma_skip_ws_ctl_from(s, pos);
    lemma_end_scan_fail_position(s, skip_ws_ctl_from(s, pos), false);
}

} // verus!
