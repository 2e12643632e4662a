//! The nesting law: a document of concentric single-range blocks, however
//! deep, parses to a single chain of spans of exactly that depth, `SumTotal`
//! at the top and `SubTotal` at every level below.

use vstd::prelude::*;

use crate::chars::{is_ws, is_ws_or_ctl, is_digit, dec_val, digit_val, trim_end};
use crate::ast::{RangeV, SpanV, SumV};
use crate::model::{skip_ws_from, skip_ws_ctl_from, digits_end, digits_step, delim_idx,
    title_eol, label_eol, range_step, ranges_step, start_step, end_scan, end_step, block_step,
    blocks_step, DigitsRes, RangeRes, RangesRes, StartRes, EndScan, EndRes, BlockRes,
    BlocksRes, lemma_opens_strict, lemma_block_bounds};

verus! {

/// One opening line of the document: `(`, then a single range line.
pub open spec fn open_part() -> Seq<char> {
    seq!['(', '\n', ' ', '1', '.', '.', '2', ' ', '=', '>', ' ', 'T', '\n']
}

/// One closing line: `) => S`.
pub open spec fn close_part() -> Seq<char> {
    seq![')', ' ', '=', '>', ' ', 'S', '\n']
}

/// The document of `n` concentric single-range blocks.
pub open spec fn nested_doc(n: nat) -> Seq<char>
    decreases n,
{
    if n == 0 {
        Seq::empty()
    } else {
        open_part() + nested_doc((n - 1) as nat) + close_part()
    }
}

/// The span chain such a document parses to: one range per level, each level
/// below the outermost a single nested subspan.
pub open spec fn nested_chain(n: nat, sub: bool) -> SpanV
    decreases n,
{
    SpanV {
        name: Option::None,
        ranges: seq![RangeV { title: seq!['T'], from: 1u32, to: 2u32 }],
        subspans: if n <= 1 {
            Seq::empty()
        } else {
            seq![nested_chain((n - 1) as nat, true)]
        },
        sum: if sub {
            SumV::Sub(Option::Some(seq!['S']))
        } else {
            SumV::Total(Option::Some(seq!['S']))
        },
    }
}

proof fn lemma_nested_doc_len(n: nat)
    ensures
        nested_doc(n).len() == 20 * n,
    decreases n,
{
    if n > 0 {
        lemma_nested_doc_len((n - 1) as nat);
    }
}

/// One block of the document, wherever it stands in the text: it consumes
/// exactly its twenty characters per level and yields the chain.
proof fn lemma_nested_block(s: Seq<char>, pos: int, j: nat, sub: bool)
    requires
        1 <= j,
        0 <= pos,
        pos + 20 * j <= s.len(),
        s.subrange(pos, pos + 20 * j) == nested_doc(j),
        pos + 20 * j < s.len() ==> s[pos + 20 * j] == ')',
    ensures
        block_step(s, pos, sub) == BlockRes::GotSpan(nested_chain(j, sub), pos + 20 * j),
    decreases j,
{
    lemma_nested_doc_len(j);
    lemma_nested_doc_len((j - 1) as nat);
    let d = nested_doc(j);
    let inner = nested_doc((j - 1) as nat);
    assert(d == open_part() + inner + close_part());
    let q = pos + 20 * j - 7;
    let ll: int = 20 * (j as int);
    assert(open_part().len() == 13);
    assert(close_part().len() == 7);
    assert(s[pos + 0] == '(') by {
        assert(s.subrange(pos, pos + ll)[0] == s[pos + 0]);
        assert(((open_part() + inner) + close_part())[0] == (open_part() + inner)[0]);
        assert((open_part() + inner)[0] == open_part()[0]);
    }
    assert(s[pos + 1] == '\n') by {
        assert(s.subrange(pos, pos + ll)[1] == s[pos + 1]);
        assert(((open_part() + inner) + close_part())[1] == (open_part() + inner)[1]);
        assert((open_part() + inner)[1] == open_part()[1]);
    }
    assert(s[pos + 2] == ' ') by {
        assert(s.subrange(pos, pos + ll)[2] == s[pos + 2]);
        assert(((open_part() + inner) + close_part())[2] == (open_part() + inner)[2]);
        assert((open_part() + inner)[2] == open_part()[2]);
    }
    assert(s[pos + 3] == '1') by {
        assert(s.subrange(pos, pos + ll)[3] == s[pos + 3]);
        assert(((open_part() + inner) + close_part())[3] == (open_part() + inner)[3]);
        assert((open_part() + inner)[3] == open_part()[3]);
    }
    assert(s[pos + 4] == '.') by {
        assert(s.subrange(pos, pos + ll)[4] == s[pos + 4]);
        assert(((open_part() + inner) + close_part())[4] == (open_part() + inner)[4]);
        assert((open_part() + inner)[4] == open_part()[4]);
    }
    assert(s[pos + 5] == '.') by {
        assert(s.subrange(pos, pos + ll)[5] == s[pos + 5]);
        assert(((open_part() + inner) + close_part())[5] == (open_part() + inner)[5]);
        assert((open_part() + inner)[5] == open_part()[5]);
    }
    assert(s[pos + 6] == '2') by {
        assert(s.subrange(pos, pos + ll)[6] == s[pos + 6]);
        assert(((open_part() + inner) + close_part())[6] == (open_part() + inner)[6]);
        assert((open_part() + inner)[6] == open_part()[6]);
    }
    assert(s[pos + 7] == ' ') by {
        assert(s.subrange(pos, pos + ll)[7] == s[pos + 7]);
        assert(((open_part() + inner) + close_part())[7] == (open_part() + inner)[7]);
        assert((open_part() + inner)[7] == open_part()[7]);
    }
    assert(s[pos + 8] == '=') by {
        assert(s.subrange(pos, pos + ll)[8] == s[pos + 8]);
        assert(((open_part() + inner) + close_part())[8] == (open_part() + inner)[8]);
        assert((open_part() + inner)[8] == open_part()[8]);
    }
    assert(s[pos + 9] == '>') by {
        assert(s.subrange(pos, pos + ll)[9] == s[pos + 9]);
        assert(((open_part() + inner) + close_part())[9] == (open_part() + inner)[9]);
        assert((open_part() + inner)[9] == open_part()[9]);
    }
    assert(s[pos + 10] == ' ') by {
        assert(s.subrange(pos, pos + ll)[10] == s[pos + 10]);
        assert(((open_part() + inner) + close_part())[10] == (open_part() + inner)[10]);
        assert((open_part() + inner)[10] == open_part()[10]);
    }
    assert(s[pos + 11] == 'T') by {
        assert(s.subrange(pos, pos + ll)[11] == s[pos + 11]);
        assert(((open_part() + inner) + close_part())[11] == (open_part() + inner)[11]);
        assert((open_part() + inner)[11] == open_part()[11]);
    }
    assert(s[pos + 12] == '\n') by {
        assert(s.subrange(pos, pos + ll)[12] == s[pos + 12]);
        assert(((open_part() + inner) + close_part())[12] == (open_part() + inner)[12]);
        assert((open_part() + inner)[12] == open_part()[12]);
    }
    assert(s[q + 0] == ')') by {
        assert(s.subrange(pos, pos + ll)[ll - 7 + 0] == s[q + 0]);
        assert(((open_part() + inner) + close_part())[ll - 7 + 0] == close_part()[0]);
    }
    assert(s[q + 1] == ' ') by {
        assert(s.subrange(pos, pos + ll)[ll - 7 + 1] == s[q + 1]);
        assert(((open_part() + inner) + close_part())[ll - 7 + 1] == close_part()[1]);
    }
    assert(s[q + 2] == '=') by {
        assert(s.subrange(pos, pos + ll)[ll - 7 + 2] == s[q + 2]);
        assert(((open_part() + inner) + close_part())[ll - 7 + 2] == close_part()[2]);
    }
    assert(s[q + 3] == '>') by {
        assert(s.subrange(pos, pos + ll)[ll - 7 + 3] == s[q + 3]);
        assert(((open_part() + inner) + close_part())[ll - 7 + 3] == close_part()[3]);
    }
    assert(s[q + 4] == ' ') by {
        assert(s.subrange(pos, pos + ll)[ll - 7 + 4] == s[q + 4]);
        assert(((open_part() + inner) + close_part())[ll - 7 + 4] == close_part()[4]);
    }
    assert(s[q + 5] == 'S') by {
        assert(s.subrange(pos, pos + ll)[ll - 7 + 5] == s[q + 5]);
        assert(((open_part() + inner) + close_part())[ll - 7 + 5] == close_part()[5]);
    }
    assert(s[q + 6] == '\n') by {
        assert(s.subrange(pos, pos + ll)[ll - 7 + 6] == s[q + 6]);
        assert(((open_part() + inner) + close_part())[ll - 7 + 6] == close_part()[6]);
    }
    // the header: the `(` stands at the cursor itself
    assert(s[pos] == '(');
    assert(!is_ws_or_ctl('('));
    assert(delim_idx(s, pos) == Option::Some(pos));
    assert(skip_ws_ctl_from(s, pos) == pos);
    assert(start_step(s, pos) == StartRes::Header(Option::<Seq<char>>::None, pos + 1));
    // the range line: `\n 1..2 => T\n`
    assert(s[pos + 1] == '\n' && s[pos + 2] == ' ' && s[pos + 3] == '1' && s[pos + 4] == '.');
    assert(s[pos + 5] == '.' && s[pos + 6] == '2' && s[pos + 7] == ' ' && s[pos + 8] == '=');
    assert(s[pos + 9] == '>' && s[pos + 10] == ' ' && s[pos + 11] == 'T' && s[pos + 12] == '\n');
    assert(skip_ws_ctl_from(s, pos + 3) == pos + 3);
    assert(skip_ws_ctl_from(s, pos + 2) == pos + 3);
    assert(skip_ws_ctl_from(s, pos + 1) == pos + 3);
    assert(digits_end(s, pos + 4) == pos + 4);
    assert(digits_end(s, pos + 3) == pos + 4);
    assert(s.subrange(pos + 3, pos + 4) =~= seq!['1']);
    assert(seq!['1'].drop_last() =~= Seq::<char>::empty());
    assert(dec_val(Seq::<char>::empty()) == 0);
    assert(digit_val('1') == 1);
    assert(dec_val(seq!['1']) == 1);
    assert(digits_step(s, pos + 3) == DigitsRes::GotNum(1u32, pos + 4));
    assert(digits_end(s, pos + 7) == pos + 7);
    assert(digits_end(s, pos + 6) == pos + 7);
    assert(s.subrange(pos + 6, pos + 7) =~= seq!['2']);
    assert(seq!['2'].drop_last() =~= Seq::<char>::empty());
    assert(digit_val('2') == 2);
    assert(dec_val(seq!['2']) == 2);
    assert(digits_step(s, pos + 6) == DigitsRes::GotNum(2u32, pos + 7));
    assert(skip_ws_from(s, pos + 8) == pos + 8);
    assert(skip_ws_from(s, pos + 7) == pos + 8);
    assert(skip_ws_from(s, pos + 11) == pos + 11);
    assert(skip_ws_from(s, pos + 10) == pos + 11);
    assert(title_eol(s, pos + 12) == (Seq::<char>::empty(), pos + 13));
    assert(title_eol(s, pos + 11) == (seq!['T'] + Seq::<char>::empty(), pos + 13));
    assert(seq!['T'] + Seq::<char>::empty() =~= seq!['T']);
    assert(!is_ws('T'));
    assert(trim_end(seq!['T']) == seq!['T']);
    let rv = RangeV { title: seq!['T'], from: 1u32, to: 2u32 };
    assert(range_step(s, pos + 1) == RangeRes::GotRange(rv, pos + 13));
    // after the range line: `(` of the next level, or this block's `)`
    if j >= 2 {
        assert(s[pos + 13] == '(') by {
            assert(s.subrange(pos, pos + ll)[13] == s[pos + 13]);
            assert(((open_part() + inner) + close_part())[13] == (open_part() + inner)[13]);
            assert((open_part() + inner)[13] == inner[0]);
            assert(inner[0] == (open_part() + nested_doc((j - 2) as nat) + close_part())[0]);
            assert((open_part() + nested_doc((j - 2) as nat))[0] == open_part()[0]);
        }
    } else {
        assert(s[pos + 13] == ')');
    }
    assert(!is_digit(s[pos + 13]) && !is_ws_or_ctl(s[pos + 13]));
    assert(skip_ws_ctl_from(s, pos + 13) == pos + 13);
    assert(digits_step(s, pos + 13) == DigitsRes::NoDigits);
    assert(range_step(s, pos + 13) == RangeRes::NoRange(pos + 13));
    assert(ranges_step(s, pos + 13) == RangesRes::GotRanges(Seq::<RangeV>::empty(), pos + 13));
    assert(seq![rv] + Seq::<RangeV>::empty() =~= seq![rv]);
    assert(ranges_step(s, pos + 1) == RangesRes::GotRanges(seq![rv], pos + 13));
    // the nested blocks
    lemma_opens_strict(s, pos, pos, pos + 13);
    let subs: Seq<SpanV>;
    if j >= 2 {
        let li: int = 20 * ((j - 1) as int);
        assert forall|k: int| 0 <= k < li implies s.subrange(pos + 13, pos + 13 + li)[k]
            == inner[k] by {
            assert(s.subrange(pos + 13, pos + 13 + li)[k] == s[pos + 13 + k]);
            assert(s.subrange(pos, pos + ll)[13 + k] == s[pos + 13 + k]);
            assert(((open_part() + inner) + close_part())[13 + k] == (open_part() + inner)[13
                + k]);
            assert((open_part() + inner)[13 + k] == inner[k]);
        }
        assert(s.subrange(pos + 13, pos + 13 + li) =~= inner);
        lemma_nested_block(s, pos + 13, (j - 1) as nat, true);
        lemma_block_bounds(s, pos + 13, true);
        assert(block_step(s, pos + 13, true) == BlockRes::GotSpan(
            nested_chain((j - 1) as nat, true),
            q,
        ));
        assert(s[q] == ')');
        assert(delim_idx(s, q) == Option::Some(q));
        assert(start_step(s, q) == StartRes::NoBlock);
        assert(block_step(s, q, true) == BlockRes::NoSpan);
        assert(blocks_step(s, q, true) == BlocksRes::GotSpans(Seq::<SpanV>::empty(), q));
        assert(seq![nested_chain((j - 1) as nat, true)] + Seq::<SpanV>::empty()
            =~= seq![nested_chain((j - 1) as nat, true)]);
        assert(blocks_step(s, pos + 13, true) == BlocksRes::GotSpans(
            seq![nested_chain((j - 1) as nat, true)],
            q,
        ));
        subs = seq![nested_chain((j - 1) as nat, true)];
    } else {
        assert(delim_idx(s, pos + 13) == Option::Some(pos + 13));
        assert(start_step(s, pos + 13) == StartRes::NoBlock);
        assert(block_step(s, pos + 13, true) == BlockRes::NoSpan);
        assert(blocks_step(s, pos + 13, true) == BlocksRes::GotSpans(
            Seq::<SpanV>::empty(),
            pos + 13,
        ));
        subs = Seq::<SpanV>::empty();
    }
    // the terminator `) => S`
    assert(s[q] == ')' && s[q + 1] == ' ' && s[q + 2] == '=' && s[q + 3] == '>');
    assert(s[q + 4] == ' ' && s[q + 5] == 'S' && s[q + 6] == '\n');
    assert(skip_ws_ctl_from(s, q) == q);
    assert(end_scan(s, q + 2, true) == EndScan::LabelAt(q + 4));
    assert(end_scan(s, q + 1, true) == EndScan::LabelAt(q + 4));
    assert(end_scan(s, q, false) == EndScan::LabelAt(q + 4));
    assert(!is_ws('S'));
    assert(skip_ws_from(s, q + 5) == q + 5);
    assert(skip_ws_from(s, q + 4) == q + 5);
    assert(label_eol(s, q + 6) == (Seq::<char>::empty(), q + 7));
    assert(label_eol(s, q + 5) == (seq!['S'] + Seq::<char>::empty(), q + 7));
    assert(seq!['S'] + Seq::<char>::empty() =~= seq!['S']);
    assert(trim_end(seq!['S']) == seq!['S']);
    assert(end_step(s, q) == EndRes::Ended(Option::Some(seq!['S']), q + 7));
    assert(q + 7 == pos + 20 * j);
    assert(block_step(s, pos, sub) == BlockRes::GotSpan(
        SpanV {
            name: Option::None,
            ranges: seq![rv],
            subspans: subs,
            sum: if sub {
                SumV::Sub(Option::Some(seq!['S']))
            } else {
                SumV::Total(Option::Some(seq!['S']))
            },
        },
        pos + 20 * j,
    ));
    assert(nested_chain(j, sub) == SpanV {
        name: Option::None,
        ranges: seq![rv],
        subspans: subs,
        sum: if sub {
            SumV::Sub(Option::Some(seq!['S']))
        } else {
            SumV::Total(Option::Some(seq!['S']))
        },
    });
}

/// Nesting round-trips at every depth: the document of `n` concentric
/// single-range blocks parses to exactly one chain of `n` spans, one range
/// per level, tagged `SumTotal` at the top and `SubTotal` at every level
/// below it.
pub proof fn lemma_nested_doc_parses(n: nat)
    requires
        1 <= n,
    ensures
        blocks_step(nested_doc(n), 0, false) == BlocksRes::GotSpans(
            seq![nested_chain(n, false)],
            20 * (n as int),
        ),
{
    let s = nested_doc(n);
    let e: int = 20 * (n as int);
    lemma_nested_doc_len(n);
    assert(s.subrange(0, e) =~= s);
    lemma_nested_block(s, 0, n, false);
    lemma_block_bounds(s, 0, false);
    assert(delim_idx(s, e) == Option::<int>::None);
    assert(start_step(s, e) == StartRes::NoBlock);
    assert(block_step(s, e, false) == BlockRes::NoSpan);
    assert(blocks_step(s, e, false) == BlocksRes::GotSpans(Seq::<SpanV>::empty(), e));
    assert(seq![nested_chain(n, false)] + Seq::<SpanV>::empty() =~= seq![nested_chain(n, false)]);
}

} // verus!
