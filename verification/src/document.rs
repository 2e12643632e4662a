//! The document law: any well-formed document — blocks whose names carry no
//! delimiter characters and whose titles and labels are single lines of
//! plain text, possibly empty — parses back to exactly its spans, every
//! range line counted, in source order.

use vstd::prelude::*;

use crate::chars::{is_ws, is_ws_or_ctl, is_digit, trim_end};
use crate::ast::{SpanV, SumV};
use crate::model::{at, skip_ws_from, skip_ws_ctl_from, delim_idx, label_eol, ranges_step,
    start_step, end_scan, end_step, block_step, blocks_step, RangesRes, StartRes, EndScan, EndRes,
    BlockRes, BlocksRes, lemma_opens_strict};
use crate::lines::{wf_title, render_lines, lemma_range_lines_parse};

verus! {

/// A character that ends the block-header scan.
pub open spec fn is_delim(c: char) -> bool {
    c == '(' || c == ')' || c == '='
}

/// A header title that renders back to itself: absent, or text that begins
/// with an ordinary character other than a digit, ends in none of the
/// whitespace the trim would take, and holds no `(`, `)` or `=`.
pub open spec fn wf_name(o: Option<Seq<char>>) -> bool {
    match o {
        Option::None => true,
        Option::Some(nm) => {
            &&& nm.len() > 0
            &&& !is_ws_or_ctl(nm[0])
            &&& !is_digit(nm[0])
            &&& !is_ws(nm.last())
            &&& forall|k: int| 0 <= k < nm.len() ==> !is_delim(#[trigger] nm[k])
        },
    }
}

/// A summary label that renders back to itself: absent (nothing follows the
/// `=>` on its line), or one line of text with no surrounding whitespace.
pub open spec fn wf_label(o: Option<Seq<char>>) -> bool {
    match o {
        Option::None => true,
        Option::Some(lb) => {
            &&& lb.len() > 0
            &&& !is_ws(lb[0])
            &&& !is_ws(lb.last())
            &&& forall|k: int| 0 <= k < lb.len() ==> #[trigger] lb[k] != '\n' && lb[k] != '\r'
        },
    }
}

/// The label a span's summary tag carries.
pub open spec fn label_of(sum: SumV) -> Seq<char> {
    match sum {
        SumV::Total(o) => match o {
            Option::Some(l) => l,
            Option::None => Seq::empty(),
        },
        SumV::Sub(o) => match o {
            Option::Some(l) => l,
            Option::None => Seq::empty(),
        },
    }
}

/// A span that renders back to itself at its nesting position: sound name,
/// titles and label, the summary tag matching the nesting, and the same all
/// the way down.
pub open spec fn wf_span(sp: SpanV, sub: bool) -> bool
    decreases sp,
{
    &&& wf_name(sp.name)
    &&& (match sp.sum {
        SumV::Total(o) => !sub && wf_label(o),
        SumV::Sub(o) => sub && wf_label(o),
    })
    &&& (forall|i: int| 0 <= i < sp.ranges.len() ==> wf_title(#[trigger] sp.ranges[i].title))
    &&& wf_spans(sp.subspans, true)
}

/// Every span of the sequence is well formed at this nesting position.
pub open spec fn wf_spans(ss: Seq<SpanV>, sub: bool) -> bool
    decreases ss,
{
    if ss.len() == 0 {
        true
    } else {
        wf_span(ss[0], sub) && wf_spans(ss.subrange(1, ss.len() as int), sub)
    }
}

/// The text a span renders to.
pub open spec fn render_span(sp: SpanV) -> Seq<char>
    decreases sp,
{
    render_name(sp.name) + seq!['('] + render_lines(sp.ranges) + render_spans(sp.subspans)
        + seq![')', ' ', '=', '>', ' '] + label_of(sp.sum) + seq!['\n']
}

pub open spec fn render_name(o: Option<Seq<char>>) -> Seq<char> {
    match o {
        Option::None => Seq::empty(),
        Option::Some(nm) => nm,
    }
}

/// The text a run of spans renders to.
pub open spec fn render_spans(ss: Seq<SpanV>) -> Seq<char>
    decreases ss,
{
    if ss.len() == 0 {
        Seq::empty()
    } else {
        render_span(ss[0]) + render_spans(ss.subrange(1, ss.len() as int))
    }
}

/// Where every character before `i` is no delimiter and the one at `i` is,
/// the delimiter scan finds exactly `i`.
proof fn lemma_delim_idx_at(s: Seq<char>, pos: int, i: int)
    requires
        0 <= pos <= i < s.len(),
        forall|k: int| pos <= k < i ==> !is_delim(#[trigger] s[k]),
        is_delim(s[i]),
    ensures
        delim_idx(s, pos) == Option::Some(i),
    decreases i - pos,
{
    if pos < i {
        lemma_delim_idx_at(s, pos + 1, i);
    }
}

/// A line of clean text ends exactly at its newline, kept out of the label.
proof fn lemma_label_eol_exact(s: Seq<char>, pos: int, t: Seq<char>)
    requires
        0 <= pos,
        pos + t.len() < s.len(),
        forall|k: int| 0 <= k < t.len() ==> s[pos + k] == t[k],
        forall|k: int| 0 <= k < t.len() ==> #[trigger] t[k] != '\n' && t[k] != '\r',
        s[pos + t.len()] == '\n',
    ensures
        label_eol(s, pos) == (t, pos + t.len() + 1),
    decreases t.len(),
{
    if t.len() == 0 {
        assert(at(s, pos) == Option::Some('\n'));
    } else {
        assert(s[pos + 0] == t[0]);
        let t2 = t.subrange(1, t.len() as int);
        assert forall|k: int| 0 <= k < t2.len() implies s[pos + 1 + k] == t2[k] by {
            assert(t2[k] == t[k + 1]);
            assert(s[pos + (k + 1)] == t[k + 1]);
        }
        lemma_label_eol_exact(s, pos + 1, t2);
        assert(seq![t[0]] + t2 =~= t);
    }
}

/// One well-formed span's text parses to exactly that span.
proof fn lemma_span_parses(s: Seq<char>, pos: int, sp: SpanV, sub: bool)
    requires
        0 <= pos,
        pos + render_span(sp).len() <= s.len(),
        s.subrange(pos, pos + render_span(sp).len()) == render_span(sp),
        wf_span(sp, sub),
    ensures
        block_step(s, pos, sub) == BlockRes::GotSpan(sp, pos + render_span(sp).len()),
    decreases sp, 0int,
{
    let nm = render_name(sp.name);
    let rl = render_lines(sp.ranges);
    let rsub = render_spans(sp.subspans);
    let lb = label_of(sp.sum);
    let whole = render_span(sp);
    let nl = nm.len() as int;
    let rll = rl.len() as int;
    let rsl = rsub.len() as int;
    let lbl = lb.len() as int;
    let ln = whole.len() as int;
    assert(ln == nl + 1 + rll + rsl + 5 + lbl + 1);
    let i = pos + nl;
    let p1 = i + 1;
    let p2 = p1 + rll;
    let q = p2 + rsl;
    assert forall|k: int| 0 <= k < ln implies s[pos + k] == whole[k] by {
        assert(s.subrange(pos, pos + ln)[k] == s[pos + k]);
    }
    assert forall|k: int| 0 <= k < nl implies s[pos + k] == nm[k] by {
        assert(whole[k] == nm[k]);
        assert(s[pos + k] == whole[k]);
    }
    assert(whole[nl] == '(');
    assert(s[pos + nl] == '(');
    assert forall|k: int| 0 <= k < rll implies s[p1 + k] == rl[k] by {
        assert(whole[nl + 1 + k] == rl[k]);
        assert(s[pos + (nl + 1 + k)] == whole[nl + 1 + k]);
    }
    assert forall|k: int| 0 <= k < rsl implies s[p2 + k] == rsub[k] by {
        assert(whole[nl + 1 + rll + k] == rsub[k]);
        assert(s[pos + (nl + 1 + rll + k)] == whole[nl + 1 + rll + k]);
    }
    assert(whole[nl + 1 + rll + rsl] == ')' && whole[nl + 1 + rll + rsl + 1] == ' '
        && whole[nl + 1 + rll + rsl + 2] == '=' && whole[nl + 1 + rll + rsl + 3] == '>'
        && whole[nl + 1 + rll + rsl + 4] == ' ');
    assert(s[q] == ')' && s[q + 1] == ' ' && s[q + 2] == '=' && s[q + 3] == '>' && s[q + 4]
        == ' ');
    assert forall|k: int| 0 <= k < lbl implies s[q + 5 + k] == lb[k] by {
        assert(whole[nl + 1 + rll + rsl + 5 + k] == lb[k]);
        assert(s[pos + (nl + 1 + rll + rsl + 5 + k)] == whole[nl + 1 + rll + rsl + 5 + k]);
    }
    assert(whole[ln - 1] == '\n');
    assert(s[pos + (ln - 1)] == '\n');
    // the header
    assert(delim_idx(s, pos) == Option::Some(i)) by {
        assert forall|k: int| pos <= k < i implies !is_delim(#[trigger] s[k]) by {
            match sp.name {
                Option::None => {},
                Option::Some(name_text) => {
                    assert(s[pos + (k - pos)] == name_text[k - pos]);
                    assert(!is_delim(name_text[k - pos]));
                },
            }
        }
        lemma_delim_idx_at(s, pos, i);
    }
    match sp.name {
        Option::None => {
            assert(skip_ws_ctl_from(s, pos) == pos);
            assert(start_step(s, pos) == StartRes::Header(Option::<Seq<char>>::None, p1));
        },
        Option::Some(name_text) => {
            assert(s[pos + 0] == name_text[0]);
            assert(skip_ws_ctl_from(s, pos) == pos);
            assert(s.subrange(pos, i) =~= name_text);
            assert(trim_end(name_text) == name_text);
            assert(start_step(s, pos) == StartRes::Header(Option::Some(name_text), p1));
        },
    }
    // the range lines
    if p2 < s.len() {
        if rsl > 0 {
            let first = sp.subspans[0];
            assert(wf_span(first, true));
            assert forall|k: int| 0 <= k < render_span(first).len() implies rsub[k]
                == render_span(first)[k] by {
                assert(rsub == render_span(first) + render_spans(
                    sp.subspans.subrange(1, sp.subspans.len() as int),
                ));
            }
            assert(render_span(first).len() > 0);
            assert(s[p2] == rsub[0]);
            match first.name {
                Option::None => {
                    assert(render_span(first)[0] == '(');
                    assert(s[p2] == '(');
                },
                Option::Some(fn_text) => {
                    assert(render_span(first)[0] == fn_text[0]);
                    assert(!is_digit(s[p2]) && !is_ws_or_ctl(s[p2]));
                },
            }
            assert(!is_digit(s[p2]) && !is_ws_or_ctl(s[p2]));
        } else {
            assert(s[p2] == ')');
            assert(!is_digit(s[p2]) && !is_ws_or_ctl(s[p2]));
        }
    }
    assert(s.subrange(p1, p2) =~= rl) by {
        assert forall|k: int| 0 <= k < rll implies s.subrange(p1, p2)[k] == rl[k] by {
            assert(s.subrange(p1, p2)[k] == s[p1 + k]);
        }
    }
    lemma_range_lines_parse(s, p1, sp.ranges);
    assert(ranges_step(s, p1) == RangesRes::GotRanges(sp.ranges, p2));
    // the nested spans
    lemma_opens_strict(s, pos, i, p2);
    assert(s.subrange(p2, q) =~= rsub) by {
        assert forall|k: int| 0 <= k < rsl implies s.subrange(p2, q)[k] == rsub[k] by {
            assert(s.subrange(p2, q)[k] == s[p2 + k]);
        }
    }
    lemma_spans_parses(s, p2, sp.subspans, true);
    assert(blocks_step(s, p2, true) == BlocksRes::GotSpans(sp.subspans, q));
    // the terminator
    assert(skip_ws_ctl_from(s, q) == q);
    assert(end_scan(s, q + 2, true) == EndScan::LabelAt(q + 4));
    assert(end_scan(s, q + 1, true) == EndScan::LabelAt(q + 4));
    assert(end_scan(s, q, false) == EndScan::LabelAt(q + 4));
    if lbl == 0 {
        assert(s[q + 5] == '\n');
    } else {
        assert(!is_ws(lb[0]));
        assert(s[q + 5] == lb[0]);
    }
    assert(skip_ws_from(s, q + 5) == q + 5);
    assert(skip_ws_from(s, q + 4) == q + 5);
    lemma_label_eol_exact(s, q + 5, lb);
    assert(trim_end(lb) == lb);
    let lbl_opt = if lbl == 0 {
        Option::<Seq<char>>::None
    } else {
        Option::Some(lb)
    };
    assert(end_step(s, q) == EndRes::Ended(lbl_opt, pos + ln));
    match sp.sum {
        SumV::Total(o) => {
            assert(o == lbl_opt);
        },
        SumV::Sub(o) => {
            assert(o == lbl_opt);
        },
    }
    assert(block_step(s, pos, sub) == BlockRes::GotSpan(
        SpanV {
            name: sp.name,
            ranges: sp.ranges,
            subspans: sp.subspans,
            sum: if sub {
                SumV::Sub(lbl_opt)
            } else {
                SumV::Total(lbl_opt)
            },
        },
        pos + ln,
    ));
    assert(sp == SpanV { name: sp.name, ranges: sp.ranges, subspans: sp.subspans, sum: sp.sum });
}

/// A run of well-formed spans' text, ending at the input's end or at the
/// enclosing block's `)`, parses to exactly those spans in source order.
proof fn lemma_spans_parses(s: Seq<char>, pos: int, ss: Seq<SpanV>, sub: bool)
    requires
        0 <= pos,
        pos + render_spans(ss).len() <= s.len(),
        s.subrange(pos, pos + render_spans(ss).len()) == render_spans(ss),
        wf_spans(ss, sub),
        pos + render_spans(ss).len() < s.len() ==> s[pos + render_spans(ss).len()] == ')',
    ensures
        blocks_step(s, pos, sub) == BlocksRes::GotSpans(ss, pos + render_spans(ss).len()),
    decreases ss, 1int,
{
    if ss.len() == 0 {
        if pos < s.len() {
            assert(s[pos] == ')');
            lemma_delim_idx_at(s, pos, pos);
            assert(start_step(s, pos) == StartRes::NoBlock);
        } else {
            assert(delim_idx(s, pos) == Option::<int>::None);
            assert(start_step(s, pos) == StartRes::NoBlock);
        }
        assert(block_step(s, pos, sub) == BlockRes::NoSpan);
        assert(ss =~= Seq::<SpanV>::empty());
    } else {
        let sp = ss[0];
        let rest = ss.subrange(1, ss.len() as int);
        let line = render_span(sp);
        let ln = line.len() as int;
        let whole = render_spans(ss);
        let wl = whole.len() as int;
        assert(whole == line + render_spans(rest));
        assert forall|k: int| 0 <= k < ln implies s.subrange(pos, pos + ln)[k] == line[k] by {
            assert(s.subrange(pos, pos + ln)[k] == s[pos + k]);
            assert(s.subrange(pos, pos + wl)[k] == s[pos + k]);
            assert(whole[k] == line[k]);
        }
        assert(s.subrange(pos, pos + ln) =~= line);
        lemma_span_parses(s, pos, sp, sub);
        let p2 = pos + ln;
        assert forall|k: int| 0 <= k < wl - ln implies s.subrange(p2, p2 + (wl - ln))[k]
            == render_spans(rest)[k] by {
            assert(s.subrange(p2, p2 + (wl - ln))[k] == s[p2 + k]);
            assert(s.subrange(pos, pos + wl)[ln + k] == s[pos + (ln + k)]);
            assert(whole[ln + k] == render_spans(rest)[k]);
        }
        assert(s.subrange(p2, p2 + (wl - ln)) =~= render_spans(rest));
        let nl = render_name(sp.name).len() as int;
        assert(s[pos + nl] == '(') by {
            assert(s.subrange(pos, pos + ln)[nl] == s[pos + nl]);
            assert(line[nl] == '(');
        }
        lemma_opens_strict(s, pos, pos + nl, p2);
        lemma_spans_parses(s, p2, rest, sub);
        assert(seq![sp] + rest =~= ss);
    }
}

/// The document law: a document rendered from any well-formed forest of
/// spans parses back to exactly that forest — every block and every range
/// line of it, in source order.
pub proof fn lemma_document_parses(ss: Seq<SpanV>)
    requires
        wf_spans(ss, false),
    ensures
        blocks_step(render_spans(ss), 0, false) == BlocksRes::GotSpans(
            ss,
            render_spans(ss).len() as int,
        ),
{
    let s = render_spans(ss);
    assert(s.subrange(0, s.len() as int) =~= s);
    lemma_spans_parses(s, 0, ss, false);
}

} // verus!
