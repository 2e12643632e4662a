//! The syntax tree the parser produces, its error tags, and the ghost views
//! that the contracts speak of: a tree over `Seq<char>` instead of `String`.

use vstd::prelude::*;

verus! {

/// One `from..to => title` line: a numeric account interval with its display
/// title. No order between `from` and `to` is enforced.
#[derive(Debug)]
pub struct Range {
    pub title: String,
    pub from: u32,
    pub to: u32,
}

/// The label tag of a span's summary row: `SumTotal` for a span at the top
/// level of the document, `SubTotal` for one nested inside another span.
#[derive(Debug)]
pub enum SumType {
    SumTotal(Option<String>),
    SubTotal(Option<String>),
}

/// One parenthesized group: an optional header title, its range lines and
/// nested groups in source order, and the summary label after the closing `)`.
#[derive(Debug)]
pub struct Span {
    pub name: Option<String>,
    pub ranges: Vec<Range>,
    pub subspans: Vec<Span>,
    pub sum_type: SumType,
}

/// The grammar violations that abort a parse, each rendered into the
/// diagnostic under a fixed message.
#[derive(Debug, Clone, Copy, PartialEq, Eq, Structural)]
pub enum SynErr {
    /// A digit run not followed by `..`.
    InvalidRangeSyntax,
    /// `..` not followed by a second digit run.
    InvalidRange,
    /// `=` of a range arrow followed by something other than `>`.
    UnexpectedSyntaxAfterArrow,
    /// A range arrow expected but the character there is not `=`.
    UnexpectedSyntax,
    /// Input exhausted right after the `=` of a range arrow.
    UnexpectedEof,
    /// `=` after a closing `)` followed by something other than `>`.
    ExpectedCloseArrow,
    /// Input exhausted right after the `=` that follows a closing `)`.
    ExpectedArrowAfterParen,
    /// A digit run whose value does not fit the numeric type of a bound.
    NumberOverflow,
}

/// Ghost image of [`Range`].
pub ghost struct RangeV {
    pub title: Seq<char>,
    pub from: u32,
    pub to: u32,
}

/// Ghost image of [`SumType`].
pub ghost enum SumV {
    Total(Option<Seq<char>>),
    Sub(Option<Seq<char>>),
}

/// Ghost image of [`Span`].
pub ghost struct SpanV {
    pub name: Option<Seq<char>>,
    pub ranges: Seq<RangeV>,
    pub subspans: Seq<SpanV>,
    pub sum: SumV,
}

pub open spec fn view_opt_str(o: Option<String>) -> Option<Seq<char>> {
    match o {
        Option::Some(t) => Option::Some(t@),
        Option::None => Option::None,
    }
}

pub open spec fn view_range(r: Range) -> RangeV {
    RangeV { title: r.title@, from: r.from, to: r.to }
}

pub open spec fn view_ranges(rs: Seq<Range>) -> Seq<RangeV> {
    rs.map_values(|r: Range| view_range(r))
}

pub open spec fn view_sum(t: SumType) -> SumV {
    match t {
        SumType::SumTotal(o) => SumV::Total(view_opt_str(o)),
        SumType::SubTotal(o) => SumV::Sub(view_opt_str(o)),
    }
}

pub open spec fn view_span(sp: Span) -> SpanV
    decreases sp,
{
    SpanV {
        name: view_opt_str(sp.name),
        ranges: view_ranges(sp.ranges@),
        subspans: view_spans(sp.subspans@),
        sum: view_sum(sp.sum_type),
    }
}

pub open spec fn view_spans(ss: Seq<Span>) -> Seq<SpanV>
    decreases ss,
{
    if ss.len() == 0 {
        Seq::empty()
    } else {
        seq![view_span(ss[0])] + view_spans(ss.subrange(1, ss.len() as int))
    }
}

pub proof fn lemma_view_spans_len(ss: Seq<Span>)
    ensures
        view_spans(ss).len() == ss.len(),
        forall|i: int| 0 <= i < ss.len() ==> view_spans(ss)[i] == view_span(ss[i]),
    decreases ss.len(),
{
    if ss.len() > 0 {
        lemma_view_spans_len(ss.subrange(1, ss.len() as int));
    }
}

pub proof fn lemma_view_spans_push(ss: Seq<Span>, sp: Span)
    ensures
        view_spans(ss.push(sp)) == view_spans(ss).push(view_span(sp)),
    decreases ss.len(),
{
    let p = ss.push(sp);
    assert(p.len() == ss.len() + 1);
    if ss.len() == 0 {
        assert(p[0] == sp);
        assert(p.subrange(1, p.len() as int) =~= Seq::<Span>::empty());
        assert(view_spans(p.subrange(1, p.len() as int)) =~= Seq::<SpanV>::empty());
        assert(view_spans(p) =~~= view_spans(ss).push(view_span(sp)));
    } else {
        lemma_view_spans_push(ss.subrange(1, ss.len() as int), sp);
        assert(p.subrange(1, p.len() as int) =~= ss.subrange(1, ss.len() as int).push(sp));
        assert(p[0] == ss[0]);
        assert(view_spans(p) =~~= view_spans(ss).push(view_span(sp)));
    }
}

pub proof fn lemma_view_ranges_push(rs: Seq<Range>, r: Range)
    ensures
        view_ranges(rs.push(r)) == view_ranges(rs).push(view_range(r)),
{
    assert(view_ranges(rs.push(r)) =~= view_ranges(rs).push(view_range(r)));
}

} // verus!
