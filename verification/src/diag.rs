//! The diagnostic a failed parse renders: line and column of the offending
//! character, the source line, and a caret line underneath.

use vstd::prelude::*;

use crate::ast::SynErr;
use crate::chars::dec_str;

verus! {

/// Newlines in the consumed prefix: the zero-based line of the cursor.
pub open spec fn count_nl(t: Seq<char>) -> nat
    decreases t.len(),
{
    if t.len() == 0 {
        0
    } else {
        count_nl(t.drop_last()) + if t.last() == '\n' {
            1nat
        } else {
            0nat
        }
    }
}

/// Index right after the last newline of the prefix: where the cursor's line
/// begins.
pub open spec fn line_start(t: Seq<char>) -> int
    decreases t.len(),
{
    if t.len() == 0 {
        0
    } else if t.last() == '\n' {
        t.len() as int
    } else {
        line_start(t.drop_last())
    }
}

/// First newline at or after `p`, or the position where the text ends.
pub open spec fn eol_idx(s: Seq<char>, p: int) -> int
    decreases s.len() - p,
{
    if !(0 <= p < s.len()) {
        p
    } else if s[p] == '\n' {
        p
    } else {
        eol_idx(s, p + 1)
    }
}

/// `k` dashes: the indicator under the characters before the caret.
pub open spec fn dashes(k: int) -> Seq<char> {
    Seq::new(
        if k >= 0 {
            k as nat
        } else {
            0
        },
        |i: int| '-',
    )
}

/// The fixed message each error tag is rendered under.
pub open spec fn err_msg(e: SynErr) -> Seq<char> {
    match e {
        SynErr::InvalidRangeSyntax => "Invalid range syntax"@,
        SynErr::InvalidRange => "Invalid range"@,
        SynErr::UnexpectedSyntaxAfterArrow => "Invalid syntax after ="@,
        SynErr::UnexpectedSyntax => "Unexpected syntax"@,
        SynErr::UnexpectedEof => "Unexpected EOF"@,
        SynErr::ExpectedCloseArrow => "Expected >"@,
        SynErr::ExpectedArrowAfterParen => "Expected => after )"@,
        SynErr::NumberOverflow => "Number overflow"@,
    }
}

/// The rendered diagnostic for a cursor offset `c` into `s`: one-based line
/// and column, the source line, a dash-and-caret indicator (the caret only
/// when the offset lies before the line's end), and the message.
pub open spec fn diag(s: Seq<char>, c: int, msg: Seq<char>) -> Seq<char> {
    let t = s.subrange(
        0,
        if c <= s.len() {
            c
        } else {
            s.len() as int
        },
    );
    let line = count_nl(t);
    let ls = line_start(t);
    let col = t.len() - ls;
    let le = eol_idx(s, ls);
    let text = s.subrange(ls, le);
    let ind = if c < le {
        dashes(c - ls).push('^')
    } else {
        dashes(le - ls)
    };
    "\nline: "@ + dec_str((line + 1) as nat) + ", pos: "@ + dec_str((col + 1) as nat) + "\n"@
        + text + "\n"@ + ind + "\n\nERROR: "@ + msg + "\n"@
}

pub proof fn lemma_line_start(t: Seq<char>)
    ensures
        0 <= line_start(t) <= t.len(),
        forall|k: int| line_start(t) <= k < t.len() ==> t[k] != '\n',
    decreases t.len(),
{
    if t.len() > 0 && t.last() != '\n' {
        lemma_line_start(t.drop_last());
        assert forall|k: int| line_start(t) <= k < t.len() implies t[k] != '\n' by {
            if k < t.len() - 1 {
                assert(t.drop_last()[k] == t[k]);
            }
        }
    }
}

pub proof fn lemma_eol_idx(s: Seq<char>, p: int)
    requires
        0 <= p <= s.len(),
    ensures
        p <= eol_idx(s, p) <= s.len(),
        forall|k: int| p <= k < eol_idx(s, p) ==> s[k] != '\n',
        eol_idx(s, p) < s.len() ==> s[eol_idx(s, p)] == '\n',
    decreases s.len() - p,
{
    if 0 <= p < s.len() && s[p] != '\n' {
        lemma_eol_idx(s, p + 1);
    }
}

/// The message each error tag is rendered under, as executable text.
pub fn err_text(e: SynErr) -> (m: &'static str)
    ensures
        m@ == err_msg(e),
{
    match e {
        SynErr::InvalidRangeSyntax => "Invalid range syntax",
        SynErr::InvalidRange => "Invalid range",
        SynErr::UnexpectedSyntaxAfterArrow => "Invalid syntax after =",
        SynErr::UnexpectedSyntax => "Unexpected syntax",
        SynErr::UnexpectedEof => "Unexpected EOF",
        SynErr::ExpectedCloseArrow => "Expected >",
        SynErr::ExpectedArrowAfterParen => "Expected => after )",
        SynErr::NumberOverflow => "Number overflow",
    }
}

} // verus!
