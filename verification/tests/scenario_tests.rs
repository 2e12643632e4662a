use quickaccount::{Parser, Span, SumType};

fn parse_ok(text: &str) -> Vec<Span> {
    let mut parser = Parser::new(text);
    match parser.parse() {
        Ok(spans) => spans,
        Err(e) => panic!("expected a parse, got: {}", e),
    }
}

fn parse_err(text: &str) -> String {
    let mut parser = Parser::new(text);
    match parser.parse() {
        Ok(_) => panic!("expected a diagnostic"),
        Err(e) => e,
    }
}

#[test]
fn nameless_span_two_ranges() {
    let spans = parse_ok("(\n 3010..3010 => Webshop\n 3010..4000 => Other sales\n) => Sum sales\n");
    assert_eq!(spans.len(), 1);
    let sp = &spans[0];
    assert!(sp.name.is_none());
    assert_eq!(sp.ranges.len(), 2);
    assert_eq!(sp.ranges[0].title, "Webshop");
    assert_eq!(sp.ranges[0].from, 3010);
    assert_eq!(sp.ranges[0].to, 3010);
    assert_eq!(sp.ranges[1].title, "Other sales");
    assert_eq!(sp.ranges[1].from, 3010);
    assert_eq!(sp.ranges[1].to, 4000);
    assert_eq!(sp.subspans.len(), 0);
    match &sp.sum_type {
        SumType::SumTotal(Some(label)) => assert_eq!(label, "Sum sales"),
        other => panic!("wrong sum type: {:?}", other),
    }
}

#[test]
fn named_span_keeps_title() {
    let spans = parse_ok("Sales (\n 3010..3010 => Webshop\n) => Sum sales\n");
    assert_eq!(spans.len(), 1);
    let sp = &spans[0];
    assert_eq!(sp.name.as_deref(), Some("Sales"));
    assert_eq!(sp.ranges.len(), 1);
    assert_eq!(sp.ranges[0].title, "Webshop");
    match &sp.sum_type {
        SumType::SumTotal(Some(label)) => assert_eq!(label, "Sum sales"),
        other => panic!("wrong sum type: {:?}", other),
    }
}

#[test]
fn single_dot_range_diagnostic() {
    let e = parse_err("(\n6020.6100 => X\n) => S\n");
    assert_eq!(
        e,
        "\nline: 2, pos: 6\n6020.6100 => X\n-----^\n\nERROR: Invalid range syntax\n"
    );
}

#[test]
fn double_equals_terminator_diagnostic() {
    let e = parse_err("(\n10..20 => T\n) == Sum\n");
    assert_eq!(e, "\nline: 3, pos: 4\n) == Sum\n---^\n\nERROR: Expected >\n");
}

#[test]
fn terminator_cut_at_equals_diagnostic() {
    let e = parse_err("(\n10..20 => T\n) =");
    assert_eq!(e, "\nline: 3, pos: 4\n) =\n---\n\nERROR: Expected => after )\n");
}

#[test]
fn deep_nesting_round_trips() {
    let depth = 300;
    let mut text = String::new();
    for _ in 0..depth {
        text.push_str("(\n 1..2 => T\n");
    }
    for _ in 0..depth {
        text.push_str(") => S\n");
    }
    let spans = parse_ok(&text);
    assert_eq!(spans.len(), 1);
    let mut cur = &spans[0];
    let mut seen = 1;
    assert!(matches!(cur.sum_type, SumType::SumTotal(_)));
    loop {
        assert_eq!(cur.ranges.len(), 1);
        assert_eq!(cur.ranges[0].title, "T");
        if cur.subspans.is_empty() {
            break;
        }
        assert_eq!(cur.subspans.len(), 1);
        cur = &cur.subspans[0];
        seen += 1;
        assert!(matches!(cur.sum_type, SumType::SubTotal(_)));
    }
    assert_eq!(seen, depth);
}

#[test]
fn number_overflow_is_rejected() {
    let e = parse_err("(\n5000000000..1 => T\n) => S\n");
    assert!(e.contains("ERROR: Number overflow\n"), "{}", e);
}

#[test]
fn missing_second_run_is_invalid_range() {
    let e = parse_err("(\n10..x => T\n) => S\n");
    assert!(e.contains("ERROR: Invalid range\n"), "{}", e);
}

#[test]
fn stray_character_before_arrow() {
    let e = parse_err("(\n10..20 ? T\n) => S\n");
    assert!(e.contains("ERROR: Unexpected syntax\n"), "{}", e);
}

#[test]
fn bad_character_after_equals() {
    let e = parse_err("(\n10..20 =x T\n) => S\n");
    assert!(e.contains("ERROR: Invalid syntax after =\n"), "{}", e);
}

#[test]
fn input_ends_after_equals() {
    let e = parse_err("(\n10..20 =");
    assert!(e.contains("ERROR: Unexpected EOF\n"), "{}", e);
}

#[test]
fn empty_input_is_empty_forest() {
    assert_eq!(parse_ok("").len(), 0);
    assert_eq!(parse_ok("   \n  ").len(), 0);
}

#[test]
fn empty_summary_label_is_absent() {
    let spans = parse_ok("(\n1..2 => T\n) =>\n");
    assert_eq!(spans.len(), 1);
    assert!(matches!(spans[0].sum_type, SumType::SumTotal(None)));
}

#[test]
fn malformed_terminator_falls_back_silently() {
    let spans = parse_ok("(\n1..2 => T\n) ?\n");
    assert_eq!(spans.len(), 1);
    assert!(matches!(spans[0].sum_type, SumType::SumTotal(None)));
}

#[test]
fn truncated_range_line_gets_empty_title() {
    let spans = parse_ok("(\n1..2");
    assert_eq!(spans.len(), 1);
    assert_eq!(spans[0].ranges.len(), 1);
    assert_eq!(spans[0].ranges[0].title, "");
    assert_eq!(spans[0].ranges[0].from, 1);
    assert_eq!(spans[0].ranges[0].to, 2);
    assert!(matches!(spans[0].sum_type, SumType::SumTotal(None)));
}

#[test]
fn trailing_whitespace_is_trimmed() {
    let spans = parse_ok("  Costs   (\n1..2 => Leasing   \n) => Sum costs   \n");
    assert_eq!(spans[0].name.as_deref(), Some("Costs"));
    assert_eq!(spans[0].ranges[0].title, "Leasing");
    match &spans[0].sum_type {
        SumType::SumTotal(Some(label)) => assert_eq!(label, "Sum costs"),
        other => panic!("wrong sum type: {:?}", other),
    }
}

#[test]
fn crlf_line_endings() {
    let spans = parse_ok("(\r\n1..2 => T\r\n) => S\r\n");
    assert_eq!(spans.len(), 1);
    assert_eq!(spans[0].ranges[0].title, "T");
    match &spans[0].sum_type {
        SumType::SumTotal(Some(label)) => assert_eq!(label, "S"),
        other => panic!("wrong sum type: {:?}", other),
    }
}

#[test]
fn lone_carriage_returns_in_text() {
    let spans = parse_ok("(\n1..2 => A\rB\n) => X\rY\n");
    assert_eq!(spans[0].ranges[0].title, "AB");
    match &spans[0].sum_type {
        SumType::SumTotal(Some(label)) => assert_eq!(label, "X\rY"),
        other => panic!("wrong sum type: {:?}", other),
    }
}

#[test]
fn titles_may_hold_any_text() {
    let spans = parse_ok("Smörgåsbord (\n1..2 => Ω kostnader\n) => Σ totalt\n");
    assert_eq!(spans[0].name.as_deref(), Some("Smörgåsbord"));
    assert_eq!(spans[0].ranges[0].title, "Ω kostnader");
    match &spans[0].sum_type {
        SumType::SumTotal(Some(label)) => assert_eq!(label, "Σ totalt"),
        other => panic!("wrong sum type: {:?}", other),
    }
}

#[test]
fn equals_before_paren_is_no_block() {
    let spans = parse_ok("x = y (\n1..2 => T\n) => S\n");
    assert_eq!(spans.len(), 0);
}

#[test]
fn label_text_directly_after_arrow() {
    let spans = parse_ok("(\n1..2 => T\n) =>Sum sales\n");
    match &spans[0].sum_type {
        SumType::SumTotal(Some(label)) => assert_eq!(label, "Sum sales"),
        other => panic!("wrong sum type: {:?}", other),
    }
}

#[test]
fn empty_label_keeps_following_block() {
    let spans = parse_ok("(\n1..2 => T\n) =>\n(\n3..4 => U\n) => V\n");
    assert_eq!(spans.len(), 2);
    assert!(matches!(spans[0].sum_type, SumType::SumTotal(None)));
    assert_eq!(spans[1].ranges[0].title, "U");
    match &spans[1].sum_type {
        SumType::SumTotal(Some(label)) => assert_eq!(label, "V"),
        other => panic!("wrong sum type: {:?}", other),
    }
}

#[test]
fn newline_before_arrow_is_rejected() {
    let e = parse_err("(\n1..2\n=> T\n) => S\n");
    assert!(e.contains("ERROR: Unexpected syntax\n"), "{}", e);
}

#[test]
fn blank_rest_of_line_is_an_empty_title() {
    let spans = parse_ok("(\n1..2 => \n3..4 => U\n) => S\n");
    assert_eq!(spans[0].ranges.len(), 2);
    assert_eq!(spans[0].ranges[0].title, "");
    assert_eq!(spans[0].ranges[1].title, "U");
}

#[test]
fn nested_spans_in_source_order() {
    let spans = parse_ok(
        "Top (\n1..2 => A\n(\n3..4 => B\n) => First\n(\n5..6 => C\n) => Second\n) => Sum top\n",
    );
    assert_eq!(spans.len(), 1);
    let sp = &spans[0];
    assert_eq!(sp.subspans.len(), 2);
    match &sp.subspans[0].sum_type {
        SumType::SubTotal(Some(label)) => assert_eq!(label, "First"),
        other => panic!("wrong sum type: {:?}", other),
    }
    match &sp.subspans[1].sum_type {
        SumType::SubTotal(Some(label)) => assert_eq!(label, "Second"),
        other => panic!("wrong sum type: {:?}", other),
    }
    assert_eq!(sp.subspans[0].ranges[0].title, "B");
    assert_eq!(sp.subspans[1].ranges[0].title, "C");
}
