use quickaccount::Parser;

const TEST: &str = "
    Sales (
        3010..3010 => Webshop
        3010..4000 => Other sales
    ) => Sum sales

    (
        4000..5000 => Material
    ) => Sum material

    (
        5000..5000 => Direct labor
        5010..6000 => Other labor costs
    ) => Sum labor costs

    Other costs (
        6000..6010 => Leasing
        (
            6020..6100 => Office supplies
            6100..6200 => Consumables
        ) => Sum miscellaneous costs
    ) => Sum other costs
    ";

#[test]
fn parse_full_syntax() {
    let mut parser = Parser::new(TEST);

    match parser.parse() {
        Ok(ast) => println!("{:#?}", ast),
        Err(e) => println!("{}", e),
    }
}

#[test]
fn parse_nameless_span_with_sub() {
    let test = "
        Other costs (
            6000..6010 => Leasing
            (
                6020..6100 => Office supplies
                6100..6200 => Consumables
            ) => Sum miscellaneous costs
        ) => Sum other costs
        ";

    let mut parser = Parser::new(test);
    match parser.parse() {
        Ok(ast) => println!("{:?}", ast),
        Err(e) => println!("{}", e),
    }
}

#[test]
fn reports_errors() {
    let test = "
        Other costs (
            6000..6010 => Leasing
            (
                6020..6100 => Office supplies
                6100..6200 => Consumables
            ) => Sum miscellaneous costs
        ) == Sum other costs
        ";

    let mut parser = Parser::new(test);
    match parser.parse() {
        Ok(_) => (),
        Err(e) => println!("{}", e),
    }
}

#[test]
fn reports_start_err() {
    let test = "
        )
            6000..6010 => Leasing
            (
                6020..6100 => Office Supplies
                6100..6200 => Consumables
            ) => Sum miscellaneous costs
        ) == Sum other costs
        ";

    let expected_err = "
line: 8, pos: 12
        ) == Sum other costs
-----------^

ERROR: Expected >
";

    let mut parser = Parser::new(test);
    match parser.parse() {
        Ok(_) => (),
        Err(e) => assert_eq!(e, expected_err),
    }
}

#[test]
fn reports_range_err() {
    let test = "
        (
            6000..6010 => Leasing
            (
                6020.6100 => Office Supplies
                6100..6200 => Consumables
            ) => Sum miscellaneous costs
        ) == Sum other costs
        ";

    let expected_err = "
line: 5, pos: 22
                6020.6100 => Office Supplies
---------------------^

ERROR: Invalid range syntax
";

    let mut parser = Parser::new(test);
    match parser.parse() {
        Ok(_) => (),
        Err(e) => assert_eq!(e, expected_err),
    }
}
