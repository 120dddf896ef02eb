use org_tools_core::tblfm::{
    apply_cell_update, find_table_tblfm_regions, parse_cell_ref, parse_eval_table, parse_expr, parse_roman as roman,
    parse_tblfm_line, resolve_col, resolve_row, CellTarget, CellValue, ColRef, EvalRow, Expr, Op, RowRef, TblfmError,
};

#[test]
fn parse_simple_reference() {
    let (row, col) = parse_cell_ref("@2$3").unwrap();
    assert_eq!(row, Some(RowRef::Absolute(2)));
    assert_eq!(col, Some(ColRef::Absolute(3)));
}

#[test]
fn parse_special_refs() {
    let (row, col) = parse_cell_ref("@>$>").unwrap();
    assert_eq!(row, Some(RowRef::Last));
    assert_eq!(col, Some(ColRef::Last));
}

#[test]
fn parse_column_only() {
    let (row, col) = parse_cell_ref("$3").unwrap();
    assert_eq!(row, None);
    assert_eq!(col, Some(ColRef::Absolute(3)));
}

#[test]
fn parse_hgroup_ref() {
    let (row, col) = parse_cell_ref("@I$2").unwrap();
    assert_eq!(row, Some(RowRef::HGroup(1)));
    assert_eq!(col, Some(ColRef::Absolute(2)));

    let (row, _) = parse_cell_ref("@II$1").unwrap();
    assert_eq!(row, Some(RowRef::HGroup(2)));
}

#[test]
fn parse_named_col() {
    let (_, col) = parse_cell_ref("$total").unwrap();
    assert_eq!(col, Some(ColRef::Named("total".to_string())));
}

#[test]
fn parse_roman() {
    assert_eq!(roman("I"), 1);
    assert_eq!(roman("II"), 2);
    assert_eq!(roman("III"), 3);
    assert_eq!(roman("IV"), 4);
    assert_eq!(roman("V"), 5);
}

#[test]
fn parse_simple_expr() {
    let expr = parse_expr("$1+$2").unwrap();
    match expr {
        Expr::BinOp(_, Op::Add, _) => {}
        other => panic!("expected BinOp Add, got {other:?}"),
    }
}

#[test]
fn parse_multiplication() {
    let expr = parse_expr("$2*$3").unwrap();
    match expr {
        Expr::BinOp(_, Op::Mul, _) => {}
        other => panic!("expected BinOp Mul, got {other:?}"),
    }
}

#[test]
fn parse_precedence() {
    // $1 + $2 * $3 should parse as $1 + ($2 * $3)
    let expr = parse_expr("$1+$2*$3").unwrap();
    match expr {
        Expr::BinOp(_, Op::Add, right) => {
            assert!(matches!(*right, Expr::BinOp(_, Op::Mul, _)));
        }
        other => panic!("expected Add at top, got {other:?}"),
    }
}

#[test]
fn parse_function_call() {
    let expr = parse_expr("vsum($1..$3)").unwrap();
    match expr {
        Expr::FnCall(name, args) => {
            assert_eq!(name, "vsum");
            assert_eq!(args.len(), 1);
        }
        other => panic!("expected FnCall, got {other:?}"),
    }
}

#[test]
fn parse_elisp_detected() {
    let expr = parse_expr("lisp:(format \"%s\" val)").unwrap();
    assert!(matches!(expr, Expr::Elisp(_)));
}

#[test]
fn parse_unsupported_fn() {
    let expr = parse_expr("sqrt($1)").unwrap();
    assert!(matches!(expr, Expr::Elisp(_)));
}

#[test]
fn parse_tblfm_assignment() {
    let assignments = parse_tblfm_line("$4=$2*$3").unwrap();
    assert_eq!(assignments.len(), 1);
    assert!(matches!(assignments[0].target, CellTarget::Column(ColRef::Absolute(4))));
}

#[test]
fn parse_tblfm_multiple() {
    let assignments = parse_tblfm_line("$4=$2*$3::@>$4=vsum(@I$4..@II$4)").unwrap();
    assert_eq!(assignments.len(), 2);
}

#[test]
fn parse_tblfm_with_format_spec() {
    let assignments = parse_tblfm_line("$4=$2*$3;%.2f").unwrap();
    assert_eq!(assignments.len(), 1);
}

#[test]
fn tblfm_roman_subtractive_forms() {
    assert_eq!(roman("IX"), 9);
    assert_eq!(roman("XIV"), 14);
    assert_eq!(roman(""), 0);
}

#[test]
fn tblfm_relative_and_invalid_rows() {
    let (row, _) = parse_cell_ref("@-1$2").unwrap();
    assert_eq!(row, Some(RowRef::Relative(-1)));
    let (row, _) = parse_cell_ref("@#$2").unwrap();
    assert_eq!(row, Some(RowRef::Relative(0)));
    assert_eq!(
        parse_cell_ref("@abc$1"),
        Err(TblfmError::Parse("invalid row reference: @abc".to_string()))
    );
    assert_eq!(
        parse_cell_ref("@+x$1"),
        Err(TblfmError::Parse("invalid relative row: @+x".to_string()))
    );
    assert_eq!(parse_cell_ref("x"), Err(TblfmError::Parse("expected cell reference: x".to_string())));
}

#[test]
fn tblfm_number_literals_and_errors() {
    assert_eq!(parse_expr("2.5"), Ok(Expr::Number("2.5".to_string())));
    assert_eq!(parse_expr("-3"), Ok(Expr::Number("-3".to_string())));
    assert_eq!(parse_expr("1.2.3"), Err(TblfmError::Parse("invalid number: 1.2.3".to_string())));
    assert_eq!(parse_expr("  "), Err(TblfmError::Parse("empty expression".to_string())));
    assert_eq!(parse_expr("$1 ? 2"), Err(TblfmError::Parse("unexpected character: '?'".to_string())));
    assert_eq!(parse_expr("(1"), Err(TblfmError::Parse("missing ')'".to_string())));
    assert_eq!(parse_expr("1+"), Err(TblfmError::Parse("unexpected end of expression".to_string())));
    assert_eq!(parse_expr(")"), Err(TblfmError::Parse("unexpected token: RParen".to_string())));
    assert_eq!(
        parse_expr("1 2"),
        Err(TblfmError::Parse("unexpected tokens after expression: [Number(2)]".to_string()))
    );
    assert_eq!(
        parse_expr("vsum($1"),
        Err(TblfmError::Parse("missing ')' in function call: vsum".to_string()))
    );
}

#[test]
fn tblfm_negation_constant_and_range_defaults() {
    assert_eq!(
        parse_expr("1-pi"),
        Ok(Expr::BinOp(
            Box::new(Expr::Number("1".to_string())),
            Op::Sub,
            Box::new(Expr::Constant("pi".to_string()))
        ))
    );
    match parse_expr("vmax(@2..$3)").unwrap() {
        Expr::FnCall(_, args) => match &args[0] {
            Expr::Range(r) => {
                assert_eq!(r.start_row, RowRef::Absolute(2));
                assert_eq!(r.start_col, ColRef::First);
                assert_eq!(r.end_row, RowRef::Last);
                assert_eq!(r.end_col, ColRef::Absolute(3));
            }
            other => panic!("expected a range, got {other:?}"),
        },
        other => panic!("expected a call, got {other:?}"),
    }
    assert_eq!(parse_expr("round(2)%3").is_ok(), true);
    assert_eq!(parse_expr("vmax(@2..)"), Err(TblfmError::Parse("expected cell reference: ".to_string())));
    assert_eq!(parse_expr("sqrt(2)"), Ok(Expr::Elisp("sqrt(...)".to_string())));
}

#[test]
fn tblfm_line_errors() {
    assert_eq!(
        parse_tblfm_line("$4").err(),
        Some(TblfmError::Parse("missing '=' in formula: $4".to_string()))
    );
    assert_eq!(parse_tblfm_line("@2=1").err(), Some(TblfmError::Parse("invalid target: @2".to_string())));
    assert_eq!(parse_tblfm_line(" :: ").map(|v| v.len()), Ok(0));
    assert_eq!(TblfmError::Eval("x".to_string()).describe(), "evaluation error: x");
}

#[test]
fn tblfm_eval_table_and_resolution() {
    let table = parse_eval_table(&[
        "| Item  | Price | Qty |",
        "|-------+-------+-----|",
        "| Apple |  1.50 |   3 |",
        "| Pear  | $2,000 |  |",
        "|-------+-------+-----|",
        "| Sum   |       |     |",
    ]);
    assert_eq!(table.col_count, 3);
    assert_eq!(table.separators, vec![1, 4]);
    match &table.rows[3] {
        EvalRow::Data(cells) => {
            assert_eq!(cells[1], CellValue::Number("2000".to_string()));
            assert_eq!(cells[2], CellValue::Empty);
        }
        EvalRow::Separator => panic!("expected data"),
    }
    assert_eq!(resolve_row(&RowRef::Absolute(2), &table, None), Ok(2));
    assert_eq!(resolve_row(&RowRef::Last, &table, None), Ok(5));
    assert_eq!(resolve_row(&RowRef::HGroup(1), &table, None), Ok(2));
    assert_eq!(resolve_row(&RowRef::HGroup(2), &table, None), Ok(5));
    assert_eq!(
        resolve_row(&RowRef::HGroup(3), &table, None),
        Err(TblfmError::Eval("hgroup @III out of range (only 2 separators)".to_string()))
    );
    assert_eq!(
        resolve_row(&RowRef::Absolute(9), &table, None),
        Err(TblfmError::Eval("row @9 out of range (1..4)".to_string()))
    );
    assert_eq!(resolve_row(&RowRef::Relative(-1), &table, Some(3)), Ok(2));
    assert_eq!(
        resolve_row(&RowRef::Relative(4), &table, Some(3)),
        Err(TblfmError::Eval("relative row @+4 out of range from row 3".to_string()))
    );
    assert_eq!(resolve_col(&ColRef::Named("qty".to_string()), &table, &[]), Ok(2));
    assert_eq!(
        resolve_col(&ColRef::Named("pi".to_string()), &table, &["pi".to_string()]),
        Err(TblfmError::Eval("$pi is a constant, not a column reference".to_string()))
    );
    assert_eq!(
        resolve_col(&ColRef::Absolute(4), &table, &[]),
        Err(TblfmError::Eval("column $4 out of range (1..3)".to_string()))
    );
}

#[test]
fn tblfm_cell_update_pads_row() {
    let mut table = parse_eval_table(&["| a |", "|---|", "| 1 |"]);
    apply_cell_update(&mut table, 2, 2, "4.5");
    match &table.rows[2] {
        EvalRow::Data(cells) => {
            assert_eq!(cells.len(), 3);
            assert_eq!(cells[1], CellValue::Empty);
            assert_eq!(cells[2], CellValue::Number("4.5".to_string()));
        }
        EvalRow::Separator => panic!("expected data"),
    }
}

#[test]
fn tblfm_regions_found() {
    let content = "Intro\n| a | 1 |\n| b | 2 |\n#+TBLFM: $2=$1\n#+tblfm: $3=1\nText\n| x |\n";
    let regions = find_table_tblfm_regions(content);
    assert_eq!(regions.len(), 1);
    assert_eq!(regions[0].table_start, 6);
    assert_eq!(regions[0].table_end, 26);
    assert_eq!(regions[0].table_text, "| a | 1 |\n| b | 2 |");
    assert_eq!(regions[0].tblfm_lines, vec![" $2=$1".to_string(), " $3=1".to_string()]);
}
