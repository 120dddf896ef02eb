//! Table formulas (`#+TBLFM:`): cell references, the formula tokenizer and
//! parser, the table that formulas read, and the regions of a document where
//! a table is followed by formula lines.
//!
//! Numbers stay the text that the formula or the cell holds: a number literal
//! of a formula is kept as written, and a numeric cell as its cleaned text.
//! Computing with them is left to the caller.
use vstd::prelude::*;
use crate::text::{
    all_digits, char_is_ascii_alpha, eq_ignore_case, lead_count, trail_count, char_is_digit, eq_str, find_char, find_char_at, is_ascii_alnum, is_ascii_alpha,
    is_digit, parse_i64, parse_i64_at, parse_unsigned, parse_unsigned_at, push_all, push_str, starts_with, string_from, trim,
    trim_range,
};

verus! {

// ---------------------------------------------------------------------------
// References
// ---------------------------------------------------------------------------
/// A row reference in a formula.
#[derive(Debug, Clone, Copy, PartialEq, Eq, Structural)]
pub enum RowRef {
    /// `@N`: absolute row, counting data rows from 1.
    Absolute(usize),
    /// `@>`: last data row.
    Last,
    /// `@<`: first data row.
    First,
    /// `@I`, `@II`, ...: first data row after the Nth separator.
    HGroup(usize),
    /// `@-N`, `@+N`, `@#`: relative to the current row.
    Relative(i32),
}

/// A column reference in a formula.
#[derive(Debug, Clone, PartialEq)]
pub enum ColRef {
    /// `$N`: absolute column, from 1.
    Absolute(usize),
    /// `$>`: last column.
    Last,
    /// `$<`: first column.
    First,
    /// `$name`: a named constant or a column header.
    Named(String),
}

/// Where a formula writes its result.
#[derive(Debug, Clone, PartialEq)]
pub enum CellTarget {
    /// `@R$C`: one cell.
    Cell(RowRef, ColRef),
    /// `$C`: every data row of a column.
    Column(ColRef),
}

/// A range reference `@R1$C1..@R2$C2`.
#[derive(Debug, Clone, PartialEq)]
pub struct RangeRef {
    pub start_row: RowRef,
    pub start_col: ColRef,
    pub end_row: RowRef,
    pub end_col: ColRef,
}

/// A binary operator.
#[derive(Debug, Clone, Copy, PartialEq, Eq, Structural)]
pub enum Op {
    Add,
    Sub,
    Mul,
    Div,
    Mod,
}

/// A formula expression.
#[derive(Debug, PartialEq)]
pub enum Expr {
    /// A number literal, as written: an optional `-`, then digits with at most one `.`.
    Number(String),
    /// A cell reference `@R$C` (`$C` alone refers to the current row).
    CellRef(RowRef, ColRef),
    /// A range `ref..ref`.
    Range(Box<RangeRef>),
    BinOp(Box<Expr>, Op, Box<Expr>),
    /// Unary minus.
    Neg(Box<Expr>),
    /// A call of a supported function such as `vsum` or `abs`.
    FnCall(String, Vec<Expr>),
    /// A named constant from `#+CONSTANTS:`.
    Constant(String),
    /// What only Emacs can compute: Lisp, or a call of another function.
    Elisp(String),
}

/// One `TARGET=EXPR` assignment of a formula line.
#[derive(Debug)]
pub struct Assignment {
    pub target: CellTarget,
    pub expr: Expr,
}

/// An error met in parsing or evaluating a formula.
#[derive(Debug, Clone, PartialEq)]
pub enum TblfmError {
    /// A syntax error.
    Parse(String),
    /// The formula needs Emacs.
    RequiresEmacs(String),
    /// An error of evaluation, such as a reference out of range.
    Eval(String),
}

impl TblfmError {
    /// The message of the error, with its kind.
    pub fn describe(&self) -> (r: String)
        ensures
            r@ == describe_spec(err_view(*self)),
    {
        let mut m: Vec<char> = Vec::new();
        match self {
            TblfmError::Parse(msg) => {
                push_str(&mut m, "formula parse error: ");
                push_str(&mut m, msg.as_str());
            },
            TblfmError::RequiresEmacs(msg) => {
                push_str(&mut m, "requires Emacs: ");
                push_str(&mut m, msg.as_str());
            },
            TblfmError::Eval(msg) => {
                push_str(&mut m, "evaluation error: ");
                push_str(&mut m, msg.as_str());
            },
        }
        string_from(m.as_slice())
    }
}

pub enum ColView {
    Absolute(int),
    Last,
    First,
    Named(Seq<char>),
}

pub enum TargetView {
    Cell(RowRef, ColView),
    Column(ColView),
}

pub enum ExprView {
    Number(Seq<char>),
    CellRef(RowRef, ColView),
    Range(RowRef, ColView, RowRef, ColView),
    BinOp(Box<ExprView>, Op, Box<ExprView>),
    Neg(Box<ExprView>),
    FnCall(Seq<char>, Seq<ExprView>),
    Constant(Seq<char>),
    Elisp(Seq<char>),
}

pub enum ErrView {
    Parse(Seq<char>),
    RequiresEmacs(Seq<char>),
    Eval(Seq<char>),
}

pub open spec fn col_view(c: ColRef) -> ColView {
    match c {
        ColRef::Absolute(n) => ColView::Absolute(n as int),
        ColRef::Last => ColView::Last,
        ColRef::First => ColView::First,
        ColRef::Named(s) => ColView::Named(s@),
    }
}

pub open spec fn target_view(t: CellTarget) -> TargetView {
    match t {
        CellTarget::Cell(r, c) => TargetView::Cell(r, col_view(c)),
        CellTarget::Column(c) => TargetView::Column(col_view(c)),
    }
}

pub open spec fn expr_view(e: Expr) -> ExprView
    decreases e, 1int,
{
    match e {
        Expr::Number(s) => ExprView::Number(s@),
        Expr::CellRef(r, c) => ExprView::CellRef(r, col_view(c)),
        Expr::Range(b) => ExprView::Range(b.start_row, col_view(b.start_col), b.end_row, col_view(b.end_col)),
        Expr::BinOp(l, op, r) => ExprView::BinOp(Box::new(expr_view(*l)), op, Box::new(expr_view(*r))),
        Expr::Neg(x) => ExprView::Neg(Box::new(expr_view(*x))),
        Expr::FnCall(n, args) => ExprView::FnCall(n@, exprs_view(args@)),
        Expr::Constant(s) => ExprView::Constant(s@),
        Expr::Elisp(s) => ExprView::Elisp(s@),
    }
}

pub open spec fn exprs_view(s: Seq<Expr>) -> Seq<ExprView>
    decreases s, 0int,
{
    if s.len() == 0 {
        Seq::empty()
    } else {
        seq![expr_view(s[0])] + exprs_view(s.subrange(1, s.len() as int))
    }
}

pub open spec fn err_view(e: TblfmError) -> ErrView {
    match e {
        TblfmError::Parse(m) => ErrView::Parse(m@),
        TblfmError::RequiresEmacs(m) => ErrView::RequiresEmacs(m@),
        TblfmError::Eval(m) => ErrView::Eval(m@),
    }
}

pub open spec fn describe_spec(e: ErrView) -> Seq<char> {
    match e {
        ErrView::Parse(m) => "formula parse error: "@ + m,
        ErrView::RequiresEmacs(m) => "requires Emacs: "@ + m,
        ErrView::Eval(m) => "evaluation error: "@ + m,
    }
}

pub proof fn lemma_exprs_push(s: Seq<Expr>, e: Expr)
    ensures
        exprs_view(s.push(e)) == exprs_view(s).push(expr_view(e)),
    decreases s.len(),
{
    if s.len() == 0 {
        assert(s.push(e).subrange(1, 1) =~= Seq::<Expr>::empty());
        assert(exprs_view(Seq::<Expr>::empty()) == Seq::<ExprView>::empty());
        assert(exprs_view(s.push(e)) =~= seq![expr_view(e)]);
    } else {
        assert(s.push(e).subrange(1, s.len() as int + 1) =~= s.subrange(1, s.len() as int).push(e));
        lemma_exprs_push(s.subrange(1, s.len() as int), e);
        assert(s.push(e)[0] == s[0]);
        assert(exprs_view(s.push(e)) =~= exprs_view(s).push(expr_view(e)));
    }
}

fn parse_err(m: Vec<char>) -> (e: TblfmError)
    ensures
        err_view(e) == ErrView::Parse(m@),
{
    TblfmError::Parse(string_from(m.as_slice()))
}

fn parse_err_str(m: &str) -> (e: TblfmError)
    ensures
        err_view(e) == ErrView::Parse(m@),
{
    TblfmError::Parse(m.to_owned())
}

// ---------------------------------------------------------------------------
// Roman numerals, row and column references
// ---------------------------------------------------------------------------
pub open spec fn roman_digit(c: char) -> int {
    if c == 'I' {
        1
    } else if c == 'V' {
        5
    } else if c == 'X' {
        10
    } else {
        0
    }
}

/// The running total and the last digit value after reading the last `n`
/// characters of `t`, right to left: a digit smaller than the one after it
/// is subtracted, any other is added.
pub open spec fn roman_acc(t: Seq<char>, n: nat) -> (int, int)
    decreases n,
{
    if n == 0 || n > t.len() {
        (0, 0)
    } else {
        let (total, prev) = roman_acc(t, (n - 1) as nat);
        let v = roman_digit(t[t.len() - n]);
        (if v < prev { total - v } else { total + v }, v)
    }
}

/// The value of a Roman numeral made of `I`, `V` and `X`.
pub open spec fn roman_value(t: Seq<char>) -> int {
    roman_acc(t, t.len()).0
}

/// The value of a simple Roman numeral (`I`, `II`, `IV`, `X`, ...).
pub fn parse_roman(s: &str) -> (n: usize)
    ensures
        n == roman_value(s@) as usize,
{
    let c: Vec<char> = crate::text::str_chars(s);
    assert(c@.subrange(0, c@.len() as int) =~= c@);
    roman_at(c.as_slice(), 0, c.len())
}

fn roman_at(s: &[char], lo: usize, hi: usize) -> (n: usize)
    requires
        lo <= hi <= s@.len(),
    ensures
        n == roman_value(s@.subrange(lo as int, hi as int)) as usize,
{
    let ghost t = s@.subrange(lo as int, hi as int);
    let mut total: u128 = 0;
    let mut prev: u128 = 0;
    let mut k: usize = 0;
    while k < hi - lo
        invariant
            lo <= hi <= s@.len(),
            t == s@.subrange(lo as int, hi as int),
            k <= hi - lo,
            (total as int, prev as int) == roman_acc(t, k as nat),
            total >= prev,
            prev == 0 || prev == 1 || prev == 5 || prev == 10,
            total <= 10 * k,
        decreases hi - lo - k,
    {
        let ch = s[hi - 1 - k];
        assert(t[t.len() - (k + 1)] == ch);
        let v: u128 = if ch == 'I' {
            1
        } else if ch == 'V' {
            5
        } else if ch == 'X' {
            10
        } else {
            0
        };
        if v < prev {
            total = total - v;
        } else {
            total = total + v;
        }
        prev = v;
        k += 1;
    }
    total as usize
}

pub open spec fn is_roman_char(c: char) -> bool {
    c == 'I' || c == 'V' || c == 'X'
}

pub open spec fn all_roman(t: Seq<char>) -> bool {
    forall|i: int| 0 <= i < t.len() ==> is_roman_char(#[trigger] t[i])
}

/// What `str::parse::<i32>` gives.
pub open spec fn parse_i32(t: Seq<char>) -> Option<int> {
    match parse_i64(t) {
        Some(v) => if -0x8000_0000 <= v <= 0x7fff_ffff {
            Some(v)
        } else {
            None
        },
        None => None,
    }
}

/// The row reference that the text after `@` names.
pub open spec fn row_ref_spec(s: Seq<char>) -> Result<RowRef, ErrView> {
    let t = trim(s);
    if t == ">"@ {
        Ok(RowRef::Last)
    } else if t == "<"@ {
        Ok(RowRef::First)
    } else if t == "#"@ {
        Ok(RowRef::Relative(0))
    } else if t.len() > 0 && all_roman(t) {
        Ok(RowRef::HGroup(roman_value(t) as usize))
    } else if t.len() > 0 && (t[0] == '-' || t[0] == '+') {
        match parse_i32(t) {
            Some(v) => Ok(RowRef::Relative(v as i32)),
            None => Err(ErrView::Parse("invalid relative row: @"@ + t)),
        }
    } else {
        match parse_unsigned(t, usize::MAX as nat) {
            Some(v) => Ok(RowRef::Absolute(v as usize)),
            None => Err(ErrView::Parse("invalid row reference: @"@ + t)),
        }
    }
}

/// The column reference that the text after `$` names.
pub open spec fn col_ref_spec(s: Seq<char>) -> ColView {
    let t = trim(s);
    if t == ">"@ {
        ColView::Last
    } else if t == "<"@ {
        ColView::First
    } else if t == "#"@ {
        ColView::Absolute(0)
    } else {
        match parse_unsigned(t, usize::MAX as nat) {
            Some(v) => ColView::Absolute(v as int),
            None => ColView::Named(t),
        }
    }
}

fn all_roman_at(s: &[char], lo: usize, hi: usize) -> (b: bool)
    requires
        lo <= hi <= s@.len(),
    ensures
        b == all_roman(s@.subrange(lo as int, hi as int)),
{
    let ghost t = s@.subrange(lo as int, hi as int);
    let mut i = lo;
    while i < hi
        invariant
            lo <= i <= hi <= s@.len(),
            t == s@.subrange(lo as int, hi as int),
            forall|j: int| 0 <= j < i - lo ==> is_roman_char(#[trigger] t[j]),
        decreases hi - i,
    {
        let c = s[i];
        if !(c == 'I' || c == 'V' || c == 'X') {
            assert(t[i - lo] == c);
            return false;
        }
        i += 1;
    }
    true
}

fn row_ref_at(s: &[char], lo: usize, hi: usize) -> (r: Result<RowRef, TblfmError>)
    requires
        lo <= hi <= s@.len(),
    ensures
        match r {
            Ok(x) => row_ref_spec(s@.subrange(lo as int, hi as int)) == Ok::<RowRef, ErrView>(x),
            Err(e) => row_ref_spec(s@.subrange(lo as int, hi as int)) == Err::<RowRef, ErrView>(err_view(e)),
        },
{
    let (a, b) = trim_range(s, lo, hi);
    let ghost t = s@.subrange(a as int, b as int);
    if eq_str(s, a, b, ">") {
        Ok(RowRef::Last)
    } else if eq_str(s, a, b, "<") {
        Ok(RowRef::First)
    } else if eq_str(s, a, b, "#") {
        Ok(RowRef::Relative(0))
    } else if b > a && all_roman_at(s, a, b) {
        let n = roman_at(s, a, b);
        Ok(RowRef::HGroup(n))
    } else if b > a && (s[a] == '-' || s[a] == '+') {
        assert(t[0] == s@[a as int]);
        match parse_i64_at(s, a, b) {
            Some(v) => {
                if -0x8000_0000 <= v && v <= 0x7fff_ffff {
                    Ok(RowRef::Relative(v as i32))
                } else {
                    Err(row_err(s, a, b, "invalid relative row: @"))
                }
            },
            None => Err(row_err(s, a, b, "invalid relative row: @")),
        }
    } else {
        proof {
            if b > a {
                assert(t[0] == s@[a as int]);
            }
        }
        match parse_unsigned_at(s, a, b, usize::MAX as u64) {
            Some(v) => Ok(RowRef::Absolute(v as usize)),
            None => Err(row_err(s, a, b, "invalid row reference: @")),
        }
    }
}

fn row_err(s: &[char], a: usize, b: usize, prefix: &str) -> (e: TblfmError)
    requires
        a <= b <= s@.len(),
    ensures
        err_view(e) == ErrView::Parse(prefix@ + s@.subrange(a as int, b as int)),
{
    let mut m: Vec<char> = Vec::new();
    push_str(&mut m, prefix);
    push_all(&mut m, &s[a..b]);
    parse_err(m)
}

fn col_ref_at(s: &[char], lo: usize, hi: usize) -> (c: ColRef)
    requires
        lo <= hi <= s@.len(),
    ensures
        col_view(c) == col_ref_spec(s@.subrange(lo as int, hi as int)),
{
    let (a, b) = trim_range(s, lo, hi);
    if eq_str(s, a, b, ">") {
        ColRef::Last
    } else if eq_str(s, a, b, "<") {
        ColRef::First
    } else if eq_str(s, a, b, "#") {
        ColRef::Absolute(0)
    } else {
        match parse_unsigned_at(s, a, b, usize::MAX as u64) {
            Some(v) => ColRef::Absolute(v as usize),
            None => ColRef::Named(string_from(&s[a..b])),
        }
    }
}

/// The row and column parts of a reference `@R$C`, `@R` or `$C`.
pub open spec fn cell_ref_spec(s: Seq<char>) -> Result<(Option<RowRef>, Option<ColView>), ErrView> {
    if s.len() > 0 && s[0] == '@' {
        let rest = s.drop_first();
        match find_char(rest, '$') {
            Some(d) => match row_ref_spec(rest.take(d)) {
                Ok(r) => Ok((Some(r), Some(col_ref_spec(rest.skip(d + 1))))),
                Err(e) => Err(e),
            },
            None => match row_ref_spec(rest) {
                Ok(r) => Ok((Some(r), None)),
                Err(e) => Err(e),
            },
        }
    } else if s.len() > 0 && s[0] == '$' {
        Ok((None, Some(col_ref_spec(s.drop_first()))))
    } else {
        Err(ErrView::Parse("expected cell reference: "@ + s))
    }
}

pub open spec fn opt_col_view(c: Option<ColRef>) -> Option<ColView> {
    match c {
        Some(x) => Some(col_view(x)),
        None => None,
    }
}

pub open spec fn cell_res_view(r: Result<(Option<RowRef>, Option<ColRef>), TblfmError>) -> Result<
    (Option<RowRef>, Option<ColView>),
    ErrView,
> {
    match r {
        Ok((a, b)) => Ok((a, opt_col_view(b))),
        Err(e) => Err(err_view(e)),
    }
}

fn cell_ref_at(s: &[char], lo: usize, hi: usize) -> (r: Result<(Option<RowRef>, Option<ColRef>), TblfmError>)
    requires
        lo <= hi <= s@.len(),
    ensures
        cell_res_view(r) == cell_ref_spec(s@.subrange(lo as int, hi as int)),
{
    let ghost t = s@.subrange(lo as int, hi as int);
    if hi > lo && s[lo] == '@' {
        assert(t[0] == s@[lo as int]);
        let ghost rest = t.drop_first();
        assert(rest =~= s@.subrange(lo + 1, hi as int));
        match find_char_at(s, lo + 1, hi, '$') {
            Some(d) => {
                assert(rest.take(d - lo - 1) =~= s@.subrange(lo + 1, d as int));
                assert(rest.skip(d - lo) =~= s@.subrange(d + 1, hi as int));
                match row_ref_at(s, lo + 1, d) {
                    Ok(row) => {
                        let col = col_ref_at(s, d + 1, hi);
                        Ok((Some(row), Some(col)))
                    },
                    Err(e) => Err(e),
                }
            },
            None => match row_ref_at(s, lo + 1, hi) {
                Ok(row) => Ok((Some(row), None)),
                Err(e) => Err(e),
            },
        }
    } else if hi > lo && s[lo] == '$' {
        assert(t[0] == s@[lo as int]);
        assert(t.drop_first() =~= s@.subrange(lo + 1, hi as int));
        let col = col_ref_at(s, lo + 1, hi);
        Ok((None, Some(col)))
    } else {
        proof {
            if hi > lo {
                assert(t[0] == s@[lo as int]);
            }
        }
        let mut m: Vec<char> = Vec::new();
        push_str(&mut m, "expected cell reference: ");
        push_all(&mut m, &s[lo..hi]);
        Err(parse_err(m))
    }
}

/// Parses a reference `@R$C`, `@R` or `$C` into its row and column parts.
pub fn parse_cell_ref(s: &str) -> (r: Result<(Option<RowRef>, Option<ColRef>), TblfmError>)
    ensures
        cell_res_view(r) == cell_ref_spec(s@),
{
    let c: Vec<char> = crate::text::str_chars(s);
    assert(c@.subrange(0, c@.len() as int) =~= c@);
    cell_ref_at(c.as_slice(), 0, c.len())
}

/// The target that the left side of an assignment names.
pub open spec fn target_spec(s: Seq<char>) -> Result<TargetView, ErrView> {
    match cell_ref_spec(s) {
        Ok((Some(r), Some(c))) => Ok(TargetView::Cell(r, c)),
        Ok((None, Some(c))) => Ok(TargetView::Column(c)),
        Ok(_) => Err(ErrView::Parse("invalid target: "@ + s)),
        Err(e) => Err(e),
    }
}

pub open spec fn target_res_view(r: Result<CellTarget, TblfmError>) -> Result<TargetView, ErrView> {
    match r {
        Ok(t) => Ok(target_view(t)),
        Err(e) => Err(err_view(e)),
    }
}

fn target_at(s: &[char], lo: usize, hi: usize) -> (r: Result<CellTarget, TblfmError>)
    requires
        lo <= hi <= s@.len(),
    ensures
        target_res_view(r) == target_spec(s@.subrange(lo as int, hi as int)),
{
    match cell_ref_at(s, lo, hi) {
        Ok((Some(row), Some(col))) => Ok(CellTarget::Cell(row, col)),
        Ok((None, Some(col))) => Ok(CellTarget::Column(col)),
        Ok(_) => {
            let mut m: Vec<char> = Vec::new();
            push_str(&mut m, "invalid target: ");
            push_all(&mut m, &s[lo..hi]);
            Err(parse_err(m))
        },
        Err(e) => Err(e),
    }
}

// ---------------------------------------------------------------------------
// Tokenizer
// ---------------------------------------------------------------------------
/// A token of a formula expression.
enum Token {
    /// A number literal as written.
    Number(Vec<char>),
    /// `@R$C` or `$C`.
    CellRef(Vec<char>),
    /// `ref..ref`.
    Range(Vec<char>, Vec<char>),
    /// A function or constant name.
    Ident(Vec<char>),
    LParen,
    RParen,
    Comma,
    Plus,
    Minus,
    Star,
    Slash,
    Percent,
}

pub enum TokView {
    Number(Seq<char>),
    CellRef(Seq<char>),
    Range(Seq<char>, Seq<char>),
    Ident(Seq<char>),
    LParen,
    RParen,
    Comma,
    Plus,
    Minus,
    Star,
    Slash,
    Percent,
}

spec fn tok_view(t: Token) -> TokView {
    match t {
        Token::Number(n) => TokView::Number(n@),
        Token::CellRef(r) => TokView::CellRef(r@),
        Token::Range(a, b) => TokView::Range(a@, b@),
        Token::Ident(n) => TokView::Ident(n@),
        Token::LParen => TokView::LParen,
        Token::RParen => TokView::RParen,
        Token::Comma => TokView::Comma,
        Token::Plus => TokView::Plus,
        Token::Minus => TokView::Minus,
        Token::Star => TokView::Star,
        Token::Slash => TokView::Slash,
        Token::Percent => TokView::Percent,
    }
}

spec fn toks_view(v: Seq<Token>) -> Seq<TokView> {
    v.map_values(|t: Token| tok_view(t))
}

/// The characters that a run of kind `k` takes: 0 the row part of a
/// reference, 1 its column part, 2 the body of a number, 3 a name.
pub open spec fn in_class(k: int, c: char) -> bool {
    if k == 0 {
        is_ascii_alnum(c) || c == '>' || c == '<' || c == '+' || c == '-' || c == '#'
    } else if k == 1 {
        is_ascii_alnum(c) || c == '>' || c == '<' || c == '_' || c == '#'
    } else if k == 2 {
        is_digit(c) || c == '.'
    } else {
        is_ascii_alnum(c) || c == '_'
    }
}

/// The end of the run of kind `k` that starts at `p`.
pub open spec fn run_end(t: Seq<char>, p: int, k: int) -> int
    decreases t.len() - p,
{
    if 0 <= p < t.len() && in_class(k, t[p]) {
        run_end(t, p + 1, k)
    } else {
        p
    }
}

/// The end of the reference that starts at `p`: `@` and a row part, then `$` and a column part.
pub open spec fn ref_end(t: Seq<char>, p: int) -> int {
    let j = if 0 <= p < t.len() && t[p] == '@' {
        run_end(t, p + 1, 0)
    } else {
        p
    };
    if 0 <= j < t.len() && t[j] == '$' {
        run_end(t, j + 1, 1)
    } else {
        j
    }
}

/// The first index from `p` on that is neither a space nor a tab.
pub open spec fn skip_blank(t: Seq<char>, p: int) -> int
    decreases t.len() - p,
{
    if 0 <= p < t.len() && (t[p] == ' ' || t[p] == '\t') {
        skip_blank(t, p + 1)
    } else {
        p
    }
}

/// The number of dots and whether a digit occurs.
pub open spec fn num_shape(b: Seq<char>) -> (nat, bool)
    decreases b.len(),
{
    if b.len() == 0 {
        (0, false)
    } else {
        let (d, g) = num_shape(b.drop_last());
        (if b.last() == '.' { d + 1 } else { d }, g || is_digit(b.last()))
    }
}

/// Whether `str::parse::<f64>` accepts an optional `-` followed by digits and
/// dots: at most one dot and at least one digit.
pub open spec fn valid_number(t: Seq<char>) -> bool {
    let b = if t.len() > 0 && t[0] == '-' {
        t.drop_first()
    } else {
        t
    };
    num_shape(b).0 <= 1 && num_shape(b).1
}

/// The next token from `p0` on and the index after it (`None` at the end);
/// `first` tells whether no token came before. A `-` is a minus sign unless
/// it starts the expression, where it starts a number.
pub open spec fn next_tok(t: Seq<char>, p0: int, first: bool) -> Result<Option<(TokView, int)>, Seq<char>> {
    let p = skip_blank(t, p0);
    if p < 0 || p >= t.len() {
        Ok(None)
    } else {
        let c = t[p];
        if c == '(' {
            Ok(Some((TokView::LParen, p + 1)))
        } else if c == ')' {
            Ok(Some((TokView::RParen, p + 1)))
        } else if c == ',' {
            Ok(Some((TokView::Comma, p + 1)))
        } else if c == '+' {
            Ok(Some((TokView::Plus, p + 1)))
        } else if c == '-' && !first {
            Ok(Some((TokView::Minus, p + 1)))
        } else if c == '*' {
            Ok(Some((TokView::Star, p + 1)))
        } else if c == '/' {
            Ok(Some((TokView::Slash, p + 1)))
        } else if c == '%' {
            Ok(Some((TokView::Percent, p + 1)))
        } else if c == '@' || c == '$' {
            let j = ref_end(t, p);
            if j + 1 < t.len() && t[j] == '.' && t[j + 1] == '.' {
                let k = ref_end(t, j + 2);
                Ok(Some((TokView::Range(t.subrange(p, j), t.subrange(j + 2, k)), k)))
            } else {
                Ok(Some((TokView::CellRef(t.subrange(p, j)), j)))
            }
        } else if is_digit(c) || c == '-' {
            let k = run_end(t, if c == '-' { p + 1 } else { p }, 2);
            let lexeme = t.subrange(p, k);
            if valid_number(lexeme) {
                Ok(Some((TokView::Number(lexeme), k)))
            } else {
                Err("invalid number: "@ + lexeme)
            }
        } else if is_ascii_alpha(c) || c == '_' {
            let k = run_end(t, p, 3);
            Ok(Some((TokView::Ident(t.subrange(p, k)), k)))
        } else {
            Err("unexpected character: '"@ + seq![c] + "'"@)
        }
    }
}

/// The tokens of `t` from `p` on, or the message of the first error.
pub open spec fn lex_from(t: Seq<char>, p: int, first: bool) -> Result<Seq<TokView>, Seq<char>>
    decreases t.len() - p,
{
    match next_tok(t, p, first) {
        Err(m) => Err(m),
        Ok(None) => Ok(Seq::empty()),
        Ok(Some((tk, e))) => if p < e <= t.len() {
            match lex_from(t, e, false) {
                Ok(r) => Ok(seq![tk] + r),
                Err(m) => Err(m),
            }
        } else {
            Ok(Seq::empty())
        },
    }
}

pub open spec fn prepend(a: Seq<TokView>, r: Result<Seq<TokView>, Seq<char>>) -> Result<Seq<TokView>, Seq<char>> {
    match r {
        Ok(x) => Ok(a + x),
        Err(m) => Err(m),
    }
}

proof fn lemma_run_end(t: Seq<char>, p: int, k: int)
    requires
        0 <= p <= t.len(),
    ensures
        p <= run_end(t, p, k) <= t.len(),
    decreases t.len() - p,
{
    if p < t.len() && in_class(k, t[p]) {
        lemma_run_end(t, p + 1, k);
    }
}

proof fn lemma_skip_blank(t: Seq<char>, p: int)
    requires
        0 <= p <= t.len(),
    ensures
        p <= skip_blank(t, p) <= t.len(),
    decreases t.len() - p,
{
    if p < t.len() && (t[p] == ' ' || t[p] == '\t') {
        lemma_skip_blank(t, p + 1);
    }
}

fn char_in_class(k: u8, c: char) -> (b: bool)
    ensures
        b == in_class(k as int, c),
{
    let alnum = char_is_ascii_alpha(c) || char_is_digit(c);
    if k == 0 {
        alnum || c == '>' || c == '<' || c == '+' || c == '-' || c == '#'
    } else if k == 1 {
        alnum || c == '>' || c == '<' || c == '_' || c == '#'
    } else if k == 2 {
        char_is_digit(c) || c == '.'
    } else {
        alnum || c == '_'
    }
}

fn run_end_at(s: &[char], p: usize, k: u8) -> (e: usize)
    requires
        p <= s@.len(),
    ensures
        e == run_end(s@, p as int, k as int),
        p <= e <= s@.len(),
{
    let mut q = p;
    while q < s.len() && char_in_class(k, s[q])
        invariant
            p <= q <= s@.len(),
            run_end(s@, p as int, k as int) == run_end(s@, q as int, k as int),
        decreases s.len() - q,
    {
        q += 1;
    }
    q
}

fn ref_end_at(s: &[char], p: usize) -> (e: usize)
    requires
        p <= s@.len(),
    ensures
        e == ref_end(s@, p as int),
        p <= e <= s@.len(),
{
    let j = if p < s.len() && s[p] == '@' {
        run_end_at(s, p + 1, 0)
    } else {
        p
    };
    if j < s.len() && s[j] == '$' {
        run_end_at(s, j + 1, 1)
    } else {
        j
    }
}

fn number_ok(s: &[char], lo: usize, hi: usize) -> (b: bool)
    requires
        lo <= hi <= s@.len(),
    ensures
        b == valid_number(s@.subrange(lo as int, hi as int)),
{
    let ghost t = s@.subrange(lo as int, hi as int);
    let start = if hi > lo && s[lo] == '-' {
        lo + 1
    } else {
        lo
    };
    let ghost b = s@.subrange(start as int, hi as int);
    proof {
        if hi > lo {
            assert(t[0] == s@[lo as int]);
        }
        if start == lo + 1 {
            assert(b =~= t.drop_first());
        } else {
            assert(b =~= t);
        }
    }
    let mut dots: usize = 0;
    let mut digit = false;
    let mut i = start;
    while i < hi
        invariant
            start <= i <= hi <= s@.len(),
            b == s@.subrange(start as int, hi as int),
            (dots as nat, digit) == num_shape(b.take(i - start)),
            dots <= i - start,
        decreases hi - i,
    {
        let c = s[i];
        assert(b.take(i - start + 1).drop_last() =~= b.take(i - start));
        assert(b.take(i - start + 1).last() == c);
        if c == '.' {
            dots += 1;
        }
        if char_is_digit(c) {
            digit = true;
        }
        i += 1;
    }
    assert(b.take(hi - start) =~= b);
    dots <= 1 && digit
}

fn next_token(s: &[char], p0: usize, first: bool) -> (r: Result<Option<(Token, usize)>, Vec<char>>)
    requires
        p0 <= s@.len(),
    ensures
        match r {
            Ok(Some((tk, e))) => next_tok(s@, p0 as int, first) == Ok::<Option<(TokView, int)>, Seq<char>>(
                Some((tok_view(tk), e as int)),
            ) && p0 < e <= s@.len(),
            Ok(None) => next_tok(s@, p0 as int, first) == Ok::<Option<(TokView, int)>, Seq<char>>(None),
            Err(m) => next_tok(s@, p0 as int, first) == Err::<Option<(TokView, int)>, Seq<char>>(m@),
        },
{
    let mut p = p0;
    while p < s.len() && (s[p] == ' ' || s[p] == '\t')
        invariant
            p0 <= p <= s@.len(),
            skip_blank(s@, p0 as int) == skip_blank(s@, p as int),
        decreases s.len() - p,
    {
        p += 1;
    }
    if p >= s.len() {
        return Ok(None);
    }
    let c = s[p];
    if c == '(' {
        Ok(Some((Token::LParen, p + 1)))
    } else if c == ')' {
        Ok(Some((Token::RParen, p + 1)))
    } else if c == ',' {
        Ok(Some((Token::Comma, p + 1)))
    } else if c == '+' {
        Ok(Some((Token::Plus, p + 1)))
    } else if c == '-' && !first {
        Ok(Some((Token::Minus, p + 1)))
    } else if c == '*' {
        Ok(Some((Token::Star, p + 1)))
    } else if c == '/' {
        Ok(Some((Token::Slash, p + 1)))
    } else if c == '%' {
        Ok(Some((Token::Percent, p + 1)))
    } else if c == '@' || c == '$' {
        let j = ref_end_at(s, p);
        proof {
            if c == '@' {
                lemma_run_end(s@, p + 1, 0);
                let j1 = run_end(s@, p + 1, 0);
                if j1 < s@.len() && s@[j1] == '$' {
                    lemma_run_end(s@, j1 + 1, 1);
                }
            } else {
                lemma_run_end(s@, p + 1, 1);
            }
        }
        assert(j > p);
        if j < s.len() && s[j] == '.' && j + 1 < s.len() && s[j + 1] == '.' {
            let k = ref_end_at(s, j + 2);
            let a = crate::text::copy_range(s, p, j);
            let b = crate::text::copy_range(s, j + 2, k);
            Ok(Some((Token::Range(a, b), k)))
        } else {
            let a = crate::text::copy_range(s, p, j);
            Ok(Some((Token::CellRef(a), j)))
        }
    } else if char_is_digit(c) || c == '-' {
        let st = if c == '-' {
            p + 1
        } else {
            p
        };
        let k = run_end_at(s, st, 2);
        let lexeme = crate::text::copy_range(s, p, k);
        if number_ok(s, p, k) {
            proof {
                if c != '-' {
                    assert(is_digit(c));
                    lemma_run_end(s@, p + 1, 2);
                    assert(run_end(s@, p as int, 2) == run_end(s@, p + 1, 2));
                }
            }
            assert(k > p) by {
                if c != '-' {
                    lemma_run_end(s@, p + 1, 2);
                }
            }
            Ok(Some((Token::Number(lexeme), k)))
        } else {
            let mut m: Vec<char> = Vec::new();
            push_str(&mut m, "invalid number: ");
            push_all(&mut m, lexeme.as_slice());
            Err(m)
        }
    } else if char_is_ascii_alpha(c) || c == '_' {
        let k = run_end_at(s, p, 3);
        proof {
            lemma_run_end(s@, p + 1, 3);
        }
        let name = crate::text::copy_range(s, p, k);
        Ok(Some((Token::Ident(name), k)))
    } else {
        let mut m: Vec<char> = Vec::new();
        push_str(&mut m, "unexpected character: '");
        m.push(c);
        push_str(&mut m, "'");
        assert(m@ =~= "unexpected character: '"@ + seq![c] + "'"@);
        Err(m)
    }
}

/// The tokens of `s`, or the message of the first error.
fn tokenize(s: &[char]) -> (r: Result<Vec<Token>, Vec<char>>)
    ensures
        match r {
            Ok(v) => lex_from(s@, 0, true) == Ok::<Seq<TokView>, Seq<char>>(toks_view(v@)),
            Err(m) => lex_from(s@, 0, true) == Err::<Seq<TokView>, Seq<char>>(m@),
        },
{
    let mut out: Vec<Token> = Vec::new();
    let mut p: usize = 0;
    assert(toks_view(out@) =~= Seq::<TokView>::empty());
    assert(prepend(Seq::<TokView>::empty(), lex_from(s@, 0, true)) =~= lex_from(s@, 0, true)) by {
        match lex_from(s@, 0, true) {
            Ok(x) => assert(Seq::<TokView>::empty() + x =~= x),
            Err(_) => {},
        }
    }
    loop
        invariant
            p <= s@.len(),
            prepend(toks_view(out@), lex_from(s@, p as int, out@.len() == 0)) == lex_from(s@, 0, true),
        decreases s.len() - p,
    {
        let first = out.len() == 0;
        match next_token(s, p, first) {
            Ok(Some((tk, e))) => {
                let ghost tv = tok_view(tk);
                let ghost before = toks_view(out@);
                out.push(tk);
                proof {
                    assert(toks_view(out@) =~= before.push(tv));
                    match lex_from(s@, e as int, false) {
                        Ok(x) => {
                            assert(before + (seq![tv] + x) =~= before.push(tv) + x);
                        },
                        Err(_) => {},
                    }
                }
                p = e;
            },
            Ok(None) => {
                proof {
                    assert(toks_view(out@) + Seq::<TokView>::empty() =~= toks_view(out@));
                }
                return Ok(out);
            },
            Err(m) => {
                return Err(m);
            },
        }
    }
}

// ---------------------------------------------------------------------------
// Parser
// ---------------------------------------------------------------------------
/// How a token reads in a message (`Debug` formatting; a number shows as written).
pub open spec fn tok_name(t: TokView) -> Seq<char> {
    match t {
        TokView::Number(n) => "Number("@ + n + ")"@,
        TokView::CellRef(r) => "CellRef(\""@ + r + "\")"@,
        TokView::Range(a, b) => "Range(\""@ + a + "\", \""@ + b + "\")"@,
        TokView::Ident(n) => "Ident(\""@ + n + "\")"@,
        TokView::LParen => "LParen"@,
        TokView::RParen => "RParen"@,
        TokView::Comma => "Comma"@,
        TokView::Plus => "Plus"@,
        TokView::Minus => "Minus"@,
        TokView::Star => "Star"@,
        TokView::Slash => "Slash"@,
        TokView::Percent => "Percent"@,
    }
}

/// The tokens named one after the other, separated by `", "`.
pub open spec fn tok_names(ts: Seq<TokView>) -> Seq<char>
    decreases ts.len(),
{
    if ts.len() == 0 {
        Seq::empty()
    } else if ts.len() == 1 {
        tok_name(ts[0])
    } else {
        tok_names(ts.drop_last()) + ", "@ + tok_name(ts.last())
    }
}

/// The functions that can be computed without Emacs.
pub open spec fn supported_fn(n: Seq<char>) -> bool {
    n == "vsum"@ || n == "vmean"@ || n == "vmin"@ || n == "vmax"@ || n == "vcount"@ || n == "abs"@ || n
        == "round"@ || n == "ceil"@ || n == "floor"@
}

pub open spec fn end_err() -> ErrView {
    ErrView::Parse("unexpected end of expression"@)
}

/// A sum or difference of products from `pos` on, with the index after it.
pub open spec fn additive_spec(tk: Seq<TokView>, pos: int) -> Result<(ExprView, int), ErrView>
    decreases tk.len() - pos, 3int,
{
    if pos < 0 || pos > tk.len() {
        Err(end_err())
    } else {
        match mult_spec(tk, pos) {
            Err(e) => Err(e),
            Ok((l, p)) => if pos < p <= tk.len() {
                additive_rest(tk, l, p)
            } else {
                Ok((l, p))
            },
        }
    }
}

/// Further `+ term` and `- term` after `left`, which ends at `p`.
pub open spec fn additive_rest(tk: Seq<TokView>, left: ExprView, p: int) -> Result<(ExprView, int), ErrView>
    decreases tk.len() - p, 3int,
{
    if 0 <= p < tk.len() && (tk[p] is Plus || tk[p] is Minus) {
        let op = if tk[p] is Plus {
            Op::Add
        } else {
            Op::Sub
        };
        match mult_spec(tk, p + 1) {
            Err(e) => Err(e),
            Ok((r, p2)) => {
                let e = ExprView::BinOp(Box::new(left), op, Box::new(r));
                if p < p2 <= tk.len() {
                    additive_rest(tk, e, p2)
                } else {
                    Ok((e, p2))
                }
            },
        }
    } else {
        Ok((left, p))
    }
}

/// A product or quotient of factors from `pos` on.
pub open spec fn mult_spec(tk: Seq<TokView>, pos: int) -> Result<(ExprView, int), ErrView>
    decreases tk.len() - pos, 2int,
{
    if pos < 0 || pos > tk.len() {
        Err(end_err())
    } else {
        match unary_spec(tk, pos) {
            Err(e) => Err(e),
            Ok((l, p)) => if pos < p <= tk.len() {
                mult_rest(tk, l, p)
            } else {
                Ok((l, p))
            },
        }
    }
}

/// Further `* f`, `/ f` and `% f` after `left`, which ends at `p`.
pub open spec fn mult_rest(tk: Seq<TokView>, left: ExprView, p: int) -> Result<(ExprView, int), ErrView>
    decreases tk.len() - p, 2int,
{
    if 0 <= p < tk.len() && (tk[p] is Star || tk[p] is Slash || tk[p] is Percent) {
        let op = if tk[p] is Star {
            Op::Mul
        } else if tk[p] is Slash {
            Op::Div
        } else {
            Op::Mod
        };
        match unary_spec(tk, p + 1) {
            Err(e) => Err(e),
            Ok((r, p2)) => {
                let e = ExprView::BinOp(Box::new(left), op, Box::new(r));
                if p < p2 <= tk.len() {
                    mult_rest(tk, e, p2)
                } else {
                    Ok((e, p2))
                }
            },
        }
    } else {
        Ok((left, p))
    }
}

/// An atom, negated when a minus sign comes first.
pub open spec fn unary_spec(tk: Seq<TokView>, pos: int) -> Result<(ExprView, int), ErrView>
    decreases tk.len() - pos, 1int,
{
    if 0 <= pos < tk.len() && tk[pos] is Minus {
        match atom_spec(tk, pos + 1) {
            Err(e) => Err(e),
            Ok((x, p)) => Ok((ExprView::Neg(Box::new(x)), p)),
        }
    } else {
        atom_spec(tk, pos)
    }
}

/// A number, reference, range, call, constant or parenthesized expression.
pub open spec fn atom_spec(tk: Seq<TokView>, pos: int) -> Result<(ExprView, int), ErrView>
    decreases tk.len() - pos, 0int,
{
    if pos < 0 || pos >= tk.len() {
        Err(end_err())
    } else {
        match tk[pos] {
            TokView::Number(n) => Ok((ExprView::Number(n), pos + 1)),
            TokView::CellRef(r) => match cell_atom(r) {
                Ok(x) => Ok((x, pos + 1)),
                Err(e) => Err(e),
            },
            TokView::Range(a, b) => match range_atom(a, b) {
                Ok(x) => Ok((x, pos + 1)),
                Err(e) => Err(e),
            },
            TokView::Ident(n) => if pos + 1 < tk.len() && tk[pos + 1] is LParen {
                call_spec(tk, n, pos + 2)
            } else {
                Ok((ExprView::Constant(n), pos + 1))
            },
            TokView::LParen => match additive_spec(tk, pos + 1) {
                Err(e) => Err(e),
                Ok((x, p)) => if 0 <= p < tk.len() && tk[p] is RParen {
                    Ok((x, p + 1))
                } else {
                    Err(ErrView::Parse("missing ')'"@))
                },
            },
            other => Err(ErrView::Parse("unexpected token: "@ + tok_name(other))),
        }
    }
}

/// The arguments of a call of `name` from `q` on, up to the closing parenthesis.
pub open spec fn call_spec(tk: Seq<TokView>, name: Seq<char>, q: int) -> Result<(ExprView, int), ErrView>
    decreases tk.len() - q, 4int,
{
    if 0 <= q < tk.len() && tk[q] is RParen {
        finish_call(tk, name, Seq::empty(), q)
    } else {
        match additive_spec(tk, q) {
            Err(e) => Err(e),
            Ok((a, p)) => if q < p <= tk.len() {
                args_rest(tk, name, seq![a], p)
            } else {
                finish_call(tk, name, seq![a], p)
            },
        }
    }
}

/// Further `, arg` after the arguments `args`, which end at `p`.
pub open spec fn args_rest(tk: Seq<TokView>, name: Seq<char>, args: Seq<ExprView>, p: int) -> Result<
    (ExprView, int),
    ErrView,
>
    decreases tk.len() - p, 4int,
{
    if 0 <= p < tk.len() && tk[p] is Comma {
        match additive_spec(tk, p + 1) {
            Err(e) => Err(e),
            Ok((a, p2)) => if p < p2 <= tk.len() {
                args_rest(tk, name, args.push(a), p2)
            } else {
                finish_call(tk, name, args.push(a), p2)
            },
        }
    } else {
        finish_call(tk, name, args, p)
    }
}

/// The call once its arguments are read: a closing parenthesis must follow.
pub open spec fn finish_call(tk: Seq<TokView>, name: Seq<char>, args: Seq<ExprView>, p: int) -> Result<
    (ExprView, int),
    ErrView,
> {
    if 0 <= p < tk.len() && tk[p] is RParen {
        if supported_fn(name) {
            Ok((ExprView::FnCall(name, args), p + 1))
        } else {
            Ok((ExprView::Elisp(name + "(...)"@), p + 1))
        }
    } else {
        Err(ErrView::Parse("missing ')' in function call: "@ + name))
    }
}

pub open spec fn pres_view(r: Result<(Expr, usize), TblfmError>) -> Result<(ExprView, int), ErrView> {
    match r {
        Ok((e, p)) => Ok((expr_view(e), p as int)),
        Err(e) => Err(err_view(e)),
    }
}

/// The kind code of a punctuation token: 0 `(`, 1 `)`, 2 `,`, 3 `+`, 4 `-`,
/// 5 `*`, 6 `/`, 7 `%`; 8 for the others.
pub open spec fn tok_code(t: TokView) -> u8 {
    match t {
        TokView::LParen => 0,
        TokView::RParen => 1,
        TokView::Comma => 2,
        TokView::Plus => 3,
        TokView::Minus => 4,
        TokView::Star => 5,
        TokView::Slash => 6,
        TokView::Percent => 7,
        _ => 8,
    }
}

/// Whether the token at `i` has the kind code `k`.
fn tok_is(tk: &Vec<Token>, i: usize, k: u8) -> (b: bool)
    requires
        i < tk@.len(),
    ensures
        b == (tok_code(toks_view(tk@)[i as int]) == k),
{
    let t = &tk[i];
    assert(toks_view(tk@)[i as int] == tok_view(*t));
    let c: u8 = match t {
        Token::LParen => 0,
        Token::RParen => 1,
        Token::Comma => 2,
        Token::Plus => 3,
        Token::Minus => 4,
        Token::Star => 5,
        Token::Slash => 6,
        Token::Percent => 7,
        _ => 8,
    };
    c == k
}

fn parse_additive(tk: &Vec<Token>, pos: usize) -> (r: Result<(Expr, usize), TblfmError>)
    requires
        pos <= tk@.len(),
    ensures
        pres_view(r) == additive_spec(toks_view(tk@), pos as int),
        r matches Ok((_, p)) ==> pos < p <= tk@.len(),
    decreases tk@.len() - pos, 3int,
{
    let ghost tv = toks_view(tk@);
    let (mut left, mut p) = match parse_mult(tk, pos) {
        Ok(x) => x,
        Err(e) => {
            return Err(e);
        },
    };
    loop
        invariant
            pos < p <= tk@.len(),
            tv == toks_view(tk@),
            additive_spec(tv, pos as int) == additive_rest(tv, expr_view(left), p as int),
        decreases tk@.len() - p,
    {
        if p < tk.len() && (tok_is(tk, p, 3) || tok_is(tk, p, 4)) {
            let op = if tok_is(tk, p, 3) {
                Op::Add
            } else {
                Op::Sub
            };
            match parse_mult(tk, p + 1) {
                Ok((right, p2)) => {
                    left = Expr::BinOp(Box::new(left), op, Box::new(right));
                    p = p2;
                },
                Err(e) => {
                    return Err(e);
                },
            }
        } else {
            return Ok((left, p));
        }
    }
}

fn parse_mult(tk: &Vec<Token>, pos: usize) -> (r: Result<(Expr, usize), TblfmError>)
    requires
        pos <= tk@.len(),
    ensures
        pres_view(r) == mult_spec(toks_view(tk@), pos as int),
        r matches Ok((_, p)) ==> pos < p <= tk@.len(),
    decreases tk@.len() - pos, 2int,
{
    let ghost tv = toks_view(tk@);
    let (mut left, mut p) = match parse_unary(tk, pos) {
        Ok(x) => x,
        Err(e) => {
            return Err(e);
        },
    };
    loop
        invariant
            pos < p <= tk@.len(),
            tv == toks_view(tk@),
            mult_spec(tv, pos as int) == mult_rest(tv, expr_view(left), p as int),
        decreases tk@.len() - p,
    {
        if p < tk.len() && (tok_is(tk, p, 5) || tok_is(tk, p, 6) || tok_is(tk, p, 7)) {
            let op = if tok_is(tk, p, 5) {
                Op::Mul
            } else if tok_is(tk, p, 6) {
                Op::Div
            } else {
                Op::Mod
            };
            match parse_unary(tk, p + 1) {
                Ok((right, p2)) => {
                    left = Expr::BinOp(Box::new(left), op, Box::new(right));
                    p = p2;
                },
                Err(e) => {
                    return Err(e);
                },
            }
        } else {
            return Ok((left, p));
        }
    }
}

fn parse_unary(tk: &Vec<Token>, pos: usize) -> (r: Result<(Expr, usize), TblfmError>)
    requires
        pos <= tk@.len(),
    ensures
        pres_view(r) == unary_spec(toks_view(tk@), pos as int),
        r matches Ok((_, p)) ==> pos < p <= tk@.len(),
    decreases tk@.len() - pos, 1int,
{
    if pos < tk.len() && tok_is(tk, pos, 4) {
        match parse_atom(tk, pos + 1) {
            Ok((x, p)) => Ok((Expr::Neg(Box::new(x)), p)),
            Err(e) => Err(e),
        }
    } else {
        parse_atom(tk, pos)
    }
}

pub open spec fn eres_view(r: Result<Expr, TblfmError>) -> Result<ExprView, ErrView> {
    match r {
        Ok(e) => Ok(expr_view(e)),
        Err(e) => Err(err_view(e)),
    }
}

/// The atom of a cell reference token.
pub open spec fn cell_atom(r: Seq<char>) -> Result<ExprView, ErrView> {
    match cell_ref_spec(r) {
        Ok((Some(row), Some(c))) => Ok(ExprView::CellRef(row, c)),
        Ok((None, Some(c))) => Ok(ExprView::CellRef(RowRef::Relative(0), c)),
        Ok(_) => Err(ErrView::Parse("incomplete cell reference: "@ + r)),
        Err(e) => Err(e),
    }
}

/// The atom of a range token.
pub open spec fn range_atom(a: Seq<char>, b: Seq<char>) -> Result<ExprView, ErrView> {
    match cell_ref_spec(a) {
        Err(e) => Err(e),
        Ok((sr, sc)) => match cell_ref_spec(b) {
            Err(e) => Err(e),
            Ok((er, ec)) => Ok(
                ExprView::Range(
                    sr.unwrap_or(RowRef::First),
                    sc.unwrap_or(ColView::First),
                    er.unwrap_or(RowRef::Last),
                    ec.unwrap_or(ColView::Last),
                ),
            ),
        },
    }
}

fn atom_cell(r: &[char]) -> (x: Result<Expr, TblfmError>)
    ensures
        eres_view(x) == cell_atom(r@),
{
    assert(r@.subrange(0, r@.len() as int) =~= r@);
    match cell_ref_at(r, 0, r.len()) {
        Ok((Some(row), Some(c))) => Ok(Expr::CellRef(row, c)),
        Ok((None, Some(c))) => Ok(Expr::CellRef(RowRef::Relative(0), c)),
        Ok(_) => {
            let mut m: Vec<char> = Vec::new();
            push_str(&mut m, "incomplete cell reference: ");
            push_all(&mut m, r);
            Err(parse_err(m))
        },
        Err(e) => Err(e),
    }
}

fn atom_range(a: &[char], b: &[char]) -> (x: Result<Expr, TblfmError>)
    ensures
        eres_view(x) == range_atom(a@, b@),
{
    assert(a@.subrange(0, a@.len() as int) =~= a@);
    assert(b@.subrange(0, b@.len() as int) =~= b@);
    match cell_ref_at(a, 0, a.len()) {
        Err(e) => Err(e),
        Ok((sr, sc)) => match cell_ref_at(b, 0, b.len()) {
            Err(e) => Err(e),
            Ok((er, ec)) => {
                let start_row = match sr {
                    Some(x) => x,
                    None => RowRef::First,
                };
                let start_col = match sc {
                    Some(x) => x,
                    None => ColRef::First,
                };
                let end_row = match er {
                    Some(x) => x,
                    None => RowRef::Last,
                };
                let end_col = match ec {
                    Some(x) => x,
                    None => ColRef::Last,
                };
                Ok(Expr::Range(Box::new(RangeRef { start_row, start_col, end_row, end_col })))
            },
        },
    }
}

fn parse_atom(tk: &Vec<Token>, pos: usize) -> (r: Result<(Expr, usize), TblfmError>)
    requires
        pos <= tk@.len(),
    ensures
        pres_view(r) == atom_spec(toks_view(tk@), pos as int),
        r matches Ok((_, p)) ==> pos < p <= tk@.len(),
    decreases tk@.len() - pos, 0int,
{
    let ghost tv = toks_view(tk@);
    if pos >= tk.len() {
        return Err(parse_err_str("unexpected end of expression"));
    }
    assert(tv[pos as int] == tok_view(tk@[pos as int]));
    match &tk[pos] {
        Token::Number(n) => Ok((Expr::Number(string_from(n.as_slice())), pos + 1)),
        Token::CellRef(r) => match atom_cell(r.as_slice()) {
            Ok(x) => Ok((x, pos + 1)),
            Err(e) => Err(e),
        },
        Token::Range(a, b) => match atom_range(a.as_slice(), b.as_slice()) {
            Ok(x) => Ok((x, pos + 1)),
            Err(e) => Err(e),
        },
        Token::Ident(n) => {
            if pos + 1 < tk.len() && tok_is(tk, pos + 1, 0) {
                parse_call(tk, n.as_slice(), pos + 2)
            } else {
                Ok((Expr::Constant(string_from(n.as_slice())), pos + 1))
            }
        },
        Token::LParen => {
            match parse_additive(tk, pos + 1) {
                Err(e) => Err(e),
                Ok((x, p)) => {
                    if p < tk.len() && tok_is(tk, p, 1) {
                        Ok((x, p + 1))
                    } else {
                        Err(parse_err_str("missing ')'"))
                    }
                },
            }
        },
        Token::RParen => Err(unexpected_token("RParen")),
        Token::Comma => Err(unexpected_token("Comma")),
        Token::Plus => Err(unexpected_token("Plus")),
        Token::Minus => Err(unexpected_token("Minus")),
        Token::Star => Err(unexpected_token("Star")),
        Token::Slash => Err(unexpected_token("Slash")),
        Token::Percent => Err(unexpected_token("Percent")),
    }
}

fn unexpected_token(name: &str) -> (e: TblfmError)
    ensures
        err_view(e) == ErrView::Parse("unexpected token: "@ + name@),
{
    let mut m: Vec<char> = Vec::new();
    push_str(&mut m, "unexpected token: ");
    push_str(&mut m, name);
    parse_err(m)
}

fn is_supported(n: &[char]) -> (b: bool)
    ensures
        b == supported_fn(n@),
{
    let len = n.len();
    assert(n@.subrange(0, len as int) =~= n@);
    eq_str(n, 0, len, "vsum") || eq_str(n, 0, len, "vmean") || eq_str(n, 0, len, "vmin") || eq_str(n, 0, len, "vmax")
        || eq_str(n, 0, len, "vcount") || eq_str(n, 0, len, "abs") || eq_str(n, 0, len, "round") || eq_str(
        n,
        0,
        len,
        "ceil",
    ) || eq_str(n, 0, len, "floor")
}

fn finish_call_at(tk: &Vec<Token>, name: &[char], args: Vec<Expr>, p: usize) -> (r: Result<(Expr, usize), TblfmError>)
    requires
        p <= tk@.len(),
    ensures
        pres_view(r) == finish_call(toks_view(tk@), name@, exprs_view(args@), p as int),
        r matches Ok((_, q)) ==> q == p + 1,
{
    assert(name@.subrange(0, name@.len() as int) =~= name@);
    if p < tk.len() && tok_is(tk, p, 1) {
        if is_supported(name) {
            Ok((Expr::FnCall(string_from(name), args), p + 1))
        } else {
            let mut m: Vec<char> = Vec::new();
            push_all(&mut m, name);
            push_str(&mut m, "(...)");
            Ok((Expr::Elisp(string_from(m.as_slice())), p + 1))
        }
    } else {
        let mut m: Vec<char> = Vec::new();
        push_str(&mut m, "missing ')' in function call: ");
        push_all(&mut m, name);
        Err(parse_err(m))
    }
}

fn parse_call(tk: &Vec<Token>, name: &[char], q: usize) -> (r: Result<(Expr, usize), TblfmError>)
    requires
        q <= tk@.len(),
    ensures
        pres_view(r) == call_spec(toks_view(tk@), name@, q as int),
        r matches Ok((_, p)) ==> q < p <= tk@.len(),
    decreases tk@.len() - q, 4int,
{
    let ghost tv = toks_view(tk@);
    let mut args: Vec<Expr> = Vec::new();
    assert(exprs_view(args@) =~= Seq::<ExprView>::empty());
    if q < tk.len() && tok_is(tk, q, 1) {
        return finish_call_at(tk, name, args, q);
    }
    let (a, mut p) = match parse_additive(tk, q) {
        Ok(x) => x,
        Err(e) => {
            return Err(e);
        },
    };
    proof {
        lemma_exprs_push(args@, a);
    }
    args.push(a);
    assert(exprs_view(args@) =~= seq![expr_view(a)]);
    loop
        invariant
            q < p <= tk@.len(),
            tv == toks_view(tk@),
            call_spec(tv, name@, q as int) == args_rest(tv, name@, exprs_view(args@), p as int),
        decreases tk@.len() - p,
    {
        if p < tk.len() && tok_is(tk, p, 2) {
            match parse_additive(tk, p + 1) {
                Ok((x, p2)) => {
                    proof {
                        lemma_exprs_push(args@, x);
                    }
                    args.push(x);
                    p = p2;
                },
                Err(e) => {
                    return Err(e);
                },
            }
        } else {
            return finish_call_at(tk, name, args, p);
        }
    }
}

// ---------------------------------------------------------------------------
// Expressions and formula lines
// ---------------------------------------------------------------------------
/// The expression of a formula's right side.
pub open spec fn expr_spec(s: Seq<char>) -> Result<ExprView, ErrView> {
    let t = trim(s);
    if t.len() == 0 {
        Err(ErrView::Parse("empty expression"@))
    } else if starts_with(t, "lisp:"@) || starts_with(t, "'("@) {
        Ok(ExprView::Elisp(t))
    } else {
        match lex_from(t, 0, true) {
            Err(m) => Err(ErrView::Parse(m)),
            Ok(tk) => match additive_spec(tk, 0) {
                Err(e) => Err(e),
                Ok((x, p)) => if p < tk.len() {
                    Err(ErrView::Parse("unexpected tokens after expression: ["@ + tok_names(tk.skip(p)) + "]"@))
                } else {
                    Ok(x)
                },
            },
        }
    }
}

fn push_tok_name(m: &mut Vec<char>, t: &Token)
    ensures
        final(m)@ == old(m)@ + tok_name(tok_view(*t)),
{
    match t {
        Token::Number(n) => {
            push_str(m, "Number(");
            push_all(m, n.as_slice());
            push_str(m, ")");
        },
        Token::CellRef(r) => {
            push_str(m, "CellRef(\"");
            push_all(m, r.as_slice());
            push_str(m, "\")");
        },
        Token::Range(a, b) => {
            push_str(m, "Range(\"");
            push_all(m, a.as_slice());
            push_str(m, "\", \"");
            push_all(m, b.as_slice());
            push_str(m, "\")");
        },
        Token::Ident(n) => {
            push_str(m, "Ident(\"");
            push_all(m, n.as_slice());
            push_str(m, "\")");
        },
        Token::LParen => push_str(m, "LParen"),
        Token::RParen => push_str(m, "RParen"),
        Token::Comma => push_str(m, "Comma"),
        Token::Plus => push_str(m, "Plus"),
        Token::Minus => push_str(m, "Minus"),
        Token::Star => push_str(m, "Star"),
        Token::Slash => push_str(m, "Slash"),
        Token::Percent => push_str(m, "Percent"),
    }
}

fn leftover_err(tk: &Vec<Token>, p: usize) -> (e: TblfmError)
    requires
        p <= tk@.len(),
    ensures
        err_view(e) == ErrView::Parse(
            "unexpected tokens after expression: ["@ + tok_names(toks_view(tk@).skip(p as int)) + "]"@,
        ),
{
    let ghost tv = toks_view(tk@);
    let mut names: Vec<char> = Vec::new();
    let mut i = p;
    assert(tv.subrange(p as int, p as int) =~= Seq::<TokView>::empty());
    while i < tk.len()
        invariant
            p <= i <= tk@.len(),
            tv == toks_view(tk@),
            names@ == tok_names(tv.subrange(p as int, i as int)),
        decreases tk.len() - i,
    {
        let ghost sub = tv.subrange(p as int, i + 1);
        assert(sub.drop_last() =~= tv.subrange(p as int, i as int));
        assert(sub.last() == tok_view(tk@[i as int]));
        if i > p {
            push_str(&mut names, ", ");
        } else {
            assert(sub =~= seq![tv[i as int]]);
        }
        push_tok_name(&mut names, &tk[i]);
        i += 1;
    }
    assert(tv.subrange(p as int, tk@.len() as int) =~= tv.skip(p as int));
    let mut m: Vec<char> = Vec::new();
    push_str(&mut m, "unexpected tokens after expression: [");
    push_all(&mut m, names.as_slice());
    push_str(&mut m, "]");
    parse_err(m)
}

fn expr_at(s: &[char], lo: usize, hi: usize) -> (r: Result<Expr, TblfmError>)
    requires
        lo <= hi <= s@.len(),
    ensures
        eres_view(r) == expr_spec(s@.subrange(lo as int, hi as int)),
{
    let (a, b) = trim_range(s, lo, hi);
    if a == b {
        return Err(parse_err_str("empty expression"));
    }
    if crate::text::starts_with_str(s, a, b, "lisp:") || crate::text::starts_with_str(s, a, b, "'(") {
        return Ok(Expr::Elisp(crate::text::string_of(s, a, b)));
    }
    let t = crate::text::copy_range(s, a, b);
    let tk = match tokenize(t.as_slice()) {
        Ok(v) => v,
        Err(m) => {
            return Err(parse_err(m));
        },
    };
    match parse_additive(&tk, 0) {
        Err(e) => Err(e),
        Ok((x, p)) => {
            if p < tk.len() {
                Err(leftover_err(&tk, p))
            } else {
                Ok(x)
            }
        },
    }
}

/// Parses the right side of a formula into an expression.
pub fn parse_expr(s: &str) -> (r: Result<Expr, TblfmError>)
    ensures
        eres_view(r) == expr_spec(s@),
{
    let c: Vec<char> = crate::text::str_chars(s);
    assert(c@.subrange(0, c@.len() as int) =~= c@);
    expr_at(c.as_slice(), 0, c.len())
}

/// The nesting depth of parentheses and the last `;` outside them, after the
/// first `n` characters of `t`.
pub open spec fn semi_scan(t: Seq<char>, n: nat) -> (int, Option<int>)
    decreases n,
{
    if n == 0 || n > t.len() {
        (0, None)
    } else {
        let (d, l) = semi_scan(t, (n - 1) as nat);
        let c = t[n - 1];
        if c == '(' {
            (d + 1, l)
        } else if c == ')' {
            (d - 1, l)
        } else if c == ';' && d == 0 {
            (d, Some(n - 1))
        } else {
            (d, l)
        }
    }
}

/// The expression without its format specifier: what precedes the last `;`
/// outside parentheses, trimmed.
pub open spec fn strip_fmt(t: Seq<char>) -> Seq<char> {
    match semi_scan(t, t.len()).1 {
        Some(i) => trim(t.take(i)),
        None => t,
    }
}

fn strip_fmt_at(s: &[char], lo: usize, hi: usize) -> (r: (usize, usize))
    requires
        lo <= hi <= s@.len(),
    ensures
        lo <= r.0 <= r.1 <= hi,
        s@.subrange(r.0 as int, r.1 as int) == strip_fmt(s@.subrange(lo as int, hi as int)),
{
    let ghost t = s@.subrange(lo as int, hi as int);
    let mut depth: i128 = 0;
    let mut last: Option<usize> = None;
    let mut i = lo;
    while i < hi
        invariant
            lo <= i <= hi <= s@.len(),
            t == s@.subrange(lo as int, hi as int),
            semi_scan(t, (i - lo) as nat).0 == depth as int,
            -(i - lo) <= depth <= i - lo,
            match last {
                Some(x) => lo <= x < i && semi_scan(t, (i - lo) as nat).1 == Some(x - lo),
                None => semi_scan(t, (i - lo) as nat).1 is None,
            },
        decreases hi - i,
    {
        let c = s[i];
        assert(t[i - lo] == c);
        if c == '(' {
            depth = depth + 1;
        } else if c == ')' {
            depth = depth - 1;
        } else if c == ';' && depth == 0 {
            last = Some(i);
        }
        i += 1;
    }
    assert(t.len() == hi - lo);
    match last {
        Some(x) => {
            assert(t.take(x - lo) =~= s@.subrange(lo as int, x as int));
            trim_range(s, lo, x)
        },
        None => (lo, hi),
    }
}

/// One trimmed, non-empty `TARGET=EXPR` piece of a formula line.
#[verifier::opaque]
pub open spec fn assignment_spec(f: Seq<char>) -> Result<(TargetView, ExprView), ErrView> {
    match find_char(f, '=') {
        None => Err(ErrView::Parse("missing '=' in formula: "@ + f)),
        Some(q) => match target_spec(trim(f.take(q))) {
            Err(e) => Err(e),
            Ok(tg) => match expr_spec(strip_fmt(trim(f.skip(q + 1)))) {
                Err(e) => Err(e),
                Ok(x) => Ok((tg, x)),
            },
        },
    }
}

/// The assignments of the pieces of a formula line: blank pieces are
/// skipped, and the first error ends the line.
pub open spec fn assignments_from(pieces: Seq<Seq<char>>) -> Result<Seq<(TargetView, ExprView)>, ErrView>
    decreases pieces.len(),
{
    if pieces.len() == 0 {
        Ok(Seq::empty())
    } else {
        let f = trim(pieces[0]);
        if f.len() == 0 {
            assignments_from(pieces.drop_first())
        } else {
            match assignment_spec(f) {
                Err(e) => Err(e),
                Ok(a) => match assignments_from(pieces.drop_first()) {
                    Ok(r) => Ok(seq![a] + r),
                    Err(e) => Err(e),
                },
            }
        }
    }
}

/// The assignments of a `#+TBLFM:` line, whose formulas are separated by `::`.
pub open spec fn tblfm_line_spec(line: Seq<char>) -> Result<Seq<(TargetView, ExprView)>, ErrView> {
    assignments_from(crate::text::split_str(line, "::"@))
}

pub open spec fn asg_view(a: Assignment) -> (TargetView, ExprView) {
    (target_view(a.target), expr_view(a.expr))
}

pub open spec fn asgs_view(v: Seq<Assignment>) -> Seq<(TargetView, ExprView)> {
    v.map_values(|a: Assignment| asg_view(a))
}

pub open spec fn asgs_res_view(r: Result<Vec<Assignment>, TblfmError>) -> Result<Seq<(TargetView, ExprView)>, ErrView> {
    match r {
        Ok(v) => Ok(asgs_view(v@)),
        Err(e) => Err(err_view(e)),
    }
}

pub open spec fn prepend_asgs(
    a: Seq<(TargetView, ExprView)>,
    r: Result<Seq<(TargetView, ExprView)>, ErrView>,
) -> Result<Seq<(TargetView, ExprView)>, ErrView> {
    match r {
        Ok(x) => Ok(a + x),
        Err(e) => Err(e),
    }
}

fn assignment_at(s: &[char], lo: usize, hi: usize) -> (r: Result<Assignment, TblfmError>)
    requires
        lo <= hi <= s@.len(),
    ensures
        match r {
            Ok(a) => assignment_spec(s@.subrange(lo as int, hi as int)) == Ok::<(TargetView, ExprView), ErrView>(
                asg_view(a),
            ),
            Err(e) => assignment_spec(s@.subrange(lo as int, hi as int)) == Err::<(TargetView, ExprView), ErrView>(
                err_view(e),
            ),
        },
{
    let ghost f = s@.subrange(lo as int, hi as int);
    reveal(assignment_spec);
    match find_char_at(s, lo, hi, '=') {
        None => {
            let mut m: Vec<char> = Vec::new();
            push_str(&mut m, "missing '=' in formula: ");
            push_all(&mut m, &s[lo..hi]);
            Err(parse_err(m))
        },
        Some(q) => {
            assert(f.take(q - lo) =~= s@.subrange(lo as int, q as int));
            assert(f.skip(q - lo + 1) =~= s@.subrange(q + 1, hi as int));
            let (ta, tb) = trim_range(s, lo, q);
            let target = match target_at(s, ta, tb) {
                Ok(t) => t,
                Err(e) => {
                    return Err(e);
                },
            };
            let (ea, eb) = trim_range(s, q + 1, hi);
            let (xa, xb) = strip_fmt_at(s, ea, eb);
            match expr_at(s, xa, xb) {
                Ok(expr) => Ok(Assignment { target, expr }),
                Err(e) => Err(e),
            }
        },
    }
}

/// Parses a `#+TBLFM:` line (`TARGET=EXPR[::TARGET=EXPR...]`) into its assignments.
pub fn parse_tblfm_line(line: &str) -> (r: Result<Vec<Assignment>, TblfmError>)
    ensures
        asgs_res_view(r) == tblfm_line_spec(line@),
{
    let s: Vec<char> = crate::text::str_chars(line);
    assert(s@.subrange(0, s@.len() as int) =~= s@);
    let sep: Vec<char> = crate::text::str_chars("::");
    proof {
        reveal_strlit("::");
    }
    let pieces = crate::text::split_str_ranges(s.as_slice(), 0, s.len(), sep.as_slice());
    let ghost pv = crate::text::ranges_view(s@, pieces@);
    let mut out: Vec<Assignment> = Vec::new();
    let mut i: usize = 0;
    assert(asgs_view(out@) =~= Seq::<(TargetView, ExprView)>::empty());
    assert(pv.skip(0) =~= pv);
    assert(prepend_asgs(Seq::empty(), assignments_from(pv)) == assignments_from(pv)) by {
        match assignments_from(pv) {
            Ok(x) => assert(Seq::<(TargetView, ExprView)>::empty() + x =~= x),
            Err(_) => {},
        }
    }
    while i < pieces.len()
        invariant
            i <= pieces@.len(),
            s@ == line@,
            pv == crate::text::ranges_view(s@, pieces@),
            pv == crate::text::split_str(s@, "::"@),
            forall|j: int| 0 <= j < pieces@.len() ==> (#[trigger] pieces@[j]).0 <= pieces@[j].1 <= s@.len(),
            prepend_asgs(asgs_view(out@), assignments_from(pv.skip(i as int))) == assignments_from(pv),
        decreases pieces.len() - i,
    {
        let (a, b) = pieces[i];
        let ghost rest = pv.skip(i as int);
        assert(rest[0] == s@.subrange(a as int, b as int));
        assert(rest.drop_first() =~= pv.skip(i + 1));
        let (fa, fb) = trim_range(s.as_slice(), a, b);
        if fa < fb {
            match assignment_at(s.as_slice(), fa, fb) {
                Ok(asg) => {
                    let ghost before = asgs_view(out@);
                    out.push(asg);
                    proof {
                        assert(asgs_view(out@) =~= before.push(asg_view(asg)));
                        match assignments_from(pv.skip(i + 1)) {
                            Ok(x) => {
                                assert(before + (seq![asg_view(asg)] + x) =~= before.push(asg_view(asg)) + x);
                            },
                            Err(_) => {},
                        }
                    }
                },
                Err(e) => {
                    assert(trim(rest[0]) == s@.subrange(fa as int, fb as int));
                    assert(assignments_from(rest) == Err::<Seq<(TargetView, ExprView)>, ErrView>(err_view(e)));
                    return Err(e);
                },
            }
        }
        i += 1;
    }
    assert(pv.skip(i as int) =~= Seq::<Seq<char>>::empty());
    assert(asgs_view(out@) + Seq::<(TargetView, ExprView)>::empty() =~= asgs_view(out@));
    Ok(out)
}

// ---------------------------------------------------------------------------
// The table that formulas read
// ---------------------------------------------------------------------------
/// A table read for formula evaluation.
#[derive(Debug, Clone)]
pub struct EvalTable {
    /// The rows in document order, data and separators.
    pub rows: Vec<EvalRow>,
    /// The number of columns: the most cells of a data row.
    pub col_count: usize,
    /// The indices in `rows` of the separator rows.
    pub separators: Vec<usize>,
}

/// A row of a table.
#[derive(Debug, Clone)]
pub enum EvalRow {
    /// A horizontal rule.
    Separator,
    /// A data row and its cells.
    Data(Vec<CellValue>),
}

/// The content of a cell.
#[derive(Debug, Clone, PartialEq)]
pub enum CellValue {
    /// A number: the cell's text without currency signs, `%` and thousands
    /// separators, which `str::parse::<f64>` accepts.
    Number(String),
    /// Other text.
    Text(String),
    Empty,
}

pub enum CellView {
    Number(Seq<char>),
    Text(Seq<char>),
    Empty,
}

pub enum RowView {
    Separator,
    Data(Seq<CellView>),
}

pub open spec fn cell_view(c: CellValue) -> CellView {
    match c {
        CellValue::Number(s) => CellView::Number(s@),
        CellValue::Text(s) => CellView::Text(s@),
        CellValue::Empty => CellView::Empty,
    }
}

pub open spec fn cells_view(v: Seq<CellValue>) -> Seq<CellView> {
    v.map_values(|c: CellValue| cell_view(c))
}

pub open spec fn row_view(r: EvalRow) -> RowView {
    match r {
        EvalRow::Separator => RowView::Separator,
        EvalRow::Data(cells) => RowView::Data(cells_view(cells@)),
    }
}

pub open spec fn rows_view(v: Seq<EvalRow>) -> Seq<RowView> {
    v.map_values(|r: EvalRow| row_view(r))
}

/// The characters that a number cell may carry around its digits.
pub open spec fn is_noise(c: char) -> bool {
    c == '$' || c == '€' || c == '£' || c == '¥' || c == '%' || c == ','
}

/// `t` without its currency signs, percent signs and commas.
pub open spec fn drop_noise(t: Seq<char>) -> Seq<char>
    decreases t.len(),
{
    if t.len() == 0 {
        t
    } else {
        let r = drop_noise(t.drop_last());
        if is_noise(t.last()) {
            r
        } else {
            r.push(t.last())
        }
    }
}

pub open spec fn digits_dots(m: Seq<char>) -> bool {
    forall|k: int| 0 <= k < m.len() ==> is_digit(#[trigger] m[k]) || m[k] == '.'
}

/// The index of the first `e` or `E` of `b` from `i` on, or its length.
pub open spec fn first_e(b: Seq<char>, i: int) -> int
    decreases b.len() - i,
{
    if i < 0 || i >= b.len() {
        b.len() as int
    } else if b[i] == 'e' || b[i] == 'E' {
        i
    } else {
        first_e(b, i + 1)
    }
}

pub open spec fn strip_sign(t: Seq<char>) -> Seq<char> {
    if t.len() > 0 && (t[0] == '+' || t[0] == '-') {
        t.drop_first()
    } else {
        t
    }
}

/// What `str::parse::<f64>` accepts: a sign, then `inf`, `infinity` or `nan`
/// in any case, or digits with at most one dot and at least one digit,
/// followed by an optional exponent `e`/`E`, sign and digits.
pub open spec fn float_syntax(t: Seq<char>) -> bool {
    let b = strip_sign(t);
    if eq_ignore_case(b, "inf"@) || eq_ignore_case(b, "infinity"@) || eq_ignore_case(b, "nan"@) {
        true
    } else {
        let e = first_e(b, 0);
        let m = b.take(e);
        &&& digits_dots(m)
        &&& num_shape(m).0 <= 1
        &&& num_shape(m).1
        &&& (e == b.len() || {
            let d = strip_sign(b.skip(e + 1));
            d.len() > 0 && all_digits(d)
        })
    }
}

/// The number that a cell's text holds, as cleaned text, if any.
pub open spec fn number_text(s: Seq<char>) -> Option<Seq<char>> {
    let t = trim(s);
    if t.len() == 0 {
        None
    } else {
        let c = trim(drop_noise(t));
        if float_syntax(c) {
            Some(c)
        } else {
            None
        }
    }
}

fn shape_at(s: &[char], lo: usize, hi: usize) -> (r: (usize, bool, bool))
    requires
        lo <= hi <= s@.len(),
    ensures
        (r.0 as nat, r.1) == num_shape(s@.subrange(lo as int, hi as int)),
        r.2 == digits_dots(s@.subrange(lo as int, hi as int)),
{
    let ghost m = s@.subrange(lo as int, hi as int);
    let mut dots: usize = 0;
    let mut digit = false;
    let mut ok = true;
    let mut i = lo;
    while i < hi
        invariant
            lo <= i <= hi <= s@.len(),
            m == s@.subrange(lo as int, hi as int),
            (dots as nat, digit) == num_shape(m.take(i - lo)),
            ok == digits_dots(m.take(i - lo)),
            dots <= i - lo,
        decreases hi - i,
    {
        let c = s[i];
        assert(m.take(i - lo + 1).drop_last() =~= m.take(i - lo));
        assert(m.take(i - lo + 1).last() == c);
        proof {
            assert forall|k: int| 0 <= k < i - lo implies #[trigger] m.take(i - lo + 1)[k] == m.take(i - lo)[k] by {}
        }
        if c == '.' {
            dots += 1;
        }
        if char_is_digit(c) {
            digit = true;
        }
        if !(char_is_digit(c) || c == '.') {
            ok = false;
        }
        i += 1;
    }
    assert(m.take(hi - lo) =~= m);
    (dots, digit, ok)
}

#[verifier::loop_isolation(false)]
fn float_ok(s: &[char], lo: usize, hi: usize) -> (b: bool)
    requires
        lo <= hi <= s@.len(),
    ensures
        b == float_syntax(s@.subrange(lo as int, hi as int)),
{
    let ghost t = s@.subrange(lo as int, hi as int);
    let a = if hi > lo && (s[lo] == '+' || s[lo] == '-') {
        lo + 1
    } else {
        lo
    };
    let ghost bv = s@.subrange(a as int, hi as int);
    proof {
        if hi > lo {
            assert(t[0] == s@[lo as int]);
        }
        if a == lo + 1 {
            assert(bv =~= t.drop_first());
        } else {
            assert(bv =~= t);
        }
    }
    if crate::text::eq_ignore_case_str(s, a, hi, "inf") || crate::text::eq_ignore_case_str(s, a, hi, "infinity")
        || crate::text::eq_ignore_case_str(s, a, hi, "nan") {
        return true;
    }
    let mut e = a;
    while e < hi && s[e] != 'e' && s[e] != 'E'
        invariant
            a <= e <= hi <= s@.len(),
            bv == s@.subrange(a as int, hi as int),
            first_e(bv, 0) == first_e(bv, e - a),
        decreases hi - e,
    {
        e += 1;
    }
    assert(bv.take(e - a) =~= s@.subrange(a as int, e as int));
    let (dots, digit, ok) = shape_at(s, a, e);
    if !(ok && dots <= 1 && digit) {
        return false;
    }
    if e == hi {
        return true;
    }
    let x = e + 1;
    let ghost xs = bv.skip(e - a + 1);
    assert(xs =~= s@.subrange(x as int, hi as int));
    let d = if hi > x && (s[x] == '+' || s[x] == '-') {
        x + 1
    } else {
        x
    };
    proof {
        if hi > x {
            assert(xs[0] == s@[x as int]);
        }
        if d == x + 1 {
            assert(s@.subrange(d as int, hi as int) =~= xs.drop_first());
        }
    }
    if d == hi {
        return false;
    }
    let mut i = d;
    while i < hi
        invariant
            d <= i <= hi <= s@.len(),
            forall|k: int| d <= k < i ==> is_digit(#[trigger] s@[k]),
        decreases hi - i,
    {
        if !char_is_digit(s[i]) {
            assert(s@.subrange(d as int, hi as int)[i - d] == s@[i as int]);
            return false;
        }
        i += 1;
    }
    assert(all_digits(s@.subrange(d as int, hi as int))) by {
        assert forall|k: int| 0 <= k < hi - d implies is_digit(#[trigger] s@.subrange(d as int, hi as int)[k]) by {
            assert(s@.subrange(d as int, hi as int)[k] == s@[d + k]);
        }
    }
    true
}

/// The cleaned number text of the cell text `s[lo..hi]`, if it holds a number.
fn number_text_at(s: &[char], lo: usize, hi: usize) -> (r: Option<Vec<char>>)
    requires
        lo <= hi <= s@.len(),
    ensures
        match r {
            Some(v) => number_text(s@.subrange(lo as int, hi as int)) == Some(v@),
            None => number_text(s@.subrange(lo as int, hi as int)) is None,
        },
{
    let (a, b) = trim_range(s, lo, hi);
    if a == b {
        return None;
    }
    let ghost t = s@.subrange(a as int, b as int);
    let mut kept: Vec<char> = Vec::new();
    let mut i = a;
    while i < b
        invariant
            a <= i <= b <= s@.len(),
            t == s@.subrange(a as int, b as int),
            kept@ == drop_noise(t.take(i - a)),
        decreases b - i,
    {
        let c = s[i];
        assert(t.take(i - a + 1).drop_last() =~= t.take(i - a));
        assert(t.take(i - a + 1).last() == c);
        if !(c == '$' || c == '€' || c == '£' || c == '¥' || c == '%' || c == ',') {
            kept.push(c);
        }
        i += 1;
    }
    assert(t.take(b - a) =~= t);
    let (x, y) = trim_range(kept.as_slice(), 0, kept.len());
    assert(kept@.subrange(0, kept@.len() as int) =~= kept@);
    if float_ok(kept.as_slice(), x, y) {
        Some(crate::text::copy_range(kept.as_slice(), x, y))
    } else {
        None
    }
}

pub open spec fn sep_char(c: char) -> bool {
    c == '-' || c == '+' || c == '|' || c == ' '
}

/// Whether a trimmed table line is a horizontal rule: after the leading and
/// trailing `|` something is left, made of `-`, `+`, `|` and spaces, with a `-`.
pub open spec fn is_separator_spec(t: Seq<char>) -> bool {
    let r = t.skip(lead_count(t, '|') as int);
    let inner = r.take(r.len() - trail_count(r, '|'));
    &&& t.len() > 0 && t[0] == '|'
    &&& inner.len() > 0
    &&& forall|k: int| 0 <= k < inner.len() ==> sep_char(#[trigger] inner[k])
    &&& find_char(inner, '-') is Some
}

/// A data line without one leading and one trailing `|`.
pub open spec fn cells_inner(t: Seq<char>) -> Seq<char> {
    let a = if t.len() > 0 && t[0] == '|' {
        t.drop_first()
    } else {
        t
    };
    if a.len() > 0 && a.last() == '|' {
        a.drop_last()
    } else {
        a
    }
}

/// The content of one cell's text.
pub open spec fn cell_of(piece: Seq<char>) -> CellView {
    let tr = trim(piece);
    if tr.len() == 0 {
        CellView::Empty
    } else {
        match number_text(tr) {
            Some(n) => CellView::Number(n),
            None => CellView::Text(tr),
        }
    }
}

/// The cells of a trimmed data line.
pub open spec fn data_cells(t: Seq<char>) -> Seq<CellView> {
    crate::text::split_char(cells_inner(t), '|').map_values(|p: Seq<char>| cell_of(p))
}

/// The rows, column count and separator indices of a table's lines.
pub open spec fn table_from(lines: Seq<Seq<char>>) -> (Seq<RowView>, nat, Seq<int>)
    decreases lines.len(),
{
    if lines.len() == 0 {
        (Seq::empty(), 0, Seq::empty())
    } else {
        let (rows, cols, seps) = table_from(lines.drop_last());
        let t = trim(lines.last());
        if is_separator_spec(t) {
            (rows.push(RowView::Separator), cols, seps.push(rows.len() as int))
        } else {
            let cells = data_cells(t);
            (rows.push(RowView::Data(cells)), if cells.len() > cols { cells.len() } else { cols }, seps)
        }
    }
}

pub open spec fn strs_view(v: Seq<&str>) -> Seq<Seq<char>> {
    v.map_values(|l: &str| l@)
}

#[verifier::loop_isolation(false)]
fn is_separator_at(s: &[char], lo: usize, hi: usize) -> (b: bool)
    requires
        lo <= hi <= s@.len(),
    ensures
        b == is_separator_spec(s@.subrange(lo as int, hi as int)),
{
    let ghost t = s@.subrange(lo as int, hi as int);
    if hi == lo || s[lo] != '|' {
        proof {
            if hi > lo {
                assert(t[0] == s@[lo as int]);
            }
        }
        return false;
    }
    assert(t[0] == s@[lo as int]);
    let a = crate::text::skip_char(s, lo, hi, '|');
    assert(t.skip(lead_count(t, '|') as int) =~= s@.subrange(a as int, hi as int));
    let b = crate::text::rskip_char(s, a, hi, '|');
    let ghost r = s@.subrange(a as int, hi as int);
    let ghost inner = r.take(r.len() - trail_count(r, '|'));
    assert(inner =~= s@.subrange(a as int, b as int));
    if a == b {
        return false;
    }
    let mut i = a;
    while i < b
        invariant
            a <= i <= b <= s@.len(),
            inner == s@.subrange(a as int, b as int),
            forall|k: int| 0 <= k < i - a ==> sep_char(#[trigger] inner[k]),
        decreases b - i,
    {
        let c = s[i];
        assert(inner[i - a] == c);
        if !(c == '-' || c == '+' || c == '|' || c == ' ') {
            return false;
        }
        i += 1;
    }
    find_char_at(s, a, b, '-').is_some()
}

fn data_cells_at(s: &[char], lo: usize, hi: usize) -> (r: Vec<CellValue>)
    requires
        lo <= hi <= s@.len(),
    ensures
        cells_view(r@) == data_cells(s@.subrange(lo as int, hi as int)),
{
    let ghost t = s@.subrange(lo as int, hi as int);
    let a = if hi > lo && s[lo] == '|' {
        lo + 1
    } else {
        lo
    };
    let b = if hi > a && s[hi - 1] == '|' {
        hi - 1
    } else {
        hi
    };
    proof {
        if hi > lo {
            assert(t[0] == s@[lo as int]);
        }
        let a1 = if t.len() > 0 && t[0] == '|' { t.drop_first() } else { t };
        assert(a1 =~= s@.subrange(a as int, hi as int));
        if hi > a {
            assert(a1.last() == s@[hi - 1]);
        }
        assert(cells_inner(t) =~= s@.subrange(a as int, b as int));
    }
    let pieces = crate::text::split_ranges(s, a, b, '|');
    let ghost pv = crate::text::ranges_view(s@, pieces@);
    let mut out: Vec<CellValue> = Vec::new();
    let mut i: usize = 0;
    while i < pieces.len()
        invariant
            i <= pieces@.len(),
            pv == crate::text::ranges_view(s@, pieces@),
            forall|j: int| 0 <= j < pieces@.len() ==> (#[trigger] pieces@[j]).0 <= pieces@[j].1 <= s@.len(),
            cells_view(out@) == pv.take(i as int).map_values(|p: Seq<char>| cell_of(p)),
        decreases pieces.len() - i,
    {
        let (pa, pb) = pieces[i];
        let (x, y) = trim_range(s, pa, pb);
        let cell = if x == y {
            CellValue::Empty
        } else {
            match number_text_at(s, x, y) {
                Some(n) => CellValue::Number(string_from(n.as_slice())),
                None => CellValue::Text(crate::text::string_of(s, x, y)),
            }
        };
        assert(pv[i as int] == s@.subrange(pa as int, pb as int));
        let ghost before = cells_view(out@);
        out.push(cell);
        proof {
            assert(cells_view(out@) =~= before.push(cell_view(cell)));
            assert(pv.take(i + 1).map_values(|p: Seq<char>| cell_of(p)) =~= pv.take(i as int).map_values(
                |p: Seq<char>| cell_of(p),
            ).push(cell_of(pv[i as int])));
        }
        i += 1;
    }
    assert(pv.take(pieces@.len() as int) =~= pv);
    out
}

/// Reads the lines of a table, each starting with `|`, into an [`EvalTable`].
pub fn parse_eval_table(lines: &[&str]) -> (t: EvalTable)
    ensures
        (rows_view(t.rows@), t.col_count as nat, t.separators@.map_values(|i: usize| i as int)) == table_from(
            strs_view(lines@),
        ),
{
    let ghost lv = strs_view(lines@);
    let mut rows: Vec<EvalRow> = Vec::new();
    let mut seps: Vec<usize> = Vec::new();
    let mut cols: usize = 0;
    let mut i: usize = 0;
    assert(lv.take(0) =~= Seq::<Seq<char>>::empty());
    assert(rows_view(rows@) =~= Seq::<RowView>::empty());
    assert(seps@.map_values(|i: usize| i as int) =~= Seq::<int>::empty());
    while i < lines.len()
        invariant
            i <= lines@.len(),
            lv == strs_view(lines@),
            rows@.len() == i,
            (rows_view(rows@), cols as nat, seps@.map_values(|i: usize| i as int)) == table_from(lv.take(i as int)),
        decreases lines.len() - i,
    {
        let line: &str = lines[i];
        let c = crate::text::str_chars(line);
        assert(c@.subrange(0, c@.len() as int) =~= c@);
        let (a, b) = trim_range(c.as_slice(), 0, c.len());
        assert(lv.take(i + 1).drop_last() =~= lv.take(i as int));
        assert(lv.take(i + 1).last() == line@);
        let ghost before_rows = rows_view(rows@);
        let ghost before_seps = seps@.map_values(|i: usize| i as int);
        if is_separator_at(c.as_slice(), a, b) {
            seps.push(rows.len());
            rows.push(EvalRow::Separator);
            proof {
                assert(rows_view(rows@) =~= before_rows.push(RowView::Separator));
                assert(seps@.map_values(|i: usize| i as int) =~= before_seps.push(i as int));
            }
        } else {
            let cells = data_cells_at(c.as_slice(), a, b);
            if cells.len() > cols {
                cols = cells.len();
            }
            let ghost cv = cells_view(cells@);
            rows.push(EvalRow::Data(cells));
            proof {
                assert(rows_view(rows@) =~= before_rows.push(RowView::Data(cv)));
            }
        }
        i += 1;
    }
    assert(lv.take(lines@.len() as int) =~= lv);
    EvalTable { rows, col_count: cols, separators: seps }
}

// ---------------------------------------------------------------------------
// Resolving references against a table
// ---------------------------------------------------------------------------
/// The indices of the data rows, in order.
pub open spec fn data_idx(rows: Seq<RowView>) -> Seq<int>
    decreases rows.len(),
{
    if rows.len() == 0 {
        Seq::empty()
    } else {
        let r = data_idx(rows.drop_last());
        if rows.last() is Data {
            r.push(rows.len() - 1)
        } else {
            r
        }
    }
}

/// The first data row at or after `k`.
pub open spec fn data_from(rows: Seq<RowView>, k: int) -> Option<int>
    decreases rows.len() - k,
{
    if k < 0 || k >= rows.len() {
        None
    } else if rows[k] is Data {
        Some(k)
    } else {
        data_from(rows, k + 1)
    }
}

pub open spec fn romans(n: nat) -> Seq<char> {
    Seq::new(n, |i: int| 'I')
}

/// `{n:+}`: the number with its sign.
pub open spec fn signed_text(n: int) -> Seq<char> {
    if n >= 0 {
        "+"@ + crate::text::dec_digits(n as nat)
    } else {
        "-"@ + crate::text::dec_digits((-n) as nat)
    }
}

pub open spec fn dec(n: int) -> Seq<char> {
    crate::text::dec_digits(n as nat)
}

/// The index in the rows that a row reference names; `current` is the row
/// that a relative reference counts from.
pub open spec fn resolve_row_spec(rr: RowRef, rows: Seq<RowView>, seps: Seq<int>, current: Option<int>) -> Result<
    int,
    ErrView,
> {
    let d = data_idx(rows);
    match rr {
        RowRef::Absolute(n) => if n == 0 || n > d.len() {
            Err(ErrView::Eval("row @"@ + dec(n as int) + " out of range (1.."@ + dec(d.len() as int) + ")"@))
        } else {
            Ok(d[n - 1])
        },
        RowRef::Last => if d.len() == 0 {
            Err(ErrView::Eval("no data rows"@))
        } else {
            Ok(d.last())
        },
        RowRef::First => if d.len() == 0 {
            Err(ErrView::Eval("no data rows"@))
        } else {
            Ok(d[0])
        },
        RowRef::HGroup(n) => if n == 0 || n > seps.len() {
            Err(
                ErrView::Eval(
                    "hgroup @"@ + romans(n as nat) + " out of range (only "@ + dec(seps.len() as int) + " separators)"@,
                ),
            )
        } else {
            match data_from(rows, seps[n - 1] + 1) {
                Some(i) => Ok(i),
                None => Err(ErrView::Eval("no data row after separator @"@ + romans(n as nat))),
            }
        },
        RowRef::Relative(off) => match current {
            None => Err(ErrView::Eval("relative row reference without current row context"@)),
            Some(b) => {
                let target = ((b as usize) as i32) + off;
                if target < 0 || target >= rows.len() {
                    Err(ErrView::Eval("relative row @"@ + signed_text(off as int) + " out of range from row "@ + dec(b)))
                } else {
                    Ok(target)
                }
            },
        },
    }
}

/// The first data row's cells.
pub open spec fn header_cells(rows: Seq<RowView>) -> Seq<CellView> {
    let d = data_idx(rows);
    if d.len() == 0 {
        Seq::empty()
    } else {
        match rows[d[0]] {
            RowView::Data(c) => c,
            RowView::Separator => Seq::empty(),
        }
    }
}

/// The first cell of `cells` from `j` on whose text is `name` in any ASCII case.
pub open spec fn header_from(cells: Seq<CellView>, name: Seq<char>, j: int) -> Option<int>
    decreases cells.len() - j,
{
    if j < 0 || j >= cells.len() {
        None
    } else if cells[j] matches CellView::Text(x) && eq_ignore_case(x, name) {
        Some(j)
    } else {
        header_from(cells, name, j + 1)
    }
}

/// The 0-based column that a column reference names; a name is looked up
/// among the constants, then among the text cells of the first data row.
pub open spec fn resolve_col_spec(cr: ColView, rows: Seq<RowView>, cols: int, consts: Seq<Seq<char>>) -> Result<
    int,
    ErrView,
> {
    match cr {
        ColView::Absolute(n) => if n == 0 || n > cols {
            Err(ErrView::Eval("column $"@ + dec(n) + " out of range (1.."@ + dec(cols) + ")"@))
        } else {
            Ok(n - 1)
        },
        ColView::Last => if cols == 0 {
            Err(ErrView::Eval("table has no columns"@))
        } else {
            Ok(cols - 1)
        },
        ColView::First => Ok(0),
        ColView::Named(name) => if consts.contains(name) {
            Err(ErrView::Eval("$"@ + name + " is a constant, not a column reference"@))
        } else {
            match header_from(header_cells(rows), name, 0) {
                Some(j) => Ok(j),
                None => Err(ErrView::Eval("unknown column name: $"@ + name)),
            }
        },
    }
}

/// Whether the separator indices point into the rows.
pub open spec fn table_wf(t: EvalTable) -> bool {
    forall|i: int| 0 <= i < t.separators@.len() ==> #[trigger] t.separators@[i] < t.rows@.len()
}

pub open spec fn ires_view(r: Result<usize, TblfmError>) -> Result<int, ErrView> {
    match r {
        Ok(i) => Ok(i as int),
        Err(e) => Err(err_view(e)),
    }
}

fn eval_err(m: Vec<char>) -> (e: TblfmError)
    ensures
        err_view(e) == ErrView::Eval(m@),
{
    TblfmError::Eval(string_from(m.as_slice()))
}

fn push_romans(m: &mut Vec<char>, n: usize)
    ensures
        final(m)@ == old(m)@ + romans(n as nat),
{
    let ghost start = m@;
    let mut i: usize = 0;
    while i < n
        invariant
            i <= n,
            m@ == start + romans(i as nat),
        decreases n - i,
    {
        m.push('I');
        i += 1;
        assert(m@ =~= start + romans(i as nat));
    }
}

/// The data row indices of the rows, in order.
fn data_rows(rows: &Vec<EvalRow>) -> (d: Vec<usize>)
    ensures
        d@.map_values(|i: usize| i as int) == data_idx(rows_view(rows@)),
        forall|k: int| 0 <= k < d@.len() ==> #[trigger] d@[k] < rows@.len(),
{
    let ghost rv = rows_view(rows@);
    let mut d: Vec<usize> = Vec::new();
    let mut i: usize = 0;
    assert(rv.take(0) =~= Seq::<RowView>::empty());
    assert(d@.map_values(|i: usize| i as int) =~= Seq::<int>::empty());
    while i < rows.len()
        invariant
            i <= rows@.len(),
            rv == rows_view(rows@),
            d@.map_values(|i: usize| i as int) == data_idx(rv.take(i as int)),
            forall|k: int| 0 <= k < d@.len() ==> #[trigger] d@[k] < i,
        decreases rows.len() - i,
    {
        assert(rv.take(i + 1).drop_last() =~= rv.take(i as int));
        assert(rv.take(i + 1).last() == row_view(rows@[i as int]));
        let ghost before = d@.map_values(|i: usize| i as int);
        match &rows[i] {
            EvalRow::Data(_) => {
                d.push(i);
                assert(d@.map_values(|i: usize| i as int) =~= before.push(i as int));
            },
            EvalRow::Separator => {},
        }
        i += 1;
    }
    assert(rv.take(rows@.len() as int) =~= rv);
    d
}

/// Resolves a row reference to an index in `table.rows`.
#[verifier::loop_isolation(false)]
pub fn resolve_row(row_ref: &RowRef, table: &EvalTable, current: Option<usize>) -> (r: Result<usize, TblfmError>)
    requires
        table_wf(*table),
        *row_ref matches RowRef::Relative(off) ==> (current is Some ==> -0x8000_0000 <= ((current->0 as usize) as i32)
            + off <= 0x7fff_ffff),
    ensures
        ires_view(r) == resolve_row_spec(
            *row_ref,
            rows_view(table.rows@),
            table.separators@.map_values(|i: usize| i as int),
            match current {
                Some(c) => Some(c as int),
                None => None,
            },
        ),
{
    let ghost rv = rows_view(table.rows@);
    let d = data_rows(&table.rows);
    let ghost dv = d@.map_values(|i: usize| i as int);
    assert(dv.len() == d@.len());
    match row_ref {
        RowRef::Absolute(n) => {
            let n = *n;
            if n == 0 || n > d.len() {
                let mut m: Vec<char> = Vec::new();
                push_str(&mut m, "row @");
                crate::text::push_dec(&mut m, n);
                push_str(&mut m, " out of range (1..");
                crate::text::push_dec(&mut m, d.len());
                push_str(&mut m, ")");
                assert(m@ =~= "row @"@ + dec(n as int) + " out of range (1.."@ + dec(dv.len() as int) + ")"@);
                Err(eval_err(m))
            } else {
                assert(dv[n - 1] == d@[n - 1] as int);
                Ok(d[n - 1])
            }
        },
        RowRef::Last => {
            if d.len() == 0 {
                Err(eval_err(crate::text::str_chars("no data rows")))
            } else {
                assert(dv.last() == d@[d@.len() - 1] as int);
                Ok(d[d.len() - 1])
            }
        },
        RowRef::First => {
            if d.len() == 0 {
                Err(eval_err(crate::text::str_chars("no data rows")))
            } else {
                assert(dv[0] == d@[0] as int);
                Ok(d[0])
            }
        },
        RowRef::HGroup(n) => {
            let n = *n;
            let ns = table.separators.len();
            if n == 0 || n > ns {
                let mut m: Vec<char> = Vec::new();
                push_str(&mut m, "hgroup @");
                push_romans(&mut m, n);
                push_str(&mut m, " out of range (only ");
                crate::text::push_dec(&mut m, ns);
                push_str(&mut m, " separators)");
                assert(m@ =~= "hgroup @"@ + romans(n as nat) + " out of range (only "@ + dec(ns as int) + " separators)"@);
                return Err(eval_err(m));
            }
            let si = table.separators[n - 1];
            let rl = table.rows.len();
            assert(si < rl);
            let mut i = si + 1;
            while i < table.rows.len()
                invariant
                    si < i <= table.rows@.len(),
                    rv == rows_view(table.rows@),
                    data_from(rv, si + 1) == data_from(rv, i as int),
                decreases table.rows.len() - i,
            {
                assert(rv[i as int] == row_view(table.rows@[i as int]));
                match &table.rows[i] {
                    EvalRow::Data(_) => {
                        return Ok(i);
                    },
                    EvalRow::Separator => {},
                }
                i += 1;
            }
            let mut m: Vec<char> = Vec::new();
            push_str(&mut m, "no data row after separator @");
            push_romans(&mut m, n);
            assert(m@ =~= "no data row after separator @"@ + romans(n as nat));
            Err(eval_err(m))
        },
        RowRef::Relative(off) => {
            let off = *off;
            match current {
                None => Err(eval_err(crate::text::str_chars("relative row reference without current row context"))),
                Some(base) => {
                    let target: i32 = (#[verifier::truncate] (base as i32)) + off;
                    if target < 0 || target as usize >= table.rows.len() {
                        let mut m: Vec<char> = Vec::new();
                        push_str(&mut m, "relative row @");
                        let o: i64 = off as i64;
                        if o >= 0 {
                            push_str(&mut m, "+");
                            crate::text::push_dec(&mut m, o as usize);
                        } else {
                            push_str(&mut m, "-");
                            crate::text::push_dec(&mut m, (-o) as usize);
                        }
                        push_str(&mut m, " out of range from row ");
                        crate::text::push_dec(&mut m, base);
                        assert(m@ =~= "relative row @"@ + signed_text(off as int) + " out of range from row "@ + dec(base as int));
                        Err(eval_err(m))
                    } else {
                        Ok(target as usize)
                    }
                },
            }
        },
    }
}

fn contains_name(names: &[String], name: &String) -> (b: bool)
    ensures
        b == names@.map_values(|x: String| x@).contains(name@),
{
    let ghost nv = names@.map_values(|x: String| x@);
    let mut i: usize = 0;
    while i < names.len()
        invariant
            i <= names@.len(),
            nv == names@.map_values(|x: String| x@),
            forall|k: int| 0 <= k < i ==> nv[k] != name@,
        decreases names.len() - i,
    {
        assert(nv[i as int] == names@[i as int]@);
        if crate::text::str_eq(names[i].as_str(), name.as_str()) {
            return true;
        }
        i += 1;
    }
    false
}

/// Resolves a column reference to a 0-based column; `constants` are the
/// names of the `#+CONSTANTS:`, which no column reference may name.
#[verifier::loop_isolation(false)]
pub fn resolve_col(col_ref: &ColRef, table: &EvalTable, constants: &[String]) -> (r: Result<usize, TblfmError>)
    ensures
        ires_view(r) == resolve_col_spec(
            col_view(*col_ref),
            rows_view(table.rows@),
            table.col_count as int,
            constants@.map_values(|x: String| x@),
        ),
{
    let cols = table.col_count;
    match col_ref {
        ColRef::Absolute(n) => {
            let n = *n;
            if n == 0 || n > cols {
                let mut m: Vec<char> = Vec::new();
                push_str(&mut m, "column $");
                crate::text::push_dec(&mut m, n);
                push_str(&mut m, " out of range (1..");
                crate::text::push_dec(&mut m, cols);
                push_str(&mut m, ")");
                assert(m@ =~= "column $"@ + dec(n as int) + " out of range (1.."@ + dec(cols as int) + ")"@);
                Err(eval_err(m))
            } else {
                Ok(n - 1)
            }
        },
        ColRef::Last => {
            if cols == 0 {
                Err(eval_err(crate::text::str_chars("table has no columns")))
            } else {
                Ok(cols - 1)
            }
        },
        ColRef::First => Ok(0),
        ColRef::Named(name) => {
            if contains_name(constants, name) {
                let mut m: Vec<char> = Vec::new();
                push_str(&mut m, "$");
                push_str(&mut m, name.as_str());
                push_str(&mut m, " is a constant, not a column reference");
                return Err(eval_err(m));
            }
            let ghost rv = rows_view(table.rows@);
            let d = data_rows(&table.rows);
            let ghost dv = d@.map_values(|i: usize| i as int);
            let nc = crate::text::str_chars(name.as_str());
            if d.len() > 0 {
                assert(dv[0] == d@[0] as int);
                assert(rv[d@[0] as int] == row_view(table.rows@[d@[0] as int]));
                match &table.rows[d[0]] {
                    EvalRow::Data(cells) => {
                        let ghost cv = cells_view(cells@);
                        let mut j: usize = 0;
                        while j < cells.len()
                            invariant
                                j <= cells@.len(),
                                cv == cells_view(cells@),
                                header_from(cv, name@, 0) == header_from(cv, name@, j as int),
                            decreases cells.len() - j,
                        {
                            assert(cv[j as int] == cell_view(cells@[j as int]));
                            match &cells[j] {
                                CellValue::Text(txt) => {
                                    let tc = crate::text::str_chars(txt.as_str());
                                    assert(tc@.subrange(0, tc@.len() as int) =~= tc@);
                                    if crate::text::eq_ignore_case_at(tc.as_slice(), 0, tc.len(), nc.as_slice()) {
                                        return Ok(j);
                                    }
                                },
                                _ => {},
                            }
                            j += 1;
                        }
                    },
                    EvalRow::Separator => {},
                }
            }
            let mut m: Vec<char> = Vec::new();
            push_str(&mut m, "unknown column name: $");
            push_str(&mut m, name.as_str());
            Err(eval_err(m))
        },
    }
}

// ---------------------------------------------------------------------------
// Tables followed by formula lines
// ---------------------------------------------------------------------------
/// A table followed by `#+TBLFM:` lines.
#[derive(Debug, Clone)]
pub struct TableRegion {
    /// Offset of the table's first line.
    pub table_start: usize,
    /// Offset of the first line after the table.
    pub table_end: usize,
    /// The table's lines, without carriage returns, joined by newlines.
    pub table_text: String,
    /// What follows `#+TBLFM:` on each formula line.
    pub tblfm_lines: Vec<String>,
}

pub struct RegionView {
    pub start: int,
    pub end: int,
    pub table: Seq<char>,
    pub formulas: Seq<Seq<char>>,
}

pub open spec fn region_view(r: TableRegion) -> RegionView {
    RegionView {
        start: r.table_start as int,
        end: r.table_end as int,
        table: r.table_text@,
        formulas: r.tblfm_lines@.map_values(|x: String| x@),
    }
}

pub open spec fn regions_view(v: Seq<TableRegion>) -> Seq<RegionView> {
    v.map_values(|r: TableRegion| region_view(r))
}

/// Line `i` without its carriage return.
pub open spec fn raw_line(t: Seq<char>, spans: Seq<(int, int)>, i: int) -> Seq<char> {
    crate::text::strip_cr(t.subrange(spans[i].0, spans[i].1))
}

pub open spec fn is_table_line(r: Seq<char>) -> bool {
    let x = crate::text::trim_start(r);
    x.len() > 0 && x[0] == '|'
}

/// What follows `#+TBLFM:`, in any case, at the start of `t`.
pub open spec fn tblfm_rest(t: Seq<char>) -> Option<Seq<char>> {
    if t.len() >= 8 && eq_ignore_case(t.take(8), "#+tblfm:"@) {
        Some(t.skip(8))
    } else {
        None
    }
}

/// The first line from `j` on that is not a table line.
pub open spec fn table_stop(t: Seq<char>, spans: Seq<(int, int)>, j: int) -> int
    decreases spans.len() - j,
{
    if 0 <= j < spans.len() && is_table_line(raw_line(t, spans, j)) {
        table_stop(t, spans, j + 1)
    } else {
        j
    }
}

/// The first line from `j` on that is not a formula line.
pub open spec fn tblfm_stop(t: Seq<char>, spans: Seq<(int, int)>, j: int) -> int
    decreases spans.len() - j,
{
    if 0 <= j < spans.len() && tblfm_rest(trim(raw_line(t, spans, j))) is Some {
        tblfm_stop(t, spans, j + 1)
    } else {
        j
    }
}

/// Lines `i..j`, joined by newlines.
pub open spec fn join_raw(t: Seq<char>, spans: Seq<(int, int)>, i: int, j: int) -> Seq<char>
    decreases j - i,
{
    if j <= i {
        Seq::empty()
    } else if j == i + 1 {
        raw_line(t, spans, i)
    } else {
        join_raw(t, spans, i, j - 1) + "\n"@ + raw_line(t, spans, j - 1)
    }
}

/// The formulas of the formula lines `j..k`.
pub open spec fn formulas_of(t: Seq<char>, spans: Seq<(int, int)>, j: int, k: int) -> Seq<Seq<char>>
    decreases k - j,
{
    if k <= j {
        Seq::empty()
    } else {
        formulas_of(t, spans, j, k - 1).push(tblfm_rest(trim(raw_line(t, spans, k - 1)))->0)
    }
}

/// The tables followed by formula lines, from line `i` on.
pub open spec fn regions_from(t: Seq<char>, spans: Seq<(int, int)>, i: int) -> Seq<RegionView>
    decreases spans.len() - i,
{
    if i < 0 || i >= spans.len() {
        Seq::empty()
    } else if is_table_line(raw_line(t, spans, i)) {
        let j = table_stop(t, spans, i);
        let k = tblfm_stop(t, spans, j);
        if i < j <= k <= spans.len() {
            let rest = regions_from(t, spans, k);
            if k > j {
                seq![
                    RegionView {
                        start: spans[i].0,
                        end: spans[j].0,
                        table: join_raw(t, spans, i, j),
                        formulas: formulas_of(t, spans, j, k),
                    },
                ] + rest
            } else {
                rest
            }
        } else {
            Seq::empty()
        }
    } else {
        regions_from(t, spans, i + 1)
    }
}

proof fn lemma_table_stop(t: Seq<char>, spans: Seq<(int, int)>, j: int)
    requires
        0 <= j <= spans.len(),
    ensures
        j <= table_stop(t, spans, j) <= spans.len(),
    decreases spans.len() - j,
{
    if j < spans.len() && is_table_line(raw_line(t, spans, j)) {
        lemma_table_stop(t, spans, j + 1);
    }
}

proof fn lemma_tblfm_stop(t: Seq<char>, spans: Seq<(int, int)>, j: int)
    requires
        0 <= j <= spans.len(),
    ensures
        j <= tblfm_stop(t, spans, j) <= spans.len(),
    decreases spans.len() - j,
{
    if j < spans.len() && tblfm_rest(trim(raw_line(t, spans, j))) is Some {
        lemma_tblfm_stop(t, spans, j + 1);
    }
}

/// The range of what follows `#+TBLFM:` in `s[lo..hi]`, if it starts so.
fn tblfm_rest_at(s: &[char], lo: usize, hi: usize) -> (r: Option<usize>)
    requires
        lo <= hi <= s@.len(),
    ensures
        match r {
            Some(k) => k == lo + 8 && k <= hi && tblfm_rest(s@.subrange(lo as int, hi as int)) == Some(
                s@.subrange(k as int, hi as int),
            ),
            None => tblfm_rest(s@.subrange(lo as int, hi as int)) is None,
        },
{
    let ghost x = s@.subrange(lo as int, hi as int);
    if hi - lo >= 8 && crate::text::eq_ignore_case_str(s, lo, lo + 8, "#+tblfm:") {
        assert(x.take(8) =~= s@.subrange(lo as int, lo + 8));
        assert(x.skip(8) =~= s@.subrange(lo + 8, hi as int));
        Some(lo + 8)
    } else {
        proof {
            if hi - lo >= 8 {
                assert(x.take(8) =~= s@.subrange(lo as int, lo + 8));
            }
        }
        None
    }
}

fn is_table_line_at(s: &[char], lo: usize, hi: usize) -> (b: bool)
    requires
        lo <= hi <= s@.len(),
    ensures
        b == is_table_line(s@.subrange(lo as int, hi as int)),
{
    let a = crate::text::skip_ws(s, lo, hi);
    if a < hi {
        assert(s@.subrange(a as int, hi as int)[0] == s@[a as int]);
        s[a] == '|'
    } else {
        false
    }
}

/// Finds every table that `#+TBLFM:` lines follow, with its formulas.
pub fn find_table_tblfm_regions(content: &str) -> (r: Vec<TableRegion>)
    ensures
        regions_view(r@) == regions_from(content@, crate::lines::line_spans(content@), 0),
{
    let sv = crate::text::str_chars(content);
    let s = sv.as_slice();
    let lines = crate::lines::line_ranges(s);
    let ghost t = s@;
    let ghost spans = crate::lines::line_spans(t);
    let n = lines.len();
    let mut out: Vec<TableRegion> = Vec::new();
    let mut i: usize = 0;
    assert(regions_view(out@) + regions_from(t, spans, 0) =~= regions_from(t, spans, 0));
    while i < n
        invariant
            i <= n == lines@.len() == spans.len(),
            t == s@,
            t == content@,
            spans == crate::lines::line_spans(t),
            forall|j: int| 0 <= j < lines@.len() ==> (#[trigger] lines@[j]).0 as int == spans[j].0 && lines@[j].1 as int == spans[j].1,
            forall|j: int| 0 <= j < lines@.len() ==> (#[trigger] lines@[j]).0 <= lines@[j].1 <= s@.len(),
            regions_view(out@) + regions_from(t, spans, i as int) == regions_from(t, spans, 0),
        decreases n - i,
    {
        let (a, e) = lines[i];
        let e1 = crate::text::strip_cr_end(s, a, e);
        assert(s@.subrange(a as int, e1 as int) == raw_line(t, spans, i as int));
        if !is_table_line_at(s, a, e1) {
            i += 1;
            continue;
        }
        let start_line = i;
        let mut text: Vec<char> = Vec::new();
        let mut j = i;
        while j < n
            invariant_except_break
                start_line <= j <= n,
                start_line < n,
                is_table_line(raw_line(t, spans, start_line as int)),
                text@ == join_raw(t, spans, start_line as int, j as int),
                table_stop(t, spans, start_line as int) == table_stop(t, spans, j as int),
            invariant
                n == lines@.len() == spans.len(),
                t == s@,
                spans == crate::lines::line_spans(t),
                forall|q: int| 0 <= q < lines@.len() ==> (#[trigger] lines@[q]).0 as int == spans[q].0 && lines@[q].1 as int == spans[q].1,
                forall|q: int| 0 <= q < lines@.len() ==> (#[trigger] lines@[q]).0 <= lines@[q].1 <= s@.len(),
            ensures
                start_line < j <= n,
                text@ == join_raw(t, spans, start_line as int, j as int),
                table_stop(t, spans, start_line as int) == j,
            decreases n - j,
        {
            let (la, le) = lines[j];
            let le1 = crate::text::strip_cr_end(s, la, le);
            assert(s@.subrange(la as int, le1 as int) == raw_line(t, spans, j as int));
            if !is_table_line_at(s, la, le1) {
                break;
            }
            let ghost before = text@;
            if j > start_line {
                text.push('\n');
            }
            push_all(&mut text, &s[la..le1]);
            proof {
                reveal_strlit("\n");
                if j > start_line {
                    assert(text@ =~= before + "\n"@ + raw_line(t, spans, j as int));
                } else {
                    assert(text@ =~= raw_line(t, spans, j as int));
                }
            }
            j += 1;
        }
        let mut formulas: Vec<String> = Vec::new();
        let mut k = j;
        assert(formulas@.map_values(|x: String| x@) =~= formulas_of(t, spans, j as int, j as int));
        while k < n
            invariant_except_break
                j <= k <= n,
                formulas@.map_values(|x: String| x@) == formulas_of(t, spans, j as int, k as int),
                tblfm_stop(t, spans, j as int) == tblfm_stop(t, spans, k as int),
            invariant
                n == lines@.len() == spans.len(),
                t == s@,
                spans == crate::lines::line_spans(t),
                forall|q: int| 0 <= q < lines@.len() ==> (#[trigger] lines@[q]).0 as int == spans[q].0 && lines@[q].1 as int == spans[q].1,
                forall|q: int| 0 <= q < lines@.len() ==> (#[trigger] lines@[q]).0 <= lines@[q].1 <= s@.len(),
            ensures
                j <= k <= n,
                formulas@.map_values(|x: String| x@) == formulas_of(t, spans, j as int, k as int),
                tblfm_stop(t, spans, j as int) == k,
            decreases n - k,
        {
            let (la, le) = lines[k];
            let le1 = crate::text::strip_cr_end(s, la, le);
            assert(s@.subrange(la as int, le1 as int) == raw_line(t, spans, k as int));
            let (ta, tb) = trim_range(s, la, le1);
            match tblfm_rest_at(s, ta, tb) {
                Some(ra) => {
                    let ghost before = formulas@.map_values(|x: String| x@);
                    formulas.push(crate::text::string_of(s, ra, tb));
                    assert(formulas@.map_values(|x: String| x@) =~= before.push(s@.subrange(ra as int, tb as int)));
                    k += 1;
                },
                None => {
                    break;
                },
            }
        }
        proof {
            lemma_table_stop(t, spans, start_line as int);
            lemma_tblfm_stop(t, spans, j as int);
        }
        if k > j {
            let region = TableRegion {
                table_start: lines[start_line].0,
                table_end: lines[j].0,
                table_text: string_from(text.as_slice()),
                tblfm_lines: formulas,
            };
            let ghost before = regions_view(out@);
            out.push(region);
            proof {
                assert(regions_view(out@) =~= before.push(region_view(region)));
                assert(regions_view(out@) + regions_from(t, spans, k as int) =~= before + regions_from(t, spans, start_line as int));
            }
        }
        i = k;
    }
    out
}

/// The result of evaluating every formula of a document.
pub struct CalcResult {
    /// The document with the computed cells filled in.
    pub content: String,
    /// The number of cells written.
    pub cells_updated: usize,
    /// The errors met, formula by formula.
    pub errors: Vec<TblfmError>,
    /// Whether a formula needs Emacs.
    pub requires_emacs: bool,
}

/// The text of `s` as a number cell reads it: trimmed, without currency
/// signs, `%` and thousands separators; `None` when that is no number.
pub fn number_cell_text(s: &str) -> (r: Option<String>)
    ensures
        match r {
            Some(v) => number_text(s@) == Some(v@),
            None => number_text(s@) is None,
        },
{
    let vc = crate::text::str_chars(s);
    assert(vc@.subrange(0, vc@.len() as int) =~= vc@);
    match number_text_at(vc.as_slice(), 0, vc.len()) {
        Some(n) => Some(string_from(n.as_slice())),
        None => None,
    }
}

/// The cell that a computed value becomes.
pub open spec fn cell_for(value: Seq<char>) -> CellView {
    match number_text(value) {
        Some(n) => CellView::Number(n),
        None => CellView::Text(value),
    }
}

/// The cells of a data row after writing `value` to column `col`, padding
/// with empty cells.
pub open spec fn cells_updated(cells: Seq<CellView>, col: int, value: Seq<char>) -> Seq<CellView> {
    let padded = if cells.len() > col {
        cells
    } else {
        cells + Seq::new((col + 1 - cells.len()) as nat, |i: int| CellView::Empty)
    };
    padded.update(col, cell_for(value))
}

/// Writes `value` to the cell at `row`, `col`; a separator row is left as it is.
pub fn apply_cell_update(table: &mut EvalTable, row: usize, col: usize, value: &str)
    requires
        row < old(table).rows@.len(),
        col < usize::MAX,
    ensures
        final(table).col_count == old(table).col_count,
        final(table).separators@ == old(table).separators@,
        rows_view(final(table).rows@) == rows_view(old(table).rows@).update(
            row as int,
            match rows_view(old(table).rows@)[row as int] {
                RowView::Separator => RowView::Separator,
                RowView::Data(cells) => RowView::Data(cells_updated(cells, col as int, value@)),
            },
        ),
{
    let ghost rv = rows_view(table.rows@);
    assert(rv[row as int] == row_view(table.rows@[row as int]));
    let mut r = EvalRow::Separator;
    std::mem::swap(&mut r, &mut table.rows[row]);
    match r {
        EvalRow::Separator => {
            table.rows.set(row, EvalRow::Separator);
            assert(rows_view(table.rows@) =~= rv);
        },
        EvalRow::Data(mut cells) => {
            let ghost cv = cells_view(cells@);
            while cells.len() <= col
                invariant
                    cv.len() <= cells@.len(),
                    cells@.len() <= col + 1 || cells@.len() == cv.len(),
                    cells_view(cells@) == cv + Seq::new((cells@.len() - cv.len()) as nat, |i: int| CellView::Empty),
                decreases col + 1 - cells.len(),
            {
                let ghost before = cells_view(cells@);
                cells.push(CellValue::Empty);
                assert(cells_view(cells@) =~= before.push(CellView::Empty));
                let ghost pad = Seq::new((cells@.len() - cv.len()) as nat, |i: int| CellView::Empty);
                assert forall|k: int| 0 <= k < cells@.len() implies #[trigger] cells_view(cells@)[k] == (cv + pad)[k] by {
                    if k < cv.len() {
                        assert(before[k] == cv[k]);
                    }
                }
                assert(cells_view(cells@) =~= cv + pad);
            }
            let vc = crate::text::str_chars(value);
            assert(vc@.subrange(0, vc@.len() as int) =~= vc@);
            let cell = match number_text_at(vc.as_slice(), 0, vc.len()) {
                Some(n) => CellValue::Number(string_from(n.as_slice())),
                None => CellValue::Text(value.to_owned()),
            };
            let ghost padded = cells_view(cells@);
            cells.set(col, cell);
            proof {
                if cv.len() > col {
                    assert(padded =~= cv);
                }
                assert(cells_view(cells@) =~= cells_updated(cv, col as int, value@));
            }
            let ghost newrow = RowView::Data(cells_view(cells@));
            table.rows.set(row, EvalRow::Data(cells));
            assert(rows_view(table.rows@) =~= rv.update(row as int, newrow));
        },
    }
}

} // verus!
