//! The org-edna dependency language of `:BLOCKER:` and `:TRIGGER:` properties:
//! finders (target selectors), actions (ending in `!`) and conditions (ending
//! in `?`), with `if ... then ... [else ...] endif` blocks.
use vstd::prelude::*;
use crate::document::{dedup, kids, last_smaller, lemma_kids_members, tags_along, tree_wf, OrgDocument, OrgEntry};
use crate::locator::{canonical_spec, entry_locator, locator_for_entry};
use crate::rules::heading::{is_one_of, strings_view};
use crate::text::{
    char_is_ascii_ws, copy_range, eq_ignore_case, eq_ignore_case_at, eq_str, is_ascii_ws, push_all, push_str, str_chars,
    str_eq, string_from,
};
use crate::unicode::{lower_text, to_lower};

verus! {

// ---------------------------------------------------------------------------
// Syntax tree
// ---------------------------------------------------------------------------
/// An expression of the edna language.
#[derive(Debug, PartialEq)]
pub enum EdnaExpr {
    Finder(Finder),
    Action(Action),
    Condition(Condition),
    /// `if COND then EXPRS [else EXPRS] endif`.
    If { cond: Box<EdnaExpr>, then: Vec<EdnaExpr>, else_: Vec<EdnaExpr> },
}

/// A finder: selects target entries.
#[derive(Debug, Clone, PartialEq)]
pub enum Finder {
    Ids(Vec<String>),
    Self_,
    NextSibling,
    PreviousSibling,
    RestOfSiblings,
    Parent,
    Ancestors,
    Children,
    Descendants,
    Siblings,
    FirstChild,
    Match(String),
    Olp(Vec<String>),
    File(String),
    OrgFile(String),
    Relatives(Vec<String>),
}

/// An action on the target entries (suffix `!`).
#[derive(Debug, Clone, PartialEq)]
pub enum Action {
    Todo(String),
    Scheduled(String),
    Deadline(String),
    SetProperty(String, String),
    DeleteProperty(String),
    Tag(String),
    SetPriority(String),
    SetEffort(String),
    Archive,
    ClockIn,
    ClockOut,
    Chain(String),
}

/// A condition on the target entries (suffix `?`).
#[derive(Debug, Clone, PartialEq)]
pub enum Condition {
    TodoState(String),
    HasProperty(String, String),
    ReSearch(String),
    VariableSet(String, String),
    HasTags(Vec<String>),
}

/// An error of the edna parser, at a character offset of the parsed value.
#[derive(Debug, Clone, PartialEq)]
pub struct EdnaParseError {
    pub message: String,
    pub offset: usize,
}

// ---------------------------------------------------------------------------
// Views
// ---------------------------------------------------------------------------
pub enum FinderView {
    Ids(Seq<Seq<char>>),
    Self_,
    NextSibling,
    PreviousSibling,
    RestOfSiblings,
    Parent,
    Ancestors,
    Children,
    Descendants,
    Siblings,
    FirstChild,
    Match(Seq<char>),
    Olp(Seq<Seq<char>>),
    File(Seq<char>),
    OrgFile(Seq<char>),
    Relatives(Seq<Seq<char>>),
}

pub enum ActionView {
    Todo(Seq<char>),
    Scheduled(Seq<char>),
    Deadline(Seq<char>),
    SetProperty(Seq<char>, Seq<char>),
    DeleteProperty(Seq<char>),
    Tag(Seq<char>),
    SetPriority(Seq<char>),
    SetEffort(Seq<char>),
    Archive,
    ClockIn,
    ClockOut,
    Chain(Seq<char>),
}

pub enum ConditionView {
    TodoState(Seq<char>),
    HasProperty(Seq<char>, Seq<char>),
    ReSearch(Seq<char>),
    VariableSet(Seq<char>, Seq<char>),
    HasTags(Seq<Seq<char>>),
}

pub enum EdnaView {
    Finder(FinderView),
    Action(ActionView),
    Condition(ConditionView),
    If(Box<EdnaView>, Seq<EdnaView>, Seq<EdnaView>),
}

pub struct ErrView {
    pub message: Seq<char>,
    pub offset: int,
}

pub open spec fn strs(v: Seq<String>) -> Seq<Seq<char>> {
    v.map_values(|s: String| s@)
}

pub open spec fn finder_view(f: Finder) -> FinderView {
    match f {
        Finder::Ids(v) => FinderView::Ids(strs(v@)),
        Finder::Self_ => FinderView::Self_,
        Finder::NextSibling => FinderView::NextSibling,
        Finder::PreviousSibling => FinderView::PreviousSibling,
        Finder::RestOfSiblings => FinderView::RestOfSiblings,
        Finder::Parent => FinderView::Parent,
        Finder::Ancestors => FinderView::Ancestors,
        Finder::Children => FinderView::Children,
        Finder::Descendants => FinderView::Descendants,
        Finder::Siblings => FinderView::Siblings,
        Finder::FirstChild => FinderView::FirstChild,
        Finder::Match(s) => FinderView::Match(s@),
        Finder::Olp(v) => FinderView::Olp(strs(v@)),
        Finder::File(s) => FinderView::File(s@),
        Finder::OrgFile(s) => FinderView::OrgFile(s@),
        Finder::Relatives(v) => FinderView::Relatives(strs(v@)),
    }
}

pub open spec fn action_view(a: Action) -> ActionView {
    match a {
        Action::Todo(s) => ActionView::Todo(s@),
        Action::Scheduled(s) => ActionView::Scheduled(s@),
        Action::Deadline(s) => ActionView::Deadline(s@),
        Action::SetProperty(k, v) => ActionView::SetProperty(k@, v@),
        Action::DeleteProperty(s) => ActionView::DeleteProperty(s@),
        Action::Tag(s) => ActionView::Tag(s@),
        Action::SetPriority(s) => ActionView::SetPriority(s@),
        Action::SetEffort(s) => ActionView::SetEffort(s@),
        Action::Archive => ActionView::Archive,
        Action::ClockIn => ActionView::ClockIn,
        Action::ClockOut => ActionView::ClockOut,
        Action::Chain(s) => ActionView::Chain(s@),
    }
}

pub open spec fn condition_view(c: Condition) -> ConditionView {
    match c {
        Condition::TodoState(s) => ConditionView::TodoState(s@),
        Condition::HasProperty(k, v) => ConditionView::HasProperty(k@, v@),
        Condition::ReSearch(s) => ConditionView::ReSearch(s@),
        Condition::VariableSet(k, v) => ConditionView::VariableSet(k@, v@),
        Condition::HasTags(v) => ConditionView::HasTags(strs(v@)),
    }
}

pub open spec fn edna_view(e: EdnaExpr) -> EdnaView
    decreases e, 1int,
{
    match e {
        EdnaExpr::Finder(f) => EdnaView::Finder(finder_view(f)),
        EdnaExpr::Action(a) => EdnaView::Action(action_view(a)),
        EdnaExpr::Condition(c) => EdnaView::Condition(condition_view(c)),
        EdnaExpr::If { cond, then, else_ } => EdnaView::If(Box::new(edna_view(*cond)), ednas_view(then@), ednas_view(else_@)),
    }
}

pub open spec fn ednas_view(s: Seq<EdnaExpr>) -> Seq<EdnaView>
    decreases s, 0int,
{
    if s.len() == 0 {
        Seq::empty()
    } else {
        seq![edna_view(s[0])] + ednas_view(s.subrange(1, s.len() as int))
    }
}

pub open spec fn err_view(e: EdnaParseError) -> ErrView {
    ErrView { message: e.message@, offset: e.offset as int }
}

pub open spec fn errs_view(s: Seq<EdnaParseError>) -> Seq<ErrView> {
    s.map_values(|e: EdnaParseError| err_view(e))
}

pub proof fn lemma_ednas_push(s: Seq<EdnaExpr>, e: EdnaExpr)
    ensures
        ednas_view(s.push(e)) == ednas_view(s).push(edna_view(e)),
    decreases s.len(),
{
    if s.len() == 0 {
        assert(s.push(e).subrange(1, 1) =~= Seq::<EdnaExpr>::empty());
        assert(ednas_view(Seq::<EdnaExpr>::empty()) == Seq::<EdnaView>::empty());
        assert(ednas_view(s.push(e)) =~= seq![edna_view(e)]);
    } else {
        assert(s.push(e).subrange(1, s.len() as int + 1) =~= s.subrange(1, s.len() as int).push(e));
        lemma_ednas_push(s.subrange(1, s.len() as int), e);
        assert(s.push(e)[0] == s[0]);
        assert(ednas_view(s.push(e)) =~= ednas_view(s).push(edna_view(e)));
    }
}

// ---------------------------------------------------------------------------
// Tokens
// ---------------------------------------------------------------------------
/// A token of the edna language.
enum Token {
    /// A bare word, such as `next-sibling`, `todo!` or `has-property?`.
    Word(Vec<char>),
    /// The content of a quoted string.
    Quoted(Vec<char>),
    LParen,
    RParen,
}

pub enum TokView {
    Word(Seq<char>),
    Quoted(Seq<char>),
    LParen,
    RParen,
}

spec fn tok_view(t: Token) -> TokView {
    match t {
        Token::Word(w) => TokView::Word(w@),
        Token::Quoted(q) => TokView::Quoted(q@),
        Token::LParen => TokView::LParen,
        Token::RParen => TokView::RParen,
    }
}

spec fn toks_view(v: Seq<(Token, usize)>) -> Seq<(TokView, int)> {
    v.map_values(|p: (Token, usize)| (tok_view(p.0), p.1 as int))
}

/// The first index from `p` on that is not ASCII whitespace.
pub open spec fn skip_aws(t: Seq<char>, p: int) -> int
    decreases t.len() - p,
{
    if 0 <= p < t.len() && is_ascii_ws(t[p]) {
        skip_aws(t, p + 1)
    } else {
        p
    }
}

/// The index of the closing quote of a string whose content starts at `q`, a
/// backslash escaping the next character; the length when there is none.
pub open spec fn quote_end(t: Seq<char>, q: int) -> int
    decreases t.len() - q,
{
    if q < 0 || q >= t.len() {
        t.len() as int
    } else if t[q] == '"' {
        q
    } else if t[q] == '\\' {
        if q + 1 >= t.len() {
            t.len() as int
        } else {
            quote_end(t, q + 2)
        }
    } else {
        quote_end(t, q + 1)
    }
}

/// The end of a bare word starting at `p`: the next ASCII whitespace or parenthesis.
pub open spec fn word_end(t: Seq<char>, p: int) -> int
    decreases t.len() - p,
{
    if p < 0 || p >= t.len() || is_ascii_ws(t[p]) || t[p] == '(' || t[p] == ')' {
        p
    } else {
        word_end(t, p + 1)
    }
}

/// The next token from `p0` on: the token, its start and the index after it.
pub open spec fn next_tok(t: Seq<char>, p0: int) -> Option<(TokView, int, int)> {
    let p = skip_aws(t, p0);
    if p < 0 || p >= t.len() {
        None
    } else if t[p] == '(' {
        Some((TokView::LParen, p, p + 1))
    } else if t[p] == ')' {
        Some((TokView::RParen, p, p + 1))
    } else if t[p] == '"' {
        let e = quote_end(t, p + 1);
        Some((TokView::Quoted(t.subrange(p + 1, e)), p, if e < t.len() { e + 1 } else { e }))
    } else {
        let e = word_end(t, p);
        Some((TokView::Word(t.subrange(p, e)), p, e))
    }
}

/// The tokens of `t` from `p` on, each with its start offset.
pub open spec fn tokens_from(t: Seq<char>, p: int) -> Seq<(TokView, int)>
    decreases t.len() - p,
{
    match next_tok(t, p) {
        Some((tk, s, e)) => if p < e <= t.len() {
            seq![(tk, s)] + tokens_from(t, e)
        } else {
            Seq::empty()
        },
        None => Seq::empty(),
    }
}

proof fn lemma_skip_aws(t: Seq<char>, p: int)
    requires
        0 <= p <= t.len(),
    ensures
        p <= skip_aws(t, p) <= t.len(),
    decreases t.len() - p,
{
    if p < t.len() && is_ascii_ws(t[p]) {
        lemma_skip_aws(t, p + 1);
    }
}

proof fn lemma_quote_end(t: Seq<char>, q: int)
    requires
        0 <= q <= t.len(),
    ensures
        q <= quote_end(t, q) <= t.len(),
    decreases t.len() - q,
{
    if q < t.len() && t[q] != '"' {
        if t[q] == '\\' {
            if q + 1 < t.len() {
                lemma_quote_end(t, q + 2);
            }
        } else {
            lemma_quote_end(t, q + 1);
        }
    }
}

proof fn lemma_word_end(t: Seq<char>, p: int)
    requires
        0 <= p <= t.len(),
    ensures
        p <= word_end(t, p) <= t.len(),
    decreases t.len() - p,
{
    if p < t.len() && !is_ascii_ws(t[p]) && t[p] != '(' && t[p] != ')' {
        lemma_word_end(t, p + 1);
    }
}

/// The next token of `s` from `p0` on.
fn next_token(s: &[char], p0: usize) -> (r: Option<(Token, usize, usize)>)
    requires
        p0 <= s@.len(),
    ensures
        r matches Some((tk, st, e)) ==> next_tok(s@, p0 as int) == Some((tok_view(tk), st as int, e as int)) && p0 < e <= s@.len(),
        r is None ==> next_tok(s@, p0 as int) is None,
{
    let mut p = p0;
    while p < s.len() && char_is_ascii_ws(s[p])
        invariant
            p0 <= p <= s@.len(),
            skip_aws(s@, p0 as int) == skip_aws(s@, p as int),
        decreases s.len() - p,
    {
        p += 1;
    }
    if p >= s.len() {
        return None;
    }
    let c = s[p];
    if c == '(' {
        Some((Token::LParen, p, p + 1))
    } else if c == ')' {
        Some((Token::RParen, p, p + 1))
    } else if c == '"' {
        let mut q = p + 1;
        while q < s.len() && s[q] != '"'
            invariant
                p + 1 <= q <= s@.len(),
                quote_end(s@, p + 1) == quote_end(s@, q as int),
            decreases s.len() - q,
        {
            if s[q] == '\\' {
                if q + 1 >= s.len() {
                    q = s.len();
                } else {
                    q += 2;
                }
            } else {
                q += 1;
            }
        }
        let content = copy_range(s, p + 1, q);
        let e = if q < s.len() { q + 1 } else { q };
        Some((Token::Quoted(content), p, e))
    } else {
        let mut q = p;
        while q < s.len() && !char_is_ascii_ws(s[q]) && s[q] != '(' && s[q] != ')'
            invariant
                p <= q <= s@.len(),
                word_end(s@, p as int) == word_end(s@, q as int),
            decreases s.len() - q,
        {
            q += 1;
        }
        let word = copy_range(s, p, q);
        Some((Token::Word(word), p, q))
    }
}

/// The tokens of `s` with their start offsets.
fn tokenize_all(s: &[char]) -> (r: Vec<(Token, usize)>)
    ensures
        toks_view(r@) == tokens_from(s@, 0),
{
    let mut out: Vec<(Token, usize)> = Vec::new();
    let mut p: usize = 0;
    loop
        invariant
            p <= s@.len(),
            toks_view(out@) + tokens_from(s@, p as int) == tokens_from(s@, 0),
        decreases s.len() - p,
    {
        match next_token(s, p) {
            Some((tk, st, e)) => {
                let ghost tv = tok_view(tk);
                let ghost before = toks_view(out@);
                out.push((tk, st));
                proof {
                    assert(toks_view(out@) =~= before.push((tv, st as int)));
                    assert(tokens_from(s@, p as int) == seq![(tv, st as int)] + tokens_from(s@, e as int));
                    assert(toks_view(out@) + tokens_from(s@, e as int) =~= before + tokens_from(s@, p as int));
                }
                p = e;
            },
            None => {
                proof {
                    assert(toks_view(out@) + tokens_from(s@, p as int) =~= toks_view(out@));
                }
                return out;
            },
        }
    }
}


// ---------------------------------------------------------------------------
// Parser specification
// ---------------------------------------------------------------------------
pub open spec fn err(message: Seq<char>, offset: int) -> ErrView {
    ErrView { message, offset }
}

/// The arguments `(a b ...)` at `pos`: words or quoted strings up to `)`.
pub open spec fn args_loop(tk: Seq<(TokView, int)>, p: int, acc: Seq<Seq<char>>) -> (Result<Seq<Seq<char>>, ErrView>, int)
    decreases tk.len() - p,
{
    if p < 0 || p >= tk.len() {
        (Err(err("unclosed parentheses in argument list"@, 0)), p)
    } else {
        match tk[p].0 {
            TokView::RParen => (Ok(acc), p + 1),
            TokView::Quoted(a) => args_loop(tk, p + 1, acc.push(a)),
            TokView::Word(a) => args_loop(tk, p + 1, acc.push(a)),
            TokView::LParen => (Err(err("unexpected '(' inside argument list"@, tk[p].1)), p),
        }
    }
}

pub open spec fn read_args_spec(tk: Seq<(TokView, int)>, p: int) -> (Result<Seq<Seq<char>>, ErrView>, int) {
    if p < 0 || p >= tk.len() {
        (Err(err("unexpected end of input, expected '('"@, 0)), p)
    } else {
        match tk[p].0 {
            TokView::LParen => args_loop(tk, p + 1, Seq::empty()),
            _ => (Err(err("expected '('"@, tk[p].1)), p + 1),
        }
    }
}

pub open spec fn has_args(tk: Seq<(TokView, int)>, p: int) -> bool {
    0 <= p < tk.len() && tk[p].0 is LParen
}

/// How many arguments a keyword takes.
pub enum Arity {
    Zero,
    One,
    Two,
    AtLeastOne,
    Any,
}

pub open spec fn finder_arity(kw: Seq<char>) -> Option<Arity> {
    if kw == "self"@ || kw == "next-sibling"@ || kw == "previous-sibling"@ || kw == "rest-of-siblings"@
        || kw == "rest-of-siblings-wrap"@ || kw == "parent"@ || kw == "ancestors"@ || kw == "children"@
        || kw == "descendants"@ || kw == "siblings"@ || kw == "first-child"@ {
        Some(Arity::Zero)
    } else if kw == "ids"@ || kw == "olp"@ {
        Some(Arity::AtLeastOne)
    } else if kw == "match"@ || kw == "file"@ || kw == "org-file"@ {
        Some(Arity::One)
    } else if kw == "relatives"@ {
        Some(Arity::Any)
    } else {
        None
    }
}

pub open spec fn action_arity(kw: Seq<char>) -> Option<Arity> {
    if kw == "archive!"@ || kw == "clock-in!"@ || kw == "clock-out!"@ {
        Some(Arity::Zero)
    } else if kw == "todo!"@ || kw == "scheduled!"@ || kw == "deadline!"@ || kw == "delete-property!"@
        || kw == "tag!"@ || kw == "set-priority!"@ || kw == "set-effort!"@ || kw == "chain!"@ {
        Some(Arity::One)
    } else if kw == "set-property!"@ {
        Some(Arity::Two)
    } else {
        None
    }
}

pub open spec fn condition_arity(kw: Seq<char>) -> Option<Arity> {
    if kw == "todo-state?"@ || kw == "re-search?"@ {
        Some(Arity::One)
    } else if kw == "has-property?"@ || kw == "variable-set?"@ {
        Some(Arity::Two)
    } else if kw == "has-tags?"@ {
        Some(Arity::AtLeastOne)
    } else {
        None
    }
}

/// The finder of keyword `kw` with arguments `a` (ignored for a finder without any).
pub open spec fn make_finder(kw: Seq<char>, a: Seq<Seq<char>>) -> FinderView {
    if kw == "self"@ {
        FinderView::Self_
    } else if kw == "next-sibling"@ {
        FinderView::NextSibling
    } else if kw == "previous-sibling"@ {
        FinderView::PreviousSibling
    } else if kw == "rest-of-siblings"@ || kw == "rest-of-siblings-wrap"@ {
        FinderView::RestOfSiblings
    } else if kw == "parent"@ {
        FinderView::Parent
    } else if kw == "ancestors"@ {
        FinderView::Ancestors
    } else if kw == "children"@ {
        FinderView::Children
    } else if kw == "descendants"@ {
        FinderView::Descendants
    } else if kw == "siblings"@ {
        FinderView::Siblings
    } else if kw == "first-child"@ {
        FinderView::FirstChild
    } else if kw == "ids"@ {
        FinderView::Ids(a)
    } else if kw == "olp"@ {
        FinderView::Olp(a)
    } else if kw == "match"@ {
        FinderView::Match(a[0])
    } else if kw == "file"@ {
        FinderView::File(a[0])
    } else if kw == "org-file"@ {
        FinderView::OrgFile(a[0])
    } else {
        FinderView::Relatives(a)
    }
}

pub open spec fn make_action(kw: Seq<char>, a: Seq<Seq<char>>) -> ActionView {
    if kw == "archive!"@ {
        ActionView::Archive
    } else if kw == "clock-in!"@ {
        ActionView::ClockIn
    } else if kw == "clock-out!"@ {
        ActionView::ClockOut
    } else if kw == "todo!"@ {
        ActionView::Todo(a[0])
    } else if kw == "scheduled!"@ {
        ActionView::Scheduled(a[0])
    } else if kw == "deadline!"@ {
        ActionView::Deadline(a[0])
    } else if kw == "delete-property!"@ {
        ActionView::DeleteProperty(a[0])
    } else if kw == "tag!"@ {
        ActionView::Tag(a[0])
    } else if kw == "set-priority!"@ {
        ActionView::SetPriority(a[0])
    } else if kw == "set-effort!"@ {
        ActionView::SetEffort(a[0])
    } else if kw == "chain!"@ {
        ActionView::Chain(a[0])
    } else {
        ActionView::SetProperty(a[0], a[1])
    }
}

pub open spec fn make_condition(kw: Seq<char>, a: Seq<Seq<char>>) -> ConditionView {
    if kw == "todo-state?"@ {
        ConditionView::TodoState(a[0])
    } else if kw == "re-search?"@ {
        ConditionView::ReSearch(a[0])
    } else if kw == "has-property?"@ {
        ConditionView::HasProperty(a[0], a[1])
    } else if kw == "variable-set?"@ {
        ConditionView::VariableSet(a[0], a[1])
    } else {
        ConditionView::HasTags(a)
    }
}

/// Which kind of keyword: 0 finder, 1 action, 2 condition.
pub open spec fn make_expr(kind: int, kw: Seq<char>, a: Seq<Seq<char>>) -> EdnaView {
    if kind == 0 {
        EdnaView::Finder(make_finder(kw, a))
    } else if kind == 1 {
        EdnaView::Action(make_action(kw, a))
    } else {
        EdnaView::Condition(make_condition(kw, a))
    }
}

pub open spec fn arity_of(kind: int, kw: Seq<char>) -> Option<Arity> {
    if kind == 0 {
        finder_arity(kw)
    } else if kind == 1 {
        action_arity(kw)
    } else {
        condition_arity(kw)
    }
}

pub open spec fn kind_name(kind: int) -> Seq<char> {
    if kind == 0 {
        "finder"@
    } else if kind == 1 {
        "action"@
    } else {
        "condition"@
    }
}

/// Whether `n` arguments suit the arity, and the message when they do not.
pub open spec fn arity_error(kw: Seq<char>, ar: Arity, n: int) -> Option<Seq<char>> {
    match ar {
        Arity::One => if n != 1 { Some(kw + "() requires exactly one argument"@) } else { None },
        Arity::Two => if n != 2 { Some(kw + "() requires exactly two arguments"@) } else { None },
        Arity::AtLeastOne => if n == 0 { Some(kw + "() requires at least one argument"@) } else { None },
        _ => None,
    }
}

/// The keyword `kw` of the given kind at offset `off`, its arguments read from `p`.
pub open spec fn keyword_spec(kind: int, kw: Seq<char>, off: int, tk: Seq<(TokView, int)>, p: int) -> (Result<EdnaView, ErrView>, int) {
    match arity_of(kind, kw) {
        Some(Arity::Zero) => (Ok(make_expr(kind, kw, Seq::empty())), p),
        Some(ar) => {
            let (ra, p2) = read_args_spec(tk, p);
            match ra {
                Err(e) => (Err(e), p2),
                Ok(a) => match arity_error(kw, ar, a.len() as int) {
                    Some(m) => (Err(err(m, off)), p2),
                    None => (Ok(make_expr(kind, kw, a)), p2),
                },
            }
        },
        None => {
            let unknown = err("unknown edna "@ + kind_name(kind) + ": "@ + kw, off);
            if has_args(tk, p) {
                let (ra, p2) = read_args_spec(tk, p);
                match ra {
                    Err(e) => (Err(e), p2),
                    Ok(_) => (Err(unknown), p2),
                }
            } else {
                (Err(unknown), p)
            }
        },
    }
}

/// The expression at `pos`, and the index after it.
pub open spec fn parse_expr_spec(tk: Seq<(TokView, int)>, pos: int) -> (Result<EdnaView, ErrView>, int)
    decreases tk.len() - pos, 0int,
{
    if pos < 0 || pos >= tk.len() {
        (Err(err("unexpected end of input"@, 0)), pos)
    } else {
        let off = tk[pos].1;
        let p = pos + 1;
        match tk[pos].0 {
            TokView::Word(w) => {
                let lower = lower_text(w);
                if lower == "if"@ {
                    if_block_spec(tk, p)
                } else if lower.len() > 0 && lower.last() == '!' {
                    keyword_spec(1, lower, off, tk, p)
                } else if lower.len() > 0 && lower.last() == '?' {
                    keyword_spec(2, lower, off, tk, p)
                } else {
                    keyword_spec(0, lower, off, tk, p)
                }
            },
            TokView::Quoted(q) => (Err(err("unexpected quoted string \""@ + q + "\", expected a keyword"@, off)), p),
            TokView::LParen => (Err(err("unexpected '('"@, off)), p),
            TokView::RParen => (Err(err("unexpected ')'"@, off)), p),
        }
    }
}

/// The `if` block whose condition starts at `p`.
pub open spec fn if_block_spec(tk: Seq<(TokView, int)>, p: int) -> (Result<EdnaView, ErrView>, int)
    decreases tk.len() - p, 1int,
{
    if p < 0 || p > tk.len() {
        (Err(err("unexpected end of input"@, 0)), p)
    } else {
        let (c, p1) = parse_expr_spec(tk, p);
        match c {
            Err(e) => (Err(e), p1),
            Ok(cond) => if p1 <= p || p1 > tk.len() {
                (Err(err("unexpected end of input"@, 0)), p1)
            } else if p1 >= tk.len() {
                (Err(err("unexpected end of input, expected 'then'"@, 0)), p1)
            } else {
                match tk[p1].0 {
                    TokView::Word(w) => if lower_text(w) == "then"@ {
                        if_body_spec(tk, p1 + 1, cond, Seq::empty(), Seq::empty(), false)
                    } else {
                        (Err(err("expected 'then' after if condition"@, tk[p1].1)), p1 + 1)
                    },
                    _ => (Err(err("expected 'then' after if condition"@, tk[p1].1)), p1 + 1),
                }
            },
        }
    }
}

/// The branches of an `if` block from `q` on, up to `endif`.
pub open spec fn if_body_spec(
    tk: Seq<(TokView, int)>,
    q: int,
    cond: EdnaView,
    then: Seq<EdnaView>,
    else_: Seq<EdnaView>,
    in_else: bool,
) -> (Result<EdnaView, ErrView>, int)
    decreases tk.len() - q, 1int,
{
    if q < 0 || q >= tk.len() {
        (Err(err("unclosed if-block, expected 'endif'"@, 0)), q)
    } else {
        let is_word = |w: Seq<char>| tk[q].0 matches TokView::Word(x) && lower_text(x) == w;
        if is_word("else"@) {
            if_body_spec(tk, q + 1, cond, then, else_, true)
        } else if is_word("endif"@) {
            (Ok(EdnaView::If(Box::new(cond), then, else_)), q + 1)
        } else {
            let (r, q2) = parse_expr_spec(tk, q);
            match r {
                Err(e) => (Err(e), q2),
                Ok(x) => if q2 <= q || q2 > tk.len() {
                    (Err(err("unexpected end of input"@, 0)), q2)
                } else if in_else {
                    if_body_spec(tk, q2, cond, then, else_.push(x), in_else)
                } else {
                    if_body_spec(tk, q2, cond, then.push(x), else_, in_else)
                },
            }
        }
    }
}

/// The expressions and errors of the tokens from `pos` on: after an error the
/// parser goes on where the failed expression stopped, or one token further
/// when it consumed nothing, so that every later expression is still read.
pub open spec fn edna_loop(tk: Seq<(TokView, int)>, pos: int) -> (Seq<EdnaView>, Seq<ErrView>)
    decreases tk.len() - pos,
{
    if pos < 0 || pos >= tk.len() {
        (Seq::empty(), Seq::empty())
    } else {
        let (r, p2) = parse_expr_spec(tk, pos);
        match r {
            Ok(e) => if pos < p2 <= tk.len() {
                let (es, rs) = edna_loop(tk, p2);
                (seq![e] + es, rs)
            } else {
                (seq![e], Seq::empty())
            },
            Err(x) => {
                let nx = if p2 > pos {
                    p2
                } else {
                    pos + 1
                };
                if nx <= tk.len() {
                    let (es, rs) = edna_loop(tk, nx);
                    (es, seq![x] + rs)
                } else {
                    (Seq::empty(), seq![x])
                }
            },
        }
    }
}

/// The expressions and errors of an edna value.
pub open spec fn edna_spec(input: Seq<char>) -> (Seq<EdnaView>, Seq<ErrView>) {
    edna_loop(tokens_from(input, 0), 0)
}


// ---------------------------------------------------------------------------
// Parser
// ---------------------------------------------------------------------------
pub open spec fn args_res_view(r: Result<Vec<Vec<char>>, EdnaParseError>) -> Result<Seq<Seq<char>>, ErrView> {
    match r {
        Ok(v) => Ok(v@.map_values(|w: Vec<char>| w@)),
        Err(e) => Err(err_view(e)),
    }
}

pub open spec fn res_view(r: Result<EdnaExpr, EdnaParseError>) -> Result<EdnaView, ErrView> {
    match r {
        Ok(e) => Ok(edna_view(e)),
        Err(e) => Err(err_view(e)),
    }
}

fn mk_err(message: Vec<char>, offset: usize) -> (e: EdnaParseError)
    ensures
        err_view(e) == err(message@, offset as int),
{
    EdnaParseError { message: string_from(message.as_slice()), offset }
}

fn mk_err_str(message: &str, offset: usize) -> (e: EdnaParseError)
    ensures
        err_view(e) == err(message@, offset as int),
{
    EdnaParseError { message: message.to_owned(), offset }
}

/// Whether `kw` is the word `lit`.
fn is(kw: &[char], lit: &str) -> (b: bool)
    ensures
        b == (kw@ == lit@),
{
    assert(kw@.subrange(0, kw@.len() as int) =~= kw@);
    eq_str(kw, 0, kw.len(), lit)
}

fn to_strings(a: &Vec<Vec<char>>) -> (r: Vec<String>)
    ensures
        strs(r@) == a@.map_values(|w: Vec<char>| w@),
{
    let mut r: Vec<String> = Vec::new();
    let mut i: usize = 0;
    while i < a.len()
        invariant
            i <= a@.len(),
            strs(r@) == a@.map_values(|w: Vec<char>| w@).take(i as int),
        decreases a.len() - i,
    {
        let ghost before = strs(r@);
        r.push(string_from(a[i].as_slice()));
        assert(strs(r@) =~= before.push(a@[i as int]@));
        assert(a@.map_values(|w: Vec<char>| w@).take(i + 1) =~= a@.map_values(|w: Vec<char>| w@).take(i as int).push(a@[i as int]@));
        i += 1;
    }
    assert(a@.map_values(|w: Vec<char>| w@).take(a@.len() as int) =~= a@.map_values(|w: Vec<char>| w@));
    r
}

fn read_args(tk: &Vec<(Token, usize)>, p: usize) -> (r: (Result<Vec<Vec<char>>, EdnaParseError>, usize))
    requires
        p <= tk@.len(),
    ensures
        (args_res_view(r.0), r.1 as int) == read_args_spec(toks_view(tk@), p as int),
        p <= r.1 <= tk@.len(),
{
    let ghost tv = toks_view(tk@);
    if p >= tk.len() {
        return (Err(mk_err_str("unexpected end of input, expected '('", 0)), p);
    }
    assert(tv[p as int] == (tok_view(tk@[p as int].0), tk@[p as int].1 as int));
    match &tk[p].0 {
        Token::LParen => {},
        _ => {
            return (Err(mk_err_str("expected '('", tk[p].1)), p + 1);
        },
    }
    let mut args: Vec<Vec<char>> = Vec::new();
    let mut q = p + 1;
    assert(args@.map_values(|w: Vec<char>| w@) =~= Seq::<Seq<char>>::empty());
    assert(read_args_spec(tv, p as int) == args_loop(tv, p + 1, Seq::empty()));
    loop
        invariant
            p < q <= tk@.len(),
            tv == toks_view(tk@),
            read_args_spec(tv, p as int) == args_loop(tv, p + 1, Seq::empty()),
            args_loop(tv, p + 1, Seq::empty()) == args_loop(tv, q as int, args@.map_values(|w: Vec<char>| w@)),
        decreases tk.len() - q,
    {
        if q >= tk.len() {
            return (Err(mk_err_str("unclosed parentheses in argument list", 0)), q);
        }
        assert(tv[q as int] == (tok_view(tk@[q as int].0), tk@[q as int].1 as int));
        match &tk[q].0 {
            Token::RParen => {
                return (Ok(args), q + 1);
            },
            Token::Quoted(a) => {
                let ghost before = args@.map_values(|w: Vec<char>| w@);
                args.push(copy_range(a.as_slice(), 0, a.len()));
                assert(a@.subrange(0, a@.len() as int) =~= a@);
                assert(args@.map_values(|w: Vec<char>| w@) =~= before.push(a@));
            },
            Token::Word(a) => {
                let ghost before = args@.map_values(|w: Vec<char>| w@);
                args.push(copy_range(a.as_slice(), 0, a.len()));
                assert(a@.subrange(0, a@.len() as int) =~= a@);
                assert(args@.map_values(|w: Vec<char>| w@) =~= before.push(a@));
            },
            Token::LParen => {
                return (Err(mk_err_str("unexpected '(' inside argument list", tk[q].1)), q);
            },
        }
        q += 1;
    }
}

/// The arity of keyword `kw` of the given kind.
fn arity(kind: u8, kw: &[char]) -> (r: Option<Arity>)
    requires
        kind <= 2,
    ensures
        r == arity_of(kind as int, kw@),
{
    if kind == 0 {
        if is(kw, "self") || is(kw, "next-sibling") || is(kw, "previous-sibling") || is(kw, "rest-of-siblings")
            || is(kw, "rest-of-siblings-wrap") || is(kw, "parent") || is(kw, "ancestors") || is(kw, "children")
            || is(kw, "descendants") || is(kw, "siblings") || is(kw, "first-child") {
            Some(Arity::Zero)
        } else if is(kw, "ids") || is(kw, "olp") {
            Some(Arity::AtLeastOne)
        } else if is(kw, "match") || is(kw, "file") || is(kw, "org-file") {
            Some(Arity::One)
        } else if is(kw, "relatives") {
            Some(Arity::Any)
        } else {
            None
        }
    } else if kind == 1 {
        if is(kw, "archive!") || is(kw, "clock-in!") || is(kw, "clock-out!") {
            Some(Arity::Zero)
        } else if is(kw, "todo!") || is(kw, "scheduled!") || is(kw, "deadline!") || is(kw, "delete-property!")
            || is(kw, "tag!") || is(kw, "set-priority!") || is(kw, "set-effort!") || is(kw, "chain!") {
            Some(Arity::One)
        } else if is(kw, "set-property!") {
            Some(Arity::Two)
        } else {
            None
        }
    } else {
        if is(kw, "todo-state?") || is(kw, "re-search?") {
            Some(Arity::One)
        } else if is(kw, "has-property?") || is(kw, "variable-set?") {
            Some(Arity::Two)
        } else if is(kw, "has-tags?") {
            Some(Arity::AtLeastOne)
        } else {
            None
        }
    }
}

fn first_arg(a: &Vec<Vec<char>>, i: usize) -> (s: String)
    requires
        i < a@.len(),
    ensures
        s@ == a@[i as int]@,
{
    string_from(a[i].as_slice())
}

/// The expression of keyword `kw` of the given kind with arguments `a`.
fn build(kind: u8, kw: &[char], a: &Vec<Vec<char>>) -> (e: EdnaExpr)
    requires
        kind <= 2,
        arity_of(kind as int, kw@) is Some,
        arity_of(kind as int, kw@) matches Some(ar) ==> arity_error(kw@, ar, a@.len() as int) is None,
    ensures
        edna_view(e) == make_expr(kind as int, kw@, a@.map_values(|w: Vec<char>| w@)),
{
    let ghost av = a@.map_values(|w: Vec<char>| w@);
    proof {
        if a@.len() > 0 {
            assert(av[0] == a@[0]@);
        }
        if a@.len() > 1 {
            assert(av[1] == a@[1]@);
        }
    }
    if kind == 0 {
        let f = if is(kw, "self") {
            Finder::Self_
        } else if is(kw, "next-sibling") {
            Finder::NextSibling
        } else if is(kw, "previous-sibling") {
            Finder::PreviousSibling
        } else if is(kw, "rest-of-siblings") || is(kw, "rest-of-siblings-wrap") {
            Finder::RestOfSiblings
        } else if is(kw, "parent") {
            Finder::Parent
        } else if is(kw, "ancestors") {
            Finder::Ancestors
        } else if is(kw, "children") {
            Finder::Children
        } else if is(kw, "descendants") {
            Finder::Descendants
        } else if is(kw, "siblings") {
            Finder::Siblings
        } else if is(kw, "first-child") {
            Finder::FirstChild
        } else if is(kw, "ids") {
            Finder::Ids(to_strings(a))
        } else if is(kw, "olp") {
            Finder::Olp(to_strings(a))
        } else if is(kw, "match") {
            Finder::Match(first_arg(a, 0))
        } else if is(kw, "file") {
            Finder::File(first_arg(a, 0))
        } else if is(kw, "org-file") {
            Finder::OrgFile(first_arg(a, 0))
        } else {
            Finder::Relatives(to_strings(a))
        };
        EdnaExpr::Finder(f)
    } else if kind == 1 {
        let x = if is(kw, "archive!") {
            Action::Archive
        } else if is(kw, "clock-in!") {
            Action::ClockIn
        } else if is(kw, "clock-out!") {
            Action::ClockOut
        } else if is(kw, "todo!") {
            Action::Todo(first_arg(a, 0))
        } else if is(kw, "scheduled!") {
            Action::Scheduled(first_arg(a, 0))
        } else if is(kw, "deadline!") {
            Action::Deadline(first_arg(a, 0))
        } else if is(kw, "delete-property!") {
            Action::DeleteProperty(first_arg(a, 0))
        } else if is(kw, "tag!") {
            Action::Tag(first_arg(a, 0))
        } else if is(kw, "set-priority!") {
            Action::SetPriority(first_arg(a, 0))
        } else if is(kw, "set-effort!") {
            Action::SetEffort(first_arg(a, 0))
        } else if is(kw, "chain!") {
            Action::Chain(first_arg(a, 0))
        } else {
            Action::SetProperty(first_arg(a, 0), first_arg(a, 1))
        };
        EdnaExpr::Action(x)
    } else {
        let c = if is(kw, "todo-state?") {
            Condition::TodoState(first_arg(a, 0))
        } else if is(kw, "re-search?") {
            Condition::ReSearch(first_arg(a, 0))
        } else if is(kw, "has-property?") {
            Condition::HasProperty(first_arg(a, 0), first_arg(a, 1))
        } else if is(kw, "variable-set?") {
            Condition::VariableSet(first_arg(a, 0), first_arg(a, 1))
        } else {
            Condition::HasTags(to_strings(a))
        };
        EdnaExpr::Condition(c)
    }
}

/// The keyword `kw` (lower case) of the given kind at offset `off`, with its arguments from `p`.
fn parse_keyword(kind: u8, kw: &[char], off: usize, tk: &Vec<(Token, usize)>, p: usize) -> (r: (Result<EdnaExpr, EdnaParseError>, usize))
    requires
        kind <= 2,
        p <= tk@.len(),
    ensures
        (res_view(r.0), r.1 as int) == keyword_spec(kind as int, kw@, off as int, toks_view(tk@), p as int),
        p <= r.1 <= tk@.len(),
{
    let ghost tv = toks_view(tk@);
    match arity(kind, kw) {
        Some(Arity::Zero) => {
            let empty: Vec<Vec<char>> = Vec::new();
            assert(empty@.map_values(|w: Vec<char>| w@) =~= Seq::<Seq<char>>::empty());
            (Ok(build(kind, kw, &empty)), p)
        },
        Some(ar) => {
            let (ra, p2) = read_args(tk, p);
            match ra {
                Err(e) => (Err(e), p2),
                Ok(a) => {
                    let n = a.len();
                    let bad = match ar {
                        Arity::One => n != 1,
                        Arity::Two => n != 2,
                        Arity::AtLeastOne => n == 0,
                        _ => false,
                    };
                    if bad {
                        let mut m: Vec<char> = Vec::new();
                        push_all(&mut m, kw);
                        match ar {
                            Arity::One => push_str(&mut m, "() requires exactly one argument"),
                            Arity::Two => push_str(&mut m, "() requires exactly two arguments"),
                            _ => push_str(&mut m, "() requires at least one argument"),
                        }
                        (Err(mk_err(m, off)), p2)
                    } else {
                        (Ok(build(kind, kw, &a)), p2)
                    }
                },
            }
        },
        None => {
            let mut m: Vec<char> = Vec::new();
            push_str(&mut m, "unknown edna ");
            if kind == 0 {
                push_str(&mut m, "finder");
            } else if kind == 1 {
                push_str(&mut m, "action");
            } else {
                push_str(&mut m, "condition");
            }
            push_str(&mut m, ": ");
            push_all(&mut m, kw);
            let has = p < tk.len() && match &tk[p].0 {
                Token::LParen => true,
                _ => false,
            };
            proof {
                if p < tk@.len() {
                    assert(tv[p as int] == (tok_view(tk@[p as int].0), tk@[p as int].1 as int));
                }
            }
            if has {
                let (ra, p2) = read_args(tk, p);
                match ra {
                    Err(e) => (Err(e), p2),
                    Ok(_) => (Err(mk_err(m, off)), p2),
                }
            } else {
                (Err(mk_err(m, off)), p)
            }
        },
    }
}

/// The expression at `pos`, and the index after it.
fn parse_expr(tk: &Vec<(Token, usize)>, pos: usize) -> (r: (Result<EdnaExpr, EdnaParseError>, usize))
    requires
        pos <= tk@.len(),
    ensures
        (res_view(r.0), r.1 as int) == parse_expr_spec(toks_view(tk@), pos as int),
        pos < tk@.len() ==> pos < r.1 <= tk@.len(),
        pos >= tk@.len() ==> r.1 == pos,
    decreases tk@.len() - pos, 0int,
{
    let ghost tv = toks_view(tk@);
    if pos >= tk.len() {
        return (Err(mk_err_str("unexpected end of input", 0)), pos);
    }
    assert(tv[pos as int] == (tok_view(tk@[pos as int].0), tk@[pos as int].1 as int));
    let off = tk[pos].1;
    let p = pos + 1;
    match &tk[pos].0 {
        Token::Word(w) => {
            let lower = to_lower(w.as_slice());
            let l = lower.as_slice();
            if is(l, "if") {
                parse_if_block(tk, p)
            } else if l.len() > 0 && l[l.len() - 1] == '!' {
                parse_keyword(1, l, off, tk, p)
            } else if l.len() > 0 && l[l.len() - 1] == '?' {
                parse_keyword(2, l, off, tk, p)
            } else {
                parse_keyword(0, l, off, tk, p)
            }
        },
        Token::Quoted(q) => {
            let mut m: Vec<char> = Vec::new();
            push_str(&mut m, "unexpected quoted string \"");
            push_all(&mut m, q.as_slice());
            push_str(&mut m, "\", expected a keyword");
            (Err(mk_err(m, off)), p)
        },
        Token::LParen => (Err(mk_err_str("unexpected '('", off)), p),
        Token::RParen => (Err(mk_err_str("unexpected ')'", off)), p),
    }
}

/// Whether token `q` is the word `w` in lower case.
fn word_is(tk: &Vec<(Token, usize)>, q: usize, w: &str) -> (b: bool)
    requires
        q < tk@.len(),
    ensures
        b == (toks_view(tk@)[q as int].0 matches TokView::Word(x) && lower_text(x) == w@),
{
    assert(toks_view(tk@)[q as int] == (tok_view(tk@[q as int].0), tk@[q as int].1 as int));
    match &tk[q].0 {
        Token::Word(x) => {
            let l = to_lower(x.as_slice());
            is(l.as_slice(), w)
        },
        _ => false,
    }
}

/// The `if` block whose condition starts at `p`.
fn parse_if_block(tk: &Vec<(Token, usize)>, p: usize) -> (r: (Result<EdnaExpr, EdnaParseError>, usize))
    requires
        p <= tk@.len(),
    ensures
        (res_view(r.0), r.1 as int) == if_block_spec(toks_view(tk@), p as int),
        p <= r.1 <= tk@.len(),
    decreases tk@.len() - p, 1int,
{
    let ghost tv = toks_view(tk@);
    let (c, p1) = parse_expr(tk, p);
    let cond = match c {
        Err(e) => {
            return (Err(e), p1);
        },
        Ok(x) => x,
    };
    let ghost condv = edna_view(cond);
    if p1 >= tk.len() {
        return (Err(mk_err_str("unexpected end of input, expected 'then'", 0)), p1);
    }
    assert(tv[p1 as int] == (tok_view(tk@[p1 as int].0), tk@[p1 as int].1 as int));
    if !word_is(tk, p1, "then") {
        return (Err(mk_err_str("expected 'then' after if condition", tk[p1].1)), p1 + 1);
    }
    let mut then: Vec<EdnaExpr> = Vec::new();
    let mut else_: Vec<EdnaExpr> = Vec::new();
    let mut in_else = false;
    let mut q = p1 + 1;
    proof {
        assert(ednas_view(then@) =~= Seq::<EdnaView>::empty());
        assert(ednas_view(else_@) =~= Seq::<EdnaView>::empty());
    }
    loop
        invariant
            p < q <= tk@.len(),
            tv == toks_view(tk@),
            condv == edna_view(cond),
            if_block_spec(tv, p as int) == if_body_spec(tv, q as int, condv, ednas_view(then@), ednas_view(else_@), in_else),
        decreases tk@.len() - q,
    {
        if q >= tk.len() {
            return (Err(mk_err_str("unclosed if-block, expected 'endif'", 0)), q);
        }
        if word_is(tk, q, "else") {
            in_else = true;
            q += 1;
        } else if word_is(tk, q, "endif") {
            return (Ok(EdnaExpr::If { cond: Box::new(cond), then, else_ }), q + 1);
        } else {
            let (r, q2) = parse_expr(tk, q);
            match r {
                Err(e) => {
                    return (Err(e), q2);
                },
                Ok(x) => {
                    if in_else {
                        proof {
                            lemma_ednas_push(else_@, x);
                        }
                        else_.push(x);
                    } else {
                        proof {
                            lemma_ednas_push(then@, x);
                        }
                        then.push(x);
                    }
                    q = q2;
                },
            }
        }
    }
}

/// Parses an edna property value into its expressions and the errors met.
///
/// Parsing is lenient and keeps every expression it can read: after an
/// error it starts a new expression where the failed one stopped, or one
/// token further when the failed one consumed nothing.
pub fn parse_edna(input: &str) -> (r: (Vec<EdnaExpr>, Vec<EdnaParseError>))
    ensures
        (ednas_view(r.0@), errs_view(r.1@)) == edna_spec(input@),
{
    let chars = str_chars(input);
    let tk = tokenize_all(chars.as_slice());
    let ghost tv = toks_view(tk@);
    let mut exprs: Vec<EdnaExpr> = Vec::new();
    let mut errors: Vec<EdnaParseError> = Vec::new();
    let mut pos: usize = 0;
    proof {
        assert(ednas_view(exprs@) =~= Seq::<EdnaView>::empty());
        assert(errs_view(errors@) =~= Seq::<ErrView>::empty());
    }
    while pos < tk.len()
        invariant
            pos <= tk@.len(),
            tv == toks_view(tk@),
            tv == tokens_from(input@, 0),
            ({
                let (es, rs) = edna_loop(tv, pos as int);
                edna_spec(input@) == (ednas_view(exprs@) + es, errs_view(errors@) + rs)
            }),
        decreases tk.len() - pos,
    {
        let (r, p2) = parse_expr(&tk, pos);
        match r {
            Ok(e) => {
                proof {
                    lemma_ednas_push(exprs@, e);
                }
                exprs.push(e);
                pos = p2;
            },
            Err(e) => {
                let ghost before = errs_view(errors@);
                errors.push(e);
                assert(errs_view(errors@) =~= before.push(err_view(e)));
                let nx = if p2 > pos {
                    p2
                } else {
                    pos + 1
                };
                if nx <= tk.len() {
                    pos = nx;
                } else {
                    pos = tk.len();
                }
            },
        }
    }
    (exprs, errors)
}

/// The ids named by the `ids(...)` finders of an edna value, in order.
pub fn extract_dependency_ids(input: &str) -> (ids: Vec<String>)
    ensures
        strs(ids@) == ids_of(edna_spec(input@).0),
{
    let (exprs, _errors) = parse_edna(input);
    let mut ids: Vec<String> = Vec::new();
    let mut i: usize = 0;
    while i < exprs.len()
        invariant
            i <= exprs@.len(),
            ednas_view(exprs@) == edna_spec(input@).0,
            strs(ids@) == ids_of(ednas_view(exprs@).take(i as int)),
        decreases exprs.len() - i,
    {
        proof {
            lemma_ednas_index(exprs@, i as int);
            assert(ednas_view(exprs@).take(i + 1).drop_last() =~= ednas_view(exprs@).take(i as int));
        }
        match &exprs[i] {
            EdnaExpr::Finder(Finder::Ids(found)) => {
                let mut j: usize = 0;
                let ghost base = strs(ids@);
                while j < found.len()
                    invariant
                        j <= found@.len(),
                        strs(ids@) == base + strs(found@).take(j as int),
                    decreases found.len() - j,
                {
                    let ghost b2 = strs(ids@);
                    ids.push(found[j].clone());
                    assert(strs(ids@) =~= b2.push(found@[j as int]@));
                    assert(strs(found@).take(j + 1) =~= strs(found@).take(j as int).push(found@[j as int]@));
                    j += 1;
                }
                assert(strs(found@).take(found@.len() as int) =~= strs(found@));
            },
            _ => {},
        }
        i += 1;
    }
    proof {
        lemma_ednas_len(exprs@);
    }
    assert(ednas_view(exprs@).take(exprs@.len() as int) =~= ednas_view(exprs@));
    ids
}

/// The ids of the `ids(...)` finders among `es`, in order.
pub open spec fn ids_of(es: Seq<EdnaView>) -> Seq<Seq<char>>
    decreases es.len(),
{
    if es.len() == 0 {
        Seq::empty()
    } else {
        ids_of(es.drop_last()) + match es.last() {
            EdnaView::Finder(FinderView::Ids(v)) => v,
            _ => Seq::empty(),
        }
    }
}

pub proof fn lemma_ednas_index(s: Seq<EdnaExpr>, i: int)
    requires
        0 <= i < s.len(),
    ensures
        ednas_view(s).len() == s.len(),
        ednas_view(s)[i] == edna_view(s[i]),
    decreases s.len(),
{
    if i > 0 {
        lemma_ednas_index(s.subrange(1, s.len() as int), i - 1);
        assert(s.subrange(1, s.len() as int)[i - 1] == s[i]);
    } else {
        lemma_ednas_len(s.subrange(1, s.len() as int));
    }
}

pub proof fn lemma_ednas_len(s: Seq<EdnaExpr>)
    ensures
        ednas_view(s).len() == s.len(),
    decreases s.len(),
{
    if s.len() > 0 {
        lemma_ednas_len(s.subrange(1, s.len() as int));
    }
}


// ---------------------------------------------------------------------------
// Blocker evaluation
// ---------------------------------------------------------------------------
/// What a blocker is evaluated against: all loaded documents, the document of
/// the entry, and the entry.
pub struct EdnaContext<'a> {
    pub all_docs: &'a [&'a OrgDocument],
    pub doc: &'a OrgDocument,
    pub entry_idx: usize,
}

impl<'a> EdnaContext<'a> {
    /// Every document is a heading tree and the entry is one of its document's.
    pub open spec fn wf(&self) -> bool {
        &&& self.doc.wf()
        &&& self.entry_idx < self.doc.entries@.len()
        &&& forall|i: int| 0 <= i < self.all_docs@.len() ==> (#[trigger] self.all_docs@[i]).wf()
    }
}

/// One unsatisfied dependency of a blocked entry.
#[derive(Debug, Clone, PartialEq)]
pub struct BlockerDetail {
    pub title: String,
    pub keyword: Option<String>,
    pub file: String,
    pub line: usize,
    pub locator: String,
    /// What the dependency still requires.
    pub condition_desc: String,
}

/// An entry found by a finder.
struct Target<'a> {
    doc: &'a OrgDocument,
    entry_idx: usize,
}

/// A target as plain values: its document and its index there.
pub type TargetView = (OrgDocument, usize);

spec fn targets_view(v: Seq<Target>) -> Seq<TargetView> {
    v.map_values(|t: Target| (*t.doc, t.entry_idx))
}

spec fn target_ok(t: Target) -> bool {
    t.doc.wf() && t.entry_idx < t.doc.entries@.len()
}

/// Index of the first `x` in `s`.
pub open spec fn index_of(s: Seq<usize>, x: usize) -> Option<int>
    decreases s.len(),
{
    if s.len() == 0 {
        None
    } else if s[0] == x {
        Some(0)
    } else {
        match index_of(s.drop_first(), x) {
            Some(k) => Some(k + 1),
            None => None,
        }
    }
}

/// The siblings of entry `i`, itself included: its parent's children, or the top-level entries.
pub open spec fn siblings_of(es: Seq<OrgEntry>, i: int) -> Seq<usize> {
    match es[i].parent {
        Some(p) => es[p as int].children@,
        None => crate::locator::top_level(es, es.len() as int),
    }
}

/// The ancestors of entry `i`, nearest first.
pub open spec fn ancestors_of(es: Seq<OrgEntry>, i: int) -> Seq<usize>
    decreases i,
{
    if i < 0 || i >= es.len() {
        Seq::empty()
    } else {
        match es[i].parent {
            Some(p) => if p < i {
                seq![p] + ancestors_of(es, p as int)
            } else {
                Seq::empty()
            },
            None => Seq::empty(),
        }
    }
}

/// The descendants of entry `i` in document order (each child, then its descendants).
pub open spec fn descendants_of(es: Seq<OrgEntry>, i: int) -> Seq<usize>
    decreases es.len() - i, 1int, 0int,
{
    if 0 <= i < es.len() {
        descendants_list(es, es[i].children@, i, 0)
    } else {
        Seq::empty()
    }
}

/// The children `cs[k..]` of entry `i`, each followed by its descendants.
pub open spec fn descendants_list(es: Seq<OrgEntry>, cs: Seq<usize>, i: int, k: int) -> Seq<usize>
    decreases es.len() - i, 0int, cs.len() - k,
{
    if k < 0 || k >= cs.len() {
        Seq::empty()
    } else {
        let c = cs[k] as int;
        let below = if i < c < es.len() {
            descendants_of(es, c)
        } else {
            Seq::empty()
        };
        seq![cs[k]] + below + descendants_list(es, cs, i, k + 1)
    }
}

/// The first document of `docs` with an entry of id `id`, and that entry.
pub open spec fn id_target(docs: Seq<&OrgDocument>, id: Seq<char>) -> Seq<TargetView>
    decreases docs.len(),
{
    if docs.len() == 0 {
        Seq::empty()
    } else {
        match crate::document::first_with(docs[0].entries@, "ID"@, id) {
            Some(k) => seq![(*docs[0], k)],
            None => id_target(docs.drop_first(), id),
        }
    }
}

/// The targets of the ids `ids`, in order.
pub open spec fn ids_targets(docs: Seq<&OrgDocument>, ids: Seq<Seq<char>>) -> Seq<TargetView>
    decreases ids.len(),
{
    if ids.len() == 0 {
        Seq::empty()
    } else {
        ids_targets(docs, ids.drop_last()) + id_target(docs, ids.last())
    }
}

/// Whether the inherited tags of entry `i` include `tag` up to ASCII case.
#[verifier::opaque]
pub open spec fn has_tag(doc: OrgDocument, i: int, tag: Seq<char>) -> bool {
    let tags = dedup(tags_along(doc.entries@, i) + strings_view(doc.filetags@));
    exists|k: int| 0 <= k < tags.len() && eq_ignore_case(#[trigger] tags[k], tag)
}

/// The entries of `doc` (from index `i` on) whose inherited tags include `tag`.
pub open spec fn tagged_in(doc: OrgDocument, tag: Seq<char>, n: int) -> Seq<TargetView>
    decreases n,
{
    if n <= 0 {
        Seq::empty()
    } else {
        tagged_in(doc, tag, n - 1) + if has_tag(doc, n - 1, tag) {
            seq![(doc, (n - 1) as usize)]
        } else {
            Seq::<TargetView>::empty()
        }
    }
}

/// The entries of all documents, in order, whose inherited tags include `tag`.
pub open spec fn tagged(docs: Seq<&OrgDocument>, tag: Seq<char>) -> Seq<TargetView>
    decreases docs.len(),
{
    if docs.len() == 0 {
        Seq::empty()
    } else {
        tagged(docs.drop_last(), tag) + tagged_in(*docs.last(), tag, docs.last().entries@.len() as int)
    }
}

pub open spec fn in_doc(doc: OrgDocument, s: Seq<usize>) -> Seq<TargetView> {
    s.map_values(|i: usize| (doc, i))
}

/// The targets that a finder selects for entry `i` of `doc`.
pub open spec fn finder_targets(f: FinderView, docs: Seq<&OrgDocument>, doc: OrgDocument, i: int) -> Seq<TargetView> {
    let es = doc.entries@;
    let sibs = siblings_of(es, i);
    match f {
        FinderView::Self_ => seq![(doc, i as usize)],
        FinderView::Ids(ids) => ids_targets(docs, ids),
        FinderView::NextSibling => match index_of(sibs, i as usize) {
            Some(p) => if p + 1 < sibs.len() { seq![(doc, sibs[p + 1])] } else { Seq::empty() },
            None => Seq::empty(),
        },
        FinderView::PreviousSibling => match index_of(sibs, i as usize) {
            Some(p) => if p > 0 { seq![(doc, sibs[p - 1])] } else { Seq::empty() },
            None => Seq::empty(),
        },
        FinderView::RestOfSiblings => match index_of(sibs, i as usize) {
            Some(p) => in_doc(doc, sibs.skip(p + 1)),
            None => Seq::empty(),
        },
        FinderView::Parent => match es[i].parent {
            Some(p) => seq![(doc, p)],
            None => Seq::empty(),
        },
        FinderView::Ancestors => in_doc(doc, ancestors_of(es, i)),
        FinderView::Children => in_doc(doc, es[i].children@),
        FinderView::Descendants => in_doc(doc, descendants_of(es, i)),
        FinderView::Siblings => in_doc(doc, sibs.filter(|j: usize| j != i as usize)),
        FinderView::FirstChild => if es[i].children@.len() > 0 {
            seq![(doc, es[i].children@[0])]
        } else {
            Seq::empty()
        },
        FinderView::Match(tag) => tagged(docs, tag),
        _ => Seq::empty(),
    }
}


fn siblings<'a>(doc: &'a OrgDocument, i: usize) -> (r: Vec<usize>)
    requires
        doc.wf(),
        i < doc.entries@.len(),
    ensures
        r@ == siblings_of(doc.entries@, i as int),
        forall|j: int| 0 <= j < r@.len() ==> (#[trigger] r@[j]) < doc.entries@.len(),
{
    let _n = doc.entries.len();
    match doc.entries[i].parent {
        Some(p) => {
            proof {
                crate::document::lemma_parent_before(doc.entries@, i as int);
                crate::document::lemma_children_after(doc.entries@, p as int);
            }
            doc.entries[p].children.clone()
        },
        None => {
            let mut r: Vec<usize> = Vec::new();
            let mut k: usize = 0;
            while k < doc.entries.len()
                invariant
                    k <= doc.entries@.len(),
                    r@ == crate::locator::top_level(doc.entries@, k as int),
                    forall|j: int| 0 <= j < r@.len() ==> (#[trigger] r@[j]) < k,
                decreases doc.entries.len() - k,
            {
                if doc.entries[k].parent.is_none() {
                    r.push(k);
                }
                k += 1;
            }
            r
        },
    }
}

fn position(s: &Vec<usize>, x: usize) -> (r: Option<usize>)
    ensures
        r matches Some(p) ==> index_of(s@, x) == Some(p as int) && p < s@.len(),
        r is None ==> index_of(s@, x) is None,
{
    let mut k: usize = 0;
    assert(s@.skip(0) =~= s@);
    while k < s.len()
        invariant
            k <= s@.len(),
            index_of(s@, x) == match index_of(s@.skip(k as int), x) { Some(j) => Some(j + k), None => None },
        decreases s.len() - k,
    {
        assert(s@.skip(k as int).drop_first() =~= s@.skip(k + 1));
        assert(s@.skip(k as int)[0] == s@[k as int]);
        if s[k] == x {
            return Some(k);
        }
        k += 1;
    }
    None
}

fn push_all_in<'a>(out: &mut Vec<Target<'a>>, doc: &'a OrgDocument, s: &Vec<usize>, from: usize)
    requires
        doc.wf(),
        from <= s@.len(),
        forall|j: int| 0 <= j < s@.len() ==> (#[trigger] s@[j]) < doc.entries@.len(),
        forall|j: int| 0 <= j < old(out)@.len() ==> target_ok(#[trigger] old(out)@[j]),
    ensures
        targets_view(final(out)@) == targets_view(old(out)@) + in_doc(*doc, s@.skip(from as int)),
        forall|j: int| 0 <= j < final(out)@.len() ==> target_ok(#[trigger] final(out)@[j]),
{
    let ghost base = targets_view(out@);
    let mut k = from;
    let ghost start = k;
    while k < s.len()
        invariant
            start <= k <= s@.len(),
            doc.wf(),
            forall|j: int| 0 <= j < s@.len() ==> (#[trigger] s@[j]) < doc.entries@.len(),
            forall|j: int| 0 <= j < out@.len() ==> target_ok(#[trigger] out@[j]),
            targets_view(out@) == base + in_doc(*doc, s@.subrange(start as int, k as int)),
            base == targets_view(old(out)@),
        decreases s.len() - k,
    {
        let ghost before = targets_view(out@);
        out.push(Target { doc, entry_idx: s[k] });
        proof {
            assert(targets_view(out@) =~= before.push((*doc, s@[k as int])));
            assert(in_doc(*doc, s@.subrange(start as int, k + 1)) =~= in_doc(*doc, s@.subrange(start as int, k as int)).push((*doc, s@[k as int])));
        }
        k += 1;
    }
    assert(s@.subrange(start as int, s@.len() as int) =~= s@.skip(start as int));
}

fn collect_descendants<'a>(doc: &'a OrgDocument, i: usize, out: &mut Vec<Target<'a>>)
    requires
        doc.wf(),
        i < doc.entries@.len(),
        forall|j: int| 0 <= j < old(out)@.len() ==> target_ok(#[trigger] old(out)@[j]),
    ensures
        targets_view(final(out)@) == targets_view(old(out)@) + in_doc(*doc, descendants_of(doc.entries@, i as int)),
        forall|j: int| 0 <= j < final(out)@.len() ==> target_ok(#[trigger] final(out)@[j]),
    decreases doc.entries@.len() - i, 1int, 0int,
{
    let _n = doc.entries.len();
    proof {
        crate::document::lemma_children_after(doc.entries@, i as int);
    }
    collect_children_from(doc, i, 0, out);
}

fn collect_children_from<'a>(doc: &'a OrgDocument, i: usize, k: usize, out: &mut Vec<Target<'a>>)
    requires
        doc.wf(),
        i < doc.entries@.len(),
        k <= doc.entries@[i as int].children@.len(),
        forall|j: int| 0 <= j < doc.entries@[i as int].children@.len() ==> i < (#[trigger] doc.entries@[i as int].children@[j]) < doc.entries@.len(),
        forall|j: int| 0 <= j < old(out)@.len() ==> target_ok(#[trigger] old(out)@[j]),
    ensures
        targets_view(final(out)@) == targets_view(old(out)@) + in_doc(*doc, descendants_list(doc.entries@, doc.entries@[i as int].children@, i as int, k as int)),
        forall|j: int| 0 <= j < final(out)@.len() ==> target_ok(#[trigger] final(out)@[j]),
    decreases doc.entries@.len() - i, 0int, doc.entries@[i as int].children@.len() - k,
{
    let ghost es = doc.entries@;
    let ghost cs = es[i as int].children@;
    if k >= doc.entries[i].children.len() {
        assert(in_doc(*doc, Seq::<usize>::empty()) =~= Seq::<TargetView>::empty());
        return;
    }
    let c = doc.entries[i].children[k];
    let ghost base = targets_view(out@);
    out.push(Target { doc, entry_idx: c });
    let ghost b1 = targets_view(out@);
    assert(b1 =~= base.push((*doc, c)));
    collect_descendants(doc, c, out);
    let ghost b2 = targets_view(out@);
    collect_children_from(doc, i, k + 1, out);
    proof {
        let d = descendants_list(es, cs, i as int, k as int);
        assert(d == seq![c] + descendants_of(es, c as int) + descendants_list(es, cs, i as int, k + 1));
        assert(in_doc(*doc, d) =~= seq![(*doc, c)] + in_doc(*doc, descendants_of(es, c as int)) + in_doc(*doc, descendants_list(es, cs, i as int, k + 1)));
        assert(targets_view(out@) =~= base + in_doc(*doc, d));
    }
}


/// Whether `a` and `b` are equal up to ASCII case.
fn str_eq_ignore_case(a: &str, b: &str) -> (r: bool)
    ensures
        r == eq_ignore_case(a@, b@),
{
    let av = str_chars(a);
    let bv = str_chars(b);
    let s = av.as_slice();
    assert(s@.subrange(0, s@.len() as int) =~= s@);
    eq_ignore_case_at(s, 0, s.len(), bv.as_slice())
}

/// Whether the inherited tags of entry `i` include `tag` up to ASCII case.
fn entry_has_tag(doc: &OrgDocument, i: usize, tag: &str) -> (b: bool)
    requires
        doc.wf(),
        i < doc.entries@.len(),
    ensures
        b == has_tag(*doc, i as int, tag@),
{
    let tags = doc.inherited_tags(i);
    let ghost tv = tags@.map_values(|t: &str| t@);
    proof {
        reveal(has_tag);
    }
    let mut k: usize = 0;
    while k < tags.len()
        invariant
            k <= tags@.len(),
            tv == tags@.map_values(|t: &str| t@),
            tv == dedup(tags_along(doc.entries@, i as int) + strings_view(doc.filetags@)),
            forall|j: int| 0 <= j < k ==> !eq_ignore_case(#[trigger] tv[j], tag@),
        decreases tags.len() - k,
    {
        assert(tv[k as int] == tags@[k as int]@);
        if str_eq_ignore_case(tags[k], tag) {
            assert(eq_ignore_case(tv[k as int], tag@));
            proof {
                reveal(has_tag);
            }
            return true;
        }
        k += 1;
    }
    proof {
        reveal(has_tag);
    }
    false
}

/// The targets that a finder selects for the entry of the context.
fn resolve_finder<'a>(finder: &Finder, ctx: &EdnaContext<'a>) -> (r: Vec<Target<'a>>)
    requires
        ctx.wf(),
    ensures
        targets_view(r@) == finder_targets(finder_view(*finder), ctx.all_docs@, *ctx.doc, ctx.entry_idx as int),
        forall|j: int| 0 <= j < r@.len() ==> target_ok(#[trigger] r@[j]),
{
    let doc = ctx.doc;
    let i = ctx.entry_idx;
    let ghost es = doc.entries@;
    let _n = doc.entries.len();
    let mut out: Vec<Target<'a>> = Vec::new();
    assert(targets_view(out@) =~= Seq::<TargetView>::empty());
    match finder {
        Finder::Self_ => {
            out.push(Target { doc, entry_idx: i });
            assert(targets_view(out@) =~= seq![(*doc, i)]);
        },
        Finder::Ids(ids) => {
            let docs = ctx.all_docs;
            let mut j: usize = 0;
            while j < ids.len()
                invariant
                    j <= ids@.len(),
                    ctx.wf(),
                    docs@ == ctx.all_docs@,
                    targets_view(out@) == ids_targets(docs@, strs(ids@).take(j as int)),
                    forall|m: int| 0 <= m < out@.len() ==> target_ok(#[trigger] out@[m]),
                decreases ids.len() - j,
            {
                let ghost before = targets_view(out@);
                let id = ids[j].as_str();
                let mut k: usize = 0;
                assert(docs@.skip(0) =~= docs@);
                while k < docs.len()
                    invariant_except_break
                        targets_view(out@) == before,
                        out@.len() == before.len(),
                    invariant
                        k <= docs@.len(),
                        ctx.wf(),
                        docs@ == ctx.all_docs@,
                        id_target(docs@, id@) == id_target(docs@.skip(k as int), id@),
                        forall|m: int| 0 <= m < out@.len() ==> target_ok(#[trigger] out@[m]),
                    ensures
                        targets_view(out@) == before + id_target(docs@, id@),
                        forall|m: int| 0 <= m < out@.len() ==> target_ok(#[trigger] out@[m]),
                    decreases docs.len() - k,
                {
                    let d: &'a OrgDocument = docs[k];
                    assert(docs@.skip(k as int)[0] == docs@[k as int]);
                    assert(docs@.skip(k as int).drop_first() =~= docs@.skip(k + 1));
                    let _n = d.entries.len();
                    match d.find_by_id(id) {
                        Some(idx) => {
                            proof {
                                crate::document::lemma_first_with_bound(d.entries@, "ID"@, id@);
                            }
                            out.push(Target { doc: d, entry_idx: idx });
                            assert(targets_view(out@) =~= before + seq![(*d, idx)]);
                            break;
                        },
                        None => {},
                    }
                    k += 1;
                }
                proof {
                    let sv = strs(ids@);
                    assert(sv.take(j + 1).drop_last() =~= sv.take(j as int));
                    assert(sv.take(j + 1).last() == ids@[j as int]@);
                }
                j += 1;
            }
            assert(strs(ids@).take(ids@.len() as int) =~= strs(ids@));
        },
        Finder::NextSibling => {
            let sibs = siblings(doc, i);
            match position(&sibs, i) {
                Some(p) => {
                    if p + 1 < sibs.len() {
                        out.push(Target { doc, entry_idx: sibs[p + 1] });
                        assert(targets_view(out@) =~= seq![(*doc, sibs@[p + 1])]);
                    }
                },
                None => {},
            }
        },
        Finder::PreviousSibling => {
            let sibs = siblings(doc, i);
            match position(&sibs, i) {
                Some(p) => {
                    if p > 0 {
                        out.push(Target { doc, entry_idx: sibs[p - 1] });
                        assert(targets_view(out@) =~= seq![(*doc, sibs@[p - 1])]);
                    }
                },
                None => {},
            }
        },
        Finder::RestOfSiblings => {
            let sibs = siblings(doc, i);
            match position(&sibs, i) {
                Some(p) => {
                    push_all_in(&mut out, doc, &sibs, p + 1);
                    assert(targets_view(out@) =~= in_doc(*doc, sibs@.skip(p + 1)));
                },
                None => {},
            }
        },
        Finder::Parent => {
            match doc.entries[i].parent {
                Some(p) => {
                    proof {
                        crate::document::lemma_parent_before(es, i as int);
                    }
                    out.push(Target { doc, entry_idx: p });
                    assert(targets_view(out@) =~= seq![(*doc, p)]);
                },
                None => {},
            }
        },
        Finder::Ancestors => {
            let mut cur = i;
            loop
                invariant
                    cur < es.len(),
                    es == doc.entries@,
                    doc.wf(),
                    es.len() <= usize::MAX,
                    targets_view(out@) + in_doc(*doc, ancestors_of(es, cur as int)) == in_doc(*doc, ancestors_of(es, i as int)),
                    forall|m: int| 0 <= m < out@.len() ==> target_ok(#[trigger] out@[m]),
                ensures
                    targets_view(out@) == in_doc(*doc, ancestors_of(es, i as int)),
                    forall|m: int| 0 <= m < out@.len() ==> target_ok(#[trigger] out@[m]),
                decreases cur,
            {
                proof {
                    crate::document::lemma_parent_before(es, cur as int);
                }
                match doc.entries[cur].parent {
                    Some(p) => {
                        let ghost before = targets_view(out@);
                        out.push(Target { doc, entry_idx: p });
                        proof {
                            assert(targets_view(out@) =~= before.push((*doc, p)));
                            assert(in_doc(*doc, ancestors_of(es, cur as int)) =~= seq![(*doc, p)] + in_doc(*doc, ancestors_of(es, p as int)));
                            assert(targets_view(out@) + in_doc(*doc, ancestors_of(es, p as int)) =~= before + in_doc(*doc, ancestors_of(es, cur as int)));
                        }
                        cur = p;
                    },
                    None => {
                        assert(in_doc(*doc, ancestors_of(es, cur as int)) =~= Seq::<TargetView>::empty());
                        assert(targets_view(out@) =~= targets_view(out@) + in_doc(*doc, ancestors_of(es, cur as int)));
                        break;
                    },
                }
            }
        },
        Finder::Children => {
            proof {
                crate::document::lemma_children_after(es, i as int);
            }
            push_all_in(&mut out, doc, &doc.entries[i].children, 0);
            assert(doc.entries@[i as int].children@.skip(0) =~= doc.entries@[i as int].children@);
            assert(targets_view(out@) =~= in_doc(*doc, doc.entries@[i as int].children@));
        },
        Finder::Descendants => {
            collect_descendants(doc, i, &mut out);
            assert(targets_view(out@) =~= in_doc(*doc, descendants_of(es, i as int)));
        },
        Finder::Siblings => {
            let sibs = siblings(doc, i);
            let mut k: usize = 0;
            while k < sibs.len()
                invariant
                    k <= sibs@.len(),
                    sibs@ == siblings_of(es, i as int),
                    es == doc.entries@,
                    doc.wf(),
                    forall|j: int| 0 <= j < sibs@.len() ==> (#[trigger] sibs@[j]) < es.len(),
                    targets_view(out@) == in_doc(*doc, sibs@.take(k as int).filter(|j: usize| j != i)),
                    forall|m: int| 0 <= m < out@.len() ==> target_ok(#[trigger] out@[m]),
                decreases sibs.len() - k,
            {
                let ghost before = targets_view(out@);
                proof {
                    reveal(Seq::filter);
                    assert(sibs@.take(k + 1).drop_last() =~= sibs@.take(k as int));
                }
                if sibs[k] != i {
                    out.push(Target { doc, entry_idx: sibs[k] });
                    assert(targets_view(out@) =~= before.push((*doc, sibs@[k as int])));
                }
                assert(in_doc(*doc, sibs@.take(k + 1).filter(|j: usize| j != i)) =~= targets_view(out@));
                k += 1;
            }
            assert(sibs@.take(sibs@.len() as int) =~= sibs@);
        },
        Finder::FirstChild => {
            proof {
                crate::document::lemma_children_after(es, i as int);
            }
            if doc.entries[i].children.len() > 0 {
                out.push(Target { doc, entry_idx: doc.entries[i].children[0] });
                assert(targets_view(out@) =~= seq![(*doc, doc.entries@[i as int].children@[0])]);
            }
        },
        Finder::Match(tag) => {
            let docs = ctx.all_docs;
            let mut k: usize = 0;
            while k < docs.len()
                invariant
                    k <= docs@.len(),
                    ctx.wf(),
                    docs@ == ctx.all_docs@,
                    targets_view(out@) == tagged(docs@.take(k as int), tag@),
                    forall|m: int| 0 <= m < out@.len() ==> target_ok(#[trigger] out@[m]),
                decreases docs.len() - k,
            {
                let d: &'a OrgDocument = docs[k];
                let ghost base = targets_view(out@);
                let mut e: usize = 0;
                while e < d.entries.len()
                    invariant
                        e <= d.entries@.len(),
                        d.wf(),
                        targets_view(out@) == base + tagged_in(*d, tag@, e as int),
                        forall|m: int| 0 <= m < out@.len() ==> target_ok(#[trigger] out@[m]),
                    decreases d.entries.len() - e,
                {
                    let ghost b2 = targets_view(out@);
                    if entry_has_tag(d, e, tag.as_str()) {
                        out.push(Target { doc: d, entry_idx: e });
                        assert(targets_view(out@) =~= b2.push((*d, e)));
                    }
                    assert(targets_view(out@) =~= base + tagged_in(*d, tag@, e + 1));
                    e += 1;
                }
                proof {
                    assert(docs@.take(k + 1).drop_last() =~= docs@.take(k as int));
                    assert(docs@.take(k + 1).last() == d);
                }
                k += 1;
            }
            assert(docs@.take(docs@.len() as int) =~= docs@);
        },
        _ => {},
    }
    out
}


// ---------------------------------------------------------------------------
// Conditions and the blocker verdict
// ---------------------------------------------------------------------------
/// Whether the inherited tags of a target include each of `req` up to ASCII case.
pub open spec fn has_all_tags(t: TargetView, req: Seq<Seq<char>>) -> bool {
    forall|j: int| 0 <= j < req.len() ==> has_tag(t.0, t.1 as int, #[trigger] req[j])
}

/// Whether a condition holds of one target.
pub open spec fn cond_single(c: ConditionView, t: TargetView) -> bool {
    let e = t.0.entries@[t.1 as int];
    match c {
        ConditionView::TodoState(kw) => e.keyword matches Some(k) && eq_ignore_case(k@, kw),
        ConditionView::HasProperty(key, val) => e.properties.get_spec(key) == Some(val),
        ConditionView::HasTags(req) => has_all_tags(t, req),
        _ => true,
    }
}

proof fn lemma_has_tags_fails(t: TargetView, rv: Seq<Seq<char>>, j: int)
    requires
        0 <= j < rv.len(),
        !has_tag(t.0, t.1 as int, rv[j]),
    ensures
        !cond_single(ConditionView::HasTags(rv), t),
{
    assert(!has_all_tags(t, rv));
}

/// Whether a condition holds of every target.
pub open spec fn cond_all(c: ConditionView, ts: Seq<TargetView>) -> bool {
    forall|j: int| 0 <= j < ts.len() ==> cond_single(c, #[trigger] ts[j])
}

/// The condition of an `if` block: a condition on the targets, or true.
pub open spec fn if_cond(e: EdnaView, ts: Seq<TargetView>) -> bool {
    match e {
        EdnaView::Condition(c) => cond_all(c, ts),
        _ => true,
    }
}

/// Whether a target's keyword is a done state of its document.
pub open spec fn target_done(t: TargetView) -> bool {
    t.0.entries@[t.1 as int].keyword matches Some(k) && is_one_of(strings_view(t.0.todo_keywords.done@), k@)
}

/// Whether no target remains undone: true of no targets.
pub open spec fn all_done(ts: Seq<TargetView>) -> bool {
    forall|j: int| 0 <= j < ts.len() ==> target_done(#[trigger] ts[j])
}

/// The state of the evaluation after the first `n` expressions: the
/// targets, whether a condition was met, and whether all conditions held.
pub open spec fn block_fold(es: Seq<EdnaView>, docs: Seq<&OrgDocument>, doc: OrgDocument, i: int, n: int) -> (Seq<TargetView>, bool, bool)
    decreases n,
{
    if n <= 0 {
        (Seq::empty(), false, true)
    } else {
        let (ts, explicit, met) = block_fold(es, docs, doc, i, n - 1);
        match es[n - 1] {
            EdnaView::Finder(f) => (finder_targets(f, docs, doc, i), explicit, met),
            EdnaView::Condition(c) => (ts, true, met && cond_all(c, ts)),
            EdnaView::If(cond, then, else_) => {
                let branch = if if_cond(*cond, ts) { then } else { else_ };
                (ts, explicit || branch_has(branch), met && branch_ok(branch, ts))
            },
            EdnaView::Action(_) => (ts, explicit, met),
        }
    }
}

/// Whether a branch of an `if` block holds a condition.
pub open spec fn branch_has(b: Seq<EdnaView>) -> bool {
    exists|k: int| 0 <= k < b.len() && (#[trigger] b[k]) is Condition
}

/// Whether every condition of a branch holds of the targets.
pub open spec fn branch_ok(b: Seq<EdnaView>, ts: Seq<TargetView>) -> bool {
    forall|k: int| 0 <= k < b.len() ==> (#[trigger] b[k] matches EdnaView::Condition(c) ==> cond_all(c, ts))
}

proof fn lemma_branch_push(b: Seq<EdnaView>, x: EdnaView, ts: Seq<TargetView>)
    ensures
        branch_has(b.push(x)) == (branch_has(b) || x is Condition),
        branch_ok(b.push(x), ts) == (branch_ok(b, ts) && (x matches EdnaView::Condition(c) ==> cond_all(c, ts))),
{
    let bx = b.push(x);
    assert(bx[b.len() as int] == x);
    if branch_has(b) {
        let k = choose|k: int| 0 <= k < b.len() && (#[trigger] b[k]) is Condition;
        assert(bx[k] == b[k]);
    }
    if branch_has(bx) && !(x is Condition) {
        let k = choose|k: int| 0 <= k < bx.len() && (#[trigger] bx[k]) is Condition;
        assert(k < b.len());
        assert(bx[k] == b[k]);
    }
    if branch_ok(b, ts) && (x matches EdnaView::Condition(c) ==> cond_all(c, ts)) {
        assert forall|k: int| 0 <= k < bx.len() implies (#[trigger] bx[k] matches EdnaView::Condition(c) ==> cond_all(c, ts)) by {
            if k < b.len() {
                assert(bx[k] == b[k]);
            }
        }
    }
    if branch_ok(bx, ts) {
        assert forall|k: int| 0 <= k < b.len() implies (#[trigger] b[k] matches EdnaView::Condition(c) ==> cond_all(c, ts)) by {
            assert(bx[k] == b[k]);
        }
    }
}

/// Whether entry `i` of `doc` is blocked by its `:BLOCKER:` property.
pub open spec fn blocked_spec(docs: Seq<&OrgDocument>, doc: OrgDocument, i: int) -> bool {
    match doc.entries@[i].properties.get_spec("BLOCKER"@) {
        None => false,
        Some(v) => {
            let es = edna_spec(v).0;
            if es.len() == 0 {
                false
            } else {
                let (ts, explicit, met) = block_fold(es, docs, doc, i, es.len() as int);
                if !explicit {
                    !all_done(ts)
                } else {
                    !met
                }
            }
        },
    }
}

/// Whether the keyword `k` of target `t` equals `kw` up to ASCII case.
fn target_cond(c: &Condition, t: &Target) -> (b: bool)
    requires
        target_ok(*t),
    ensures
        b == cond_single(condition_view(*c), (*t.doc, t.entry_idx)),
{
    let e = &t.doc.entries[t.entry_idx];
    match c {
        Condition::TodoState(kw) => match &e.keyword {
            Some(k) => str_eq_ignore_case(k.as_str(), kw.as_str()),
            None => false,
        },
        Condition::HasProperty(key, value) => match e.properties.get(key.as_str()) {
            Some(v) => str_eq(v.as_str(), value.as_str()),
            None => false,
        },
        Condition::HasTags(req) => {
            let ghost rv = strs(req@);
            let mut j: usize = 0;
            while j < req.len()
                invariant
                    j <= req@.len(),
                    target_ok(*t),
                    rv == strs(req@),
                    condition_view(*c) == ConditionView::HasTags(rv),
                    forall|m: int| 0 <= m < j ==> has_tag(*t.doc, t.entry_idx as int, #[trigger] rv[m]),
                decreases req.len() - j,
            {
                assert(rv[j as int] == req@[j as int]@);
                if !entry_has_tag(t.doc, t.entry_idx, req[j].as_str()) {
                    assert(!has_tag(*t.doc, t.entry_idx as int, rv[j as int]));
                    proof {
                        lemma_has_tags_fails((*t.doc, t.entry_idx), rv, j as int);
                    }
                    return false;
                }
                j += 1;
            }
            true
        },
        _ => true,
    }
}

/// Whether a condition holds of every target.
fn targets_cond(c: &Condition, ts: &Vec<Target>) -> (b: bool)
    requires
        forall|j: int| 0 <= j < ts@.len() ==> target_ok(#[trigger] ts@[j]),
    ensures
        b == cond_all(condition_view(*c), targets_view(ts@)),
{
    let ghost tv = targets_view(ts@);
    let mut j: usize = 0;
    while j < ts.len()
        invariant
            j <= ts@.len(),
            tv == targets_view(ts@),
            forall|m: int| 0 <= m < ts@.len() ==> target_ok(#[trigger] ts@[m]),
            forall|m: int| 0 <= m < j ==> cond_single(condition_view(*c), #[trigger] tv[m]),
        decreases ts.len() - j,
    {
        assert(tv[j as int] == (*ts@[j as int].doc, ts@[j as int].entry_idx));
        if !target_cond(c, &ts[j]) {
            return false;
        }
        j += 1;
    }
    true
}

/// Whether every target's keyword is a done state of its document.
fn targets_done(ts: &Vec<Target>) -> (b: bool)
    requires
        forall|j: int| 0 <= j < ts@.len() ==> target_ok(#[trigger] ts@[j]),
    ensures
        b == all_done(targets_view(ts@)),
{
    let ghost tv = targets_view(ts@);
    let mut j: usize = 0;
    while j < ts.len()
        invariant
            j <= ts@.len(),
            tv == targets_view(ts@),
            forall|m: int| 0 <= m < ts@.len() ==> target_ok(#[trigger] ts@[m]),
            forall|m: int| 0 <= m < j ==> target_done(#[trigger] tv[m]),
        decreases ts.len() - j,
    {
        assert(tv[j as int] == (*ts@[j as int].doc, ts@[j as int].entry_idx));
        if !target_is_done(&ts[j]) {
            return false;
        }
        j += 1;
    }
    true
}

fn target_is_done(t: &Target) -> (b: bool)
    requires
        target_ok(*t),
    ensures
        b == target_done((*t.doc, t.entry_idx)),
{
    match &t.doc.entries[t.entry_idx].keyword {
        Some(k) => t.doc.todo_keywords.is_done(k.as_str()),
        None => false,
    }
}

/// Whether the entry of the context is blocked: it has a `:BLOCKER:`
/// property with expressions, and either it names no condition and some
/// target of its last finder is not done, or one of its conditions fails.
pub fn is_blocked(ctx: &EdnaContext) -> (b: bool)
    requires
        ctx.wf(),
    ensures
        b == blocked_spec(ctx.all_docs@, *ctx.doc, ctx.entry_idx as int),
{
    let entry = &ctx.doc.entries[ctx.entry_idx];
    let value = match entry.properties.get("BLOCKER") {
        Some(v) => v,
        None => {
            return false;
        },
    };
    let (exprs, _errors) = parse_edna(value.as_str());
    let ghost ev = ednas_view(exprs@);
    proof {
        lemma_ednas_len(exprs@);
    }
    if exprs.len() == 0 {
        return false;
    }
    let mut targets: Vec<Target> = Vec::new();
    let mut explicit = false;
    let mut met = true;
    assert(targets_view(targets@) =~= Seq::<TargetView>::empty());
    let mut n: usize = 0;
    while n < exprs.len()
        invariant
            n <= exprs@.len(),
            ctx.wf(),
            ev == ednas_view(exprs@),
            ev.len() == exprs@.len(),
            (targets_view(targets@), explicit, met) == block_fold(ev, ctx.all_docs@, *ctx.doc, ctx.entry_idx as int, n as int),
            forall|j: int| 0 <= j < targets@.len() ==> target_ok(#[trigger] targets@[j]),
        decreases exprs.len() - n,
    {
        proof {
            lemma_ednas_index(exprs@, n as int);
        }
        match &exprs[n] {
            EdnaExpr::Finder(f) => {
                targets = resolve_finder(f, ctx);
                assert((targets_view(targets@), explicit, met) == block_fold(ev, ctx.all_docs@, *ctx.doc, ctx.entry_idx as int, n + 1));
            },
            EdnaExpr::Condition(c) => {
                explicit = true;
                if !targets_cond(c, &targets) {
                    met = false;
                }
                assert((targets_view(targets@), explicit, met) == block_fold(ev, ctx.all_docs@, *ctx.doc, ctx.entry_idx as int, n + 1));
            },
            EdnaExpr::If { cond, then, else_ } => {
                let take_then = match &**cond {
                    EdnaExpr::Condition(c) => targets_cond(c, &targets),
                    _ => true,
                };
                let branch = if take_then { then } else { else_ };
                let ghost bv = ednas_view(branch@);
                proof {
                    lemma_ednas_len(branch@);
                }
                let ghost ts = targets_view(targets@);
                let ghost e0 = explicit;
                let ghost m0 = met;
                assert((ts, e0, m0) == block_fold(ev, ctx.all_docs@, *ctx.doc, ctx.entry_idx as int, n as int));
                assert(take_then == if_cond(edna_view(**cond), ts));
                assert(ev[n as int] == EdnaView::If(Box::new(edna_view(**cond)), ednas_view(then@), ednas_view(else_@)));
                assert(bv == if take_then { ednas_view(then@) } else { ednas_view(else_@) });
                assert(bv.take(0) =~= Seq::<EdnaView>::empty());
                let mut k: usize = 0;
                while k < branch.len()
                    invariant
                        k <= branch@.len(),
                        bv == ednas_view(branch@),
                        bv.len() == branch@.len(),
                        ts == targets_view(targets@),
                        forall|j: int| 0 <= j < targets@.len() ==> target_ok(#[trigger] targets@[j]),
                        explicit == (e0 || branch_has(bv.take(k as int))),
                        met == (m0 && branch_ok(bv.take(k as int), ts)),
                    decreases branch.len() - k,
                {
                    proof {
                        lemma_ednas_index(branch@, k as int);
                        assert(bv.take(k + 1) =~= bv.take(k as int).push(bv[k as int]));
                        lemma_branch_push(bv.take(k as int), bv[k as int], ts);
                    }
                    match &branch[k] {
                        EdnaExpr::Condition(c) => {
                            explicit = true;
                            if !targets_cond(c, &targets) {
                                met = false;
                            }
                        },
                        _ => {},
                    }
                    k += 1;
                }
                assert(bv.take(bv.len() as int) =~= bv);
                assert((targets_view(targets@), explicit, met) == block_fold(ev, ctx.all_docs@, *ctx.doc, ctx.entry_idx as int, n + 1));
            },
            EdnaExpr::Action(_) => {},
        }
        n += 1;
    }
    assert(ev.take(ev.len() as int) =~= ev);
    if !explicit {
        !targets_done(&targets)
    } else {
        !met
    }
}


// ---------------------------------------------------------------------------
// Blocker details
// ---------------------------------------------------------------------------
/// A blocker detail as plain values: title, keyword, file, line, locator and
/// what the dependency requires.
pub type DetailView = (Seq<char>, Option<Seq<char>>, Seq<char>, int, Seq<char>, Seq<char>);

pub open spec fn detail_view(d: BlockerDetail) -> DetailView {
    (d.title@, match d.keyword { Some(k) => Some(k@), None => None }, d.file@, d.line as int, d.locator@, d.condition_desc@)
}

pub open spec fn details_view(v: Seq<BlockerDetail>) -> Seq<DetailView> {
    v.map_values(|d: BlockerDetail| detail_view(d))
}

/// `s` joined by `", "`.
pub open spec fn join_comma(s: Seq<Seq<char>>) -> Seq<char>
    decreases s.len(),
{
    if s.len() == 0 {
        Seq::empty()
    } else if s.len() == 1 {
        s[0]
    } else {
        join_comma(s.drop_last()) + ", "@ + s.last()
    }
}

/// What a condition requires, in words.
pub open spec fn condition_desc(c: ConditionView) -> Seq<char> {
    match c {
        ConditionView::TodoState(kw) => "must have state "@ + kw,
        ConditionView::HasProperty(k, v) => "must have property "@ + k + "="@ + v,
        ConditionView::ReSearch(re) => "must match regex "@ + re,
        ConditionView::VariableSet(var, val) => "variable "@ + var + " must be "@ + val,
        ConditionView::HasTags(tags) => "must have tags "@ + join_comma(tags),
    }
}

/// The detail of a target with a description.
pub open spec fn target_detail(t: TargetView, desc: Seq<char>) -> DetailView {
    let e = t.0.entries@[t.1 as int];
    (e.title@, match e.keyword { Some(k) => Some(k@), None => None }, t.0.file@, e.heading_line as int,
        canonical_spec(entry_locator(t.0, t.1 as int)), desc)
}

/// The details of the targets among the first `n` that fail a condition.
pub open spec fn failing(c: ConditionView, ts: Seq<TargetView>, n: int) -> Seq<DetailView>
    decreases n,
{
    if n <= 0 {
        Seq::empty()
    } else {
        failing(c, ts, n - 1) + if !cond_single(c, ts[n - 1]) {
            seq![target_detail(ts[n - 1], condition_desc(c))]
        } else {
            Seq::<DetailView>::empty()
        }
    }
}

/// The details of the targets among the first `n` that are not done.
pub open spec fn undone(ts: Seq<TargetView>, n: int) -> Seq<DetailView>
    decreases n,
{
    if n <= 0 {
        Seq::empty()
    } else {
        undone(ts, n - 1) + if !target_done(ts[n - 1]) {
            seq![target_detail(ts[n - 1], "must be done"@)]
        } else {
            Seq::<DetailView>::empty()
        }
    }
}

/// The details of the conditions among the first `n` of a branch.
pub open spec fn branch_details(b: Seq<EdnaView>, ts: Seq<TargetView>, n: int) -> Seq<DetailView>
    decreases n,
{
    if n <= 0 {
        Seq::empty()
    } else {
        branch_details(b, ts, n - 1) + match b[n - 1] {
            EdnaView::Condition(c) => failing(c, ts, ts.len() as int),
            _ => Seq::empty(),
        }
    }
}

/// The targets, whether a condition was met, and the details after the first `n` expressions.
pub open spec fn details_fold(es: Seq<EdnaView>, docs: Seq<&OrgDocument>, doc: OrgDocument, i: int, n: int) -> (Seq<TargetView>, bool, Seq<DetailView>)
    decreases n,
{
    if n <= 0 {
        (Seq::empty(), false, Seq::empty())
    } else {
        let (ts, explicit, ds) = details_fold(es, docs, doc, i, n - 1);
        match es[n - 1] {
            EdnaView::Finder(f) => (finder_targets(f, docs, doc, i), explicit, ds),
            EdnaView::Condition(c) => (ts, true, ds + failing(c, ts, ts.len() as int)),
            EdnaView::If(cond, then, else_) => {
                let branch = if if_cond(*cond, ts) { then } else { else_ };
                (ts, explicit || branch_has(branch), ds + branch_details(branch, ts, branch.len() as int))
            },
            EdnaView::Action(_) => (ts, explicit, ds),
        }
    }
}

/// The unsatisfied dependencies of entry `i` of `doc`.
pub open spec fn details_spec(docs: Seq<&OrgDocument>, doc: OrgDocument, i: int) -> Seq<DetailView> {
    match doc.entries@[i].properties.get_spec("BLOCKER"@) {
        None => Seq::empty(),
        Some(v) => {
            let es = edna_spec(v).0;
            if es.len() == 0 {
                Seq::empty()
            } else {
                let (ts, explicit, ds) = details_fold(es, docs, doc, i, es.len() as int);
                if !explicit {
                    ds + undone(ts, ts.len() as int)
                } else {
                    ds
                }
            }
        },
    }
}

fn describe_condition(c: &Condition) -> (r: String)
    ensures
        r@ == condition_desc(condition_view(*c)),
{
    let mut v: Vec<char> = Vec::new();
    match c {
        Condition::TodoState(kw) => {
            push_str(&mut v, "must have state ");
            push_str(&mut v, kw.as_str());
        },
        Condition::HasProperty(k, val) => {
            push_str(&mut v, "must have property ");
            push_str(&mut v, k.as_str());
            push_str(&mut v, "=");
            push_str(&mut v, val.as_str());
        },
        Condition::ReSearch(re) => {
            push_str(&mut v, "must match regex ");
            push_str(&mut v, re.as_str());
        },
        Condition::VariableSet(var, val) => {
            push_str(&mut v, "variable ");
            push_str(&mut v, var.as_str());
            push_str(&mut v, " must be ");
            push_str(&mut v, val.as_str());
        },
        Condition::HasTags(tags) => {
            push_str(&mut v, "must have tags ");
            let ghost base = v@;
            let ghost tv = strs(tags@);
            let mut i: usize = 0;
            while i < tags.len()
                invariant
                    i <= tags@.len(),
                    tv == strs(tags@),
                    v@ == base + join_comma(tv.take(i as int)),
                decreases tags.len() - i,
            {
                if i > 0 {
                    push_str(&mut v, ", ");
                }
                push_str(&mut v, tags[i].as_str());
                proof {
                    let tk = tv.take(i + 1);
                    assert(tk.drop_last() =~= tv.take(i as int));
                    assert(tk.last() == tags@[i as int]@);
                    if i == 0 {
                        assert(join_comma(tk) == tk[0]);
                    }
                }
                i += 1;
            }
            assert(tv.take(tags@.len() as int) =~= tv);
        },
    }
    string_from(v.as_slice())
}

fn make_detail(t: &Target, desc: &String) -> (d: BlockerDetail)
    requires
        target_ok(*t),
    ensures
        detail_view(d) == target_detail((*t.doc, t.entry_idx), desc@),
{
    let e = &t.doc.entries[t.entry_idx];
    let loc = locator_for_entry(t.doc, t.entry_idx);
    BlockerDetail {
        title: e.title.clone(),
        keyword: match &e.keyword {
            Some(k) => Some(k.clone()),
            None => None,
        },
        file: t.doc.file.clone(),
        line: e.heading_line,
        locator: loc.to_canonical_string(),
        condition_desc: desc.clone(),
    }
}

fn push_failing(out: &mut Vec<BlockerDetail>, c: &Condition, ts: &Vec<Target>)
    requires
        forall|j: int| 0 <= j < ts@.len() ==> target_ok(#[trigger] ts@[j]),
    ensures
        details_view(final(out)@) == details_view(old(out)@) + failing(condition_view(*c), targets_view(ts@), ts@.len() as int),
{
    let desc = describe_condition(c);
    let ghost tv = targets_view(ts@);
    let ghost base = details_view(out@);
    let mut j: usize = 0;
    while j < ts.len()
        invariant
            j <= ts@.len(),
            tv == targets_view(ts@),
            forall|m: int| 0 <= m < ts@.len() ==> target_ok(#[trigger] ts@[m]),
            desc@ == condition_desc(condition_view(*c)),
            base == details_view(old(out)@),
            details_view(out@) == base + failing(condition_view(*c), tv, j as int),
        decreases ts.len() - j,
    {
        assert(tv[j as int] == (*ts@[j as int].doc, ts@[j as int].entry_idx));
        if !target_cond(c, &ts[j]) {
            let d = make_detail(&ts[j], &desc);
            let ghost b = details_view(out@);
            out.push(d);
            assert(details_view(out@) =~= b.push(detail_view(d)));
        }
        j += 1;
    }
}

/// The unsatisfied dependencies of the entry of the context, in order: for
/// each condition met (directly or in the branch an `if` takes), the targets
/// of the finder before it that fail it; with no condition, the targets of the
/// last finder that are not done. Empty without a `:BLOCKER:` property.
pub fn blocking_details(ctx: &EdnaContext) -> (r: Vec<BlockerDetail>)
    requires
        ctx.wf(),
    ensures
        details_view(r@) == details_spec(ctx.all_docs@, *ctx.doc, ctx.entry_idx as int),
{
    let mut out: Vec<BlockerDetail> = Vec::new();
    let entry = &ctx.doc.entries[ctx.entry_idx];
    let value = match entry.properties.get("BLOCKER") {
        Some(v) => v,
        None => {
            assert(details_view(out@) =~= Seq::<DetailView>::empty());
            return out;
        },
    };
    let (exprs, _errors) = parse_edna(value.as_str());
    let ghost ev = ednas_view(exprs@);
    proof {
        lemma_ednas_len(exprs@);
    }
    assert(details_view(out@) =~= Seq::<DetailView>::empty());
    if exprs.len() == 0 {
        return out;
    }
    let mut targets: Vec<Target> = Vec::new();
    let mut explicit = false;
    assert(targets_view(targets@) =~= Seq::<TargetView>::empty());
    let mut n: usize = 0;
    while n < exprs.len()
        invariant
            n <= exprs@.len(),
            ctx.wf(),
            ev == ednas_view(exprs@),
            ev.len() == exprs@.len(),
            (targets_view(targets@), explicit, details_view(out@)) == details_fold(ev, ctx.all_docs@, *ctx.doc, ctx.entry_idx as int, n as int),
            forall|j: int| 0 <= j < targets@.len() ==> target_ok(#[trigger] targets@[j]),
        decreases exprs.len() - n,
    {
        proof {
            lemma_ednas_index(exprs@, n as int);
        }
        match &exprs[n] {
            EdnaExpr::Finder(f) => {
                targets = resolve_finder(f, ctx);
            },
            EdnaExpr::Condition(c) => {
                explicit = true;
                push_failing(&mut out, c, &targets);
            },
            EdnaExpr::If { cond, then, else_ } => {
                let take_then = match &**cond {
                    EdnaExpr::Condition(c) => targets_cond(c, &targets),
                    _ => true,
                };
                let branch = if take_then { then } else { else_ };
                let ghost bv = ednas_view(branch@);
                proof {
                    lemma_ednas_len(branch@);
                }
                let ghost ts = targets_view(targets@);
                let ghost e0 = explicit;
                let ghost d0 = details_view(out@);
                assert((ts, e0, d0) == details_fold(ev, ctx.all_docs@, *ctx.doc, ctx.entry_idx as int, n as int));
                assert(take_then == if_cond(edna_view(**cond), ts));
                assert(ev[n as int] == EdnaView::If(Box::new(edna_view(**cond)), ednas_view(then@), ednas_view(else_@)));
                assert(bv == if take_then { ednas_view(then@) } else { ednas_view(else_@) });
                assert(bv.take(0) =~= Seq::<EdnaView>::empty());
                let mut k: usize = 0;
                while k < branch.len()
                    invariant
                        k <= branch@.len(),
                        bv == ednas_view(branch@),
                        bv.len() == branch@.len(),
                        ts == targets_view(targets@),
                        forall|j: int| 0 <= j < targets@.len() ==> target_ok(#[trigger] targets@[j]),
                        explicit == (e0 || branch_has(bv.take(k as int))),
                        details_view(out@) == d0 + branch_details(bv, ts, k as int),
                    decreases branch.len() - k,
                {
                    proof {
                        lemma_ednas_index(branch@, k as int);
                        assert(bv.take(k + 1) =~= bv.take(k as int).push(bv[k as int]));
                        lemma_branch_push(bv.take(k as int), bv[k as int], ts);
                    }
                    match &branch[k] {
                        EdnaExpr::Condition(c) => {
                            explicit = true;
                            push_failing(&mut out, c, &targets);
                        },
                        _ => {},
                    }
                    k += 1;
                }
                assert(bv.take(bv.len() as int) =~= bv);
            },
            EdnaExpr::Action(_) => {},
        }
        n += 1;
    }
    assert(ev.take(ev.len() as int) =~= ev);
    if !explicit {
        let ghost tv = targets_view(targets@);
        let ghost base = details_view(out@);
        let mut j: usize = 0;
        while j < targets.len()
            invariant
                j <= targets@.len(),
                tv == targets_view(targets@),
                forall|m: int| 0 <= m < targets@.len() ==> target_ok(#[trigger] targets@[m]),
                details_view(out@) == base + undone(tv, j as int),
            decreases targets.len() - j,
        {
            assert(tv[j as int] == (*targets@[j as int].doc, targets@[j as int].entry_idx));
            if !target_is_done(&targets[j]) {
                let desc = "must be done".to_owned();
                let d = make_detail(&targets[j], &desc);
                let ghost b = details_view(out@);
                out.push(d);
                assert(details_view(out@) =~= b.push(detail_view(d)));
            }
            j += 1;
        }
    }
    out
}


proof fn lemma_failing_empty(c: ConditionView, ts: Seq<TargetView>, n: int)
    requires
        0 <= n <= ts.len(),
    ensures
        (failing(c, ts, n).len() == 0) == (forall|j: int| 0 <= j < n ==> cond_single(c, #[trigger] ts[j])),
    decreases n,
{
    if n > 0 {
        lemma_failing_empty(c, ts, n - 1);
        if failing(c, ts, n).len() == 0 {
            assert forall|j: int| 0 <= j < n implies cond_single(c, #[trigger] ts[j]) by {
                if j < n - 1 {
                    assert(failing(c, ts, n - 1).len() == 0);
                }
            }
        }
    }
}

proof fn lemma_undone_empty(ts: Seq<TargetView>, n: int)
    requires
        0 <= n <= ts.len(),
    ensures
        (undone(ts, n).len() == 0) == (forall|j: int| 0 <= j < n ==> target_done(#[trigger] ts[j])),
    decreases n,
{
    if n > 0 {
        lemma_undone_empty(ts, n - 1);
        if undone(ts, n).len() == 0 {
            assert forall|j: int| 0 <= j < n implies target_done(#[trigger] ts[j]) by {
                if j < n - 1 {
                    assert(undone(ts, n - 1).len() == 0);
                }
            }
        }
    }
}

proof fn lemma_branch_details_empty(b: Seq<EdnaView>, ts: Seq<TargetView>, n: int)
    requires
        0 <= n <= b.len(),
    ensures
        (branch_details(b, ts, n).len() == 0)
            == (forall|k: int| 0 <= k < n ==> (#[trigger] b[k] matches EdnaView::Condition(c) ==> cond_all(c, ts))),
    decreases n,
{
    if n > 0 {
        lemma_branch_details_empty(b, ts, n - 1);
        match b[n - 1] {
            EdnaView::Condition(c) => {
                lemma_failing_empty(c, ts, ts.len() as int);
            },
            _ => {},
        }
        if branch_details(b, ts, n).len() == 0 {
            assert forall|k: int| 0 <= k < n implies (#[trigger] b[k] matches EdnaView::Condition(c) ==> cond_all(c, ts)) by {
                if k < n - 1 {
                    assert(branch_details(b, ts, n - 1).len() == 0);
                }
            }
        }
    }
}

proof fn lemma_folds_agree(es: Seq<EdnaView>, docs: Seq<&OrgDocument>, doc: OrgDocument, i: int, n: int)
    requires
        0 <= n <= es.len(),
    ensures
        details_fold(es, docs, doc, i, n).0 == block_fold(es, docs, doc, i, n).0,
        details_fold(es, docs, doc, i, n).1 == block_fold(es, docs, doc, i, n).1,
        (details_fold(es, docs, doc, i, n).2.len() == 0) == block_fold(es, docs, doc, i, n).2,
        !block_fold(es, docs, doc, i, n).1 ==> block_fold(es, docs, doc, i, n).2,
    decreases n,
{
    if n > 0 {
        lemma_folds_agree(es, docs, doc, i, n - 1);
        let ts = block_fold(es, docs, doc, i, n - 1).0;
        match es[n - 1] {
            EdnaView::Condition(c) => {
                lemma_failing_empty(c, ts, ts.len() as int);
            },
            EdnaView::If(cond, then, else_) => {
                let branch = if if_cond(*cond, ts) { then } else { else_ };
                lemma_branch_details_empty(branch, ts, branch.len() as int);
            },
            _ => {},
        }
    }
}

/// An entry's list of unsatisfied dependencies is empty exactly when the
/// entry is not blocked.
pub proof fn lemma_details_empty_iff_unblocked(docs: Seq<&OrgDocument>, doc: OrgDocument, i: int)
    ensures
        (details_spec(docs, doc, i).len() == 0) == !blocked_spec(docs, doc, i),
{
    match doc.entries@[i].properties.get_spec("BLOCKER"@) {
        None => {},
        Some(v) => {
            let es = edna_spec(v).0;
            if es.len() > 0 {
                lemma_folds_agree(es, docs, doc, i, es.len() as int);
                let ts = block_fold(es, docs, doc, i, es.len() as int).0;
                lemma_undone_empty(ts, ts.len() as int);
            }
        },
    }
}

/// `has-property?(K V)` holds of a target exactly when the target's
/// property `K` is present with the value `V`.
pub proof fn lemma_has_property_holds(key: Seq<char>, val: Seq<char>, t: TargetView)
    ensures
        cond_single(ConditionView::HasProperty(key, val), t) <==> t.0.entries@[t.1 as int].properties.get_spec(key) == Some(val),
{
}

/// Whether some target lacks property `key` with the value `val`.
pub open spec fn some_lacks(ts: Seq<TargetView>, key: Seq<char>, val: Seq<char>) -> bool {
    exists|j: int| 0 <= j < ts.len() && (#[trigger] ts[j]).0.entries@[ts[j].1 as int].properties.get_spec(key) != Some(val)
}

/// An entry whose `:BLOCKER:` is a finder followed by `has-property?(K V)`
/// is blocked exactly when one of the finder's targets does not have the
/// property `K` with the value `V` (missing, or with another value).
pub proof fn lemma_blocked_by_property(
    docs: Seq<&OrgDocument>,
    doc: OrgDocument,
    i: int,
    f: FinderView,
    key: Seq<char>,
    val: Seq<char>,
)
    requires
        doc.entries@[i].properties.get_spec("BLOCKER"@) matches Some(v) && edna_spec(v).0 == seq![
            EdnaView::Finder(f),
            EdnaView::Condition(ConditionView::HasProperty(key, val)),
        ],
    ensures
        blocked_spec(docs, doc, i) <==> some_lacks(finder_targets(f, docs, doc, i), key, val),
{
    let v = doc.entries@[i].properties.get_spec("BLOCKER"@)->Some_0;
    let es = edna_spec(v).0;
    let ts = finder_targets(f, docs, doc, i);
    let c = ConditionView::HasProperty(key, val);
    assert(block_fold(es, docs, doc, i, 1) == (ts, false, true)) by {
        reveal_with_fuel(block_fold, 2);
    }
    assert(block_fold(es, docs, doc, i, 2) == (ts, true, cond_all(c, ts)));
    if cond_all(c, ts) {
        if some_lacks(ts, key, val) {
            let j = choose|j: int| 0 <= j < ts.len() && (#[trigger] ts[j]).0.entries@[ts[j].1 as int].properties.get_spec(key) != Some(val);
            assert(cond_single(c, ts[j]));
        }
    } else {
        let j = choose|j: int| 0 <= j < ts.len() && !cond_single(c, #[trigger] ts[j]);
        assert(some_lacks(ts, key, val));
    }
}

} // verus!
