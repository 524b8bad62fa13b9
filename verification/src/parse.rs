//! The `cfg(...)` expression grammar: a specification-level parser, the
//! executable parser proved equal to it, and the proof that printed
//! predicates parse back unchanged.
//!
//! Grammar (case-sensitive, whitespace-insensitive between tokens):
//! ```text
//! expr       := "cfg(" predicate ")"
//! predicate  := any_expr | all_expr | not_expr | value_pred | bool_pred
//! any_expr   := "any(" predicate_list ")"
//! all_expr   := "all(" predicate_list ")"
//! not_expr   := "not(" predicate ")"
//! predicate_list := [ predicate ("," predicate)* ]
//! value_pred := ident "=" quoted_string
//! bool_pred  := ident
//! ```
//! The bare identifiers `unix` and `windows` are rewritten at parse time to
//! the dedicated sugar leaves.

use vstd::prelude::*;

verus! {

use vstd::string::StrSliceExecFns;
use crate::pred::PredView;
use crate::pred::PlatformPredicate;
use crate::pred::preds_view;
use crate::pred::lemma_preds_view;
use crate::pred::print_pred;
use crate::pred::print_list;
use crate::pred::print_rest;
use crate::pred::eval_view;
use crate::text::str_eq;
use crate::config::PlatformExpr;
use vstd::string::StringExecFns;

/// Outcome of running one piece of the grammar over an input suffix.
pub enum Step<T> {
    /// A value was parsed; the given suffix of the input remains.
    Done(T, Seq<char>),
    /// The input violates the grammar.
    Reject,
    /// The input ended before a structurally required token.
    Short,
    /// The recursion allowance ran out. This never happens for the allowance
    /// the parser grants itself; see `lemma_parse_fuel_enough`.
    Spent,
}

/// Whitespace accepted between tokens.
pub open spec fn is_ws_char(c: char) -> bool {
    c == ' ' || c == '\t' || c == '\n' || c == '\r'
}

/// Characters that may start an identifier: letters and underscore.
pub open spec fn is_ident_start(c: char) -> bool {
    ('a' <= c && c <= 'z') || ('A' <= c && c <= 'Z') || c == '_'
}

/// Characters that may continue an identifier: letters, digits, underscore.
pub open spec fn is_ident_char(c: char) -> bool {
    is_ident_start(c) || ('0' <= c && c <= '9')
}

/// Length of the leading whitespace run.
pub open spec fn ws_len(s: Seq<char>) -> nat
    decreases s.len(),
{
    if s.len() > 0 && is_ws_char(s[0]) {
        1 + ws_len(s.skip(1))
    } else {
        0
    }
}

/// The input with its leading whitespace removed.
pub open spec fn skip_ws(s: Seq<char>) -> Seq<char> {
    s.skip(ws_len(s) as int)
}

/// Length of the leading identifier-character run.
pub open spec fn ident_len(s: Seq<char>) -> nat
    decreases s.len(),
{
    if s.len() > 0 && is_ident_char(s[0]) {
        1 + ident_len(s.skip(1))
    } else {
        0
    }
}

/// Length of the leading run of quoted-string body characters (anything but
/// a double quote).
pub open spec fn quote_len(s: Seq<char>) -> nat
    decreases s.len(),
{
    if s.len() > 0 && s[0] != '"' {
        1 + quote_len(s.skip(1))
    } else {
        0
    }
}

pub proof fn lemma_ws_len(s: Seq<char>)
    ensures
        ws_len(s) <= s.len(),
        forall|j: int| 0 <= j < ws_len(s) ==> is_ws_char(s[j]),
        ws_len(s) < s.len() ==> !is_ws_char(s[ws_len(s) as int]),
    decreases s.len(),
{
    if s.len() > 0 && is_ws_char(s[0]) {
        lemma_ws_len(s.skip(1));
        assert forall|j: int| 0 <= j < ws_len(s) implies is_ws_char(s[j]) by {
            if j > 0 {
                assert(s.skip(1)[j - 1] == s[j]);
            }
        }
    }
}

pub proof fn lemma_ws_len_is(s: Seq<char>, k: int)
    requires
        0 <= k <= s.len(),
        forall|j: int| 0 <= j < k ==> is_ws_char(s[j]),
        k < s.len() ==> !is_ws_char(s[k]),
    ensures
        k == ws_len(s),
    decreases s.len(),
{
    if k == 0 {
    } else {
        assert(is_ws_char(s[0]));
        assert forall|j: int| 0 <= j < k - 1 implies is_ws_char(s.skip(1)[j]) by {
            assert(s.skip(1)[j] == s[j + 1]);
        }
        if k - 1 < s.skip(1).len() {
            assert(s.skip(1)[k - 1] == s[k]);
        }
        lemma_ws_len_is(s.skip(1), k - 1);
    }
}

pub proof fn lemma_ident_len(s: Seq<char>)
    ensures
        ident_len(s) <= s.len(),
        forall|j: int| 0 <= j < ident_len(s) ==> is_ident_char(s[j]),
        ident_len(s) < s.len() ==> !is_ident_char(s[ident_len(s) as int]),
    decreases s.len(),
{
    if s.len() > 0 && is_ident_char(s[0]) {
        lemma_ident_len(s.skip(1));
        assert forall|j: int| 0 <= j < ident_len(s) implies is_ident_char(s[j]) by {
            if j > 0 {
                assert(s.skip(1)[j - 1] == s[j]);
            }
        }
    }
}

pub proof fn lemma_ident_len_is(s: Seq<char>, k: int)
    requires
        0 <= k <= s.len(),
        forall|j: int| 0 <= j < k ==> is_ident_char(s[j]),
        k < s.len() ==> !is_ident_char(s[k]),
    ensures
        k == ident_len(s),
    decreases s.len(),
{
    if k == 0 {
    } else {
        assert(is_ident_char(s[0]));
        assert forall|j: int| 0 <= j < k - 1 implies is_ident_char(s.skip(1)[j]) by {
            assert(s.skip(1)[j] == s[j + 1]);
        }
        if k - 1 < s.skip(1).len() {
            assert(s.skip(1)[k - 1] == s[k]);
        }
        lemma_ident_len_is(s.skip(1), k - 1);
    }
}

pub proof fn lemma_quote_len(s: Seq<char>)
    ensures
        quote_len(s) <= s.len(),
        forall|j: int| 0 <= j < quote_len(s) ==> s[j] != '"',
        quote_len(s) < s.len() ==> s[quote_len(s) as int] == '"',
    decreases s.len(),
{
    if s.len() > 0 && s[0] != '"' {
        lemma_quote_len(s.skip(1));
        assert forall|j: int| 0 <= j < quote_len(s) implies s[j] != '"' by {
            if j > 0 {
                assert(s.skip(1)[j - 1] == s[j]);
            }
        }
    }
}

pub proof fn lemma_quote_len_is(s: Seq<char>, k: int)
    requires
        0 <= k <= s.len(),
        forall|j: int| 0 <= j < k ==> s[j] != '"',
        k < s.len() ==> s[k] == '"',
    ensures
        k == quote_len(s),
    decreases s.len(),
{
    if k == 0 {
    } else {
        assert(s[0] != '"');
        assert forall|j: int| 0 <= j < k - 1 implies s.skip(1)[j] != '"' by {
            assert(s.skip(1)[j] == s[j + 1]);
        }
        if k - 1 < s.skip(1).len() {
            assert(s.skip(1)[k - 1] == s[k]);
        }
        lemma_quote_len_is(s.skip(1), k - 1);
    }
}

/// Expect the literal token `t` at the head of `s`.
pub open spec fn expect_lit(s: Seq<char>, t: Seq<char>) -> Step<()> {
    if s.len() >= t.len() {
        if s.take(t.len() as int) == t {
            Step::Done((), s.skip(t.len() as int))
        } else {
            Step::Reject
        }
    } else {
        if s == t.take(s.len() as int) {
            Step::Short
        } else {
            Step::Reject
        }
    }
}

/// Expect a closing parenthesis (after optional whitespace) around a parsed
/// predicate.
pub open spec fn close_paren(s: Seq<char>, p: PredView) -> Step<PredView> {
    let r = skip_ws(s);
    if r.len() == 0 {
        Step::Short
    } else if r[0] == ')' {
        Step::Done(p, r.skip(1))
    } else {
        Step::Reject
    }
}

/// Parse one predicate. `fuel` bounds the recursion depth; any fuel of at
/// least `2 * s.len() + 2` behaves identically (see `lemma_parse_fuel` and
/// `lemma_parse_fuel_enough`).
pub open spec fn parse_pred(s: Seq<char>, fuel: nat) -> Step<PredView>
    decreases fuel,
{
    if fuel == 0 {
        Step::Spent
    } else {
        let r = skip_ws(s);
        if r.len() == 0 {
            Step::Short
        } else if !is_ident_start(r[0]) {
            Step::Reject
        } else {
            let n = ident_len(r) as int;
            let id = r.take(n);
            let rest = r.skip(n);
            let r2 = skip_ws(rest);
            if (id == "any"@ || id == "all"@ || id == "not"@) && r2.len() > 0 && r2[0] == '(' {
                if id == "not"@ {
                    match parse_pred(r2.skip(1), (fuel - 1) as nat) {
                        Step::Done(p, rest2) => close_paren(rest2, PredView::Not(Box::new(p))),
                        Step::Reject => Step::Reject,
                        Step::Short => Step::Short,
                        Step::Spent => Step::Spent,
                    }
                } else {
                    match parse_list(r2.skip(1), (fuel - 1) as nat) {
                        Step::Done(ps, rest2) => close_paren(
                            rest2,
                            if id == "any"@ {
                                PredView::Any(ps)
                            } else {
                                PredView::All(ps)
                            },
                        ),
                        Step::Reject => Step::Reject,
                        Step::Short => Step::Short,
                        Step::Spent => Step::Spent,
                    }
                }
            } else if r2.len() > 0 && r2[0] == '=' {
                let r3 = skip_ws(r2.skip(1));
                if r3.len() == 0 {
                    Step::Short
                } else if r3[0] != '"' {
                    Step::Reject
                } else {
                    let body = r3.skip(1);
                    let vn = quote_len(body) as int;
                    if vn == body.len() {
                        Step::Short
                    } else {
                        Step::Done(
                            PredView::Value { key: id, value: body.take(vn) },
                            body.skip(vn + 1),
                        )
                    }
                }
            } else {
                if id == "unix"@ {
                    Step::Done(PredView::Unix, rest)
                } else if id == "windows"@ {
                    Step::Done(PredView::Windows, rest)
                } else {
                    Step::Done(PredView::Bool { key: id }, rest)
                }
            }
        }
    }
}

/// Parse a possibly empty `any`/`all` argument list, stopping (without
/// consuming) at the closing parenthesis.
pub open spec fn parse_list(s: Seq<char>, fuel: nat) -> Step<Seq<PredView>>
    decreases fuel,
{
    if fuel == 0 {
        Step::Spent
    } else {
        let r = skip_ws(s);
        if r.len() == 0 {
            Step::Short
        } else if r[0] == ')' {
            Step::Done(Seq::empty(), r)
        } else {
            match parse_pred(r, (fuel - 1) as nat) {
                Step::Done(p, rest) => match parse_tail(rest, (fuel - 1) as nat) {
                    Step::Done(ps, rest2) => Step::Done(seq![p] + ps, rest2),
                    Step::Reject => Step::Reject,
                    Step::Short => Step::Short,
                    Step::Spent => Step::Spent,
                },
                Step::Reject => Step::Reject,
                Step::Short => Step::Short,
                Step::Spent => Step::Spent,
            }
        }
    }
}

/// Parse the `("," predicate)*` tail of an argument list, stopping (without
/// consuming) at the closing parenthesis.
pub open spec fn parse_tail(s: Seq<char>, fuel: nat) -> Step<Seq<PredView>>
    decreases fuel,
{
    if fuel == 0 {
        Step::Spent
    } else {
        let r = skip_ws(s);
        if r.len() == 0 {
            Step::Short
        } else if r[0] == ')' {
            Step::Done(Seq::empty(), r)
        } else if r[0] == ',' {
            match parse_pred(r.skip(1), (fuel - 1) as nat) {
                Step::Done(p, rest) => match parse_tail(rest, (fuel - 1) as nat) {
                    Step::Done(ps, rest2) => Step::Done(seq![p] + ps, rest2),
                    Step::Reject => Step::Reject,
                    Step::Short => Step::Short,
                    Step::Spent => Step::Spent,
                },
                Step::Reject => Step::Reject,
                Step::Short => Step::Short,
                Step::Spent => Step::Spent,
            }
        } else {
            Step::Reject
        }
    }
}

/// The allowance under which `parse_pred` never runs out of fuel.
pub open spec fn pred_fuel(s: Seq<char>) -> nat {
    2 * s.len() + 2
}

/// The allowance under which `parse_list` and `parse_tail` never run out.
pub open spec fn list_fuel(s: Seq<char>) -> nat {
    2 * s.len() + 3
}

/// `parse_pred` with enough fuel for its input.
pub open spec fn parse_pred_full(s: Seq<char>) -> Step<PredView> {
    parse_pred(s, pred_fuel(s))
}

/// `parse_list` with enough fuel for its input.
pub open spec fn parse_list_full(s: Seq<char>) -> Step<Seq<PredView>> {
    parse_list(s, list_fuel(s))
}

/// `parse_tail` with enough fuel for its input.
pub open spec fn parse_tail_full(s: Seq<char>) -> Step<Seq<PredView>> {
    parse_tail(s, list_fuel(s))
}

/// A successful parse consumes part of the input: strictly so for a
/// predicate, and never more than the input for a list.
pub proof fn lemma_parse_consumes(s: Seq<char>, fuel: nat)
    ensures
        parse_pred(s, fuel) matches Step::Done(p, rest) ==> rest.len() < s.len(),
        parse_list(s, fuel) matches Step::Done(ps, rest) ==> rest.len() <= s.len(),
        parse_tail(s, fuel) matches Step::Done(ps, rest) ==> rest.len() <= s.len(),
    decreases fuel,
{
    if fuel == 0 {
        return;
    }
    let f1 = (fuel - 1) as nat;
    // parse_pred
    let r = skip_ws(s);
    lemma_ws_len(s);
    if r.len() > 0 && is_ident_start(r[0]) {
        let n = ident_len(r) as int;
        lemma_ident_len(r);
        assert(n >= 1);
        let id = r.take(n);
        let rest = r.skip(n);
        let r2 = skip_ws(rest);
        lemma_ws_len(rest);
        if (id == "any"@ || id == "all"@ || id == "not"@) && r2.len() > 0 && r2[0] == '(' {
            if id == "not"@ {
                lemma_parse_consumes(r2.skip(1), f1);
                if let Step::Done(p, rest2) = parse_pred(r2.skip(1), f1) {
                    lemma_ws_len(rest2);
                }
            } else {
                lemma_parse_consumes(r2.skip(1), f1);
                if let Step::Done(ps, rest2) = parse_list(r2.skip(1), f1) {
                    lemma_ws_len(rest2);
                }
            }
        } else if r2.len() > 0 && r2[0] == '=' {
            let r3 = skip_ws(r2.skip(1));
            lemma_ws_len(r2.skip(1));
            if r3.len() > 0 && r3[0] == '"' {
                lemma_quote_len(r3.skip(1));
            }
        }
    }
    // parse_list
    if r.len() > 0 && r[0] != ')' {
        lemma_parse_consumes(r, f1);
        if let Step::Done(p, rest) = parse_pred(r, f1) {
            lemma_parse_consumes(rest, f1);
        }
    }
    // parse_tail
    if r.len() > 0 && r[0] == ',' {
        lemma_parse_consumes(r.skip(1), f1);
        if let Step::Done(p, rest) = parse_pred(r.skip(1), f1) {
            lemma_parse_consumes(rest, f1);
        }
    }
}

/// The fuel does not affect the result, as long as it does not run out.
pub proof fn lemma_parse_fuel(s: Seq<char>, f1: nat, f2: nat)
    ensures
        !(parse_pred(s, f1) is Spent) && !(parse_pred(s, f2) is Spent) ==> parse_pred(s, f1)
            == parse_pred(s, f2),
        !(parse_list(s, f1) is Spent) && !(parse_list(s, f2) is Spent) ==> parse_list(s, f1)
            == parse_list(s, f2),
        !(parse_tail(s, f1) is Spent) && !(parse_tail(s, f2) is Spent) ==> parse_tail(s, f1)
            == parse_tail(s, f2),
    decreases f1 + f2,
{
    if f1 == 0 || f2 == 0 {
        return;
    }
    let g1 = (f1 - 1) as nat;
    let g2 = (f2 - 1) as nat;
    let r = skip_ws(s);
    if r.len() > 0 && is_ident_start(r[0]) {
        let n = ident_len(r) as int;
        let id = r.take(n);
        let rest = r.skip(n);
        let r2 = skip_ws(rest);
        if (id == "any"@ || id == "all"@ || id == "not"@) && r2.len() > 0 && r2[0] == '(' {
            lemma_parse_fuel(r2.skip(1), g1, g2);
        }
    }
    if r.len() > 0 && r[0] != ')' {
        lemma_parse_fuel(r, g1, g2);
        if let Step::Done(p, rest) = parse_pred(r, g1) {
            lemma_parse_fuel(rest, g1, g2);
        }
    }
    if r.len() > 0 && r[0] == ',' {
        lemma_parse_fuel(r.skip(1), g1, g2);
        if let Step::Done(p, rest) = parse_pred(r.skip(1), g1) {
            lemma_parse_fuel(rest, g1, g2);
        }
    }
}

/// With the allowances of `pred_fuel` / `list_fuel` the parser never runs
/// out of fuel.
pub proof fn lemma_parse_fuel_enough(s: Seq<char>, fuel: nat)
    ensures
        fuel >= pred_fuel(s) ==> !(parse_pred(s, fuel) is Spent),
        fuel >= list_fuel(s) ==> !(parse_list(s, fuel) is Spent),
        fuel >= list_fuel(s) ==> !(parse_tail(s, fuel) is Spent),
    decreases fuel,
{
    if fuel == 0 {
        return;
    }
    let f1 = (fuel - 1) as nat;
    let r = skip_ws(s);
    lemma_ws_len(s);
    if r.len() > 0 && is_ident_start(r[0]) {
        let n = ident_len(r) as int;
        lemma_ident_len(r);
        let id = r.take(n);
        let rest = r.skip(n);
        let r2 = skip_ws(rest);
        lemma_ws_len(rest);
        if (id == "any"@ || id == "all"@ || id == "not"@) && r2.len() > 0 && r2[0] == '(' {
            proof_id_len(id, r);
            lemma_parse_fuel_enough(r2.skip(1), f1);
        }
    }
    if r.len() > 0 && r[0] != ')' {
        lemma_parse_fuel_enough(r, f1);
        if let Step::Done(p, rest) = parse_pred(r, f1) {
            lemma_parse_consumes(r, f1);
            lemma_parse_fuel_enough(rest, f1);
        }
    }
    if r.len() > 0 && r[0] == ',' {
        lemma_parse_fuel_enough(r.skip(1), f1);
        if let Step::Done(p, rest) = parse_pred(r.skip(1), f1) {
            lemma_parse_consumes(r.skip(1), f1);
            lemma_parse_fuel_enough(rest, f1);
        }
    }
}

/// An operator keyword is three characters long.
proof fn proof_id_len(id: Seq<char>, r: Seq<char>)
    requires
        id == "any"@ || id == "all"@ || id == "not"@,
    ensures
        id.len() == 3,
{
    reveal_strlit("any");
    reveal_strlit("all");
    reveal_strlit("not");
}

/// Carry a `parse_pred` result from one sufficient fuel to the canonical one.
proof fn bridge_pred(s: Seq<char>, f: nat)
    requires
        f >= pred_fuel(s),
    ensures
        parse_pred(s, f) == parse_pred_full(s),
        !(parse_pred_full(s) is Spent),
{
    lemma_parse_fuel_enough(s, f);
    lemma_parse_fuel_enough(s, pred_fuel(s));
    lemma_parse_fuel(s, f, pred_fuel(s));
}

/// Carry a `parse_list` result from one sufficient fuel to the canonical one.
proof fn bridge_list(s: Seq<char>, f: nat)
    requires
        f >= list_fuel(s),
    ensures
        parse_list(s, f) == parse_list_full(s),
        !(parse_list_full(s) is Spent),
{
    lemma_parse_fuel_enough(s, f);
    lemma_parse_fuel_enough(s, list_fuel(s));
    lemma_parse_fuel(s, f, list_fuel(s));
}

/// Carry a `parse_tail` result from one sufficient fuel to the canonical one.
proof fn bridge_tail(s: Seq<char>, f: nat)
    requires
        f >= list_fuel(s),
    ensures
        parse_tail(s, f) == parse_tail_full(s),
        !(parse_tail_full(s) is Spent),
{
    lemma_parse_fuel_enough(s, f);
    lemma_parse_fuel_enough(s, list_fuel(s));
    lemma_parse_fuel(s, f, list_fuel(s));
}

enum NoParse {
    Reject,
    Short,
}

fn ws_char(c: char) -> (b: bool)
    ensures
        b == is_ws_char(c),
{
    c == ' ' || c == '\t' || c == '\n' || c == '\r'
}

fn ident_start_char(c: char) -> (b: bool)
    ensures
        b == is_ident_start(c),
{
    ('a' <= c && c <= 'z') || ('A' <= c && c <= 'Z') || c == '_'
}

fn ident_char(c: char) -> (b: bool)
    ensures
        b == is_ident_char(c),
{
    ident_start_char(c) || ('0' <= c && c <= '9')
}

fn skip_ws_at(s: &str, pos: usize) -> (r: usize)
    requires
        pos <= s@.len(),
    ensures
        pos <= r <= s@.len(),
        s@.skip(r as int) == skip_ws(s@.skip(pos as int)),
        r < s@.len() ==> !is_ws_char(s@[r as int]),
{
    let n = s.unicode_len();
    let mut r = pos;
    while r < n
        invariant
            pos <= r <= n,
            n == s@.len(),
            forall|j: int| pos <= j < r ==> is_ws_char(s@[j]),
        ensures
            pos <= r <= n,
            n == s@.len(),
            forall|j: int| pos <= j < r ==> is_ws_char(s@[j]),
            r < n ==> !is_ws_char(s@[r as int]),
        decreases n - r,
    {
        let c = s.get_char(r);
        if !ws_char(c) {
            break;
        }
        r = r + 1;
    }
    proof {
        let sub = s@.skip(pos as int);
        assert forall|j: int| 0 <= j < r - pos implies is_ws_char(sub[j]) by {
            assert(sub[j] == s@[pos + j]);
        }
        if r - pos < sub.len() {
            assert(sub[r - pos] == s@[r as int]);
        }
        lemma_ws_len_is(sub, r - pos);
        assert(s@.skip(r as int) =~= sub.skip(r - pos));
    }
    r
}

fn scan_ident_at(s: &str, pos: usize) -> (r: usize)
    requires
        pos <= s@.len(),
    ensures
        pos <= r <= s@.len(),
        r - pos == ident_len(s@.skip(pos as int)),
{
    let n = s.unicode_len();
    let mut r = pos;
    while r < n
        invariant
            pos <= r <= n,
            n == s@.len(),
            forall|j: int| pos <= j < r ==> is_ident_char(s@[j]),
        ensures
            pos <= r <= n,
            n == s@.len(),
            forall|j: int| pos <= j < r ==> is_ident_char(s@[j]),
            r < n ==> !is_ident_char(s@[r as int]),
        decreases n - r,
    {
        let c = s.get_char(r);
        if !ident_char(c) {
            break;
        }
        r = r + 1;
    }
    proof {
        let sub = s@.skip(pos as int);
        assert forall|j: int| 0 <= j < r - pos implies is_ident_char(sub[j]) by {
            assert(sub[j] == s@[pos + j]);
        }
        if r - pos < sub.len() {
            assert(sub[r - pos] == s@[r as int]);
        }
        lemma_ident_len_is(sub, r - pos);
    }
    r
}

fn scan_value_at(s: &str, pos: usize) -> (r: usize)
    requires
        pos <= s@.len(),
    ensures
        pos <= r <= s@.len(),
        r - pos == quote_len(s@.skip(pos as int)),
{
    let n = s.unicode_len();
    let mut r = pos;
    while r < n
        invariant
            pos <= r <= n,
            n == s@.len(),
            forall|j: int| pos <= j < r ==> s@[j] != '"',
        ensures
            pos <= r <= n,
            n == s@.len(),
            forall|j: int| pos <= j < r ==> s@[j] != '"',
            r < n ==> s@[r as int] == '"',
        decreases n - r,
    {
        let c = s.get_char(r);
        if c == '"' {
            break;
        }
        r = r + 1;
    }
    proof {
        let sub = s@.skip(pos as int);
        assert forall|j: int| 0 <= j < r - pos implies sub[j] != '"' by {
            assert(sub[j] == s@[pos + j]);
        }
        if r - pos < sub.len() {
            assert(sub[r - pos] == s@[r as int]);
        }
        lemma_quote_len_is(sub, r - pos);
    }
    r
}

fn expect_lit_at(s: &str, pos: usize, t: &str) -> (res: Result<usize, NoParse>)
    requires
        pos <= s@.len(),
    ensures
        match res {
            Ok(end) => pos <= end <= s@.len() && end - pos == t@.len() && expect_lit(
                s@.skip(pos as int),
                t@,
            ) == Step::<()>::Done((), s@.skip(end as int)),
            Err(NoParse::Short) => expect_lit(s@.skip(pos as int), t@) is Short,
            Err(NoParse::Reject) => expect_lit(s@.skip(pos as int), t@) is Reject,
        },
{
    let n = s.unicode_len();
    let m = t.unicode_len();
    let mut j: usize = 0;
    while j < m
        invariant
            0 <= j <= m,
            m == t@.len(),
            n == s@.len(),
            pos <= n,
            pos + j <= n,
            forall|k: int| 0 <= k < j ==> s@[pos + k] == t@[k],
        decreases m - j,
    {
        if pos + j == n {
            proof {
                let sub = s@.skip(pos as int);
                assert(sub =~= t@.take(j as int));
            }
            return Err(NoParse::Short);
        }
        let a = s.get_char(pos + j);
        let b = t.get_char(j);
        if a != b {
            proof {
                let sub = s@.skip(pos as int);
                assert(sub[j as int] == s@[pos + j]);
                if sub.len() >= t@.len() {
                    assert(sub.take(t@.len() as int)[j as int] != t@[j as int]);
                } else {
                    assert(t@.take(sub.len() as int)[j as int] != sub[j as int]);
                }
            }
            return Err(NoParse::Reject);
        }
        j = j + 1;
    }
    proof {
        let sub = s@.skip(pos as int);
        assert(sub.take(t@.len() as int) =~= t@);
        assert(s@.skip(pos + m) =~= sub.skip(t@.len() as int));
    }
    Ok(pos + m)
}

fn parse_pred_at(s: &str, pos: usize) -> (res: Result<(PlatformPredicate, usize), NoParse>)
    requires
        pos <= s@.len(),
    ensures
        match res {
            Ok((p, end)) => pos < end <= s@.len() && parse_pred_full(s@.skip(pos as int))
                == Step::Done(p@, s@.skip(end as int)),
            Err(NoParse::Reject) => parse_pred_full(s@.skip(pos as int)) is Reject,
            Err(NoParse::Short) => parse_pred_full(s@.skip(pos as int)) is Short,
        },
    decreases s@.len() - pos, 0int,
{
    let ghost sub = s@.skip(pos as int);
    let ghost fl = pred_fuel(sub);
    let n = s.unicode_len();
    let p1 = skip_ws_at(s, pos);
    let ghost r = skip_ws(sub);
    proof {
        assert(r == s@.skip(p1 as int));
        assert(r.len() == n - p1);
    }
    if p1 == n {
        return Err(NoParse::Short);
    }
    let c0 = s.get_char(p1);
    proof {
        assert(r[0] == s@[p1 as int]);
    }
    if !ident_start_char(c0) {
        return Err(NoParse::Reject);
    }
    let p2 = scan_ident_at(s, p1);
    proof {
        assert(ident_len(r) == p2 - p1);
        lemma_ident_len(r);
        assert(p2 > p1);
    }
    let id = s.substring_char(p1, p2);
    let ghost idv = r.take(p2 - p1);
    proof {
        assert(id@ =~= idv);
    }
    let p3 = skip_ws_at(s, p2);
    let ghost rest = r.skip(p2 - p1);
    let ghost r2 = skip_ws(rest);
    proof {
        assert(rest =~= s@.skip(p2 as int));
        assert(r2 == s@.skip(p3 as int));
        assert(r2.len() == n - p3);
    }
    let is_any = str_eq(id, "any");
    let is_all = str_eq(id, "all");
    let is_not = str_eq(id, "not");
    let next_is_paren = if p3 < n {
        let c = s.get_char(p3);
        proof {
            assert(r2[0] == s@[p3 as int]);
        }
        c == '('
    } else {
        false
    };
    let next_is_eq = if p3 < n {
        let c = s.get_char(p3);
        proof {
            assert(r2[0] == s@[p3 as int]);
        }
        c == '='
    } else {
        false
    };
    if (is_any || is_all || is_not) && next_is_paren {
        if is_not {
            proof {
                assert(r2.skip(1) =~= s@.skip(p3 + 1));
                bridge_pred(s@.skip(p3 + 1), (fl - 1) as nat);
            }
            match parse_pred_at(s, p3 + 1) {
                Ok((p, end1)) => {
                    let p4 = skip_ws_at(s, end1);
                    if p4 == n {
                        return Err(NoParse::Short);
                    }
                    let cc = s.get_char(p4);
                    proof {
                        assert(skip_ws(s@.skip(end1 as int))[0] == s@[p4 as int]);
                    }
                    if cc != ')' {
                        return Err(NoParse::Reject);
                    }
                    proof {
                        assert(s@.skip(p4 as int).skip(1) =~= s@.skip(p4 + 1));
                    }
                    Ok((PlatformPredicate::Not(Box::new(p)), p4 + 1))
                },
                Err(e) => Err(e),
            }
        } else {
            proof {
                assert(r2.skip(1) =~= s@.skip(p3 + 1));
                bridge_list(s@.skip(p3 + 1), (fl - 1) as nat);
            }
            match parse_list_at(s, p3 + 1) {
                Ok((ps, end1)) => {
                    let p4 = skip_ws_at(s, end1);
                    if p4 == n {
                        return Err(NoParse::Short);
                    }
                    let cc = s.get_char(p4);
                    proof {
                        assert(skip_ws(s@.skip(end1 as int))[0] == s@[p4 as int]);
                    }
                    if cc != ')' {
                        return Err(NoParse::Reject);
                    }
                    proof {
                        assert(s@.skip(p4 as int).skip(1) =~= s@.skip(p4 + 1));
                    }
                    if is_any {
                        Ok((PlatformPredicate::Any(ps), p4 + 1))
                    } else {
                        Ok((PlatformPredicate::All(ps), p4 + 1))
                    }
                },
                Err(e) => Err(e),
            }
        }
    } else if next_is_eq {
        let p4 = skip_ws_at(s, p3 + 1);
        let ghost r3 = skip_ws(r2.skip(1));
        proof {
            assert(r2.skip(1) =~= s@.skip(p3 + 1));
            assert(r3 == s@.skip(p4 as int));
            assert(r3.len() == n - p4);
        }
        if p4 == n {
            return Err(NoParse::Short);
        }
        let cq = s.get_char(p4);
        proof {
            assert(r3[0] == s@[p4 as int]);
        }
        if cq != '"' {
            return Err(NoParse::Reject);
        }
        let p5 = scan_value_at(s, p4 + 1);
        let ghost body = r3.skip(1);
        proof {
            assert(body =~= s@.skip(p4 + 1));
            assert(quote_len(body) == p5 - (p4 + 1));
        }
        if p5 == n {
            return Err(NoParse::Short);
        }
        let value = s.substring_char(p4 + 1, p5);
        proof {
            assert(value@ =~= body.take(p5 - (p4 + 1)));
            assert(body.skip(p5 - (p4 + 1) + 1) =~= s@.skip(p5 + 1));
        }
        Ok(
            (
                PlatformPredicate::Value { key: id.to_owned(), value: value.to_owned() },
                p5 + 1,
            ),
        )
    } else {
        let is_unix = str_eq(id, "unix");
        let is_windows = str_eq(id, "windows");
        if is_unix {
            Ok((PlatformPredicate::Unix, p2))
        } else if is_windows {
            Ok((PlatformPredicate::Windows, p2))
        } else {
            Ok((PlatformPredicate::Bool { key: id.to_owned() }, p2))
        }
    }
}

fn parse_list_at(s: &str, pos: usize) -> (res: Result<(Vec<PlatformPredicate>, usize), NoParse>)
    requires
        pos <= s@.len(),
    ensures
        match res {
            Ok((ps, end)) => pos <= end <= s@.len() && parse_list_full(s@.skip(pos as int))
                == Step::Done(preds_view(ps@), s@.skip(end as int)),
            Err(NoParse::Reject) => parse_list_full(s@.skip(pos as int)) is Reject,
            Err(NoParse::Short) => parse_list_full(s@.skip(pos as int)) is Short,
        },
    decreases s@.len() - pos, 1int,
{
    let ghost sub = s@.skip(pos as int);
    let ghost fl = list_fuel(sub);
    let n = s.unicode_len();
    let p1 = skip_ws_at(s, pos);
    let ghost r = skip_ws(sub);
    proof {
        assert(r == s@.skip(p1 as int));
        assert(r.len() == n - p1);
    }
    if p1 == n {
        return Err(NoParse::Short);
    }
    let c0 = s.get_char(p1);
    proof {
        assert(r[0] == s@[p1 as int]);
    }
    if c0 == ')' {
        let v: Vec<PlatformPredicate> = Vec::new();
        return Ok((v, p1));
    }
    proof {
        bridge_pred(s@.skip(p1 as int), (fl - 1) as nat);
    }
    match parse_pred_at(s, p1) {
        Ok((p, end1)) => {
            proof {
                bridge_tail(s@.skip(end1 as int), (fl - 1) as nat);
            }
            match parse_tail_at(s, end1) {
                Ok((ps, end2)) => {
                    let ghost tailseq = ps@;
                    let mut v = ps;
                    v.insert(0, p);
                    proof {
                        lemma_preds_view(v@);
                        lemma_preds_view(tailseq);
                        assert(preds_view(v@) =~= seq![p@] + preds_view(tailseq));
                    }
                    Ok((v, end2))
                },
                Err(e) => Err(e),
            }
        },
        Err(e) => Err(e),
    }
}

fn parse_tail_at(s: &str, pos: usize) -> (res: Result<(Vec<PlatformPredicate>, usize), NoParse>)
    requires
        pos <= s@.len(),
    ensures
        match res {
            Ok((ps, end)) => pos <= end <= s@.len() && parse_tail_full(s@.skip(pos as int))
                == Step::Done(preds_view(ps@), s@.skip(end as int)),
            Err(NoParse::Reject) => parse_tail_full(s@.skip(pos as int)) is Reject,
            Err(NoParse::Short) => parse_tail_full(s@.skip(pos as int)) is Short,
        },
    decreases s@.len() - pos, 0int,
{
    let ghost sub = s@.skip(pos as int);
    let ghost fl = list_fuel(sub);
    let n = s.unicode_len();
    let p1 = skip_ws_at(s, pos);
    let ghost r = skip_ws(sub);
    proof {
        assert(r == s@.skip(p1 as int));
        assert(r.len() == n - p1);
    }
    if p1 == n {
        return Err(NoParse::Short);
    }
    let c0 = s.get_char(p1);
    proof {
        assert(r[0] == s@[p1 as int]);
    }
    if c0 == ')' {
        let v: Vec<PlatformPredicate> = Vec::new();
        return Ok((v, p1));
    }
    if c0 != ',' {
        return Err(NoParse::Reject);
    }
    proof {
        assert(r.skip(1) =~= s@.skip(p1 + 1));
        bridge_pred(s@.skip(p1 + 1), (fl - 1) as nat);
    }
    match parse_pred_at(s, p1 + 1) {
        Ok((p, end1)) => {
            proof {
                bridge_tail(s@.skip(end1 as int), (fl - 1) as nat);
            }
            match parse_tail_at(s, end1) {
                Ok((ps, end2)) => {
                    let ghost tailseq = ps@;
                    let mut v = ps;
                    v.insert(0, p);
                    proof {
                        lemma_preds_view(v@);
                        lemma_preds_view(tailseq);
                        assert(preds_view(v@) =~= seq![p@] + preds_view(tailseq));
                    }
                    Ok((v, end2))
                },
                Err(e) => Err(e),
            }
        },
        Err(e) => Err(e),
    }
}

/// Parse a whole expression: the mandatory `cfg( )` wrapper around one
/// predicate. A `Done` result carries the raw unconsumed suffix; the parse
/// as a whole succeeds only when that suffix is empty.
pub open spec fn parse_cfg(s: Seq<char>) -> Step<PredView> {
    match expect_lit(skip_ws(s), "cfg"@) {
        Step::Done(u, r1) => match expect_lit(skip_ws(r1), "("@) {
            Step::Done(u2, r2) => match parse_pred_full(r2) {
                Step::Done(p, r3) => close_paren(r3, p),
                Step::Reject => Step::Reject,
                Step::Short => Step::Short,
                Step::Spent => Step::Spent,
            },
            Step::Reject => Step::Reject,
            Step::Short => Step::Short,
            Step::Spent => Step::Spent,
        },
        Step::Reject => Step::Reject,
        Step::Short => Step::Short,
        Step::Spent => Step::Spent,
    }
}

/// How a platform expression can fail to parse.
#[derive(Debug, PartialEq, Eq)]
pub enum PredicateParseError {
    /// The grammar matched a valid expression but input remained afterward;
    /// the payload is the unconsumed suffix.
    TrailingJunk(String),
    /// The input ended before a structurally required token (an unterminated
    /// quote, an unbalanced parenthesis).
    Incomplete,
    /// The input violates the grammar; the payload is a diagnostic message
    /// whose exact wording is not part of the contract.
    ParseError(String),
}

impl PredicateParseError {
    /// A human-readable description of the failure.
    pub fn message(&self) -> (r: String)
        ensures
            self matches PredicateParseError::TrailingJunk(j) ==> r@ == "trailing junk: "@
                + j@,
            self matches PredicateParseError::Incomplete ==> r@ == "incomplete input"@,
            self matches PredicateParseError::ParseError(m) ==> r@ == "parse error: "@ + m@,
    {
        match self {
            PredicateParseError::TrailingJunk(junk) => String::from_str("trailing junk: ").concat(
                junk.as_str(),
            ),
            PredicateParseError::ParseError(msg) => String::from_str("parse error: ").concat(
                msg.as_str(),
            ),
            PredicateParseError::Incomplete => String::from_str("incomplete input"),
        }
    }
}

impl PlatformPredicate {
    /// Parse a `cfg(...)` expression into a predicate tree.
    ///
    /// Succeeds exactly when the whole input is consumed by the grammar; a
    /// structurally valid parse followed by leftover text is reported as
    /// `TrailingJunk` with that exact suffix, input that ends too early as
    /// `Incomplete`, and anything else as `ParseError`.
    pub fn parse(input: &PlatformExpr) -> (res: Result<PlatformPredicate, PredicateParseError>)
        ensures
            match res {
                Ok(p) => parse_cfg(input@) == Step::Done(p@, Seq::<char>::empty()),
                Err(e) => match e {
                    PredicateParseError::TrailingJunk(j) => parse_cfg(input@) is Done && parse_cfg(
                        input@,
                    )->Done_1 == j@ && j@.len() > 0,
                    PredicateParseError::Incomplete => parse_cfg(input@) is Short,
                    PredicateParseError::ParseError(m) => parse_cfg(input@) is Reject,
                },
            },
    {
        let s = input.as_str();
        let n = s.unicode_len();
        proof {
            assert(s@.skip(0) =~= s@);
        }
        let p0 = skip_ws_at(s, 0);
        let p1 = match expect_lit_at(s, p0, "cfg") {
            Ok(end) => end,
            Err(NoParse::Short) => {
                return Err(PredicateParseError::Incomplete);
            },
            Err(NoParse::Reject) => {
                return Err(PredicateParseError::ParseError(syntax_message(s)));
            },
        };
        let p2 = skip_ws_at(s, p1);
        let p3 = match expect_lit_at(s, p2, "(") {
            Ok(end) => end,
            Err(NoParse::Short) => {
                return Err(PredicateParseError::Incomplete);
            },
            Err(NoParse::Reject) => {
                return Err(PredicateParseError::ParseError(syntax_message(s)));
            },
        };
        let (pred, p4) = match parse_pred_at(s, p3) {
            Ok(pair) => pair,
            Err(NoParse::Short) => {
                return Err(PredicateParseError::Incomplete);
            },
            Err(NoParse::Reject) => {
                return Err(PredicateParseError::ParseError(syntax_message(s)));
            },
        };
        let p5 = skip_ws_at(s, p4);
        if p5 == n {
            return Err(PredicateParseError::Incomplete);
        }
        let cc = s.get_char(p5);
        proof {
            assert(skip_ws(s@.skip(p4 as int))[0] == s@[p5 as int]);
        }
        if cc != ')' {
            return Err(PredicateParseError::ParseError(syntax_message(s)));
        }
        proof {
            assert(s@.skip(p5 as int).skip(1) =~= s@.skip(p5 + 1));
        }
        if p5 + 1 == n {
            proof {
                assert(s@.skip(p5 + 1) =~= Seq::<char>::empty());
            }
            Ok(pred)
        } else {
            let junk = s.substring_char(p5 + 1, n);
            proof {
                assert(junk@ =~= s@.skip(p5 + 1));
            }
            Err(PredicateParseError::TrailingJunk(junk.to_owned()))
        }
    }
}

/// The diagnostic text for a grammar violation.
fn syntax_message(s: &str) -> (r: String)
{
    String::from_str("invalid platform expression: ").concat(s)
}

/// A well-formed identifier: nonempty, starting with a letter or underscore,
/// continuing with letters, digits and underscores.
pub open spec fn valid_ident(s: Seq<char>) -> bool {
    s.len() >= 1 && is_ident_start(s[0]) && (forall|i: int|
        0 <= i < s.len() ==> is_ident_char(s[i]))
}

/// Predicates in the exact shape the parser produces: well-formed keys, no
/// quote inside a value, and the reserved identifiers rewritten to their
/// sugar leaves.
pub open spec fn canonical(p: PredView) -> bool
    decreases p,
{
    match p {
        PredView::Bool { key } => valid_ident(key) && key != "unix"@ && key != "windows"@,
        PredView::Value { key, value } => valid_ident(key) && (forall|i: int|
            0 <= i < value.len() ==> value[i] != '"'),
        PredView::Not(q) => canonical(*q),
        PredView::Any(ps) => canonical_list(ps),
        PredView::All(ps) => canonical_list(ps),
        PredView::Unix => true,
        PredView::Windows => true,
    }
}

/// Every predicate of the list is canonical.
pub open spec fn canonical_list(ps: Seq<PredView>) -> bool
    decreases ps,
{
    if ps.len() == 0 {
        true
    } else {
        canonical(ps[0]) && canonical_list(ps.skip(1))
    }
}

/// Whatever the parser accepts is canonical.
pub proof fn lemma_parse_canonical(s: Seq<char>, fuel: nat)
    ensures
        parse_pred(s, fuel) matches Step::Done(p, rest) ==> canonical(p),
        parse_list(s, fuel) matches Step::Done(ps, rest) ==> canonical_list(ps),
        parse_tail(s, fuel) matches Step::Done(ps, rest) ==> canonical_list(ps),
    decreases fuel,
{
    if fuel == 0 {
        return;
    }
    let f1 = (fuel - 1) as nat;
    let r = skip_ws(s);
    lemma_ws_len(s);
    if r.len() > 0 && is_ident_start(r[0]) {
        let n = ident_len(r) as int;
        lemma_ident_len(r);
        let id = r.take(n);
        assert(valid_ident(id)) by {
            assert(n >= 1);
            assert(id[0] == r[0]);
            assert forall|i: int| 0 <= i < id.len() implies is_ident_char(id[i]) by {
                assert(id[i] == r[i]);
            }
        }
        let rest = r.skip(n);
        let r2 = skip_ws(rest);
        if (id == "any"@ || id == "all"@ || id == "not"@) && r2.len() > 0 && r2[0] == '(' {
            lemma_parse_canonical(r2.skip(1), f1);
        } else if r2.len() > 0 && r2[0] == '=' {
            let r3 = skip_ws(r2.skip(1));
            if r3.len() > 0 && r3[0] == '"' {
                let body = r3.skip(1);
                lemma_quote_len(body);
                let vn = quote_len(body) as int;
                assert forall|i: int| 0 <= i < body.take(vn).len() implies body.take(vn)[i]
                    != '"' by {
                    assert(body.take(vn)[i] == body[i]);
                }
            }
        }
    }
    if r.len() > 0 && r[0] != ')' {
        lemma_parse_canonical(r, f1);
        if let Step::Done(p, rest) = parse_pred(r, f1) {
            lemma_parse_canonical(rest, f1);
            if let Step::Done(ps, rest2) = parse_tail(rest, f1) {
                assert((seq![p] + ps)[0] == p);
                assert((seq![p] + ps).skip(1) =~= ps);
            }
        }
    }
    if r.len() > 0 && r[0] == ',' {
        lemma_parse_canonical(r.skip(1), f1);
        if let Step::Done(p, rest) = parse_pred(r.skip(1), f1) {
            lemma_parse_canonical(rest, f1);
            if let Step::Done(ps, rest2) = parse_tail(rest, f1) {
                assert((seq![p] + ps)[0] == p);
                assert((seq![p] + ps).skip(1) =~= ps);
            }
        }
    }
}

/// The printed form of a canonical predicate is nonempty and starts with an
/// identifier character.
proof fn lemma_print_head(p: PredView)
    requires
        canonical(p),
    ensures
        print_pred(p).len() > 0,
        is_ident_start(print_pred(p)[0]),
{
    reveal_strlit("not(");
    reveal_strlit("any(");
    reveal_strlit("all(");
    reveal_strlit("unix");
    reveal_strlit("windows");
    reveal_strlit(" = \"");
    match p {
        PredView::Bool { key } => {
        },
        PredView::Value { key, value } => {
            assert(print_pred(p)[0] == key[0]);
        },
        PredView::Not(q) => {
            assert(print_pred(p)[0] == "not("@[0]);
        },
        PredView::Any(ps) => {
            assert(print_pred(p)[0] == "any("@[0]);
        },
        PredView::All(ps) => {
            assert(print_pred(p)[0] == "all("@[0]);
        },
        PredView::Unix => {
        },
        PredView::Windows => {
        },
    }
}

/// Two inputs that agree after leading whitespace parse identically.
proof fn lemma_parse_pred_ws(s1: Seq<char>, s2: Seq<char>, fuel: nat)
    requires
        skip_ws(s1) == skip_ws(s2),
    ensures
        parse_pred(s1, fuel) == parse_pred(s2, fuel),
{
    if fuel == 0 {
    } else {
        assert(parse_pred(s1, fuel) == parse_pred(s2, fuel));
    }
}

/// What may follow a printed predicate without changing how it parses: the
/// end of the input, a list separator, or a closing parenthesis.
pub open spec fn sep_follows(rest: Seq<char>) -> bool {
    rest.len() == 0 || rest[0] == ',' || rest[0] == ')'
}

/// Parsing the printed form of a canonical predicate, followed by a list
/// separator or nothing, yields exactly that predicate and leaves exactly
/// that suffix (unless the fuel runs out).
proof fn lemma_pp_bool(key: Seq<char>, rest: Seq<char>, fuel: nat)
    requires
        canonical(PredView::Bool { key }),
        sep_follows(rest),
        fuel >= 1,
    ensures
        parse_pred(key + rest, fuel) == Step::<PredView>::Done(PredView::Bool { key }, rest),
{
    let s = key + rest;
    reveal_strlit("any");
    reveal_strlit("all");
    reveal_strlit("not");
    reveal_strlit("unix");
    reveal_strlit("windows");
    assert(s[0] == key[0]);
    assert(ws_len(s) == 0) by {
        lemma_ws_len_is(s, 0);
    }
    assert(skip_ws(s) =~= s);
    lemma_ident_end(key, rest, s);
    assert(skip_ws(rest) =~= rest) by {
        lemma_ws_len_is(rest, 0);
    }
}

proof fn lemma_pp_sugar(p: PredView, rest: Seq<char>, fuel: nat)
    requires
        p is Unix || p is Windows,
        sep_follows(rest),
        fuel >= 1,
    ensures
        parse_pred(print_pred(p) + rest, fuel) == Step::<PredView>::Done(p, rest),
{
    let s = print_pred(p) + rest;
    reveal_strlit("any");
    reveal_strlit("all");
    reveal_strlit("not");
    reveal_strlit("unix");
    reveal_strlit("windows");
    let key = if p is Unix { "unix"@ } else { "windows"@ };
    assert(s =~= key + rest);
    assert(s[0] == key[0]);
    assert(ws_len(s) == 0) by {
        lemma_ws_len_is(s, 0);
    }
    assert(skip_ws(s) =~= s);
    assert(valid_ident(key));
    lemma_ident_end(key, rest, s);
    assert(skip_ws(rest) =~= rest) by {
        lemma_ws_len_is(rest, 0);
    }
    assert(s.take(key.len() as int) == key);
}

proof fn lemma_pp_value(key: Seq<char>, value: Seq<char>, rest: Seq<char>, fuel: nat)
    requires
        canonical(PredView::Value { key, value }),
        sep_follows(rest),
        fuel >= 1,
    ensures
        parse_pred(print_pred(PredView::Value { key, value }) + rest, fuel) == Step::<
            PredView,
        >::Done(PredView::Value { key, value }, rest),
{
    let p = PredView::Value { key, value };
    let s = print_pred(p) + rest;
    reveal_strlit("any");
    reveal_strlit("all");
    reveal_strlit("not");
    reveal_strlit("unix");
    reveal_strlit("windows");
    reveal_strlit(" = \"");
    reveal_strlit("\"");
    let tail = " = \""@ + value + "\""@ + rest;
    assert(s =~= key + tail);
    assert(s[0] == key[0]);
    assert(ws_len(s) == 0) by {
        lemma_ws_len_is(s, 0);
    }
    assert(skip_ws(s) =~= s);
    assert(tail[0] == ' ' && tail[1] == '=');
    lemma_ident_end(key, tail, s);
    assert(ws_len(tail) == 1) by {
        lemma_ws_len_is(tail, 1);
    }
    let r2 = skip_ws(tail);
    assert(r2 =~= tail.skip(1));
    assert(r2[0] == '=');
    let after_eq = r2.skip(1);
    assert(after_eq[0] == ' ' && after_eq[1] == '\"');
    assert(ws_len(after_eq) == 1) by {
        lemma_ws_len_is(after_eq, 1);
    }
    let r3 = skip_ws(after_eq);
    assert(r3 =~= after_eq.skip(1));
    assert(r3[0] == '\"');
    let body = r3.skip(1);
    assert(body =~= value + "\""@ + rest);
    assert(body[value.len() as int] == '\"');
    assert(quote_len(body) == value.len()) by {
        assert forall|j: int| 0 <= j < value.len() implies body[j] != '\"' by {
            assert(body[j] == value[j]);
        }
        lemma_quote_len_is(body, value.len() as int);
    }
    let vn = value.len() as int;
    assert(vn < body.len());
    assert(body.take(vn) =~= value);
    assert(body.skip(vn + 1) =~= rest);
}

proof fn lemma_pp_not(p: PredView, rest: Seq<char>, fuel: nat)
    requires
        canonical(p),
        p is Not,
        sep_follows(rest),
        fuel >= 1,
    ensures
        parse_pred(print_pred(p) + rest, fuel) == Step::Done(p, rest) || parse_pred(
            print_pred(p) + rest,
            fuel,
        ) is Spent,
    decreases p, 0int,
{
    let f1 = (fuel - 1) as nat;
    let q = p->Not_0;
    let s = print_pred(p) + rest;
    reveal_strlit("any");
    reveal_strlit("all");
    reveal_strlit("not");
    reveal_strlit("unix");
    reveal_strlit("windows");
    reveal_strlit("not(");
    reveal_strlit(")");
    assert(s[0] == 'n');
    assert(ws_len(s) == 0) by {
        lemma_ws_len_is(s, 0);
    }
    assert(skip_ws(s) =~= s);
    let inner_rest = ")"@ + rest;
    let tail = seq!['('] + print_pred(*q) + inner_rest;
    assert(s =~= "not"@ + tail);
    lemma_ident_end("not"@, tail, s);
    assert(s.take(3) == "not"@);
    assert(ws_len(tail) == 0) by {
        lemma_ws_len_is(tail, 0);
    }
    let r2 = skip_ws(tail);
    assert(r2 =~= tail);
    assert(r2[0] == '(');
    assert(r2.skip(1) =~= print_pred(*q) + inner_rest);
    assert(sep_follows(inner_rest));
    lemma_parse_print_pred(*q, inner_rest, f1);
    if parse_pred(r2.skip(1), f1) == Step::<PredView>::Done(*q, inner_rest) {
        assert(ws_len(inner_rest) == 0) by {
            lemma_ws_len_is(inner_rest, 0);
        }
        assert(skip_ws(inner_rest) =~= inner_rest);
        assert(inner_rest.skip(1) =~= rest);
        assert(close_paren(inner_rest, PredView::Not(Box::new(*q))) == Step::<PredView>::Done(
            PredView::Not(Box::new(*q)),
            rest,
        ));
        assert(PredView::Not(Box::new(*q)) == p);
    }
}

proof fn lemma_pp_ops(p: PredView, rest: Seq<char>, fuel: nat)
    requires
        canonical(p),
        p is Any || p is All,
        sep_follows(rest),
        fuel >= 1,
    ensures
        parse_pred(print_pred(p) + rest, fuel) == Step::Done(p, rest) || parse_pred(
            print_pred(p) + rest,
            fuel,
        ) is Spent,
    decreases p, 0int,
{
    let f1 = (fuel - 1) as nat;
    let ps = if p is Any { p->Any_0 } else { p->All_0 };
    let kw = if p is Any { "any"@ } else { "all"@ };
    let s = print_pred(p) + rest;
    reveal_strlit("any");
    reveal_strlit("all");
    reveal_strlit("not");
    reveal_strlit("unix");
    reveal_strlit("windows");
    reveal_strlit("any(");
    reveal_strlit("all(");
    reveal_strlit(")");
    let inner_rest = ")"@ + rest;
    let tail = seq!['('] + print_list(ps) + inner_rest;
    assert(s =~= kw + tail);
    assert(s[0] == kw[0]);
    assert(ws_len(s) == 0) by {
        lemma_ws_len_is(s, 0);
    }
    assert(skip_ws(s) =~= s);
    assert(valid_ident(kw));
    lemma_ident_end(kw, tail, s);
    assert(s.take(3) == kw);
    assert(ws_len(tail) == 0) by {
        lemma_ws_len_is(tail, 0);
    }
    let r2 = skip_ws(tail);
    assert(r2 =~= tail);
    assert(r2[0] == '(');
    assert(r2.skip(1) =~= print_list(ps) + inner_rest);
    lemma_parse_print_list(ps, inner_rest, f1);
    if parse_list(r2.skip(1), f1) == Step::<Seq<PredView>>::Done(ps, inner_rest) {
        assert(ws_len(inner_rest) == 0) by {
            lemma_ws_len_is(inner_rest, 0);
        }
        assert(skip_ws(inner_rest) =~= inner_rest);
        assert(inner_rest.skip(1) =~= rest);
        let built = if p is Any {
            PredView::Any(ps)
        } else {
            PredView::All(ps)
        };
        assert(built == p);
        assert("all"@[1] != "any"@[1]);
        assert("all"@ != "any"@);
        assert(kw == "any"@ ==> p is Any);
        assert(close_paren(inner_rest, built) == Step::<PredView>::Done(built, rest));
    }
}

/// Parsing the printed form of a canonical predicate, followed by a list
/// separator or nothing, yields exactly that predicate and leaves exactly
/// that suffix (unless the fuel runs out).
pub proof fn lemma_parse_print_pred(p: PredView, rest: Seq<char>, fuel: nat)
    requires
        canonical(p),
        sep_follows(rest),
    ensures
        parse_pred(print_pred(p) + rest, fuel) == Step::Done(p, rest) || parse_pred(
            print_pred(p) + rest,
            fuel,
        ) is Spent,
    decreases p, 1int,
{
    if fuel == 0 {
        return;
    }
    match p {
        PredView::Bool { key } => {
            lemma_pp_bool(key, rest, fuel);
        },
        PredView::Unix => {
            lemma_pp_sugar(p, rest, fuel);
        },
        PredView::Windows => {
            lemma_pp_sugar(p, rest, fuel);
        },
        PredView::Value { key, value } => {
            lemma_pp_value(key, value, rest, fuel);
        },
        PredView::Not(q) => {
            lemma_pp_not(p, rest, fuel);
        },
        PredView::Any(ps) => {
            lemma_pp_ops(p, rest, fuel);
        },
        PredView::All(ps) => {
            lemma_pp_ops(p, rest, fuel);
        },
    }
}

/// Parsing the printed form of a canonical list, followed by the closing
/// parenthesis, yields exactly that list and stops at the parenthesis.
pub proof fn lemma_parse_print_list(ps: Seq<PredView>, rest: Seq<char>, fuel: nat)
    requires
        canonical_list(ps),
        rest.len() > 0,
        rest[0] == ')',
    ensures
        parse_list(print_list(ps) + rest, fuel) == Step::Done(ps, rest) || parse_list(
            print_list(ps) + rest,
            fuel,
        ) is Spent,
    decreases ps, 1int,
{
    if fuel == 0 {
        return;
    }
    let f1 = (fuel - 1) as nat;
    let s = print_list(ps) + rest;
    if ps.len() == 0 {
        assert(s =~= rest);
        assert(ws_len(s) == 0) by {
            lemma_ws_len_is(s, 0);
        }
        assert(skip_ws(s) =~= s);
        assert(Seq::<PredView>::empty() =~= ps);
    } else {
        let head = ps[0];
        let rest2 = print_rest(ps.skip(1)) + rest;
        assert(s =~= print_pred(head) + rest2);
        lemma_print_head(head);
        assert(s[0] == print_pred(head)[0]);
        assert(ws_len(s) == 0) by {
            lemma_ws_len_is(s, 0);
        }
        assert(skip_ws(s) =~= s);
        assert(s[0] != ')' && s.len() > 0);
        assert(sep_follows(rest2)) by {
            if ps.skip(1).len() == 0 {
                assert(rest2 =~= rest);
            } else {
                reveal_strlit(", ");
                assert(rest2[0] == ", "@[0]);
            }
        }
        lemma_parse_print_pred(head, rest2, f1);
        if parse_pred(s, f1) == Step::<PredView>::Done(head, rest2) {
            lemma_parse_print_tail(ps.skip(1), rest, f1);
            if parse_tail(rest2, f1) == Step::<Seq<PredView>>::Done(ps.skip(1), rest) {
                assert(seq![head] + ps.skip(1) =~= ps);
            }
        }
    }
}

/// Parsing the printed tail of a canonical list (a `", "` before each
/// element), followed by the closing parenthesis, yields exactly that tail.
pub proof fn lemma_parse_print_tail(ps: Seq<PredView>, rest: Seq<char>, fuel: nat)
    requires
        canonical_list(ps),
        rest.len() > 0,
        rest[0] == ')',
    ensures
        parse_tail(print_rest(ps) + rest, fuel) == Step::Done(ps, rest) || parse_tail(
            print_rest(ps) + rest,
            fuel,
        ) is Spent,
    decreases ps, 1int,
{
    if fuel == 0 {
        return;
    }
    let f1 = (fuel - 1) as nat;
    let s = print_rest(ps) + rest;
    if ps.len() == 0 {
        assert(s =~= rest);
        assert(ws_len(s) == 0) by {
            lemma_ws_len_is(s, 0);
        }
        assert(skip_ws(s) =~= s);
        assert(Seq::<PredView>::empty() =~= ps);
    } else {
        reveal_strlit(", ");
        let head = ps[0];
        let rest2 = print_rest(ps.skip(1)) + rest;
        assert(s =~= ", "@ + print_pred(head) + rest2);
        assert(s[0] == ',' && s[1] == ' ');
        assert(ws_len(s) == 0) by {
            lemma_ws_len_is(s, 0);
        }
        assert(skip_ws(s) =~= s);
        let after_comma = s.skip(1);
        assert(after_comma =~= seq![' '] + (print_pred(head) + rest2));
        lemma_print_head(head);
        assert(after_comma[0] == ' ' && after_comma[1] == print_pred(head)[0]);
        assert(ws_len(after_comma) == 1) by {
            lemma_ws_len_is(after_comma, 1);
        }
        let inner = print_pred(head) + rest2;
        assert(skip_ws(after_comma) =~= inner);
        assert(ws_len(inner) == 0) by {
            lemma_ws_len_is(inner, 0);
        }
        assert(skip_ws(inner) =~= inner);
        lemma_parse_pred_ws(after_comma, inner, f1);
        assert(sep_follows(rest2)) by {
            if ps.skip(1).len() == 0 {
                assert(rest2 =~= rest);
            } else {
                assert(rest2[0] == ", "@[0]);
            }
        }
        lemma_parse_print_pred(head, rest2, f1);
        if parse_pred(after_comma, f1) == Step::<PredView>::Done(head, rest2) {
            lemma_parse_print_tail(ps.skip(1), rest, f1);
            if parse_tail(rest2, f1) == Step::<Seq<PredView>>::Done(ps.skip(1), rest) {
                assert(seq![head] + ps.skip(1) =~= ps);
            }
        }
    }
}

/// Scanning an identifier out of `id + tail` stops exactly at `tail`.
proof fn lemma_ident_end(id: Seq<char>, tail: Seq<char>, s: Seq<char>)
    requires
        valid_ident(id),
        s == id + tail,
        tail.len() > 0 ==> !is_ident_char(tail[0]),
    ensures
        ident_len(s) == id.len(),
        s.take(id.len() as int) == id,
        s.skip(id.len() as int) == tail,
{
    assert forall|j: int| 0 <= j < id.len() implies is_ident_char(s[j]) by {
        assert(s[j] == id[j]);
    }
    if id.len() < s.len() {
        assert(s[id.len() as int] == tail[0]);
    }
    lemma_ident_len_is(s, id.len() as int);
    assert(s.take(id.len() as int) =~= id);
    assert(s.skip(id.len() as int) =~= tail);
}

/// A predicate body re-wrapped in the mandatory `cfg( )`.
pub open spec fn wrap_cfg(body: Seq<char>) -> Seq<char> {
    "cfg("@ + body + ")"@
}

/// Whatever a whole-expression parse accepts is canonical.
pub proof fn lemma_parse_cfg_canonical(s: Seq<char>)
    ensures
        parse_cfg(s) matches Step::Done(p, rest) ==> canonical(p),
{
    if let Step::Done(u, r1) = expect_lit(skip_ws(s), "cfg"@) {
        if let Step::Done(u2, r2) = expect_lit(skip_ws(r1), "("@) {
            lemma_parse_canonical(r2, pred_fuel(r2));
            if let Step::Done(p, r3) = parse_pred_full(r2) {
                lemma_ws_len(r3);
            }
        }
    }
}

/// Round-trip: printing a canonical predicate and re-wrapping it in
/// `cfg( )` parses back to the very same predicate, with nothing left over.
pub proof fn lemma_print_parse_round_trip(p: PredView)
    requires
        canonical(p),
    ensures
        parse_cfg(wrap_cfg(print_pred(p))) == Step::Done(p, Seq::<char>::empty()),
{
    reveal_strlit("cfg(");
    reveal_strlit("cfg");
    reveal_strlit("(");
    reveal_strlit(")");
    let s = wrap_cfg(print_pred(p));
    assert(s[0] == 'c');
    assert(ws_len(s) == 0) by {
        lemma_ws_len_is(s, 0);
    }
    assert(skip_ws(s) =~= s);
    assert(s.take(3) == "cfg"@) by {
        assert(s.take(3) =~= "cfg"@);
    }
    let r1 = s.skip(3);
    assert(r1[0] == '(');
    assert(ws_len(r1) == 0) by {
        lemma_ws_len_is(r1, 0);
    }
    assert(skip_ws(r1) =~= r1);
    assert(r1.take(1) =~= "("@);
    let r2 = r1.skip(1);
    assert(r2 =~= print_pred(p) + ")"@);
    assert(sep_follows(")"@));
    lemma_parse_print_pred(p, ")"@, pred_fuel(r2));
    lemma_parse_fuel_enough(r2, pred_fuel(r2));
    assert(parse_pred_full(r2) == Step::<PredView>::Done(p, ")"@));
    let r3 = ")"@;
    assert(ws_len(r3) == 0) by {
        lemma_ws_len_is(r3, 0);
    }
    assert(skip_ws(r3) =~= r3);
    assert(r3.skip(1) =~= Seq::<char>::empty());
    assert(close_paren(r3, p) == Step::<PredView>::Done(p, Seq::<char>::empty()));
}

/// Round-trip on a parsed expression: whatever `e` parses to, the printed
/// form of that predicate (re-wrapped) parses to the same predicate, and the
/// two evaluate alike against every config.
pub proof fn lemma_round_trip(e: Seq<char>, c: Map<Seq<char>, Set<Seq<char>>>)
    requires
        parse_cfg(e) is Done,
    ensures
        parse_cfg(wrap_cfg(print_pred(parse_cfg(e)->Done_0))) == Step::Done(
            parse_cfg(e)->Done_0,
            Seq::<char>::empty(),
        ),
        eval_view(parse_cfg(wrap_cfg(print_pred(parse_cfg(e)->Done_0)))->Done_0, c) == eval_view(
            parse_cfg(e)->Done_0,
            c,
        ),
{
    lemma_parse_cfg_canonical(e);
    lemma_print_parse_round_trip(parse_cfg(e)->Done_0);
}

} // verus!
