//! Parser for the category description language: object declarations,
//! morphism declarations, and commutativity assertions, one statement
//! shape per line.

use vstd::prelude::*;
use vstd::string::*;
use crate::ast::{CategoryAST, Statement};

verus! {

/// Horizontal whitespace.
pub open spec fn is_space(c: char) -> bool {
    c == ' ' || c == '\t'
}

/// ASCII letter.
pub open spec fn is_alpha_char(c: char) -> bool {
    (97 <= c as int && c as int <= 122) || (65 <= c as int && c as int <= 90)
}

/// ASCII digit.
pub open spec fn is_digit_char(c: char) -> bool {
    48 <= c as int && c as int <= 57
}

/// Identifier continuation character.
pub open spec fn is_word_char(c: char) -> bool {
    is_alpha_char(c) || is_digit_char(c) || c == '_'
}

/// End of the run of horizontal whitespace starting at `i`.
pub open spec fn space_end(s: Seq<char>, i: int) -> int
    decreases s.len() - i,
    when 0 <= i <= s.len()
{
    if i < s.len() && is_space(s[i]) {
        space_end(s, i + 1)
    } else {
        i
    }
}

/// End of the run of identifier characters starting at `i`.
pub open spec fn ident_end(s: Seq<char>, i: int) -> int
    decreases s.len() - i,
    when 0 <= i <= s.len()
{
    if i < s.len() && is_word_char(s[i]) {
        ident_end(s, i + 1)
    } else {
        i
    }
}

/// End of the run of whitespace tokens starting at `i`: spaces, tabs,
/// bare newlines, and carriage returns followed by a newline.
pub open spec fn ws_end(s: Seq<char>, i: int) -> int
    decreases s.len() - i,
    when 0 <= i <= s.len()
{
    if i < s.len() && (s[i] == ' ' || s[i] == '\t' || s[i] == '\n') {
        ws_end(s, i + 1)
    } else if i + 1 < s.len() && s[i] == '\r' && s[i + 1] == '\n' {
        ws_end(s, i + 2)
    } else {
        i
    }
}

/// End of the run of line endings starting at `i`: bare newlines and
/// carriage returns followed by a newline.
pub open spec fn line_endings_end(s: Seq<char>, i: int) -> int
    decreases s.len() - i,
    when 0 <= i <= s.len()
{
    if i < s.len() && s[i] == '\n' {
        line_endings_end(s, i + 1)
    } else if i + 1 < s.len() && s[i] == '\r' && s[i + 1] == '\n' {
        line_endings_end(s, i + 2)
    } else {
        i
    }
}

/// The literal `t` occurs in `s` at position `i`.
pub open spec fn tag_at(s: Seq<char>, i: int, t: Seq<char>) -> bool {
    0 <= i && i + t.len() <= s.len() && s.subrange(i, i + t.len()) == t
}

/// An identifier starting at `i`: a letter or underscore followed by
/// the longest run of word characters. Yields the position after it and
/// its text.
pub open spec fn parse_ident_at(s: Seq<char>, i: int) -> Option<(int, Seq<char>)> {
    if 0 <= i < s.len() && (is_alpha_char(s[i]) || s[i] == '_') {
        Some((ident_end(s, i), s.subrange(i, ident_end(s, i))))
    } else {
        None
    }
}

proof fn lemma_space_end_range(s: Seq<char>, i: int)
    requires
        0 <= i <= s.len(),
    ensures
        i <= space_end(s, i) <= s.len(),
    decreases s.len() - i,
{
    if i < s.len() && is_space(s[i]) {
        lemma_space_end_range(s, i + 1);
    }
}

proof fn lemma_ident_end_range(s: Seq<char>, i: int)
    requires
        0 <= i <= s.len(),
    ensures
        i <= ident_end(s, i) <= s.len(),
    decreases s.len() - i,
{
    if i < s.len() && is_word_char(s[i]) {
        lemma_ident_end_range(s, i + 1);
    }
}

proof fn lemma_ws_end_range(s: Seq<char>, i: int)
    requires
        0 <= i <= s.len(),
    ensures
        i <= ws_end(s, i) <= s.len(),
    decreases s.len() - i,
{
    if i < s.len() && (s[i] == ' ' || s[i] == '\t' || s[i] == '\n') {
        lemma_ws_end_range(s, i + 1);
    } else if i + 1 < s.len() && s[i] == '\r' && s[i + 1] == '\n' {
        lemma_ws_end_range(s, i + 2);
    }
}

proof fn lemma_line_endings_end_range(s: Seq<char>, i: int)
    requires
        0 <= i <= s.len(),
    ensures
        i <= line_endings_end(s, i) <= s.len(),
    decreases s.len() - i,
{
    if i < s.len() && s[i] == '\n' {
        lemma_line_endings_end_range(s, i + 1);
    } else if i + 1 < s.len() && s[i] == '\r' && s[i + 1] == '\n' {
        lemma_line_endings_end_range(s, i + 2);
    }
}

/// The tail of a composition path after its first name: repeatedly a
/// composition operator and another identifier, each with optional
/// surrounding spaces, ending before the first separator not followed
/// by an identifier. Yields the position after the path and the names.
pub open spec fn path_rest(s: Seq<char>, e: int) -> (int, Seq<Seq<char>>)
    decreases s.len() - e,
    when 0 <= e <= s.len()
    via path_rest_decreases
{
    let k = space_end(s, e);
    if tag_at(s, k, "∘"@) {
        let k2 = space_end(s, k + "∘"@.len());
        match parse_ident_at(s, k2) {
            Some((e2, name)) => {
                let r = path_rest(s, e2);
                (r.0, seq![name] + r.1)
            },
            None => (e, Seq::empty()),
        }
    } else {
        (e, Seq::empty())
    }
}

#[via_fn]
proof fn path_rest_decreases(s: Seq<char>, e: int) {
    reveal_strlit("∘");
    lemma_space_end_range(s, e);
    let k = space_end(s, e);
    if tag_at(s, k, "∘"@) {
        lemma_space_end_range(s, k + 1);
        let k2 = space_end(s, k + 1);
        if parse_ident_at(s, k2) is Some {
            lemma_ident_end_range(s, k2 + 1);
        }
    }
}

/// A composition path: one identifier followed by its tail.
pub open spec fn parse_path_at(s: Seq<char>, j: int) -> Option<(int, Seq<Seq<char>>)> {
    match parse_ident_at(s, j) {
        Some((e, name)) => {
            let r = path_rest(s, e);
            Some((r.0, seq![name] + r.1))
        },
        None => None,
    }
}

/// `object <name>` with trailing whitespace, at the start of `s`.
pub open spec fn parse_object_at(s: Seq<char>) -> Option<(int, Seq<char>)> {
    if tag_at(s, 0, "object"@) {
        let i = "object"@.len() as int;
        let j = space_end(s, i);
        if j > i {
            match parse_ident_at(s, j) {
                Some((e, name)) => Some((ws_end(s, e), name)),
                None => None,
            }
        } else {
            None
        }
    } else {
        None
    }
}

/// `morphism <name>: <from> -> <to>` with trailing whitespace, at the
/// start of `s`. No space may stand between the name and the colon.
pub open spec fn parse_morphism_at(s: Seq<char>) -> Option<(int, Seq<char>, Seq<char>, Seq<char>)> {
    if tag_at(s, 0, "morphism"@) {
        let i = "morphism"@.len() as int;
        let j = space_end(s, i);
        if j > i {
            match parse_ident_at(s, j) {
                Some((e1, name)) => {
                    if tag_at(s, e1, ":"@) {
                        let j2 = space_end(s, e1 + ":"@.len());
                        match parse_ident_at(s, j2) {
                            Some((e2, from)) => {
                                let j3 = space_end(s, e2);
                                if tag_at(s, j3, "->"@) {
                                    let j4 = space_end(s, j3 + "->"@.len());
                                    match parse_ident_at(s, j4) {
                                        Some((e3, to)) => Some((ws_end(s, e3), name, from, to)),
                                        None => None,
                                    }
                                } else {
                                    None
                                }
                            },
                            None => None,
                        }
                    } else {
                        None
                    }
                },
                None => None,
            }
        } else {
            None
        }
    } else {
        None
    }
}

/// `assert commute: <path> == <path>` with trailing whitespace, at the
/// start of `s`.
pub open spec fn parse_assert_commute_at(s: Seq<char>) -> Option<
    (int, Seq<Seq<char>>, Seq<Seq<char>>),
> {
    if tag_at(s, 0, "assert commute:"@) {
        let i = "assert commute:"@.len() as int;
        let j = space_end(s, i);
        match parse_path_at(s, j) {
            Some((el, lhs)) => {
                let j2 = space_end(s, el);
                if tag_at(s, j2, "=="@) {
                    let j3 = space_end(s, j2 + "=="@.len());
                    match parse_path_at(s, j3) {
                        Some((er, rhs)) => Some((ws_end(s, er), lhs, rhs)),
                        None => None,
                    }
                } else {
                    None
                }
            },
            None => None,
        }
    } else {
        None
    }
}

/// What a statement parse yields, at the specification level.
pub enum ParsedStmt {
    Obj { name: Seq<char> },
    Mor { name: Seq<char>, from: Seq<char>, to: Seq<char> },
    Commute { lhs: Seq<Seq<char>>, rhs: Seq<Seq<char>> },
}

/// An executable statement carries exactly the parsed payload.
pub open spec fn stmt_matches(stmt: Statement, p: ParsedStmt) -> bool {
    match p {
        ParsedStmt::Obj { name } => stmt matches Statement::Object(n) && n@ == name,
        ParsedStmt::Mor { name, from, to } => stmt matches Statement::Morphism {
            name: n,
            from: f,
            to: t,
        } && n@ == name && f@ == from && t@ == to,
        ParsedStmt::Commute { lhs, rhs } => stmt matches Statement::AssertCommute {
            lhs: l,
            rhs: r,
        } && l@.map_values(|x: String| x@) == lhs && r@.map_values(|x: String| x@) == rhs,
    }
}

/// One statement after optional leading whitespace: an object
/// declaration, else a morphism declaration, else a commutativity
/// assertion, tried in that order.
pub open spec fn parse_statement_at(s: Seq<char>) -> Option<(int, ParsedStmt)> {
    let i = ws_end(s, 0);
    let t = s.subrange(i, s.len() as int);
    match parse_object_at(t) {
        Some((e, name)) => Some((i + e, ParsedStmt::Obj { name })),
        None => match parse_morphism_at(t) {
            Some((e, name, from, to)) => Some((i + e, ParsedStmt::Mor { name, from, to })),
            None => match parse_assert_commute_at(t) {
                Some((e, lhs, rhs)) => Some((i + e, ParsedStmt::Commute { lhs, rhs })),
                None => None,
            },
        },
    }
}

proof fn lemma_path_rest_range(s: Seq<char>, e: int)
    requires
        0 <= e <= s.len(),
    ensures
        e <= path_rest(s, e).0 <= s.len(),
    decreases s.len() - e,
{
    reveal_strlit("∘");
    lemma_space_end_range(s, e);
    let k = space_end(s, e);
    if tag_at(s, k, "∘"@) {
        lemma_space_end_range(s, k + 1);
        let k2 = space_end(s, k + 1);
        if parse_ident_at(s, k2) is Some {
            lemma_ident_end_range(s, k2 + 1);
            lemma_path_rest_range(s, ident_end(s, k2));
        }
    }
}

/// A successful statement parse ends inside the input.
proof fn lemma_parse_statement_at_range(s: Seq<char>)
    requires
        parse_statement_at(s) is Some,
    ensures
        0 <= parse_statement_at(s).unwrap().0 <= s.len(),
{
    lemma_ws_end_range(s, 0);
    let i = ws_end(s, 0);
    let t = s.subrange(i, s.len() as int);
    if parse_object_at(t) is Some {
        lemma_object_range(t);
    } else if parse_morphism_at(t) is Some {
        lemma_morphism_range(t);
    } else {
        lemma_commute_range(t);
    }
}

proof fn lemma_object_range(t: Seq<char>)
    requires
        parse_object_at(t) is Some,
    ensures
        0 <= parse_object_at(t).unwrap().0 <= t.len(),
{
    lemma_space_end_range(t, "object"@.len() as int);
    let j = space_end(t, "object"@.len() as int);
    lemma_ident_end_range(t, j + 1);
    lemma_ws_end_range(t, ident_end(t, j));
}

proof fn lemma_morphism_range(t: Seq<char>)
    requires
        parse_morphism_at(t) is Some,
    ensures
        0 <= parse_morphism_at(t).unwrap().0 <= t.len(),
{
    lemma_space_end_range(t, "morphism"@.len() as int);
    let j = space_end(t, "morphism"@.len() as int);
    lemma_ident_end_range(t, j + 1);
    let e1 = ident_end(t, j);
    lemma_space_end_range(t, e1 + ":"@.len());
    let j2 = space_end(t, e1 + ":"@.len());
    lemma_ident_end_range(t, j2 + 1);
    let e2 = ident_end(t, j2);
    lemma_space_end_range(t, e2);
    let j3 = space_end(t, e2);
    lemma_space_end_range(t, j3 + "->"@.len());
    let j4 = space_end(t, j3 + "->"@.len());
    lemma_ident_end_range(t, j4 + 1);
    let e3 = ident_end(t, j4);
    lemma_ws_end_range(t, e3);
}

proof fn lemma_commute_range(t: Seq<char>)
    requires
        parse_assert_commute_at(t) is Some,
    ensures
        0 <= parse_assert_commute_at(t).unwrap().0 <= t.len(),
{
    let i = "assert commute:"@.len() as int;
    lemma_space_end_range(t, i);
    let j = space_end(t, i);
    lemma_ident_end_range(t, j + 1);
    let el0 = ident_end(t, j);
    lemma_path_rest_range(t, el0);
    let el = path_rest(t, el0).0;
    lemma_space_end_range(t, el);
    let j2 = space_end(t, el);
    lemma_space_end_range(t, j2 + "=="@.len());
    let j3 = space_end(t, j2 + "=="@.len());
    lemma_ident_end_range(t, j3 + 1);
    let er0 = ident_end(t, j3);
    lemma_path_rest_range(t, er0);
    lemma_ws_end_range(t, path_rest(t, er0).0);
}

/// How statements separated by line-ending runs continue after position
/// `e`: each run of one or more line endings followed by a parseable
/// statement contributes that statement; the list stops before the
/// first separator not followed by one.
pub open spec fn file_rest(s: Seq<char>, e: int) -> (int, Seq<ParsedStmt>)
    decreases s.len() - e,
    when 0 <= e <= s.len()
    via file_rest_decreases
{
    let k = line_endings_end(s, e);
    if k > e {
        let t = s.subrange(k, s.len() as int);
        match parse_statement_at(t) {
            Some((e2, p)) => {
                let r = file_rest(s, k + e2);
                (r.0, seq![p] + r.1)
            },
            None => (e, Seq::empty()),
        }
    } else {
        (e, Seq::empty())
    }
}

#[via_fn]
proof fn file_rest_decreases(s: Seq<char>, e: int) {
    lemma_line_endings_end_range(s, e);
    let k = line_endings_end(s, e);
    if 0 <= e <= s.len() && k > e {
        let t = s.subrange(k, s.len() as int);
        if parse_statement_at(t) is Some {
            lemma_parse_statement_at_range(t);
            lemma_ws_end_range(t, 0);
        }
    }
}

/// The whole input: one statement, then further statements after runs
/// of line endings.
pub open spec fn parse_file_at(s: Seq<char>) -> Option<(int, Seq<ParsedStmt>)> {
    match parse_statement_at(s) {
        Some((e, p)) => {
            let r = file_rest(s, e);
            Some((r.0, seq![p] + r.1))
        },
        None => None,
    }
}

/// Whether a word character stands at `j`.
fn is_word_at(s: &str, j: usize, n: usize) -> (r: bool)
    requires
        n == s@.len(),
        j <= n,
    ensures
        r == (j < n && is_word_char(s@[j as int])),
{
    if j >= n {
        return false;
    }
    let c = s.get_char(j);
    let u = c as u32;
    (97 <= u && u <= 122) || (65 <= u && u <= 90) || (48 <= u && u <= 57) || u == 95
}

/// Skip horizontal whitespace.
fn skip_space(s: &str, i: usize, n: usize) -> (r: usize)
    requires
        n == s@.len(),
        i <= n,
    ensures
        r as int == space_end(s@, i as int),
        i <= r <= n,
    decreases n - i,
{
    if i < n {
        let c = s.get_char(i);
        if c == ' ' || c == '\t' {
            return skip_space(s, i + 1, n);
        }
    }
    i
}

/// Skip the identifier characters from `i` on.
fn scan_word(s: &str, i: usize, n: usize) -> (r: usize)
    requires
        n == s@.len(),
        i <= n,
    ensures
        r as int == ident_end(s@, i as int),
        i <= r <= n,
    decreases n - i,
{
    if is_word_at(s, i, n) {
        scan_word(s, i + 1, n)
    } else {
        i
    }
}

/// Skip whitespace tokens: spaces, tabs, newlines, `\r\n` pairs.
fn skip_ws(s: &str, i: usize, n: usize) -> (r: usize)
    requires
        n == s@.len(),
        i <= n,
    ensures
        r as int == ws_end(s@, i as int),
        i <= r <= n,
    decreases n - i,
{
    if i < n {
        let c = s.get_char(i);
        if c == ' ' || c == '\t' || c == '\n' {
            return skip_ws(s, i + 1, n);
        }
        if c == '\r' && i + 1 < n {
            if s.get_char(i + 1) == '\n' {
                return skip_ws(s, i + 2, n);
            }
        }
    }
    i
}

/// Skip line endings: newlines and `\r\n` pairs.
fn skip_line_endings(s: &str, i: usize, n: usize) -> (r: usize)
    requires
        n == s@.len(),
        i <= n,
    ensures
        r as int == line_endings_end(s@, i as int),
        i <= r <= n,
    decreases n - i,
{
    if i < n {
        let c = s.get_char(i);
        if c == '\n' {
            return skip_line_endings(s, i + 1, n);
        }
        if c == '\r' && i + 1 < n {
            if s.get_char(i + 1) == '\n' {
                return skip_line_endings(s, i + 2, n);
            }
        }
    }
    i
}

/// Whether the literal `t` stands at position `i` of `s`.
fn match_tag(s: &str, i: usize, n: usize, t: &str) -> (r: bool)
    requires
        n == s@.len(),
        i <= n,
    ensures
        r == tag_at(s@, i as int, t@),
{
    let tn = t.unicode_len();
    if tn > n - i {
        return false;
    }
    let mut k: usize = 0;
    while k < tn
        invariant
            n == s@.len(),
            i <= n,
            tn == t@.len(),
            i + tn <= n,
            k <= tn,
            forall|m: int| 0 <= m < k ==> s@[i + m] == t@[m],
        decreases tn - k,
    {
        if s.get_char(i + k) != t.get_char(k) {
            proof {
                assert(s@.subrange(i as int, i as int + t@.len())[k as int] == s@[i + k]);
            }
            return false;
        }
        k = k + 1;
    }
    proof {
        assert(s@.subrange(i as int, i as int + t@.len()) =~= t@);
    }
    true
}

/// Parse an identifier at position `i`: a letter or underscore, then
/// word characters, greedily.
fn parse_ident(s: &str, i: usize, n: usize) -> (r: Option<(usize, String)>)
    requires
        n == s@.len(),
        i <= n,
    ensures
        match r {
            Some((e, name)) => parse_ident_at(s@, i as int) == Some((e as int, name@)) && i < e
                <= n,
            None => parse_ident_at(s@, i as int) is None,
        },
{
    if i >= n {
        return None;
    }
    let c = s.get_char(i);
    let u = c as u32;
    if !((97 <= u && u <= 122) || (65 <= u && u <= 90) || u == 95) {
        return None;
    }
    let e = scan_word(s, i, n);
    proof {
        assert(ident_end(s@, i as int) == ident_end(s@, i as int + 1));
        lemma_ident_end_range(s@, i as int + 1);
    }
    let name = String::from_str(s.substring_char(i, e));
    Some((e, name))
}

/// Parse the tail of a composition path, pushing each further name.
fn parse_path_rest(s: &str, e: usize, n: usize, names: &mut Vec<String>) -> (r: usize)
    requires
        n == s@.len(),
        e <= n,
    ensures
        r as int == path_rest(s@, e as int).0,
        e <= r <= n,
        final(names)@.map_values(|x: String| x@) == old(names)@.map_values(|x: String| x@)
            + path_rest(s@, e as int).1,
    decreases n - e,
{
    let k = skip_space(s, e, n);
    if match_tag(s, k, n, "∘") {
        proof {
            reveal_strlit("∘");
        }
        let k2 = skip_space(s, k + 1, n);
        match parse_ident(s, k2, n) {
            Some((e2, nm)) => {
                let ghost pre = names@;
                let ghost nm_view = nm@;
                names.push(nm);
                proof {
                    assert(names@.map_values(|x: String| x@) =~= pre.map_values(|x: String| x@)
                        + seq![nm_view]);
                }
                let r = parse_path_rest(s, e2, n, names);
                proof {
                    assert(names@.map_values(|x: String| x@) =~= pre.map_values(|x: String| x@)
                        + path_rest(s@, e as int).1);
                }
                r
            },
            None => {
                proof {
                    assert(names@.map_values(|x: String| x@) =~= names@.map_values(
                        |x: String| x@,
                    ) + path_rest(s@, e as int).1);
                }
                e
            },
        }
    } else {
        proof {
            assert(names@.map_values(|x: String| x@) =~= names@.map_values(|x: String| x@)
                + path_rest(s@, e as int).1);
        }
        e
    }
}

/// Parse a composition path: identifiers separated by the composition
/// operator.
fn parse_path(s: &str, j: usize, n: usize) -> (r: Option<(usize, Vec<String>)>)
    requires
        n == s@.len(),
        j <= n,
    ensures
        match r {
            Some((e, names)) => parse_path_at(s@, j as int) == Some(
                (e as int, names@.map_values(|x: String| x@)),
            ) && j <= e <= n,
            None => parse_path_at(s@, j as int) is None,
        },
{
    match parse_ident(s, j, n) {
        None => None,
        Some((e0, name)) => {
            let ghost name_view = name@;
            let mut names: Vec<String> = Vec::new();
            names.push(name);
            proof {
                assert(names@.map_values(|x: String| x@) =~= seq![name_view]);
            }
            let e = parse_path_rest(s, e0, n, &mut names);
            proof {
                assert(names@.map_values(|x: String| x@) =~= seq![name_view] + path_rest(
                    s@,
                    e0 as int,
                ).1);
            }
            Some((e, names))
        },
    }
}

/// Parse object declaration: `object A`
pub fn parse_object<'a>(input: &'a str) -> (r: Option<(&'a str, Statement)>)
    ensures
        match r {
            Some((rest, stmt)) => parse_object_at(input@) is Some && rest@ == input@.subrange(
                parse_object_at(input@).unwrap().0,
                input@.len() as int,
            ) && stmt_matches(stmt, ParsedStmt::Obj { name: parse_object_at(input@).unwrap().1 }),
            None => parse_object_at(input@) is None,
        },
{
    let n = input.unicode_len();
    if !match_tag(input, 0, n, "object") {
        return None;
    }
    proof {
        reveal_strlit("object");
    }
    let j = skip_space(input, 6, n);
    if j == 6 {
        return None;
    }
    match parse_ident(input, j, n) {
        Some((e, name)) => {
            let f = skip_ws(input, e, n);
            let rest = input.substring_char(f, n);
            Some((rest, Statement::Object(name)))
        },
        None => None,
    }
}

/// Parse morphism declaration: `morphism f: A -> B`
pub fn parse_morphism<'a>(input: &'a str) -> (r: Option<(&'a str, Statement)>)
    ensures
        match r {
            Some((rest, stmt)) => parse_morphism_at(input@) is Some && rest@ == input@.subrange(
                parse_morphism_at(input@).unwrap().0,
                input@.len() as int,
            ) && stmt_matches(
                stmt,
                ParsedStmt::Mor {
                    name: parse_morphism_at(input@).unwrap().1,
                    from: parse_morphism_at(input@).unwrap().2,
                    to: parse_morphism_at(input@).unwrap().3,
                },
            ),
            None => parse_morphism_at(input@) is None,
        },
{
    let n = input.unicode_len();
    if !match_tag(input, 0, n, "morphism") {
        return None;
    }
    proof {
        reveal_strlit("morphism");
        reveal_strlit(":");
        reveal_strlit("->");
    }
    let j = skip_space(input, 8, n);
    if j == 8 {
        return None;
    }
    let (e1, name) = match parse_ident(input, j, n) {
        Some(p) => p,
        None => {
            return None;
        },
    };
    if !match_tag(input, e1, n, ":") {
        return None;
    }
    let j2 = skip_space(input, e1 + 1, n);
    let (e2, from) = match parse_ident(input, j2, n) {
        Some(p) => p,
        None => {
            return None;
        },
    };
    let j3 = skip_space(input, e2, n);
    if !match_tag(input, j3, n, "->") {
        return None;
    }
    let j4 = skip_space(input, j3 + 2, n);
    let (e3, to) = match parse_ident(input, j4, n) {
        Some(p) => p,
        None => {
            return None;
        },
    };
    let f = skip_ws(input, e3, n);
    let rest = input.substring_char(f, n);
    Some((rest, Statement::Morphism { name, from, to }))
}

/// Parse commutativity assertion: `assert commute: g ∘ f == h`
pub fn parse_assert_commute<'a>(input: &'a str) -> (r: Option<(&'a str, Statement)>)
    ensures
        match r {
            Some((rest, stmt)) => parse_assert_commute_at(input@) is Some && rest@
                == input@.subrange(
                parse_assert_commute_at(input@).unwrap().0,
                input@.len() as int,
            ) && stmt_matches(
                stmt,
                ParsedStmt::Commute {
                    lhs: parse_assert_commute_at(input@).unwrap().1,
                    rhs: parse_assert_commute_at(input@).unwrap().2,
                },
            ),
            None => parse_assert_commute_at(input@) is None,
        },
{
    let n = input.unicode_len();
    if !match_tag(input, 0, n, "assert commute:") {
        return None;
    }
    proof {
        reveal_strlit("assert commute:");
        reveal_strlit("==");
    }
    let j = skip_space(input, 15, n);
    let (el, lhs) = match parse_path(input, j, n) {
        Some(p) => p,
        None => {
            return None;
        },
    };
    let j2 = skip_space(input, el, n);
    if !match_tag(input, j2, n, "==") {
        return None;
    }
    let j3 = skip_space(input, j2 + 2, n);
    let (er, rhs) = match parse_path(input, j3, n) {
        Some(p) => p,
        None => {
            return None;
        },
    };
    let f = skip_ws(input, er, n);
    let rest = input.substring_char(f, n);
    Some((rest, Statement::AssertCommute { lhs, rhs }))
}

/// Parse a single statement, skipping leading whitespace and trying the
/// three statement shapes in order.
pub fn parse_statement<'a>(input: &'a str) -> (r: Option<(&'a str, Statement)>)
    ensures
        match r {
            Some((rest, stmt)) => parse_statement_at(input@) is Some && rest@ == input@.subrange(
                parse_statement_at(input@).unwrap().0,
                input@.len() as int,
            ) && stmt_matches(stmt, parse_statement_at(input@).unwrap().1),
            None => parse_statement_at(input@) is None,
        },
{
    let n = input.unicode_len();
    let i = skip_ws(input, 0, n);
    let trimmed = input.substring_char(i, n);
    let ghost t = input@.subrange(i as int, n as int);
    let r1 = parse_object(trimmed);
    match r1 {
        Some((rest, stmt)) => {
            proof {
                lemma_object_range(t);
                assert(t.subrange(parse_object_at(t).unwrap().0, t.len() as int)
                    =~= input@.subrange(
                    i as int + parse_object_at(t).unwrap().0,
                    input@.len() as int,
                ));
            }
            return Some((rest, stmt));
        },
        None => {},
    }
    let r2 = parse_morphism(trimmed);
    match r2 {
        Some((rest, stmt)) => {
            proof {
                lemma_morphism_range(t);
                assert(t.subrange(parse_morphism_at(t).unwrap().0, t.len() as int)
                    =~= input@.subrange(
                    i as int + parse_morphism_at(t).unwrap().0,
                    input@.len() as int,
                ));
            }
            return Some((rest, stmt));
        },
        None => {},
    }
    match parse_assert_commute(trimmed) {
        Some((rest, stmt)) => {
            proof {
                lemma_commute_range(t);
                assert(t.subrange(parse_assert_commute_at(t).unwrap().0, t.len() as int)
                    =~= input@.subrange(
                    i as int + parse_assert_commute_at(t).unwrap().0,
                    input@.len() as int,
                ));
            }
            Some((rest, stmt))
        },
        None => None,
    }
}

/// Parse the further statements of a file, each behind a run of one or
/// more line endings, pushing them onto `stmts`.
fn parse_file_rest(input: &str, e: usize, n: usize, stmts: &mut Vec<Statement>) -> (r: usize)
    requires
        n == input@.len(),
        e <= n,
    ensures
        r as int == file_rest(input@, e as int).0,
        e <= r <= n,
        final(stmts)@.len() == old(stmts)@.len() + file_rest(input@, e as int).1.len(),
        forall|i: int| 0 <= i < old(stmts)@.len() ==> final(stmts)@[i] == old(stmts)@[i],
        forall|i: int|
            0 <= i < file_rest(input@, e as int).1.len() ==> stmt_matches(
                #[trigger] final(stmts)@[old(stmts)@.len() + i],
                file_rest(input@, e as int).1[i],
            ),
    decreases n - e,
{
    let k = skip_line_endings(input, e, n);
    if k > e {
        let trimmed = input.substring_char(k, n);
        let ghost t = input@.subrange(k as int, n as int);
        match parse_statement(trimmed) {
            Some((rest, stmt)) => {
                proof {
                    lemma_parse_statement_at_range(t);
                    assert(rest@.len() == t.len() - parse_statement_at(t).unwrap().0);
                }
                let rest_len = rest.unicode_len();
                let e2 = k + ((n - k) - rest_len);
                proof {
                    assert(e2 as int == k as int + parse_statement_at(t).unwrap().0);
                }
                let ghost mid = stmts@;
                stmts.push(stmt);
                let r = parse_file_rest(input, e2, n, stmts);
                proof {
                    let fr = file_rest(input@, e as int);
                    let fr2 = file_rest(input@, e2 as int);
                    assert(fr.1 =~= seq![parse_statement_at(t).unwrap().1] + fr2.1);
                    assert forall|i: int| 0 <= i < fr.1.len() implies stmt_matches(
                        #[trigger] stmts@[old(stmts)@.len() + i],
                        fr.1[i],
                    ) by {
                        if i == 0 {
                            assert(stmts@[mid.len() as int] == mid.push(stmt)[mid.len() as int]);
                        } else {
                            assert(stmt_matches(
                                stmts@[(mid.len() + 1) + (i - 1)],
                                fr2.1[i - 1],
                            ));
                        }
                    }
                }
                r
            },
            None => e,
        }
    } else {
        e
    }
}

/// Parse an entire category theory description: statements separated by
/// line endings.
pub fn parse_category_file<'a>(input: &'a str) -> (r: Option<(&'a str, CategoryAST)>)
    ensures
        match r {
            Some((rest, ast)) => parse_file_at(input@) is Some && rest@ == input@.subrange(
                parse_file_at(input@).unwrap().0,
                input@.len() as int,
            ) && ast.statements@.len() == parse_file_at(input@).unwrap().1.len() && (forall|i: int|
                0 <= i < ast.statements@.len() ==> stmt_matches(
                    #[trigger] ast.statements@[i],
                    parse_file_at(input@).unwrap().1[i],
                )),
            None => parse_file_at(input@) is None,
        },
{
    let n = input.unicode_len();
    match parse_statement(input) {
        None => None,
        Some((rest0, stmt)) => {
            proof {
                lemma_parse_statement_at_range(input@);
                assert(rest0@.len() == input@.len() - parse_statement_at(input@).unwrap().0);
            }
            let rest_len = rest0.unicode_len();
            let e0 = n - rest_len;
            proof {
                assert(e0 as int == parse_statement_at(input@).unwrap().0);
            }
            let mut statements: Vec<Statement> = Vec::new();
            statements.push(stmt);
            let f = parse_file_rest(input, e0, n, &mut statements);
            let remaining = input.substring_char(f, n);
            proof {
                let ps = parse_file_at(input@).unwrap().1;
                let fr = file_rest(input@, e0 as int);
                assert(ps =~= seq![parse_statement_at(input@).unwrap().1] + fr.1);
                assert forall|i: int| 0 <= i < statements@.len() implies stmt_matches(
                    #[trigger] statements@[i],
                    ps[i],
                ) by {
                    if i > 0 {
                        assert(stmt_matches(statements@[1 + (i - 1)], fr.1[i - 1]));
                    }
                }
            }
            Some((remaining, CategoryAST { statements }))
        },
    }
}

} // verus!
