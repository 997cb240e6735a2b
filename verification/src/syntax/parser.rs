//! The parser of program text.
//!
//! A program is a list of rules and comments. A comment runs from `%` to
//! the end of its line. A rule is a head atom, after `@input` or `@output`
//! where it declares a base relation or a query, and `:-` with a body of
//! clauses between commas where it has one; a full stop may end it. A
//! number is kept as its decimal text. Every parser takes the text and a
//! position in it, and gives what it read with the position after it, or
//! nothing where the text does not fit.

use vstd::prelude::*;
use crate::error::{Failure, FailureView};
use crate::syntax::ast::{
    Arith, ArithView, Atom, AtomView, Clause, ClauseView, Constant, ConstantView, IO, IOView,
    Operator, OperatorView, Program, Rule, RuleView, Term, TermView, Variable, VariableView,
};
use crate::text::views;

verus! {

/// Whether `c` is white space: a blank, a tab or a line break.
pub open spec fn is_space(c: char) -> bool {
    c == ' ' || c == '\t' || c == '\n' || c == '\r'
}

/// Whether `c` is a decimal digit.
pub open spec fn is_digit(c: char) -> bool {
    '0' <= c <= '9'
}

/// Whether `c` is a small letter.
pub open spec fn is_lower(c: char) -> bool {
    'a' <= c <= 'z'
}

/// Whether `c` is a capital letter.
pub open spec fn is_upper(c: char) -> bool {
    'A' <= c <= 'Z'
}

/// Whether `c` may stand in a name: a letter, a digit or an underscore.
pub open spec fn is_name_char(c: char) -> bool {
    is_lower(c) || is_upper(c) || is_digit(c) || c == '_'
}

/// The first position from `i` on that holds no white space.
pub open spec fn skip_spaces(s: Seq<char>, i: int) -> int
    decreases s.len() - i,
{
    if 0 <= i < s.len() && is_space(s[i]) {
        skip_spaces(s, i + 1)
    } else {
        i
    }
}

/// The first position from `i` on that holds no character of a name.
pub open spec fn name_end(s: Seq<char>, i: int) -> int
    decreases s.len() - i,
{
    if 0 <= i < s.len() && is_name_char(s[i]) {
        name_end(s, i + 1)
    } else {
        i
    }
}

/// The first position from `i` on that holds no digit.
pub open spec fn digits_end(s: Seq<char>, i: int) -> int
    decreases s.len() - i,
{
    if 0 <= i < s.len() && is_digit(s[i]) {
        digits_end(s, i + 1)
    } else {
        i
    }
}

/// The first position from `i` on that holds a line break, or the length
/// of the text where there is none.
pub open spec fn line_end(s: Seq<char>, i: int) -> int
    decreases s.len() - i,
{
    if 0 <= i < s.len() && s[i] != '\n' {
        line_end(s, i + 1)
    } else {
        i
    }
}

/// Whether `word` stands at position `i`.
pub open spec fn has_word(s: Seq<char>, i: int, word: Seq<char>) -> bool {
    0 <= i && i + word.len() <= s.len() && s.subrange(i, i + word.len()) == word
}

fn space(c: char) -> (r: bool)
    ensures
        r == is_space(c),
{
    c == ' ' || c == '\t' || c == '\n' || c == '\r'
}

fn digit(c: char) -> (r: bool)
    ensures
        r == is_digit(c),
{
    '0' <= c && c <= '9'
}

fn lower(c: char) -> (r: bool)
    ensures
        r == is_lower(c),
{
    'a' <= c && c <= 'z'
}

fn upper(c: char) -> (r: bool)
    ensures
        r == is_upper(c),
{
    'A' <= c && c <= 'Z'
}

fn name_char(c: char) -> (r: bool)
    ensures
        r == is_name_char(c),
{
    lower(c) || upper(c) || digit(c) || c == '_'
}

fn spaces(s: &Vec<char>, i: usize) -> (j: usize)
    requires
        i <= s@.len(),
    ensures
        j == skip_spaces(s@, i as int),
        i <= j <= s@.len(),
{
    let mut j = i;
    while j < s.len() && space(s[j])
        invariant
            i <= j <= s@.len(),
            skip_spaces(s@, i as int) == skip_spaces(s@, j as int),
        decreases s@.len() - j,
    {
        j = j + 1;
    }
    j
}

fn name_stop(s: &Vec<char>, i: usize) -> (j: usize)
    requires
        i <= s@.len(),
    ensures
        j == name_end(s@, i as int),
        i <= j <= s@.len(),
{
    let mut j = i;
    while j < s.len() && name_char(s[j])
        invariant
            i <= j <= s@.len(),
            name_end(s@, i as int) == name_end(s@, j as int),
        decreases s@.len() - j,
    {
        j = j + 1;
    }
    j
}

fn digits_stop(s: &Vec<char>, i: usize) -> (j: usize)
    requires
        i <= s@.len(),
    ensures
        j == digits_end(s@, i as int),
        i <= j <= s@.len(),
{
    let mut j = i;
    while j < s.len() && digit(s[j])
        invariant
            i <= j <= s@.len(),
            digits_end(s@, i as int) == digits_end(s@, j as int),
        decreases s@.len() - j,
    {
        j = j + 1;
    }
    j
}

fn line_stop(s: &Vec<char>, i: usize) -> (j: usize)
    requires
        i <= s@.len(),
    ensures
        j == line_end(s@, i as int),
        i <= j <= s@.len(),
{
    let mut j = i;
    while j < s.len() && s[j] != '\n'
        invariant
            i <= j <= s@.len(),
            line_end(s@, i as int) == line_end(s@, j as int),
        decreases s@.len() - j,
    {
        j = j + 1;
    }
    j
}

fn word_at(s: &Vec<char>, i: usize, word: &str) -> (r: bool)
    requires
        i <= s@.len(),
    ensures
        r == has_word(s@, i as int, word@),
{
    let n = word.unicode_len();
    if n > s.len() - i {
        return false;
    }
    let mut k: usize = 0;
    while k < n
        invariant
            k <= n,
            n == word@.len(),
            i + n <= s@.len(),
            s@.len() <= usize::MAX,
            forall|m: int| 0 <= m < k ==> s@[i + m] == word@[m],
        decreases n - k,
    {
        if s[i + k] != word.get_char(k) {
            assert(s@.subrange(i as int, i + n)[k as int] != word@[k as int]);
            return false;
        }
        k = k + 1;
    }
    assert(s@.subrange(i as int, i + n) =~= word@);
    true
}

fn word_end(s: &Vec<char>, i: usize, word: &str) -> (r: Option<usize>)
    requires
        i <= s@.len(),
    ensures
        match r {
            Some(j) => has_word(s@, i as int, word@) && j == i + word@.len() && j <= s@.len(),
            None => !has_word(s@, i as int, word@),
        },
{
    if word_at(s, i, word) {
        let n = word.unicode_len();
        assert(i + n <= s.len());
        Some(i + n)
    } else {
        None
    }
}

fn text_of(s: &Vec<char>, i: usize, j: usize) -> (t: String)
    requires
        i <= j <= s@.len(),
    ensures
        t@ == s@.subrange(i as int, j as int),
{
    let mut t = String::new();
    let mut k = i;
    assert(t@ =~= s@.subrange(i as int, i as int));
    while k < j
        invariant
            i <= k <= j,
            j <= s@.len(),
            t@ == s@.subrange(i as int, k as int),
        decreases j - k,
    {
        t.push(s[k]);
        assert(t@ =~= s@.subrange(i as int, k + 1));
        k = k + 1;
    }
    t
}


/// A symbol at `i`: a name that starts with a small letter or an
/// underscore, and the white space after it.
pub open spec fn symbol_at(s: Seq<char>, i: int) -> Option<(Seq<char>, int)> {
    let e = name_end(s, i);
    if 0 <= i < e && (is_lower(s[i]) || s[i] == '_') {
        Some((s.subrange(i, e), skip_spaces(s, e)))
    } else {
        None
    }
}

/// A variable at `i`: a name that starts with a capital letter or an
/// underscore; the underscore alone is the anonymous placeholder.
pub open spec fn variable_at(s: Seq<char>, i: int) -> Option<(VariableView, int)> {
    let e = name_end(s, i);
    if 0 <= i < e && (is_upper(s[i]) || s[i] == '_') {
        if e == i + 1 && s[i] == '_' {
            Some((VariableView::Free, e))
        } else {
            Some((VariableView::Undistinguished(s.subrange(i, e)), e))
        }
    } else {
        None
    }
}

/// A number at `i`: digits, and after them a point and digits where they
/// follow.
pub open spec fn number_at(s: Seq<char>, i: int) -> Option<(Seq<char>, int)> {
    let e = digits_end(s, i);
    if 0 <= i < e {
        if e < s.len() && s[e] == '.' && digits_end(s, e + 1) > e + 1 {
            Some((s.subrange(i, digits_end(s, e + 1)), digits_end(s, e + 1)))
        } else {
            Some((s.subrange(i, e), e))
        }
    } else {
        None
    }
}

/// The value of a digit.
pub open spec fn digit_value(c: char) -> int {
    if c == '1' {
        1
    } else if c == '2' {
        2
    } else if c == '3' {
        3
    } else if c == '4' {
        4
    } else if c == '5' {
        5
    } else if c == '6' {
        6
    } else if c == '7' {
        7
    } else if c == '8' {
        8
    } else if c == '9' {
        9
    } else {
        0
    }
}

/// The number that the first `n` of `digits` stand for.
pub open spec fn digits_value(digits: Seq<char>, n: int) -> int
    decreases n,
{
    if n <= 0 {
        0
    } else {
        10 * digits_value(digits, n - 1) + digit_value(digits[n - 1])
    }
}

/// The constant that the number `text` stands for: an integer, where the
/// text has no fraction and the number is one that an integer can hold;
/// else the number as it is written.
pub open spec fn number_constant(text: Seq<char>, whole: bool) -> ConstantView {
    if whole && digits_value(text, text.len() as int) <= i64::MAX {
        ConstantView::Integer(digits_value(text, text.len() as int))
    } else {
        ConstantView::Float(text)
    }
}

/// The constant that the name `name` stands for: a truth value for `true`
/// and `false`, else a symbol.
pub open spec fn name_constant(name: Seq<char>) -> ConstantView {
    if name == "true"@ {
        ConstantView::Boolean(true)
    } else if name == "false"@ {
        ConstantView::Boolean(false)
    } else {
        ConstantView::Symbol(name)
    }
}

/// A term at `i`, and the white space after it: a variable, else a
/// number, else a truth value or a symbol.
pub open spec fn term_at(s: Seq<char>, i: int) -> Option<(TermView, int)> {
    match variable_at(s, i) {
        Some((v, j)) => Some((TermView::Variable(v), skip_spaces(s, j))),
        None => match number_at(s, i) {
            Some((t, j)) => Some(
                (
                    TermView::Constant(number_constant(t, j == digits_end(s, i))),
                    skip_spaces(s, j),
                ),
            ),
            None => match symbol_at(s, i) {
                Some((n, j)) => Some((TermView::Constant(name_constant(n)), skip_spaces(s, j))),
                None => None,
            },
        },
    }
}

/// The character `c` at `i` between white space: the position after.
pub open spec fn mark_at(s: Seq<char>, i: int, c: char) -> Option<int> {
    let j = skip_spaces(s, i);
    if 0 <= j < s.len() && s[j] == c {
        Some(skip_spaces(s, j + 1))
    } else {
        None
    }
}

/// The terms that follow at `i`, each after a comma, added to `terms`.
pub open spec fn more_terms(s: Seq<char>, i: int, terms: Seq<TermView>) -> (Seq<TermView>, int)
    decreases s.len() - i,
{
    match mark_at(s, i, ',') {
        Some(j) => match term_at(s, j) {
            Some((t, k)) => if i < k <= s.len() {
                more_terms(s, k, terms.push(t))
            } else {
                (terms, i)
            },
            None => (terms, i),
        },
        None => (terms, i),
    }
}

/// A list of terms at `i`: one term or more, with commas between them, in
/// round brackets.
pub open spec fn term_list_at(s: Seq<char>, i: int) -> Option<(Seq<TermView>, int)> {
    match mark_at(s, i, '(') {
        Some(a) => match term_at(s, a) {
            Some((t, b)) => {
                let (terms, c) = more_terms(s, b, seq![t]);
                match mark_at(s, c, ')') {
                    Some(d) => Some((terms, d)),
                    None => None,
                }
            },
            None => None,
        },
        None => None,
    }
}

/// An atom at `i`: a predicate with its terms, after `Not` where it is
/// negated.
pub open spec fn atom_at(s: Seq<char>, i: int) -> Option<(AtomView, int)> {
    let negation = has_word(s, i, "Not"@);
    let a = if negation {
        skip_spaces(s, i + 3)
    } else {
        i
    };
    match symbol_at(s, a) {
        Some((predicate, b)) => match term_list_at(s, b) {
            Some((terms, c)) => Some((AtomView { negation, predicate, terms }, skip_spaces(s, c))),
            None => None,
        },
        None => None,
    }
}

fn symbol(s: &Vec<char>, i: usize) -> (r: Option<(String, usize)>)
    requires
        i <= s@.len(),
    ensures
        match r {
            Some((n, j)) => symbol_at(s@, i as int) == Some((n@, j as int)) && i < j <= s@.len(),
            None => symbol_at(s@, i as int) is None,
        },
{
    let e = name_stop(s, i);
    if i < e && (lower(s[i]) || s[i] == '_') {
        Some((text_of(s, i, e), spaces(s, e)))
    } else {
        None
    }
}

fn variable(s: &Vec<char>, i: usize) -> (r: Option<(Variable, usize)>)
    requires
        i <= s@.len(),
    ensures
        match r {
            Some((v, j)) => variable_at(s@, i as int) == Some((v@, j as int)) && i < j <= s@.len(),
            None => variable_at(s@, i as int) is None,
        },
{
    let e = name_stop(s, i);
    if i < e && (upper(s[i]) || s[i] == '_') {
        if e == i + 1 && s[i] == '_' {
            Some((Variable::Free, e))
        } else {
            Some((Variable::Undistinguished(text_of(s, i, e)), e))
        }
    } else {
        None
    }
}

fn number(s: &Vec<char>, i: usize) -> (r: Option<(String, usize)>)
    requires
        i <= s@.len(),
    ensures
        match r {
            Some((t, j)) => number_at(s@, i as int) == Some((t@, j as int)) && i < j <= s@.len(),
            None => number_at(s@, i as int) is None,
        },
{
    let e = digits_stop(s, i);
    if i < e {
        if e < s.len() && s[e] == '.' {
            let f = digits_stop(s, e + 1);
            if f > e + 1 {
                return Some((text_of(s, i, f), f));
            }
        }
        Some((text_of(s, i, e), e))
    } else {
        None
    }
}

fn term(s: &Vec<char>, i: usize) -> (r: Option<(Term, usize)>)
    requires
        i <= s@.len(),
    ensures
        match r {
            Some((t, j)) => term_at(s@, i as int) == Some((t@, j as int)) && i < j <= s@.len(),
            None => term_at(s@, i as int) is None,
        },
{
    match variable(s, i) {
        Some((v, j)) => {
            return Some((Term::Variable(v), spaces(s, j)));
        },
        None => {},
    }
    match number(s, i) {
        Some((t, j)) => {
            let whole = j == digits_stop(s, i);
            return Some((Term::Constant(number_of(t, whole)), spaces(s, j)));
        },
        None => {},
    }
    match symbol(s, i) {
        Some((n, j)) => Some((Term::Constant(name_of(n)), spaces(s, j))),
        None => None,
    }
}

fn digit_number(c: char) -> (d: u64)
    ensures
        d == digit_value(c),
        d <= 9,
{
    match c {
        '1' => 1,
        '2' => 2,
        '3' => 3,
        '4' => 4,
        '5' => 5,
        '6' => 6,
        '7' => 7,
        '8' => 8,
        '9' => 9,
        _ => 0,
    }
}

/// The number that digits stand for does not fall as digits follow.
pub proof fn lemma_digits_value_grows(digits: Seq<char>, n: int, m: int)
    requires
        0 <= n <= m,
    ensures
        0 <= digits_value(digits, n) <= digits_value(digits, m),
    decreases m,
{
    if n < m {
        lemma_digits_value_grows(digits, n, m - 1);
    } else if n > 0 {
        lemma_digits_value_grows(digits, n - 1, n - 1);
        lemma_digits_value_grows(digits, 0, n - 1);
    }
}

/// The constant that the number `text` stands for.
pub fn number_of(text: String, whole: bool) -> (k: Constant)
    ensures
        k@ == number_constant(text@, whole),
{
    if !whole {
        return Constant::Float(text);
    }
    let digits = text.as_str();
    let n = digits.unicode_len();
    let mut value: u64 = 0;
    let mut i: usize = 0;
    while i < n
        invariant
            i <= n,
            n == text@.len(),
            digits@ == text@,
            value == digits_value(text@, i as int),
            value <= i64::MAX,
        decreases n - i,
    {
        let d = digit_number(digits.get_char(i));
        if value > (9223372036854775807u64 - d) / 10 {
            proof {
                lemma_digits_value_grows(text@, i + 1, n as int);
            }
            return Constant::Float(text);
        }
        value = value * 10 + d;
        i = i + 1;
    }
    Constant::Integer(value as i64)
}

/// The constant that the name `name` stands for.
pub fn name_of(name: String) -> (k: Constant)
    ensures
        k@ == name_constant(name@),
{
    if name == String::from_str("true") {
        Constant::Boolean(true)
    } else if name == String::from_str("false") {
        Constant::Boolean(false)
    } else {
        Constant::Symbol(name)
    }
}

fn mark(s: &Vec<char>, i: usize, c: char) -> (r: Option<usize>)
    requires
        i <= s@.len(),
    ensures
        match r {
            Some(j) => mark_at(s@, i as int, c) == Some(j as int) && i < j <= s@.len(),
            None => mark_at(s@, i as int, c) is None,
        },
{
    let j = spaces(s, i);
    if j < s.len() && s[j] == c {
        Some(spaces(s, j + 1))
    } else {
        None
    }
}

fn term_list(s: &Vec<char>, i: usize) -> (r: Option<(Vec<Term>, usize)>)
    requires
        i <= s@.len(),
    ensures
        match r {
            Some((terms, j)) => term_list_at(s@, i as int) == Some((views(terms@), j as int)) && i
                < j <= s@.len(),
            None => term_list_at(s@, i as int) is None,
        },
{
    let a = match mark(s, i, '(') {
        Some(a) => a,
        None => {
            return None;
        },
    };
    let (first, b) = match term(s, a) {
        Some(found) => found,
        None => {
            return None;
        },
    };
    let mut terms: Vec<Term> = Vec::new();
    terms.push(first);
    assert(views(terms@) =~= seq![first@]);
    let mut c = b;
    let mut open = true;
    while open
        invariant
            b <= c <= s@.len(),
            more_terms(s@, b as int, seq![first@]) == more_terms(s@, c as int, views(terms@)),
            !open ==> more_terms(s@, c as int, views(terms@)) == (views(terms@), c as int),
        decreases s@.len() - c, open as int,
    {
        let ghost before = views(terms@);
        open = false;
        match mark(s, c, ',') {
            Some(j) => {
                match term(s, j) {
                    Some((t, k)) => {
                        if c < k {
                            terms.push(t);
                            assert(views(terms@) =~= before.push(t@));
                            c = k;
                            open = true;
                        }
                    },
                    None => {},
                }
            },
            None => {},
        }
    }
    match mark(s, c, ')') {
        Some(d) => Some((terms, d)),
        None => None,
    }
}

fn atom(s: &Vec<char>, i: usize) -> (r: Option<(Atom, usize)>)
    requires
        i <= s@.len(),
    ensures
        match r {
            Some((a, j)) => atom_at(s@, i as int) == Some((a@, j as int)) && i < j <= s@.len(),
            None => atom_at(s@, i as int) is None,
        },
{
    proof {
        reveal_strlit("Not");
    }
    let negation = word_at(s, i, "Not");
    assert("Not"@.len() == 3);
    let a = if negation {
        assert(i + 3 <= s.len());
        spaces(s, i + 3)
    } else {
        i
    };
    let (predicate, b) = match symbol(s, a) {
        Some(found) => found,
        None => {
            return None;
        },
    };
    let (terms, c) = match term_list(s, b) {
        Some(found) => found,
        None => {
            return None;
        },
    };
    Some((Atom { negation, predicate, terms }, spaces(s, c)))
}


/// The operator of a level of precedence at `i`, and the position after
/// it. From the loosest level to the tightest: `||`; `&&`; `==` and `!=`;
/// `<=`, `>=`, `<` and `>`; `+` and `-`; `*` and `/`.
pub open spec fn operator_at(s: Seq<char>, i: int, level: int) -> Option<(OperatorView, int)> {
    if level == 6 {
        if has_word(s, i, "||"@) {
            Some((OperatorView::Or, i + 2))
        } else {
            None
        }
    } else if level == 5 {
        if has_word(s, i, "&&"@) {
            Some((OperatorView::And, i + 2))
        } else {
            None
        }
    } else if level == 4 {
        if has_word(s, i, "=="@) {
            Some((OperatorView::Unifier, i + 2))
        } else if has_word(s, i, "!="@) {
            Some((OperatorView::Disunifier, i + 2))
        } else {
            None
        }
    } else if level == 3 {
        if has_word(s, i, "<="@) {
            Some((OperatorView::LessEqual, i + 2))
        } else if has_word(s, i, ">="@) {
            Some((OperatorView::GreaterEqual, i + 2))
        } else if has_word(s, i, "<"@) {
            Some((OperatorView::Less, i + 1))
        } else if has_word(s, i, ">"@) {
            Some((OperatorView::Greater, i + 1))
        } else {
            None
        }
    } else if level == 2 {
        if has_word(s, i, "+"@) {
            Some((OperatorView::Add, i + 1))
        } else if has_word(s, i, "-"@) {
            Some((OperatorView::Sub, i + 1))
        } else {
            None
        }
    } else if level == 1 {
        if has_word(s, i, "*"@) {
            Some((OperatorView::Mul, i + 1))
        } else if has_word(s, i, "/"@) {
            Some((OperatorView::Div, i + 1))
        } else {
            None
        }
    } else {
        None
    }
}

/// A leaf at `i`: a term, which may stand in round brackets.
pub open spec fn leaf_at(s: Seq<char>, i: int) -> Option<(ArithView, int)> {
    let a = skip_spaces(s, i);
    let bracket = 0 <= a < s.len() && s[a] == '(';
    let b = if bracket {
        skip_spaces(s, a + 1)
    } else {
        a
    };
    match term_at(s, b) {
        Some((t, c)) => {
            let leaf = ArithView { operator: OperatorView::Leaf(t), lhs: None, rhs: None };
            if bracket {
                let d = skip_spaces(s, c);
                if 0 <= d < s.len() && s[d] == ')' {
                    Some((leaf, d + 1))
                } else {
                    None
                }
            } else {
                Some((leaf, c))
            }
        },
        None => None,
    }
}

/// An expression of a level of precedence at `i`. At level 0 it is a
/// leaf, or `!` or `-` before an expression of level 0. At a higher level
/// it is an expression of the next lower level, and after it, where the
/// operator of the level follows, that operator and a second such
/// expression.
pub open spec fn expression_at(s: Seq<char>, i: int, level: int) -> Option<(ArithView, int)>
    decreases s.len() - i, level,
{
    if i < 0 || i > s.len() || level < 0 {
        None
    } else if level == 0 {
        let a = skip_spaces(s, i);
        if a < s.len() && (s[a] == '!' || s[a] == '-') {
            let b = skip_spaces(s, a + 1);
            if i < b <= s.len() {
                match expression_at(s, b, 0) {
                    Some((rhs, c)) => Some(
                        (
                            ArithView {
                                operator: if s[a] == '!' {
                                    OperatorView::Neg
                                } else {
                                    OperatorView::Sub
                                },
                                lhs: None,
                                rhs: Some(Box::new(rhs)),
                            },
                            c,
                        ),
                    ),
                    None => None,
                }
            } else {
                None
            }
        } else {
            leaf_at(s, a)
        }
    } else {
        let a = skip_spaces(s, i);
        if i <= a <= s.len() {
            match expression_at(s, a, level - 1) {
                Some((lhs, b)) => {
                    let c = skip_spaces(s, b);
                    match operator_at(s, c, level) {
                        Some((operator, d)) => {
                            let e = skip_spaces(s, d);
                            if i <= e <= s.len() {
                                match expression_at(s, e, level - 1) {
                                    Some((rhs, f)) => Some(
                                        (
                                            ArithView {
                                                operator,
                                                lhs: Some(Box::new(lhs)),
                                                rhs: Some(Box::new(rhs)),
                                            },
                                            f,
                                        ),
                                    ),
                                    None => None,
                                }
                            } else {
                                None
                            }
                        },
                        None => Some((lhs, c)),
                    }
                },
                None => None,
            }
        } else {
            None
        }
    }
}

/// A clause at `i`: an atom, else an arithmetic expression.
pub open spec fn clause_at(s: Seq<char>, i: int) -> Option<(ClauseView, int)> {
    match atom_at(s, i) {
        Some((a, j)) => Some((ClauseView::Atom(a), j)),
        None => match expression_at(s, i, 6) {
            Some((e, j)) => Some((ClauseView::Arithmetic(e), j)),
            None => None,
        },
    }
}

/// The clauses that follow at `i`, each after a comma, added to
/// `clauses`.
pub open spec fn more_clauses(s: Seq<char>, i: int, clauses: Seq<ClauseView>) -> (
    Seq<ClauseView>,
    int,
)
    decreases s.len() - i,
{
    match mark_at(s, i, ',') {
        Some(j) => match clause_at(s, j) {
            Some((c, k)) => if i < k <= s.len() {
                more_clauses(s, k, clauses.push(c))
            } else {
                (clauses, i)
            },
            None => (clauses, i),
        },
        None => (clauses, i),
    }
}

/// The annotation at `i`, and the position after it: `@input` for a base
/// relation, `@output` for a query, nothing for a derived rule.
pub open spec fn annotation_at(s: Seq<char>, i: int) -> (IOView, int) {
    let a = skip_spaces(s, i);
    if has_word(s, a, "@input"@) {
        (IOView::Read(None), skip_spaces(s, a + 6))
    } else if has_word(s, a, "@output"@) {
        (IOView::Write(None), skip_spaces(s, a + 7))
    } else {
        (IOView::Silent, i)
    }
}

/// A rule at `i`: its annotation, its head, after `:-` its body of one
/// clause or more, and a full stop where one follows.
pub open spec fn rule_at(s: Seq<char>, i: int) -> Option<(RuleView, int)> {
    let (io, a) = annotation_at(s, i);
    match atom_at(s, a) {
        Some((head, b)) => {
            let defined = has_word(s, b, ":-"@);
            let c = skip_spaces(s, if defined {
                b + 2
            } else {
                b
            });
            let parsed = if defined {
                match clause_at(s, c) {
                    Some((first, d)) => {
                        let (body, e) = more_clauses(s, d, seq![first]);
                        Some((body, skip_spaces(s, e)))
                    },
                    None => None,
                }
            } else {
                Some((Seq::empty(), c))
            };
            match parsed {
                Some((body, f)) => {
                    let g = if 0 <= f < s.len() && s[f] == '.' {
                        skip_spaces(s, f + 1)
                    } else {
                        f
                    };
                    Some((RuleView { io, head, body }, g))
                },
                None => None,
            }
        },
        None => None,
    }
}

/// A comment at `i`: from `%` to the end of the line, and the white
/// space after it.
pub open spec fn comment_at(s: Seq<char>, i: int) -> Option<int> {
    let a = skip_spaces(s, i);
    if 0 <= a < s.len() && s[a] == '%' {
        let e = line_end(s, a + 1);
        if e < s.len() {
            Some(skip_spaces(s, e))
        } else {
            None
        }
    } else {
        None
    }
}

/// The rules that follow at `i`, between comments, added to `rules`, and
/// the position where neither a comment nor a rule follows.
pub open spec fn items_at(s: Seq<char>, i: int, rules: Seq<RuleView>) -> (Seq<RuleView>, int)
    decreases s.len() - i,
{
    match comment_at(s, i) {
        Some(j) => if i < j <= s.len() {
            items_at(s, j, rules)
        } else {
            (rules, i)
        },
        None => match rule_at(s, i) {
            Some((r, j)) => if i < j <= s.len() {
                items_at(s, j, rules.push(r))
            } else {
                (rules, i)
            },
            None => (rules, i),
        },
    }
}

/// The program that `s` is, or the position of the first character that
/// continues neither a rule nor a comment.
pub open spec fn program_of(s: Seq<char>) -> Result<Seq<RuleView>, FailureView> {
    let (rules, end) = items_at(s, skip_spaces(s, 0), Seq::empty());
    if end == s.len() {
        Ok(rules)
    } else {
        Err(FailureView::ParseError(end))
    }
}


fn operator(s: &Vec<char>, i: usize, level: u8) -> (r: Option<(Operator, usize)>)
    requires
        i <= s@.len(),
    ensures
        match r {
            Some((o, j)) => operator_at(s@, i as int, level as int) == Some((o@, j as int)) && i
                < j <= s@.len(),
            None => operator_at(s@, i as int, level as int) is None,
        },
{
    proof {
        reveal_strlit("||");
        reveal_strlit("&&");
        reveal_strlit("==");
        reveal_strlit("!=");
        reveal_strlit("<=");
        reveal_strlit(">=");
        reveal_strlit("<");
        reveal_strlit(">");
        reveal_strlit("+");
        reveal_strlit("-");
        reveal_strlit("*");
        reveal_strlit("/");
    }
    if level == 6 {
        match word_end(s, i, "||") {
            Some(j) => Some((Operator::Or, j)),
            None => None,
        }
    } else if level == 5 {
        match word_end(s, i, "&&") {
            Some(j) => Some((Operator::And, j)),
            None => None,
        }
    } else if level == 4 {
        match word_end(s, i, "==") {
            Some(j) => Some((Operator::Unifier, j)),
            None => match word_end(s, i, "!=") {
                Some(j) => Some((Operator::Disunifier, j)),
                None => None,
            },
        }
    } else if level == 3 {
        match word_end(s, i, "<=") {
            Some(j) => Some((Operator::LessEqual, j)),
            None => match word_end(s, i, ">=") {
                Some(j) => Some((Operator::GreaterEqual, j)),
                None => match word_end(s, i, "<") {
                    Some(j) => Some((Operator::Less, j)),
                    None => match word_end(s, i, ">") {
                        Some(j) => Some((Operator::Greater, j)),
                        None => None,
                    },
                },
            },
        }
    } else if level == 2 {
        match word_end(s, i, "+") {
            Some(j) => Some((Operator::Add, j)),
            None => match word_end(s, i, "-") {
                Some(j) => Some((Operator::Sub, j)),
                None => None,
            },
        }
    } else if level == 1 {
        match word_end(s, i, "*") {
            Some(j) => Some((Operator::Mul, j)),
            None => match word_end(s, i, "/") {
                Some(j) => Some((Operator::Div, j)),
                None => None,
            },
        }
    } else {
        None
    }
}

fn leaf(s: &Vec<char>, i: usize) -> (r: Option<(Arith, usize)>)
    requires
        i <= s@.len(),
    ensures
        match r {
            Some((e, j)) => leaf_at(s@, i as int) == Some((e@, j as int)) && i < j <= s@.len(),
            None => leaf_at(s@, i as int) is None,
        },
{
    let a = spaces(s, i);
    let bracket = a < s.len() && s[a] == '(';
    let b = if bracket {
        spaces(s, a + 1)
    } else {
        a
    };
    match term(s, b) {
        Some((t, c)) => {
            let leaf = Arith { operator: Operator::Leaf(t), lhs: None, rhs: None };
            if bracket {
                let d = spaces(s, c);
                if d < s.len() && s[d] == ')' {
                    Some((leaf, d + 1))
                } else {
                    None
                }
            } else {
                Some((leaf, c))
            }
        },
        None => None,
    }
}

fn expression(s: &Vec<char>, i: usize, level: u8) -> (r: Option<(Arith, usize)>)
    requires
        i <= s@.len(),
    ensures
        match r {
            Some((e, j)) => expression_at(s@, i as int, level as int) == Some((e@, j as int)) && i
                < j <= s@.len(),
            None => expression_at(s@, i as int, level as int) is None,
        },
    decreases s@.len() - i, level,
{
    let a = spaces(s, i);
    if level == 0 {
        if a < s.len() && (s[a] == '!' || s[a] == '-') {
            let negates = s[a] == '!';
            let b = spaces(s, a + 1);
            match expression(s, b, 0) {
                Some((rhs, c)) => Some(
                    (
                        Arith {
                            operator: if negates {
                                Operator::Neg
                            } else {
                                Operator::Sub
                            },
                            lhs: None,
                            rhs: Some(Box::new(rhs)),
                        },
                        c,
                    ),
                ),
                None => None,
            }
        } else {
            proof {
                assert(skip_spaces(s@, a as int) == a) by {
                    if a < s@.len() {
                        assert(!is_space(s@[a as int])) by {
                            lemma_skip_stops(s@, i as int);
                        }
                    }
                }
            }
            leaf(s, a)
        }
    } else {
        let (lhs, b) = match expression(s, a, level - 1) {
            Some(found) => found,
            None => {
                return None;
            },
        };
        let c = spaces(s, b);
        match operator(s, c, level) {
            Some((operator, d)) => {
                let e = spaces(s, d);
                match expression(s, e, level - 1) {
                    Some((rhs, f)) => Some(
                        (Arith { operator, lhs: Some(Box::new(lhs)), rhs: Some(Box::new(rhs)) }, f),
                    ),
                    None => None,
                }
            },
            None => Some((lhs, c)),
        }
    }
}

/// Where the skipping of white space stops, there is none.
pub proof fn lemma_skip_stops(s: Seq<char>, i: int)
    requires
        0 <= i <= s.len(),
    ensures
        skip_spaces(s, i) < s.len() ==> !is_space(s[skip_spaces(s, i)]),
        skip_spaces(s, skip_spaces(s, i)) == skip_spaces(s, i),
    decreases s.len() - i,
{
    if i < s.len() && is_space(s[i]) {
        lemma_skip_stops(s, i + 1);
    }
}

fn clause(s: &Vec<char>, i: usize) -> (r: Option<(Clause, usize)>)
    requires
        i <= s@.len(),
    ensures
        match r {
            Some((c, j)) => clause_at(s@, i as int) == Some((c@, j as int)) && i < j <= s@.len(),
            None => clause_at(s@, i as int) is None,
        },
{
    match atom(s, i) {
        Some((a, j)) => {
            return Some((Clause::Atom(a), j));
        },
        None => {},
    }
    match expression(s, i, 6) {
        Some((e, j)) => Some((Clause::Arithmetic(e), j)),
        None => None,
    }
}

fn annotation(s: &Vec<char>, i: usize) -> (r: (IO, usize))
    requires
        i <= s@.len(),
    ensures
        annotation_at(s@, i as int) == (r.0@, r.1 as int),
        i <= r.1 <= s@.len(),
{
    proof {
        reveal_strlit("@input");
        reveal_strlit("@output");
    }
    let a = spaces(s, i);
    if word_at(s, a, "@input") {
        assert(a + 6 <= s.len());
        (IO::Read(None), spaces(s, a + 6))
    } else if word_at(s, a, "@output") {
        assert(a + 7 <= s.len());
        (IO::Write(None), spaces(s, a + 7))
    } else {
        (IO::Silent, i)
    }
}

fn rule(s: &Vec<char>, i: usize) -> (r: Option<(Rule, usize)>)
    requires
        i <= s@.len(),
    ensures
        match r {
            Some((found, j)) => rule_at(s@, i as int) == Some((found@, j as int)) && i < j
                <= s@.len(),
            None => rule_at(s@, i as int) is None,
        },
{
    proof {
        reveal_strlit(":-");
    }
    let (io, a) = annotation(s, i);
    let (head, b) = match atom(s, a) {
        Some(found) => found,
        None => {
            return None;
        },
    };
    let defined = word_at(s, b, ":-");
    let c = if defined {
        assert(b + 2 <= s.len());
        spaces(s, b + 2)
    } else {
        spaces(s, b)
    };
    let mut body: Vec<Clause> = Vec::new();
    let mut f = c;
    if defined {
        let (first, d) = match clause(s, c) {
            Some(found) => found,
            None => {
                return None;
            },
        };
        body.push(first);
        assert(views(body@) =~= seq![first@]);
        let mut e = d;
        let mut open = true;
        while open
            invariant
                d <= e <= s@.len(),
                more_clauses(s@, d as int, seq![first@]) == more_clauses(
                    s@,
                    e as int,
                    views(body@),
                ),
                !open ==> more_clauses(s@, e as int, views(body@)) == (views(body@), e as int),
            decreases s@.len() - e, open as int,
        {
            let ghost before = views(body@);
            open = false;
            match mark(s, e, ',') {
                Some(j) => {
                    match clause(s, j) {
                        Some((next, k)) => {
                            if e < k {
                                body.push(next);
                                assert(views(body@) =~= before.push(next@));
                                e = k;
                                open = true;
                            }
                        },
                        None => {},
                    }
                },
                None => {},
            }
        }
        f = spaces(s, e);
    } else {
        assert(views(body@) =~= Seq::<ClauseView>::empty());
    }
    let g = if f < s.len() && s[f] == '.' {
        spaces(s, f + 1)
    } else {
        f
    };
    Some((Rule { io, head, body }, g))
}

fn comment(s: &Vec<char>, i: usize) -> (r: Option<usize>)
    requires
        i <= s@.len(),
    ensures
        match r {
            Some(j) => comment_at(s@, i as int) == Some(j as int) && i < j <= s@.len(),
            None => comment_at(s@, i as int) is None,
        },
{
    let a = spaces(s, i);
    if a < s.len() && s[a] == '%' {
        let e = line_stop(s, a + 1);
        if e < s.len() {
            Some(spaces(s, e))
        } else {
            None
        }
    } else {
        None
    }
}

/// The characters of a text.
pub fn characters(input: &str) -> (s: Vec<char>)
    ensures
        s@ == input@,
{
    let n = input.unicode_len();
    let mut s: Vec<char> = Vec::new();
    let mut i: usize = 0;
    while i < n
        invariant
            n == input@.len(),
            i <= n,
            s@ == input@.take(i as int),
        decreases n - i,
    {
        s.push(input.get_char(i));
        assert(s@ =~= input@.take(i + 1));
        i = i + 1;
    }
    assert(input@.take(n as int) =~= input@);
    s
}

/// The result of parsing as mathematical values.
pub open spec fn parsed_view(r: Result<Program, Failure>) -> Result<Seq<RuleView>, FailureView> {
    match r {
        Ok(program) => Ok(views(program@)),
        Err(e) => Err(e@),
    }
}

/// Parses a program. The whole text must be rules and comments; else the
/// failure holds the position of the first character that belongs to
/// neither.
pub fn parse_program(input: &str) -> (r: Result<Program, Failure>)
    ensures
        parsed_view(r) == program_of(input@),
{
    let s = characters(input);
    let start = spaces(&s, 0);
    let mut rules: Vec<Rule> = Vec::new();
    let mut i = start;
    let mut open = true;
    assert(views(rules@) =~= Seq::<RuleView>::empty());
    while open
        invariant
            start <= i <= s@.len(),
            items_at(s@, start as int, Seq::empty()) == items_at(s@, i as int, views(rules@)),
            !open ==> items_at(s@, i as int, views(rules@)) == (views(rules@), i as int),
        decreases s@.len() - i, open as int,
    {
        let ghost before = views(rules@);
        open = false;
        match comment(&s, i) {
            Some(j) => {
                i = j;
                open = true;
            },
            None => {
                match rule(&s, i) {
                    Some((next, j)) => {
                        rules.push(next);
                        assert(views(rules@) =~= before.push(next@));
                        i = j;
                        open = true;
                    },
                    None => {},
                }
            },
        }
    }
    if i == s.len() {
        Ok(rules)
    } else {
        Err(Failure::ParseError(i))
    }
}

} // verus!
