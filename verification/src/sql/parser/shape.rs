//! What holds of every text: the case of words and the white space between
//! tokens do not matter, and a statement ends with its one semicolon.
use vstd::prelude::*;

use crate::sql::parser::ast::{ColumnView, ExpressionView};
use crate::sql::parser::grammar::{
    at, column, column_list, column_options, columns, datatype, expect, expression, expressions,
    ident, names, next, parse, peek, statement, tuples,
};
use crate::sql::parser::lexer::{
    is_space, lemma_run_len, lemma_run_len_is, lemma_scan_bounds, lex, lower, number_len,
    run_len, scan, scan_token, to_lower, to_upper, upper, word_token, Class, Keyword, Scan,
    TokenStreamView, TokenView,
};

verus! {

// ------------------------------------------------------------------
// Case
// ------------------------------------------------------------------
/// Characters that are the same in upper case are the same in lower case.
pub proof fn lemma_same_letter(x: char, y: char)
    requires
        to_upper(x) == to_upper(y),
    ensures
        to_lower(x) == to_lower(y),
{
}

/// Words that differ only in the case of their letters are the same token:
/// the same keyword, or the same name.
pub proof fn case_does_not_matter(a: Seq<char>, b: Seq<char>)
    requires
        upper(a) == upper(b),
    ensures
        word_token(a) == word_token(b),
{
    assert(a.len() == upper(a).len());
    assert(b.len() == upper(b).len());
    assert forall|i: int| 0 <= i < a.len() implies to_lower(a[i]) == to_lower(b[i]) by {
        assert(upper(a)[i] == to_upper(a[i]));
        assert(upper(b)[i] == to_upper(b[i]));
        lemma_same_letter(a[i], b[i]);
    }
    assert(lower(a) =~= lower(b));
}

/// Whether two texts differ only in the case of their letters.
pub open spec fn same_but_case(a: Seq<char>, b: Seq<char>) -> bool {
    &&& a.len() == b.len()
    &&& forall|i: int| 0 <= i < a.len() ==> to_upper(#[trigger] a[i]) == to_upper(b[i])
}

/// Whether a text holds no quote, and therefore no string literal.
pub open spec fn unquoted(a: Seq<char>) -> bool {
    forall|i: int| 0 <= i < a.len() ==> #[trigger] a[i] != '\''
}

/// Characters that are the same in upper case belong to the same classes,
/// and are the same character unless they are letters.
pub proof fn lemma_same_class(x: char, y: char, class: Class)
    requires
        to_upper(x) == to_upper(y),
    ensures
        crate::sql::parser::lexer::is_letter(x) == crate::sql::parser::lexer::is_letter(y),
        !crate::sql::parser::lexer::is_letter(x) ==> x == y,
        class.holds(x) == class.holds(y),
{
}

/// Runs are as long in texts that differ only in the case of their letters.
pub proof fn lemma_run_len_case(a: Seq<char>, b: Seq<char>, class: Class)
    requires
        same_but_case(a, b),
    ensures
        run_len(a, class) == run_len(b, class),
    decreases a.len(),
{
    if a.len() > 0 {
        lemma_same_class(a[0], b[0], class);
        assert(same_but_case(a.drop_first(), b.drop_first())) by {
            assert forall|i: int| 0 <= i < a.drop_first().len() implies to_upper(
                #[trigger] a.drop_first()[i],
            ) == to_upper(b.drop_first()[i]) by {
                assert(a.drop_first()[i] == a[i + 1]);
                assert(to_upper(a[i + 1]) == to_upper(b[i + 1]));
            }
        }
        lemma_run_len_case(a.drop_first(), b.drop_first(), class);
    }
}

/// What is cut out of two texts that differ only in the case of their
/// letters differs only in the case of its letters.
pub proof fn lemma_same_but_case_within(a: Seq<char>, b: Seq<char>, from: int, to: int)
    requires
        same_but_case(a, b),
        0 <= from <= to <= a.len(),
    ensures
        same_but_case(a.subrange(from, to), b.subrange(from, to)),
{
    assert forall|i: int| 0 <= i < to - from implies to_upper(
        #[trigger] a.subrange(from, to)[i],
    ) == to_upper(b.subrange(from, to)[i]) by {
        assert(to_upper(a[from + i]) == to_upper(b[from + i]));
    }
}

/// The first token of a text that does not begin with a quote is the first
/// token of every text that differs from it only in the case of letters.
pub proof fn lemma_first_token_case(u: Seq<char>, v: Seq<char>)
    requires
        same_but_case(u, v),
        u.len() > 0,
        u[0] != '\'',
    ensures
        scan_token(v) == scan_token(u),
{
    assert(to_upper(u[0]) == to_upper(v[0]));
    lemma_same_class(u[0], v[0], Class::Digit);
    if crate::sql::parser::lexer::is_digit(u[0]) {
        let whole = run_len(u, Class::Digit);
        lemma_run_len_case(u, v, Class::Digit);
        lemma_run_len(u, Class::Digit);
        if whole < u.len() {
            lemma_same_class(u[whole as int], v[whole as int], Class::Digit);
            lemma_same_but_case_within(u, v, whole as int + 1, u.len() as int);
            assert(u.skip(whole as int + 1) == u.subrange(whole as int + 1, u.len() as int));
            assert(v.skip(whole as int + 1) == v.subrange(whole as int + 1, u.len() as int));
            lemma_run_len_case(u.skip(whole as int + 1), v.skip(whole as int + 1), Class::Digit);
            lemma_run_len(u.skip(whole as int + 1), Class::Digit);
        }
        let n = number_len(u);
        assert(number_len(v) == n);
        // digits and the point are the same characters in both texts
        assert(u.take(n as int) =~= v.take(n as int)) by {
            assert forall|i: int| 0 <= i < n implies u[i] == v[i] by {
                assert(to_upper(u[i]) == to_upper(v[i]));
                lemma_same_class(u[i], v[i], Class::Digit);
                if i < whole {
                } else if i > whole {
                    assert(u.skip(whole as int + 1)[i - whole - 1] == u[i]);
                }
            }
        }
    } else if crate::sql::parser::lexer::is_letter(u[0]) {
        lemma_same_but_case_within(u, v, 1, u.len() as int);
        assert(u.skip(1) == u.subrange(1, u.len() as int));
        assert(v.skip(1) == v.subrange(1, u.len() as int));
        lemma_run_len_case(u.skip(1), v.skip(1), Class::Word);
        lemma_run_len(u.skip(1), Class::Word);
        let n = 1 + run_len(u.skip(1), Class::Word);
        lemma_same_but_case_within(u, v, 0, n as int);
        assert(upper(u.take(n as int)) =~= upper(v.take(n as int))) by {
            assert forall|i: int| 0 <= i < n implies to_upper(u.take(n as int)[i]) == to_upper(
                v.take(n as int)[i],
            ) by {
                assert(to_upper(u[i]) == to_upper(v[i]));
            }
        }
        case_does_not_matter(u.take(n as int), v.take(n as int));
    }
}

/// Whether two texts are the same but for the case of letters outside
/// their string literals; `inside` says whether the texts begin within a
/// string literal.
pub open spec fn same_outside_strings(a: Seq<char>, b: Seq<char>, inside: bool) -> bool
    decreases a.len(),
{
    &&& a.len() == b.len()
    &&& a.len() > 0 ==> {
        &&& if inside {
            a[0] == b[0]
        } else {
            to_upper(a[0]) == to_upper(b[0])
        }
        &&& same_outside_strings(a.drop_first(), b.drop_first(), inside != (a[0] == '\''))
    }
}

/// Texts that are the same but for the case of letters outside their string
/// literals differ only in the case of letters.
pub proof fn lemma_outside_is_case(a: Seq<char>, b: Seq<char>, inside: bool)
    requires
        same_outside_strings(a, b, inside),
    ensures
        same_but_case(a, b),
    decreases a.len(),
{
    if a.len() > 0 {
        lemma_outside_is_case(a.drop_first(), b.drop_first(), inside != (a[0] == '\''));
        assert forall|i: int| 0 <= i < a.len() implies to_upper(#[trigger] a[i]) == to_upper(
            b[i],
        ) by {
            if i > 0 {
                assert(a.drop_first()[i - 1] == a[i]);
                assert(to_upper(a.drop_first()[i - 1]) == to_upper(b.drop_first()[i - 1]));
            }
        }
    }
}

/// Texts without a quote that differ only in the case of letters are the
/// same but for the case of letters outside their string literals.
pub proof fn lemma_case_is_outside(a: Seq<char>, b: Seq<char>)
    requires
        same_but_case(a, b),
        unquoted(a),
    ensures
        same_outside_strings(a, b, false),
    decreases a.len(),
{
    if a.len() > 0 {
        lemma_same_but_case_within(a, b, 1, a.len() as int);
        assert(a.drop_first() == a.subrange(1, a.len() as int));
        assert(b.drop_first() == b.subrange(1, a.len() as int));
        assert(unquoted(a.drop_first())) by {
            assert forall|i: int| 0 <= i < a.drop_first().len() implies #[trigger] a.drop_first()[i]
                != '\'' by {
                assert(a.drop_first()[i] == a[i + 1]);
            }
        }
        lemma_case_is_outside(a.drop_first(), b.drop_first());
        assert(to_upper(a[0]) == to_upper(b[0]));
    }
}

/// Behind characters that are no quotes, texts are the same but for the
/// case of letters outside their string literals as they were before them;
/// and these characters agree: exactly within a string literal, and but for
/// their case outside.
pub proof fn lemma_outside_skip(a: Seq<char>, b: Seq<char>, inside: bool, n: nat)
    requires
        same_outside_strings(a, b, inside),
        n <= a.len(),
        forall|i: int| 0 <= i < n ==> #[trigger] a[i] != '\'',
    ensures
        same_outside_strings(a.skip(n as int), b.skip(n as int), inside),
        inside ==> forall|i: int| 0 <= i < n ==> #[trigger] a[i] == b[i],
    decreases n,
{
    if n == 0 {
        assert(a.skip(0) =~= a);
        assert(b.skip(0) =~= b);
    } else {
        assert(a[0] != '\'');
        let ar = a.drop_first();
        let br = b.drop_first();
        assert forall|i: int| 0 <= i < n - 1 implies #[trigger] ar[i] != '\'' by {
            assert(ar[i] == a[i + 1]);
        }
        lemma_outside_skip(ar, br, inside, (n - 1) as nat);
        assert(a.skip(n as int) =~= ar.skip(n - 1));
        assert(b.skip(n as int) =~= br.skip(n - 1));
        if inside {
            assert forall|i: int| 0 <= i < n implies #[trigger] a[i] == b[i] by {
                if i > 0 {
                    assert(ar[i - 1] == a[i]);
                    assert(br[i - 1] == b[i]);
                }
            }
        }
    }
}

/// Texts that are the same but for the case of letters outside their
/// string literals have the same tokens: the case of a keyword does not
/// matter, nor that of a name, whatever string literals the texts hold.
pub proof fn case_outside_strings_does_not_matter(a: Seq<char>, b: Seq<char>)
    requires
        same_outside_strings(a, b, false),
    ensures
        lex(a) == lex(b),
    decreases a.len(),
{
    let j = run_len(a, Class::Space);
    lemma_outside_is_case(a, b, false);
    lemma_run_len_case(a, b, Class::Space);
    lemma_run_len(a, Class::Space);
    lemma_scan_bounds(a);
    lemma_scan_bounds(b);
    if j < a.len() {
        let u = a.skip(j as int);
        let v = b.skip(j as int);
        assert forall|i: int| 0 <= i < j implies #[trigger] a[i] != '\'' by {
            assert(Class::Space.holds(a[i]));
        }
        lemma_outside_skip(a, b, false, j);
        lemma_outside_is_case(u, v, false);
        if u[0] == '\'' {
            // a string literal: its characters are the same in both texts
            lemma_same_class(u[0], v[0], Class::Digit);
            let ur = u.skip(1);
            let vr = v.skip(1);
            assert(ur == u.drop_first());
            assert(vr == v.drop_first());
            assert(same_outside_strings(ur, vr, true));
            let q = run_len(ur, Class::Unquoted);
            lemma_run_len(ur, Class::Unquoted);
            assert forall|i: int| 0 <= i < q implies #[trigger] ur[i] != '\'' by {
                assert(Class::Unquoted.holds(ur[i]));
            }
            lemma_outside_skip(ur, vr, true, q);
            assert forall|i: int| 0 <= i < q implies Class::Unquoted.holds(#[trigger] vr[i]) by {
                assert(ur[i] == vr[i]);
                assert(Class::Unquoted.holds(ur[i]));
            }
            if q < ur.len() {
                assert(ur.skip(q as int)[0] == ur[q as int]);
                assert(vr.skip(q as int)[0] == vr[q as int]);
                assert(ur[q as int] == vr[q as int]);
            }
            lemma_run_len_is(vr, Class::Unquoted, q);
            if 1 + q < u.len() {
                assert(u.subrange(1, 1 + q as int) =~= v.subrange(1, 1 + q as int)) by {
                    assert forall|i: int| 0 <= i < q implies #[trigger] u[i + 1] == v[i + 1] by {
                        assert(ur[i] == u[i + 1]);
                        assert(vr[i] == v[i + 1]);
                    }
                }
                assert(scan_token(v) == scan_token(u));
                let n = j + q + 2;
                assert(scan(a) == Scan::Token(TokenView::String(u.subrange(1, 1 + q as int)), n));
                assert(scan(b) == scan(a));
                assert(ur[q as int] == '\'');
                assert(a.skip(n as int) =~= ur.skip(q as int).drop_first());
                assert(b.skip(n as int) =~= vr.skip(q as int).drop_first());
                case_outside_strings_does_not_matter(a.skip(n as int), b.skip(n as int));
            } else {
                assert(scan_token(v) == scan_token(u));
                assert(scan(b) == scan(a));
            }
        } else {
            lemma_first_token_case(u, v);
            assert(scan(b) == scan(a));
            match scan(a) {
                Scan::Token(t, n) => {
                    let m = (n - j) as nat;
                    lemma_token_bounds(u);
                    lemma_token_unquoted(u);
                    lemma_outside_skip(u, v, false, m);
                    assert(a.skip(n as int) =~= u.skip(m as int));
                    assert(b.skip(n as int) =~= v.skip(m as int));
                    case_outside_strings_does_not_matter(a.skip(n as int), b.skip(n as int));
                },
                _ => {},
            }
        }
    }
}

/// A token that does not begin with a quote holds no quote.
pub proof fn lemma_token_unquoted(u: Seq<char>)
    requires
        u.len() > 0,
        u[0] != '\'',
        scan_token(u) is Token,
    ensures
        forall|i: int| 0 <= i < scan_token(u)->Token_1 ==> #[trigger] u[i] != '\'',
{
    let m = scan_token(u)->Token_1;
    if crate::sql::parser::lexer::is_digit(u[0]) {
        let whole = run_len(u, Class::Digit);
        lemma_run_len(u, Class::Digit);
        if whole < u.len() && u[whole as int] == '.' {
            let r = u.skip(whole as int + 1);
            lemma_run_len(r, Class::Digit);
            assert forall|i: int| 0 <= i < m implies #[trigger] u[i] != '\'' by {
                if i < whole {
                    assert(Class::Digit.holds(u[i]));
                } else if i > whole {
                    assert(r[i - whole - 1] == u[i]);
                    assert(Class::Digit.holds(r[i - whole - 1]));
                }
            }
        } else {
            assert forall|i: int| 0 <= i < m implies #[trigger] u[i] != '\'' by {
                assert(Class::Digit.holds(u[i]));
            }
        }
    } else if crate::sql::parser::lexer::is_letter(u[0]) {
        let r = u.skip(1);
        lemma_run_len(r, Class::Word);
        assert forall|i: int| 0 <= i < m implies #[trigger] u[i] != '\'' by {
            if i > 0 {
                assert(r[i - 1] == u[i]);
                assert(Class::Word.holds(r[i - 1]));
            }
        }
    }
}

/// Texts without string literals that differ only in the case of their
/// letters have the same tokens: the case of a keyword does not matter, nor
/// that of a name.
pub proof fn case_of_letters_does_not_matter(a: Seq<char>, b: Seq<char>)
    requires
        same_but_case(a, b),
        unquoted(a),
    ensures
        lex(a) == lex(b),
{
    lemma_case_is_outside(a, b);
    case_outside_strings_does_not_matter(a, b);
}

// ------------------------------------------------------------------
// White space
// ------------------------------------------------------------------
/// Whether a text is white space only.
pub open spec fn all_space(w: Seq<char>) -> bool {
    forall|i: int| 0 <= i < w.len() ==> is_space(#[trigger] w[i])
}

/// A run is as long in a text that begins with the same characters and goes
/// on, if it goes on, with a character outside the class.
pub proof fn lemma_run_len_same(s: Seq<char>, other: Seq<char>, class: Class)
    requires
        run_len(s, class) <= other.len(),
        other.take(run_len(s, class) as int) == s.take(run_len(s, class) as int),
        other.len() > run_len(s, class) ==> !class.holds(other[run_len(s, class) as int]),
    ensures
        run_len(other, class) == run_len(s, class),
{
    let k = run_len(s, class);
    lemma_run_len(s, class);
    assert forall|i: int| 0 <= i < k implies class.holds(#[trigger] other[i]) by {
        assert(other[i] == other.take(k as int)[i]);
        assert(s[i] == s.take(k as int)[i]);
    }
    lemma_run_len_is(other, class, k);
}

/// White space before a text changes nothing in its tokens.
pub proof fn leading_space_does_not_matter(w: Seq<char>, s: Seq<char>)
    requires
        all_space(w),
    ensures
        lex(w + s) == lex(s),
{
    let t = w + s;
    let j = run_len(s, Class::Space);
    lemma_run_len(s, Class::Space);
    assert forall|i: int| 0 <= i < w.len() + j implies Class::Space.holds(#[trigger] t[i]) by {
        if i >= w.len() {
            assert(t[i] == s[i - w.len()]);
        }
    }
    if j < s.len() {
        assert(t[w.len() + j as int] == s[j as int]);
    }
    lemma_run_len_is(t, Class::Space, w.len() + j);
    assert(t.skip((w.len() + j) as int) =~= s.skip(j as int));
    lemma_scan_bounds(s);
    lemma_scan_bounds(t);
    match scan(s) {
        Scan::Token(tok, n) => {
            assert(scan(t) == Scan::Token(tok, w.len() + n));
            assert(t.skip((w.len() + n) as int) =~= s.skip(n as int));
        },
        _ => {},
    }
}

/// The first token of a text is the first token of every text that begins
/// with the same characters up to the end of that token and goes on, if it
/// goes on, with white space or as the text does.
pub proof fn lemma_scan_local(s: Seq<char>, other: Seq<char>)
    requires
        scan(s) is Token,
        other.len() >= scan(s)->Token_1,
        other.take(scan(s)->Token_1 as int) == s.take(scan(s)->Token_1 as int),
        other.len() > scan(s)->Token_1 ==> is_space(other[scan(s)->Token_1 as int]) || (s.len()
            > scan(s)->Token_1 && other[scan(s)->Token_1 as int] == s[scan(s)->Token_1 as int]),
    ensures
        scan(other) == scan(s),
{
    let n = scan(s)->Token_1;
    let j = run_len(s, Class::Space);
    lemma_run_len(s, Class::Space);
    lemma_scan_bounds(s);
    let u = s.skip(j as int);
    let m = (n - j) as nat;
    assert(scan_token(u) is Token && scan_token(u)->Token_1 == m);
    lemma_token_bounds(u);
    assert(m >= 1 && m <= u.len());
    assert forall|i: int| 0 <= i < n implies other[i] == s[i] by {
        assert(other[i] == other.take(n as int)[i]);
        assert(s[i] == s.take(n as int)[i]);
    }
    // the white space before the token is the same
    assert(other.take(j as int) =~= s.take(j as int));
    lemma_run_len_same(s, other, Class::Space);
    let v = other.skip(j as int);
    assert forall|i: int| 0 <= i < m implies v[i] == u[i] by {
        assert(v[i] == other[j + i]);
    }
    assert(v.len() >= m);
    assert(v.len() > m ==> is_space(v[m as int]) || (u.len() > m && v[m as int] == u[m as int]));
    lemma_token_local(u, v);
}

/// A token takes at least one character, and none beyond the text.
pub proof fn lemma_token_bounds(u: Seq<char>)
    requires
        u.len() > 0,
        scan_token(u) is Token,
    ensures
        1 <= scan_token(u)->Token_1 <= u.len(),
{
    lemma_run_len(u.skip(1), Class::Unquoted);
    lemma_run_len(u.skip(1), Class::Word);
    lemma_run_len(u, Class::Digit);
    let whole = run_len(u, Class::Digit);
    if whole < u.len() {
        lemma_run_len(u.skip(whole as int + 1), Class::Digit);
    }
}

/// `lemma_scan_local`, for a text that begins with the token.
pub proof fn lemma_token_local(u: Seq<char>, v: Seq<char>)
    requires
        u.len() > 0,
        scan_token(u) is Token,
        v.len() >= scan_token(u)->Token_1,
        forall|i: int| 0 <= i < scan_token(u)->Token_1 ==> v[i] == u[i],
        v.len() > scan_token(u)->Token_1 ==> is_space(v[scan_token(u)->Token_1 as int]) || (
        u.len() > scan_token(u)->Token_1 && v[scan_token(u)->Token_1 as int]
            == u[scan_token(u)->Token_1 as int]),
    ensures
        scan_token(v) == scan_token(u),
{
    let m = scan_token(u)->Token_1;
    lemma_token_bounds(u);
    let c = u[0];
    assert(v[0] == c);
    if c == '\'' {
        let q = run_len(u.skip(1), Class::Unquoted);
        lemma_run_len(u.skip(1), Class::Unquoted);
        assert(m == q + 2);
        let a = u.skip(1);
        let b = v.skip(1);
        assert(b.take(q as int) =~= a.take(q as int)) by {
            assert forall|i: int| 0 <= i < q implies b[i] == a[i] by {
                assert(b[i] == v[i + 1]);
                assert(a[i] == u[i + 1]);
            }
        }
        assert(b[q as int] == a[q as int]) by {
            assert(b[q as int] == v[q as int + 1]);
            assert(a[q as int] == u[q as int + 1]);
        }
        lemma_run_len_same(a, b, Class::Unquoted);
        assert(v.subrange(1, 1 + q as int) =~= u.subrange(1, 1 + q as int));
    } else if crate::sql::parser::lexer::is_digit(c) {
        let whole = run_len(u, Class::Digit);
        lemma_run_len(u, Class::Digit);
        assert(v.take(whole as int) =~= u.take(whole as int));
        if whole < u.len() && u[whole as int] == '.' {
            let a = u.skip(whole as int + 1);
            let b = v.skip(whole as int + 1);
            let frac = run_len(a, Class::Digit);
            lemma_run_len(a, Class::Digit);
            assert(m == whole + 1 + frac);
            assert(v[whole as int] == '.');
            lemma_run_len_same(u, v, Class::Digit);
            assert(b.take(frac as int) =~= a.take(frac as int)) by {
                assert forall|i: int| 0 <= i < frac implies b[i] == a[i] by {
                    assert(b[i] == v[whole + 1 + i]);
                    assert(a[i] == u[whole + 1 + i]);
                }
            }
            if b.len() > frac {
                assert(b[frac as int] == v[m as int]);
                if !is_space(v[m as int]) {
                    assert(a[frac as int] == u[m as int]);
                }
            }
            lemma_run_len_same(a, b, Class::Digit);
            assert(number_len(v) == m);
        } else {
            assert(m == whole);
            lemma_run_len_same(u, v, Class::Digit);
            assert(number_len(v) == m);
        }
        assert(v.take(m as int) =~= u.take(m as int));
    } else if crate::sql::parser::lexer::is_letter(c) {
        let a = u.skip(1);
        let b = v.skip(1);
        let e = run_len(a, Class::Word);
        lemma_run_len(a, Class::Word);
        assert(m == 1 + e);
        assert(b.take(e as int) =~= a.take(e as int)) by {
            assert forall|i: int| 0 <= i < e implies b[i] == a[i] by {
                assert(b[i] == v[i + 1]);
                assert(a[i] == u[i + 1]);
            }
        }
        if b.len() > e {
            assert(b[e as int] == v[m as int]);
            if !is_space(v[m as int]) {
                assert(a[e as int] == u[m as int]);
            }
        }
        lemma_run_len_same(a, b, Class::Word);
        assert(v.take(m as int) =~= u.take(m as int));
    }
}

/// Whether the position `p` of a text lies between two of its tokens, or
/// before the first, or behind the last: in white space, or where one token
/// ends and the next begins.
pub open spec fn between_tokens(s: Seq<char>, p: int) -> bool
    decreases s.len(),
{
    ||| 0 <= p <= run_len(s, Class::Space)
    ||| match scan(s) {
        Scan::Token(_, n) => 0 < n <= p && p <= s.len() && between_tokens(
            s.skip(n as int),
            p - n,
        ),
        _ => false,
    }
}

/// White space between tokens changes nothing in the tokens of a text.
pub proof fn space_between_tokens_does_not_matter(s: Seq<char>, p: int, w: Seq<char>)
    requires
        between_tokens(s, p),
        all_space(w),
    ensures
        lex(s.take(p) + w + s.skip(p)) == lex(s),
    decreases s.len(),
{
    let other = s.take(p) + w + s.skip(p);
    let j = run_len(s, Class::Space);
    lemma_run_len(s, Class::Space);
    if 0 <= p <= j {
        // in the white space before the first token
        let rest = s.skip(j as int);
        let front = s.take(p) + w + s.subrange(p, j as int);
        assert(other =~= front + rest);
        assert(s =~= s.take(j as int) + rest);
        assert(all_space(front));
        assert(all_space(s.take(j as int)));
        leading_space_does_not_matter(front, rest);
        leading_space_does_not_matter(s.take(j as int), rest);
    } else {
        let n = scan(s)->Token_1;
        lemma_scan_bounds(s);
        assert(other.take(n as int) =~= s.take(n as int));
        if other.len() > n {
            if p == n {
                if w.len() > 0 {
                    assert(other[n as int] == w[0]);
                } else {
                    assert(other =~= s);
                }
            } else {
                assert(other[n as int] == s[n as int]);
            }
        }
        lemma_scan_local(s, other);
        let tail = s.skip(n as int);
        assert(other.skip(n as int) =~= tail.take(p - n) + w + tail.skip(p - n));
        space_between_tokens_does_not_matter(tail, p - n, w);
    }
}

/// The text with white space put in at one place after the other: each
/// place is a position in the text as it stands by then, with the white
/// space that is put in there.
pub open spec fn spaced(s: Seq<char>, places: Seq<(int, Seq<char>)>) -> Seq<char>
    decreases places.len(),
{
    if places.len() == 0 {
        s
    } else {
        let t = spaced(s, places.drop_last());
        t.take(places.last().0) + places.last().1 + t.skip(places.last().0)
    }
}

/// Whether each of the places lies between tokens of the text as it stands
/// by then, and what is put in is white space.
pub open spec fn between_all(s: Seq<char>, places: Seq<(int, Seq<char>)>) -> bool
    decreases places.len(),
{
    places.len() > 0 ==> {
        &&& between_all(s, places.drop_last())
        &&& between_tokens(spaced(s, places.drop_last()), places.last().0)
        &&& all_space(places.last().1)
    }
}

/// White space between tokens, in whatever amount and at however many
/// places, changes nothing in the tokens of a text.
pub proof fn any_space_between_tokens_does_not_matter(s: Seq<char>, places: Seq<(int, Seq<char>)>)
    requires
        between_all(s, places),
    ensures
        lex(spaced(s, places)) == lex(s),
    decreases places.len(),
{
    if places.len() > 0 {
        any_space_between_tokens_does_not_matter(s, places.drop_last());
        space_between_tokens_does_not_matter(
            spaced(s, places.drop_last()),
            places.last().0,
            places.last().1,
        );
    }
}

/// Two texts that come from one text by white space between its tokens, in
/// whatever amount, and by another case of letters outside its string
/// literals, are the same statement, or fail alike.
pub proof fn texts_alike_parse_alike(
    s: Seq<char>,
    here: Seq<(int, Seq<char>)>,
    there: Seq<(int, Seq<char>)>,
    other: Seq<char>,
)
    requires
        between_all(s, here),
        between_all(s, there),
        same_outside_strings(spaced(s, there), other, false),
    ensures
        parse(lex(spaced(s, here))) == parse(lex(other)),
{
    any_space_between_tokens_does_not_matter(s, here);
    any_space_between_tokens_does_not_matter(s, there);
    case_outside_strings_does_not_matter(spaced(s, there), other);
}

/// Texts that differ only in white space between their tokens are the same
/// statement, or fail alike.
pub proof fn spaced_texts_parse_alike(s: Seq<char>, p: int, w: Seq<char>)
    requires
        between_tokens(s, p),
        all_space(w),
    ensures
        parse(lex(s.take(p) + w + s.skip(p))) == parse(lex(s)),
{
    space_between_tokens_does_not_matter(s, p, w);
}

/// Texts that differ only in the case of letters outside their string
/// literals are the same statement, or fail alike.
pub proof fn cased_texts_parse_alike(a: Seq<char>, b: Seq<char>)
    requires
        same_outside_strings(a, b, false),
    ensures
        parse(lex(a)) == parse(lex(b)),
{
    case_outside_strings_does_not_matter(a, b);
}

// ------------------------------------------------------------------
// The semicolon
// ------------------------------------------------------------------
/// Whether no semicolon stands from `p` up to `n`.
pub open spec fn clear(ts: TokenStreamView, p: nat, n: nat) -> bool {
    forall|i: int| p <= i < n && i < ts.tokens.len() ==> ts.tokens[i] != TokenView::Semicolon
}

/// The options of a column hold no semicolon.
proof fn lemma_clear_column_options(ts: TokenStreamView, p: nat, c: ColumnView)
    requires
        p <= ts.tokens.len(),
    ensures
        column_options(ts, p, c) matches Ok((_, n)) ==> p <= n <= ts.tokens.len() && clear(
            ts,
            p,
            n,
        ),
    decreases ts.tokens.len() - p,
{
    if p < ts.tokens.len() {
        match ts.tokens[p as int] {
            TokenView::Keyword(Keyword::Null) => {
                lemma_clear_column_options(ts, p + 1, ColumnView { nullable: Some(true), ..c });
            },
            TokenView::Keyword(Keyword::Not) => {
                if let Ok((_, n)) = expect(ts, p + 1, TokenView::Keyword(Keyword::Null)) {
                    lemma_clear_column_options(ts, n, ColumnView { nullable: Some(false), ..c });
                }
            },
            TokenView::Keyword(Keyword::Default) => {
                if let Ok((x, n)) = expression(ts, p + 1) {
                    lemma_clear_column_options(ts, n, ColumnView { default: Some(x), ..c });
                }
            },
            _ => {},
        }
    }
}

/// A column declaration holds no semicolon.
proof fn lemma_clear_column(ts: TokenStreamView, p: nat)
    ensures
        column(ts, p) matches Ok((_, n)) ==> p < n <= ts.tokens.len() && clear(ts, p, n),
{
    if let Ok((name, n)) = ident(ts, p) {
        if let Ok((t, m)) = next(ts, n) {
            if let Some(d) = datatype(t) {
                lemma_clear_column_options(
                    ts,
                    m,
                    ColumnView { name, datatype: d, nullable: None, default: None },
                );
            }
        }
    }
}

/// Column declarations hold no semicolon.
proof fn lemma_clear_columns(ts: TokenStreamView, p: nat, done: Seq<ColumnView>)
    ensures
        columns(ts, p, done) matches Ok((_, n)) ==> p < n <= ts.tokens.len() && clear(ts, p, n),
    decreases ts.tokens.len() - p,
{
    lemma_clear_column(ts, p);
    if let Ok((c, n)) = column(ts, p) {
        if at(ts, n, TokenView::Comma) {
            lemma_clear_columns(ts, n + 1, done.push(c));
        }
    }
}

/// A column list holds no semicolon.
proof fn lemma_clear_names(ts: TokenStreamView, p: nat, done: Seq<Seq<char>>)
    ensures
        names(ts, p, done) matches Ok((_, n)) ==> p < n <= ts.tokens.len() && clear(ts, p, n),
    decreases ts.tokens.len() - p,
{
    if let Ok((name, n)) = ident(ts, p) {
        if let Ok((TokenView::Comma, m)) = next(ts, n) {
            lemma_clear_names(ts, m, done.push(name));
        }
    }
}

/// A value tuple holds no semicolon.
proof fn lemma_clear_expressions(ts: TokenStreamView, p: nat, done: Seq<ExpressionView>)
    ensures
        expressions(ts, p, done) matches Ok((_, n)) ==> p < n <= ts.tokens.len() && clear(
            ts,
            p,
            n,
        ),
    decreases ts.tokens.len() - p,
{
    if let Ok((x, n)) = expression(ts, p) {
        if let Ok((TokenView::Comma, m)) = next(ts, n) {
            lemma_clear_expressions(ts, m, done.push(x));
        }
    }
}

/// Value tuples hold no semicolon.
proof fn lemma_clear_tuples(ts: TokenStreamView, p: nat, done: Seq<Seq<ExpressionView>>)
    ensures
        tuples(ts, p, done) matches Ok((_, n)) ==> p < n <= ts.tokens.len() && clear(ts, p, n),
    decreases ts.tokens.len() - p,
{
    if let Ok((_, n)) = expect(ts, p, TokenView::OpenParen) {
        lemma_clear_expressions(ts, n, Seq::empty());
        if let Ok((xs, m)) = expressions(ts, n, Seq::empty()) {
            if at(ts, m, TokenView::Comma) {
                lemma_clear_tuples(ts, m + 1, done.push(xs));
            }
        }
    }
}

/// A statement holds no semicolon.
pub proof fn lemma_clear_statement(ts: TokenStreamView, p: nat)
    ensures
        statement(ts, p) matches Ok((_, n)) ==> p < n <= ts.tokens.len() && clear(ts, p, n),
{
    match peek(ts, p) {
        Ok(Some(TokenView::Keyword(Keyword::Create))) => {
            if let Ok((name, n)) = ident(ts, p + 2) {
                if let Ok((_, m)) = expect(ts, n, TokenView::OpenParen) {
                    lemma_clear_columns(ts, m, Seq::empty());
                }
            }
        },
        Ok(Some(TokenView::Keyword(Keyword::Select))) => {},
        Ok(Some(TokenView::Keyword(Keyword::Insert))) => {
            if let Ok((_, a)) = expect(ts, p, TokenView::Keyword(Keyword::Insert)) {
                if let Ok((_, b)) = expect(ts, a, TokenView::Keyword(Keyword::Into)) {
                    if let Ok((table_name, c)) = ident(ts, b) {
                        if at(ts, c, TokenView::OpenParen) {
                            lemma_clear_names(ts, c + 1, Seq::empty());
                        }
                        if let Ok((cols, d)) = column_list(ts, c) {
                            if let Ok((_, f)) = expect(
                                ts,
                                d,
                                TokenView::Keyword(Keyword::Values),
                            ) {
                                lemma_clear_tuples(ts, f, Seq::empty());
                            }
                        }
                    }
                }
            }
        },
        _ => {},
    }
}

/// The tokens of a statement end with a semicolon, which is their only one,
/// and no fault stopped the reading.
pub proof fn statements_end_with_their_semicolon(ts: TokenStreamView)
    requires
        parse(ts) is Ok,
    ensures
        ts.fault is None,
        ts.tokens.len() > 0,
        ts.tokens.last() == TokenView::Semicolon,
        forall|i: int| 0 <= i < ts.tokens.len() - 1 ==> ts.tokens[i] != TokenView::Semicolon,
{
    lemma_clear_statement(ts, 0);
}

/// Tokens that do not end with a semicolon are no statement.
pub proof fn missing_semicolon_fails(ts: TokenStreamView)
    requires
        ts.tokens.len() == 0 || ts.tokens.last() != TokenView::Semicolon,
    ensures
        parse(ts) is Err,
{
    if parse(ts) is Ok {
        statements_end_with_their_semicolon(ts);
    }
}

/// Tokens with anything behind a semicolon are no statement.
pub proof fn tokens_after_semicolon_fail(ts: TokenStreamView, i: int)
    requires
        0 <= i < ts.tokens.len() - 1,
        ts.tokens[i] == TokenView::Semicolon,
    ensures
        parse(ts) is Err,
{
    if parse(ts) is Ok {
        statements_end_with_their_semicolon(ts);
    }
}

} // verus!
