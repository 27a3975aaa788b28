use vstd::prelude::*;

use crate::parser::statement;
use crate::tokenizer::{
    ci_eq, digits_end, ident_end, is_digit, is_ident_char, is_ident_start, is_letter,
    keyword_at, lemma_digits_end, lemma_ident_end, lemma_step, lex, lex_from, spelling, step,
    token_at, word_at, TokenModel,
};

verus! {

/// The nine keyword tokens.
pub open spec fn is_keyword(t: TokenModel) -> bool {
    ||| t is Select
    ||| t is Insert
    ||| t is Update
    ||| t is Delete
    ||| t is From
    ||| t is Where
    ||| t is Into
    ||| t is Values
    ||| t is SetKeyword
}

pub open spec fn is_lower(c: char) -> bool {
    'a' <= c <= 'z'
}

/// Keywords are spelled with lower-case letters.
proof fn lemma_keyword_spelling(k: TokenModel)
    requires
        is_keyword(k),
    ensures
        spelling(k).len() > 0,
        forall|j: int| 0 <= j < spelling(k).len() ==> is_lower(#[trigger] spelling(k)[j]),
{
}

proof fn lemma_all_keyword_spellings()
    ensures
        forall|k: TokenModel|
            is_keyword(k) ==> spelling(k).len() > 0 && forall|j: int|
                0 <= j < spelling(k).len() ==> is_lower(#[trigger] spelling(k)[j]),
{
    assert forall|k: TokenModel| is_keyword(k) implies spelling(k).len() > 0 && forall|j: int|
        0 <= j < spelling(k).len() ==> is_lower(#[trigger] spelling(k)[j]) by {
        lemma_keyword_spelling(k);
    }
}

/// A word of lower-case letters is found at `k` in `q` exactly where it is found in `a`,
/// when `a` is a prefix of `q` followed by a character that is not a letter.
proof fn lemma_word_cut(q: Seq<char>, a: Seq<char>, k: int, w: Seq<char>)
    requires
        0 <= k <= a.len() < q.len(),
        q.subrange(0, a.len() as int) == a,
        !is_letter(q[a.len() as int]),
        forall|j: int| 0 <= j < w.len() ==> is_lower(#[trigger] w[j]),
    ensures
        word_at(q, k, w) == word_at(a, k, w),
{
    assert forall|j: int| 0 <= j < a.len() implies q[j] == a[j] by {
        assert(q.subrange(0, a.len() as int)[j] == q[j]);
    }
    if word_at(q, k, w) && k + w.len() > a.len() {
        let j = a.len() - k;
        assert(ci_eq(q[k + j], w[j]));
    }
}

proof fn lemma_keyword_cut(q: Seq<char>, a: Seq<char>, k: int)
    requires
        0 <= k <= a.len() < q.len(),
        q.subrange(0, a.len() as int) == a,
        !is_letter(q[a.len() as int]),
    ensures
        keyword_at(q, k) == keyword_at(a, k),
{
    lemma_all_keyword_spellings();
    assert forall|t: TokenModel| is_keyword(t) implies word_at(q, k, spelling(t)) == word_at(
        a,
        k,
        spelling(t),
    ) by {
        lemma_word_cut(q, a, k, spelling(t));
    }
    assert(is_keyword(TokenModel::Select) && is_keyword(TokenModel::Insert) && is_keyword(
        TokenModel::Update,
    ) && is_keyword(TokenModel::Delete) && is_keyword(TokenModel::From) && is_keyword(
        TokenModel::Where,
    ) && is_keyword(TokenModel::Into) && is_keyword(TokenModel::Values) && is_keyword(
        TokenModel::SetKeyword,
    ));
}

proof fn lemma_runs_cut(q: Seq<char>, a: Seq<char>, k: int)
    requires
        0 <= k <= a.len() < q.len(),
        q.subrange(0, a.len() as int) == a,
        !is_ident_char(q[a.len() as int]),
    ensures
        ident_end(q, k) == ident_end(a, k),
        digits_end(q, k) == digits_end(a, k),
    decreases a.len() - k,
{
    assert(k < a.len() ==> q.subrange(0, a.len() as int)[k] == q[k]);
    if k < a.len() {
        lemma_runs_cut(q, a, k + 1);
    }
}

/// Lexing a prefix that ends before a character that cannot continue a name or a number
/// gives the first tokens of the whole text.
proof fn lemma_lex_cut(q: Seq<char>, a: Seq<char>, k: int)
    requires
        0 <= k <= a.len() < q.len(),
        q.subrange(0, a.len() as int) == a,
        !is_ident_char(q[a.len() as int]),
    ensures
        lex_from(q, k) == lex_from(a, k) + lex_from(q, a.len() as int),
    decreases a.len() - k,
{
    if k == a.len() {
        assert(lex_from(a, k) + lex_from(q, k) =~= lex_from(q, k));
    } else {
        assert(q.subrange(0, a.len() as int)[k] == q[k]);
        lemma_keyword_cut(q, a, k);
        lemma_runs_cut(q, a, k);
        lemma_step(a, k);
        lemma_ident_end(a, k);
        lemma_digits_end(a, k);
        let e = step(a, k);
        assert(q.subrange(k, ident_end(a, k)) =~= a.subrange(k, ident_end(a, k)));
        assert(q.subrange(k, digits_end(a, k)) =~= a.subrange(k, digits_end(a, k)));
        assert(token_at(q, k) == token_at(a, k));
        assert(step(q, k) == e);
        lemma_lex_cut(q, a, e);
        match token_at(a, k) {
            Some(t) => {
                assert(seq![t] + (lex_from(a, e) + lex_from(q, a.len() as int)) =~= (seq![t]
                    + lex_from(a, e)) + lex_from(q, a.len() as int));
            },
            None => {},
        }
    }
}

/// Lexing does not look behind the position where it starts.
proof fn lemma_lex_shift(p: Seq<char>, r: Seq<char>, k: int)
    requires
        0 <= k <= r.len(),
    ensures
        lex_from(p + r, p.len() + k) == lex_from(r, k),
    decreases r.len() - k,
{
    let q = p + r;
    let n = p.len() as int;
    if k < r.len() {
        assert forall|w: Seq<char>| #[trigger] word_at(q, n + k, w) == word_at(r, k, w) by {
            if word_at(r, k, w) {
                assert forall|j: int| 0 <= j < w.len() implies ci_eq(q[n + k + j], w[j]) by {
                    assert(ci_eq(r[k + j], w[j]));
                }
            }
            if word_at(q, n + k, w) {
                assert forall|j: int| 0 <= j < w.len() implies ci_eq(r[k + j], w[j]) by {
                    assert(ci_eq(q[n + k + j], w[j]));
                }
            }
        }
        lemma_runs_shift(p, r, k);
        lemma_step(r, k);
        lemma_ident_end(r, k);
        lemma_digits_end(r, k);
        assert(q.subrange(n + k, n + ident_end(r, k)) =~= r.subrange(k, ident_end(r, k)));
        assert(q.subrange(n + k, n + digits_end(r, k)) =~= r.subrange(k, digits_end(r, k)));
        assert(token_at(q, n + k) == token_at(r, k));
        assert(step(q, n + k) == n + step(r, k));
        lemma_lex_shift(p, r, step(r, k));
    }
}

proof fn lemma_runs_shift(p: Seq<char>, r: Seq<char>, k: int)
    requires
        0 <= k <= r.len(),
    ensures
        ident_end(p + r, p.len() + k) == p.len() + ident_end(r, k),
        digits_end(p + r, p.len() + k) == p.len() + digits_end(r, k),
    decreases r.len() - k,
{
    if k < r.len() {
        lemma_runs_shift(p, r, k + 1);
    }
}

/// A character that starts no token (a space, `*`, a quote, ...) separates the text
/// around it: the tokens are those of the left part followed by those of the right part.
pub proof fn lemma_skipped_char_separates(a: Seq<char>, c: char, b: Seq<char>)
    requires
        !is_ident_char(c),
        c != ',',
        c != ';',
        c != '=',
    ensures
        lex(a + seq![c] + b) == lex(a) + lex(b),
{
    let p = a + seq![c];
    let q = p + b;
    assert(q.subrange(0, a.len() as int) =~= a);
    assert(q[a.len() as int] == c);
    lemma_lex_cut(q, a, 0);
    lemma_all_keyword_spellings();
    assert(keyword_at(q, a.len() as int) is None) by {
        if let Some(k) = keyword_at(q, a.len() as int) {
            assert(ci_eq(q[a.len() as int], spelling(k)[0]));
        }
    }
    assert(step(q, a.len() as int) == p.len());
    lemma_lex_shift(p, b, 0);
}

/// A keyword is recognised in any mix of upper and lower case: a text that spells it,
/// whatever the case of each letter, is that one keyword token.
pub proof fn lemma_keyword_any_case(k: TokenModel, w: Seq<char>)
    requires
        is_keyword(k),
        w.len() == spelling(k).len(),
        forall|j: int| 0 <= j < w.len() ==> ci_eq(w[j], #[trigger] spelling(k)[j]),
    ensures
        lex(w) == seq![k],
{
    lemma_all_keyword_spellings();
    assert(word_at(w, 0, spelling(k)));
    assert(ci_eq(w[0], spelling(k)[0]));
    assert(keyword_at(w, 0) == Some(k)) by {
        if let Some(k2) = keyword_at(w, 0) {
            assert(ci_eq(w[0], spelling(k2)[0]));
        }
    }
    assert(lex_from(w, step(w, 0)) =~= seq![]);
    assert(seq![k] + seq![] =~= seq![k]);
}

/// A token as the lexer can produce it: a name that is no keyword, a number of digits only.
pub open spec fn well_formed(t: TokenModel) -> bool {
    match t {
        TokenModel::Identifier(x) => {
            &&& x.len() > 0
            &&& is_ident_start(x[0])
            &&& forall|j: int| 0 <= j < x.len() ==> is_ident_char(#[trigger] x[j])
            &&& keyword_at(x, 0) is None
        },
        TokenModel::Literal(x) => {
            &&& x.len() > 0
            &&& forall|j: int| 0 <= j < x.len() ==> is_digit(#[trigger] x[j])
        },
        _ => true,
    }
}

/// The text of a token sequence: each token in its canonical spelling, followed by a space.
pub open spec fn render(ts: Seq<TokenModel>) -> Seq<char>
    decreases ts.len(),
{
    if ts.len() == 0 {
        seq![]
    } else {
        spelling(ts[0]) + seq![' '] + render(ts.drop_first())
    }
}

proof fn lemma_runs_full(x: Seq<char>, k: int)
    requires
        0 <= k <= x.len(),
    ensures
        (forall|j: int| k <= j < x.len() ==> is_ident_char(#[trigger] x[j])) ==> ident_end(x, k)
            == x.len(),
        (forall|j: int| k <= j < x.len() ==> is_digit(#[trigger] x[j])) ==> digits_end(x, k)
            == x.len(),
    decreases x.len() - k,
{
    if k < x.len() {
        lemma_runs_full(x, k + 1);
    }
}

/// A well-formed token, spelled out, is that token again.
proof fn lemma_lex_spelling(t: TokenModel)
    requires
        well_formed(t),
    ensures
        lex(spelling(t)) == seq![t],
{
    let x = spelling(t);
    lemma_all_keyword_spellings();
    if is_keyword(t) {
        lemma_keyword_any_case(t, x);
    } else {
        lemma_runs_full(x, 0);
        assert(x.len() > 0);
        assert(keyword_at(x, 0) is None) by {
            if let Some(k2) = keyword_at(x, 0) {
                assert(ci_eq(x[0], spelling(k2)[0]));
            }
        }
        assert(x.subrange(0, x.len() as int) =~= x);
        assert(step(x, 0) == x.len());
        assert(lex_from(x, x.len() as int) =~= seq![]);
        assert(seq![t] + seq![] =~= seq![t]);
    }
}

/// Tokenizing the rendering of well-formed tokens gives them back.
pub proof fn lemma_lex_render(ts: Seq<TokenModel>)
    requires
        forall|i: int| 0 <= i < ts.len() ==> well_formed(#[trigger] ts[i]),
    ensures
        lex(render(ts)) == ts,
    decreases ts.len(),
{
    if ts.len() == 0 {
        assert(lex(render(ts)) =~= ts);
    } else {
        let rest = ts.drop_first();
        assert(well_formed(ts[0]));
        assert forall|i: int| 0 <= i < rest.len() implies well_formed(#[trigger] rest[i]) by {
            assert(well_formed(ts[i + 1]));
        }
        lemma_lex_render(rest);
        lemma_lex_spelling(ts[0]);
        lemma_skipped_char_separates(spelling(ts[0]), ' ', render(rest));
        assert(seq![ts[0]] + rest =~= ts);
    }
}

/// A word found at the start of a piece of `s` is found at the piece's place in `s`.
proof fn lemma_word_in_piece(s: Seq<char>, i: int, e: int, w: Seq<char>)
    requires
        0 <= i <= e <= s.len(),
        word_at(s.subrange(i, e), 0, w),
    ensures
        word_at(s, i, w),
{
    let x = s.subrange(i, e);
    assert forall|j: int| 0 <= j < w.len() implies ci_eq(s[i + j], w[j]) by {
        assert(ci_eq(x[0 + j], w[j]));
    }
}

/// Every token that the lexer produces is well formed.
pub proof fn lemma_lex_well_formed(s: Seq<char>, i: int)
    ensures
        forall|j: int| 0 <= j < lex_from(s, i).len() ==> well_formed(#[trigger] lex_from(s, i)[j]),
    decreases s.len() - i,
{
    if 0 <= i < s.len() {
        lemma_step(s, i);
        lemma_lex_well_formed(s, step(s, i));
        if let Some(t) = token_at(s, i) {
            assert(well_formed(t)) by {
                lemma_ident_end(s, i);
                lemma_digits_end(s, i);
                lemma_ident_end(s, i + 1);
                lemma_digits_end(s, i + 1);
                if let TokenModel::Identifier(x) = t {
                    let e = ident_end(s, i);
                    assert(keyword_at(s, i) is None);
                    assert forall|w: Seq<char>| #[trigger] word_at(x, 0, w) implies word_at(
                        s,
                        i,
                        w,
                    ) by {
                        lemma_word_in_piece(s, i, e, w);
                    }
                    assert forall|j: int| 0 <= j < x.len() implies is_ident_char(
                        #[trigger] x[j],
                    ) by {
                        assert(is_ident_char(s[i + j]));
                    }
                } else if let TokenModel::Literal(x) = t {
                    assert forall|j: int| 0 <= j < x.len() implies is_digit(#[trigger] x[j]) by {
                        assert(is_digit(s[i + j]));
                    }
                }
            }
            let rest = lex_from(s, step(s, i));
            assert forall|j: int| 0 <= j < lex_from(s, i).len() implies well_formed(
                #[trigger] lex_from(s, i)[j],
            ) by {
                assert(lex_from(s, i) == seq![t] + rest);
                if j > 0 {
                    assert(lex_from(s, i)[j] == rest[j - 1]);
                }
            }
        } else {
            assert(lex_from(s, i) == lex_from(s, step(s, i)));
        }
    }
}

/// Writing the tokens of a text back out in their canonical spelling, separated by spaces,
/// and tokenizing that text again gives the same tokens: names and numbers keep their text
/// and keywords stay keywords.
pub proof fn lemma_relex(s: Seq<char>)
    ensures
        lex(render(lex(s))) == lex(s),
{
    lemma_lex_well_formed(s, 0);
    lemma_lex_render(lex(s));
}

/// A statement read from a text is read again, unchanged, from the canonical rendering of
/// that text's tokens.
pub proof fn lemma_reparse(s: Seq<char>)
    ensures
        statement(lex(render(lex(s)))) == statement(lex(s)),
{
    lemma_relex(s);
}

} // verus!
