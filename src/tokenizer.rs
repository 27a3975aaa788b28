use vstd::prelude::*;
use vstd::string::*;

verus! {

/// A lexical token of the statement language.
#[derive(Debug, PartialEq)]
pub enum Token {
    Select,
    Insert,
    Update,
    Delete,
    From,
    Where,
    Into,
    Values,
    SetKeyword,
    Identifier(String),
    Comma,
    SemiColon,
    Equals,
    Literal(String),
}

/// The mathematical value of a [`Token`]: texts are sequences of characters.
pub enum TokenModel {
    Select,
    Insert,
    Update,
    Delete,
    From,
    Where,
    Into,
    Values,
    SetKeyword,
    Identifier(Seq<char>),
    Comma,
    SemiColon,
    Equals,
    Literal(Seq<char>),
}

impl View for Token {
    type V = TokenModel;

    open spec fn view(&self) -> TokenModel {
        match self {
            Token::Select => TokenModel::Select,
            Token::Insert => TokenModel::Insert,
            Token::Update => TokenModel::Update,
            Token::Delete => TokenModel::Delete,
            Token::From => TokenModel::From,
            Token::Where => TokenModel::Where,
            Token::Into => TokenModel::Into,
            Token::Values => TokenModel::Values,
            Token::SetKeyword => TokenModel::SetKeyword,
            Token::Identifier(s) => TokenModel::Identifier(s@),
            Token::Comma => TokenModel::Comma,
            Token::SemiColon => TokenModel::SemiColon,
            Token::Equals => TokenModel::Equals,
            Token::Literal(s) => TokenModel::Literal(s@),
        }
    }
}

/// The models of a sequence of tokens.
pub open spec fn tokens_view(ts: Seq<Token>) -> Seq<TokenModel> {
    ts.map_values(|t: Token| t@)
}

pub open spec fn is_letter(c: char) -> bool {
    ('a' <= c <= 'z') || ('A' <= c <= 'Z')
}

pub open spec fn is_digit(c: char) -> bool {
    '0' <= c <= '9'
}

/// A character that may begin an identifier.
pub open spec fn is_ident_start(c: char) -> bool {
    is_letter(c) || c == '_'
}

/// A character that may continue an identifier.
pub open spec fn is_ident_char(c: char) -> bool {
    is_ident_start(c) || is_digit(c)
}

/// Whether `c` equals the lower-case letter `k`, ignoring ASCII case.
pub open spec fn ci_eq(c: char, k: char) -> bool {
    c == k || ('A' <= c <= 'Z' && c as u32 + 32 == k as u32)
}

/// The canonical text of a token: keywords in lower case, names and numbers as they are.
pub open spec fn spelling(t: TokenModel) -> Seq<char> {
    match t {
        TokenModel::Select => seq!['s', 'e', 'l', 'e', 'c', 't'],
        TokenModel::Insert => seq!['i', 'n', 's', 'e', 'r', 't'],
        TokenModel::Update => seq!['u', 'p', 'd', 'a', 't', 'e'],
        TokenModel::Delete => seq!['d', 'e', 'l', 'e', 't', 'e'],
        TokenModel::From => seq!['f', 'r', 'o', 'm'],
        TokenModel::Where => seq!['w', 'h', 'e', 'r', 'e'],
        TokenModel::Into => seq!['i', 'n', 't', 'o'],
        TokenModel::Values => seq!['v', 'a', 'l', 'u', 'e', 's'],
        TokenModel::SetKeyword => seq!['s', 'e', 't'],
        TokenModel::Identifier(x) => x,
        TokenModel::Comma => seq![','],
        TokenModel::SemiColon => seq![';'],
        TokenModel::Equals => seq!['='],
        TokenModel::Literal(x) => x,
    }
}

/// `s` holds the word `w` at position `i`, ignoring the case of letters.
pub open spec fn word_at(s: Seq<char>, i: int, w: Seq<char>) -> bool {
    &&& 0 <= i
    &&& i + w.len() <= s.len()
    &&& forall|j: int| 0 <= j < w.len() ==> ci_eq(s[i + j], #[trigger] w[j])
}

/// The keyword that starts at position `i` of `s`, the first of the list that matches.
pub open spec fn keyword_at(s: Seq<char>, i: int) -> Option<TokenModel> {
    if word_at(s, i, spelling(TokenModel::Select)) {
        Some(TokenModel::Select)
    } else if word_at(s, i, spelling(TokenModel::Insert)) {
        Some(TokenModel::Insert)
    } else if word_at(s, i, spelling(TokenModel::Update)) {
        Some(TokenModel::Update)
    } else if word_at(s, i, spelling(TokenModel::Delete)) {
        Some(TokenModel::Delete)
    } else if word_at(s, i, spelling(TokenModel::From)) {
        Some(TokenModel::From)
    } else if word_at(s, i, spelling(TokenModel::Where)) {
        Some(TokenModel::Where)
    } else if word_at(s, i, spelling(TokenModel::Into)) {
        Some(TokenModel::Into)
    } else if word_at(s, i, spelling(TokenModel::Values)) {
        Some(TokenModel::Values)
    } else if word_at(s, i, spelling(TokenModel::SetKeyword)) {
        Some(TokenModel::SetKeyword)
    } else {
        None
    }
}

/// The end of the longest run of identifier characters that starts at `i`.
pub open spec fn ident_end(s: Seq<char>, i: int) -> int
    decreases s.len() - i,
{
    if 0 <= i < s.len() && is_ident_char(s[i]) {
        ident_end(s, i + 1)
    } else {
        i
    }
}

/// The end of the longest run of digits that starts at `i`.
pub open spec fn digits_end(s: Seq<char>, i: int) -> int
    decreases s.len() - i,
{
    if 0 <= i < s.len() && is_digit(s[i]) {
        digits_end(s, i + 1)
    } else {
        i
    }
}

/// The token matched at position `i` of `s`, or `None` where the character there is skipped.
pub open spec fn token_at(s: Seq<char>, i: int) -> Option<TokenModel> {
    match keyword_at(s, i) {
        Some(k) => Some(k),
        None => {
            if is_ident_start(s[i]) {
                Some(TokenModel::Identifier(s.subrange(i, ident_end(s, i))))
            } else if is_digit(s[i]) {
                Some(TokenModel::Literal(s.subrange(i, digits_end(s, i))))
            } else if s[i] == ',' {
                Some(TokenModel::Comma)
            } else if s[i] == ';' {
                Some(TokenModel::SemiColon)
            } else if s[i] == '=' {
                Some(TokenModel::Equals)
            } else {
                None
            }
        },
    }
}

/// The position where scanning resumes after the match (or the skipped character) at `i`.
pub open spec fn step(s: Seq<char>, i: int) -> int {
    match keyword_at(s, i) {
        Some(k) => i + spelling(k).len(),
        None => {
            if is_ident_start(s[i]) {
                ident_end(s, i)
            } else if is_digit(s[i]) {
                digits_end(s, i)
            } else {
                i + 1
            }
        },
    }
}

/// The tokens of `s` from position `i` on, left to right.
pub open spec fn lex_from(s: Seq<char>, i: int) -> Seq<TokenModel>
    decreases s.len() - i,
    via lex_from_decreases
{
    if 0 <= i < s.len() {
        match token_at(s, i) {
            Some(t) => seq![t] + lex_from(s, step(s, i)),
            None => lex_from(s, step(s, i)),
        }
    } else {
        seq![]
    }
}

/// The tokens of the text `s`.
pub open spec fn lex(s: Seq<char>) -> Seq<TokenModel> {
    lex_from(s, 0)
}

pub proof fn lemma_ident_end(s: Seq<char>, i: int)
    requires
        0 <= i <= s.len(),
    ensures
        i <= ident_end(s, i) <= s.len(),
        forall|k: int| i <= k < ident_end(s, i) ==> is_ident_char(#[trigger] s[k]),
    decreases s.len() - i,
{
    if i < s.len() && is_ident_char(s[i]) {
        lemma_ident_end(s, i + 1);
    }
}

pub proof fn lemma_digits_end(s: Seq<char>, i: int)
    requires
        0 <= i <= s.len(),
    ensures
        i <= digits_end(s, i) <= s.len(),
        forall|k: int| i <= k < digits_end(s, i) ==> is_digit(#[trigger] s[k]),
    decreases s.len() - i,
{
    if i < s.len() && is_digit(s[i]) {
        lemma_digits_end(s, i + 1);
    }
}

/// Every step moves forward and stays within the text.
pub proof fn lemma_step(s: Seq<char>, i: int)
    requires
        0 <= i < s.len(),
    ensures
        i < step(s, i) <= s.len(),
{
    lemma_ident_end(s, i + 1);
    lemma_digits_end(s, i + 1);
}

#[via_fn]
proof fn lex_from_decreases(s: Seq<char>, i: int) {
    if 0 <= i < s.len() {
        lemma_step(s, i);
    }
}

/// The characters of `s`, in order.
fn chars_of(s: &str) -> (r: Vec<char>)
    ensures
        r@ == s@,
{
    let n = s.unicode_len();
    let mut v: Vec<char> = Vec::new();
    let mut i: usize = 0;
    while i < n
        invariant
            i <= n,
            n == s@.len(),
            v@ == s@.subrange(0, i as int),
        decreases n - i,
    {
        v.push(s.get_char(i));
        i += 1;
    }
    assert(v@ =~= s@);
    v
}

fn ci_eq_exec(c: char, k: char) -> (r: bool)
    ensures
        r == ci_eq(c, k),
{
    c == k || ('A' <= c && c <= 'Z' && c as u32 + 32 == k as u32)
}

fn word_matches(chars: &Vec<char>, i: usize, w: &Vec<char>) -> (r: bool)
    requires
        i <= chars@.len(),
    ensures
        r == word_at(chars@, i as int, w@),
{
    let n = chars.len();
    if w.len() > n - i {
        return false;
    }
    let mut j: usize = 0;
    while j < w.len()
        invariant
            n == chars@.len(),
            i <= chars@.len(),
            i + w@.len() <= chars@.len(),
            j <= w@.len(),
            forall|k: int| 0 <= k < j ==> ci_eq(chars@[i + k], #[trigger] w@[k]),
        decreases w.len() - j,
    {
        if !ci_eq_exec(chars[i + j], w[j]) {
            return false;
        }
        j += 1;
    }
    true
}

/// The keyword at position `i`, with the position just past it.
fn scan_keyword(chars: &Vec<char>, i: usize) -> (r: Option<(Token, usize)>)
    requires
        i <= chars@.len() <= usize::MAX,
    ensures
        match r {
            None => keyword_at(chars@, i as int) is None,
            Some((t, e)) => keyword_at(chars@, i as int) == Some(t@) && e == i + spelling(t@).len(),
        },
{
    let select_w = vec!['s', 'e', 'l', 'e', 'c', 't'];
    let insert_w = vec!['i', 'n', 's', 'e', 'r', 't'];
    let update_w = vec!['u', 'p', 'd', 'a', 't', 'e'];
    let delete_w = vec!['d', 'e', 'l', 'e', 't', 'e'];
    let from_w = vec!['f', 'r', 'o', 'm'];
    let where__w = vec!['w', 'h', 'e', 'r', 'e'];
    let into_w = vec!['i', 'n', 't', 'o'];
    let values_w = vec!['v', 'a', 'l', 'u', 'e', 's'];
    let set_w = vec!['s', 'e', 't'];
    if word_matches(chars, i, &select_w) {
        Some((Token::Select, i + 6))
    } else if word_matches(chars, i, &insert_w) {
        Some((Token::Insert, i + 6))
    } else if word_matches(chars, i, &update_w) {
        Some((Token::Update, i + 6))
    } else if word_matches(chars, i, &delete_w) {
        Some((Token::Delete, i + 6))
    } else if word_matches(chars, i, &from_w) {
        Some((Token::From, i + 4))
    } else if word_matches(chars, i, &where__w) {
        Some((Token::Where, i + 5))
    } else if word_matches(chars, i, &into_w) {
        Some((Token::Into, i + 4))
    } else if word_matches(chars, i, &values_w) {
        Some((Token::Values, i + 6))
    } else if word_matches(chars, i, &set_w) {
        Some((Token::SetKeyword, i + 3))
    } else {
        None
    }
}

fn is_ident_char_exec(c: char) -> (r: bool)
    ensures
        r == is_ident_char(c),
{
    ('a' <= c && c <= 'z') || ('A' <= c && c <= 'Z') || c == '_' || ('0' <= c && c <= '9')
}

fn is_ident_start_exec(c: char) -> (r: bool)
    ensures
        r == is_ident_start(c),
{
    ('a' <= c && c <= 'z') || ('A' <= c && c <= 'Z') || c == '_'
}

/// The end of the run of identifier characters that starts at `i`.
fn scan_ident(chars: &Vec<char>, i: usize) -> (r: usize)
    requires
        i <= chars@.len(),
    ensures
        r == ident_end(chars@, i as int),
{
    let mut j = i;
    while j < chars.len() && is_ident_char_exec(chars[j])
        invariant
            i <= j <= chars@.len(),
            ident_end(chars@, i as int) == ident_end(chars@, j as int),
        decreases chars.len() - j,
    {
        j += 1;
    }
    j
}

/// The end of the run of digits that starts at `i`.
fn scan_digits(chars: &Vec<char>, i: usize) -> (r: usize)
    requires
        i <= chars@.len(),
    ensures
        r == digits_end(chars@, i as int),
{
    let mut j = i;
    while j < chars.len() && '0' <= chars[j] && chars[j] <= '9'
        invariant
            i <= j <= chars@.len(),
            digits_end(chars@, i as int) == digits_end(chars@, j as int),
        decreases chars.len() - j,
    {
        j += 1;
    }
    j
}

/// Turns one line of text into tokens.
pub struct Tokenizer {
    input: String,
    position: usize,
}

impl View for Tokenizer {
    type V = Seq<char>;

    /// The text being tokenized.
    closed spec fn view(&self) -> Seq<char> {
        self.input@
    }
}

impl Tokenizer {
    pub fn new(input: String) -> (r: Self)
        ensures
            r@ == input@,
    {
        Tokenizer { input, position: 0 }
    }

    /// The tokens of the whole input, left to right; characters that start no token are skipped.
    pub fn tokenize(&mut self) -> (r: Vec<Token>)
        ensures
            final(self)@ == old(self)@,
            tokens_view(r@) == lex(old(self)@),
    {
        let chars = chars_of(self.input.as_str());
        let n = chars.len();
        let mut tokens: Vec<Token> = Vec::new();
        self.position = 0;
        while self.position < n
            invariant
                self.input@ == old(self).input@,
                chars@ == self.input@,
                n == chars@.len(),
                self.position <= n,
                tokens_view(tokens@) + lex_from(chars@, self.position as int) == lex(chars@),
            decreases n - self.position,
        {
            let i = self.position;
            let ghost s = chars@;
            let ghost before = tokens_view(tokens@);
            proof {
                lemma_step(s, i as int);
            }
            match scan_keyword(&chars, i) {
                Some((t, e)) => {
                    tokens.push(t);
                    self.position = e;
                },
                None => {
                    let c = chars[i];
                    if is_ident_start_exec(c) {
                        let e = scan_ident(&chars, i);
                        let text = String::from_str(self.input.as_str().substring_char(i, e));
                        tokens.push(Token::Identifier(text));
                        self.position = e;
                    } else if '0' <= c && c <= '9' {
                        let e = scan_digits(&chars, i);
                        let text = String::from_str(self.input.as_str().substring_char(i, e));
                        tokens.push(Token::Literal(text));
                        self.position = e;
                    } else {
                        if c == ',' {
                            tokens.push(Token::Comma);
                        } else if c == ';' {
                            tokens.push(Token::SemiColon);
                        } else if c == '=' {
                            tokens.push(Token::Equals);
                        }
                        self.position = i + 1;
                    }
                },
            }
            proof {
                assert(self.position as int == step(s, i as int));
                match token_at(s, i as int) {
                    Some(t) => {
                        assert(tokens_view(tokens@) =~= before.push(t));
                        assert(before + lex_from(s, i as int) =~= tokens_view(tokens@) + lex_from(
                            s,
                            self.position as int,
                        ));
                    },
                    None => {
                        assert(tokens_view(tokens@) =~= before);
                    },
                }
            }
        }
        tokens
    }
}

} // verus!
