use vstd::prelude::*;

use crate::tokenizer::{tokens_view, Token, TokenModel};

verus! {

/// A parsed statement.
#[derive(Debug, PartialEq)]
pub enum Query {
    Select { columns: Vec<String>, table: String, condition: Option<String> },
    Insert { table: String, columns: Vec<String>, values: Vec<String> },
    Update { table: String, assignments: Vec<(String, String)>, condition: Option<String> },
    Delete { table: String, condition: Option<String> },
}

/// The mathematical value of a [`Query`].
pub enum QueryModel {
    Select { columns: Seq<Seq<char>>, table: Seq<char>, condition: Option<Seq<char>> },
    Insert { table: Seq<char>, columns: Seq<Seq<char>>, values: Seq<Seq<char>> },
    Update {
        table: Seq<char>,
        assignments: Seq<(Seq<char>, Seq<char>)>,
        condition: Option<Seq<char>>,
    },
    Delete { table: Seq<char>, condition: Option<Seq<char>> },
}

/// Why a token sequence is not a statement.
#[derive(Debug, Clone, Copy, PartialEq, Eq, Structural)]
pub enum ParseError {
    /// The statement does not begin with SELECT, INSERT, UPDATE or DELETE.
    InvalidCommand,
    /// A table, column or condition name is missing.
    ExpectedIdentifier,
    /// An assignment lacks its value.
    ExpectedLiteral,
    ExpectedFrom,
    ExpectedInto,
    ExpectedValues,
    ExpectedSet,
    /// An assignment lacks its `=`.
    ExpectedEquals,
}

pub open spec fn strings_view(v: Seq<String>) -> Seq<Seq<char>> {
    v.map_values(|s: String| s@)
}

pub open spec fn pairs_view(v: Seq<(String, String)>) -> Seq<(Seq<char>, Seq<char>)> {
    v.map_values(|p: (String, String)| (p.0@, p.1@))
}

pub open spec fn option_view(o: Option<String>) -> Option<Seq<char>> {
    match o {
        Some(s) => Some(s@),
        None => None,
    }
}

impl View for Query {
    type V = QueryModel;

    open spec fn view(&self) -> QueryModel {
        match self {
            Query::Select { columns, table, condition } => QueryModel::Select {
                columns: strings_view(columns@),
                table: table@,
                condition: option_view(*condition),
            },
            Query::Insert { table, columns, values } => QueryModel::Insert {
                table: table@,
                columns: strings_view(columns@),
                values: strings_view(values@),
            },
            Query::Update { table, assignments, condition } => QueryModel::Update {
                table: table@,
                assignments: pairs_view(assignments@),
                condition: option_view(*condition),
            },
            Query::Delete { table, condition } => QueryModel::Delete {
                table: table@,
                condition: option_view(*condition),
            },
        }
    }
}

/// The comma-separated identifiers from `i` on, and the position after them.
/// A comma is taken only after an identifier; the list stops at the first other token.
pub open spec fn names_from(ts: Seq<TokenModel>, i: int) -> (Seq<Seq<char>>, int)
    decreases ts.len() - i,
{
    if 0 <= i < ts.len() && ts[i] is Identifier {
        if i + 1 < ts.len() && ts[i + 1] is Comma {
            let (rest, e) = names_from(ts, i + 2);
            (seq![ts[i]->Identifier_0] + rest, e)
        } else {
            (seq![ts[i]->Identifier_0], i + 1)
        }
    } else {
        (seq![], i)
    }
}

/// The comma-separated literals from `i` on, and the position after them.
pub open spec fn literals_from(ts: Seq<TokenModel>, i: int) -> (Seq<Seq<char>>, int)
    decreases ts.len() - i,
{
    if 0 <= i < ts.len() && ts[i] is Literal {
        if i + 1 < ts.len() && ts[i + 1] is Comma {
            let (rest, e) = literals_from(ts, i + 2);
            (seq![ts[i]->Literal_0] + rest, e)
        } else {
            (seq![ts[i]->Literal_0], i + 1)
        }
    } else {
        (seq![], i)
    }
}

/// The comma-separated `name = literal` pairs from `i` on, and the position after them.
pub open spec fn assignments_from(ts: Seq<TokenModel>, i: int) -> Result<
    (Seq<(Seq<char>, Seq<char>)>, int),
    ParseError,
>
    decreases ts.len() - i,
{
    if 0 <= i < ts.len() && ts[i] is Identifier {
        if !(i + 1 < ts.len() && ts[i + 1] is Equals) {
            Err(ParseError::ExpectedEquals)
        } else if !(i + 2 < ts.len() && ts[i + 2] is Literal) {
            Err(ParseError::ExpectedLiteral)
        } else {
            let pair = (ts[i]->Identifier_0, ts[i + 2]->Literal_0);
            if i + 3 < ts.len() && ts[i + 3] is Comma {
                match assignments_from(ts, i + 4) {
                    Ok((rest, e)) => Ok((seq![pair] + rest, e)),
                    Err(err) => Err(err),
                }
            } else {
                Ok((seq![pair], i + 3))
            }
        }
    } else {
        Ok((seq![], i))
    }
}

/// One identifier at `i`.
pub open spec fn identifier_at(ts: Seq<TokenModel>, i: int) -> Result<(Seq<char>, int), ParseError> {
    if 0 <= i < ts.len() && ts[i] is Identifier {
        Ok((ts[i]->Identifier_0, i + 1))
    } else {
        Err(ParseError::ExpectedIdentifier)
    }
}

/// The token `t` at `i`, or the error `err`.
pub open spec fn expect_at(ts: Seq<TokenModel>, i: int, t: TokenModel, err: ParseError) -> Result<
    int,
    ParseError,
> {
    if 0 <= i < ts.len() && ts[i] == t {
        Ok(i + 1)
    } else {
        Err(err)
    }
}

/// An optional `WHERE name` clause at `i`.
pub open spec fn condition_at(ts: Seq<TokenModel>, i: int) -> Result<
    (Option<Seq<char>>, int),
    ParseError,
> {
    if 0 <= i < ts.len() && ts[i] is Where {
        match identifier_at(ts, i + 1) {
            Ok((c, e)) => Ok((Some(c), e)),
            Err(err) => Err(err),
        }
    } else {
        Ok((None, i))
    }
}

/// `SELECT columns FROM table [WHERE condition]`, with SELECT at `i`.
pub open spec fn select_at(ts: Seq<TokenModel>, i: int) -> Result<(QueryModel, int), ParseError> {
    let (columns, a) = names_from(ts, i + 1);
    match expect_at(ts, a, TokenModel::From, ParseError::ExpectedFrom) {
        Err(err) => Err(err),
        Ok(b) => match identifier_at(ts, b) {
            Err(err) => Err(err),
            Ok((table, c)) => match condition_at(ts, c) {
                Err(err) => Err(err),
                Ok((condition, d)) => Ok((QueryModel::Select { columns, table, condition }, d)),
            },
        },
    }
}

/// `INSERT INTO table columns VALUES values`, with INSERT at `i`.
/// Parentheses are not tokens, so the lists stand bare in the token sequence.
pub open spec fn insert_at(ts: Seq<TokenModel>, i: int) -> Result<(QueryModel, int), ParseError> {
    match expect_at(ts, i + 1, TokenModel::Into, ParseError::ExpectedInto) {
        Err(err) => Err(err),
        Ok(a) => match identifier_at(ts, a) {
            Err(err) => Err(err),
            Ok((table, b)) => {
                let (columns, c) = names_from(ts, b);
                match expect_at(ts, c, TokenModel::Values, ParseError::ExpectedValues) {
                    Err(err) => Err(err),
                    Ok(d) => {
                        let (values, e) = literals_from(ts, d);
                        Ok((QueryModel::Insert { table, columns, values }, e))
                    },
                }
            },
        },
    }
}

/// `UPDATE table SET assignments [WHERE condition]`, with UPDATE at `i`.
pub open spec fn update_at(ts: Seq<TokenModel>, i: int) -> Result<(QueryModel, int), ParseError> {
    match identifier_at(ts, i + 1) {
        Err(err) => Err(err),
        Ok((table, a)) => match expect_at(ts, a, TokenModel::SetKeyword, ParseError::ExpectedSet) {
            Err(err) => Err(err),
            Ok(b) => match assignments_from(ts, b) {
                Err(err) => Err(err),
                Ok((assignments, c)) => match condition_at(ts, c) {
                    Err(err) => Err(err),
                    Ok((condition, d)) => Ok(
                        (QueryModel::Update { table, assignments, condition }, d),
                    ),
                },
            },
        },
    }
}

/// `DELETE FROM table [WHERE condition]`, with DELETE at `i`.
pub open spec fn delete_at(ts: Seq<TokenModel>, i: int) -> Result<(QueryModel, int), ParseError> {
    match expect_at(ts, i + 1, TokenModel::From, ParseError::ExpectedFrom) {
        Err(err) => Err(err),
        Ok(a) => match identifier_at(ts, a) {
            Err(err) => Err(err),
            Ok((table, b)) => match condition_at(ts, b) {
                Err(err) => Err(err),
                Ok((condition, c)) => Ok((QueryModel::Delete { table, condition }, c)),
            },
        },
    }
}

/// The statement that starts at `i`, chosen by its first token, and the position after it.
pub open spec fn statement_at(ts: Seq<TokenModel>, i: int) -> Result<(QueryModel, int), ParseError> {
    if 0 <= i < ts.len() {
        match ts[i] {
            TokenModel::Select => select_at(ts, i),
            TokenModel::Insert => insert_at(ts, i),
            TokenModel::Update => update_at(ts, i),
            TokenModel::Delete => delete_at(ts, i),
            _ => Err(ParseError::InvalidCommand),
        }
    } else {
        Err(ParseError::InvalidCommand)
    }
}

/// The statement that a whole token sequence begins with; tokens after it are ignored.
pub open spec fn statement(ts: Seq<TokenModel>) -> Result<QueryModel, ParseError> {
    match statement_at(ts, 0) {
        Ok((q, _)) => Ok(q),
        Err(err) => Err(err),
    }
}


/// `p` put in front of the list of a successful result.
pub open spec fn prefixed(
    p: Seq<(Seq<char>, Seq<char>)>,
    r: Result<(Seq<(Seq<char>, Seq<char>)>, int), ParseError>,
) -> Result<(Seq<(Seq<char>, Seq<char>)>, int), ParseError> {
    match r {
        Ok((rest, e)) => Ok((p + rest, e)),
        Err(err) => Err(err),
    }
}

/// Whether `a` is the keyword or punctuation token `k`.
fn is_token(a: &Token, k: &Token) -> (r: bool)
    requires
        !(k is Identifier),
        !(k is Literal),
    ensures
        r == (a@ == k@),
{
    match (a, k) {
        (Token::Select, Token::Select) => true,
        (Token::Insert, Token::Insert) => true,
        (Token::Update, Token::Update) => true,
        (Token::Delete, Token::Delete) => true,
        (Token::From, Token::From) => true,
        (Token::Where, Token::Where) => true,
        (Token::Into, Token::Into) => true,
        (Token::Values, Token::Values) => true,
        (Token::SetKeyword, Token::SetKeyword) => true,
        (Token::Comma, Token::Comma) => true,
        (Token::SemiColon, Token::SemiColon) => true,
        (Token::Equals, Token::Equals) => true,
        _ => false,
    }
}

/// A cursor over a token sequence.
pub struct Parser {
    tokens: Vec<Token>,
    position: usize,
}

impl View for Parser {
    type V = (Seq<TokenModel>, int);

    /// The tokens and the cursor.
    closed spec fn view(&self) -> (Seq<TokenModel>, int) {
        (tokens_view(self.tokens@), self.position as int)
    }
}

impl Parser {
    pub fn new(tokens: Vec<Token>) -> (r: Self)
        ensures
            r@ == (tokens_view(tokens@), 0int),
    {
        Parser { tokens, position: 0 }
    }

    /// Parses the statement at the cursor and moves the cursor past it.
    pub fn parse(&mut self) -> (r: Result<Query, ParseError>)
        ensures
            final(self)@.0 == old(self)@.0,
            match r {
                Ok(q) => statement_at(old(self)@.0, old(self)@.1) == Ok::<_, ParseError>((q@, final(self)@.1)),
                Err(e) => statement_at(old(self)@.0, old(self)@.1) == Err::<(QueryModel, int), _>(e),
            },
    {
        if self.position < self.tokens.len() {
            match &self.tokens[self.position] {
                Token::Select => self.parse_select(),
                Token::Insert => self.parse_insert(),
                Token::Update => self.parse_update(),
                Token::Delete => self.parse_delete(),
                _ => Err(ParseError::InvalidCommand),
            }
        } else {
            Err(ParseError::InvalidCommand)
        }
    }
    fn parse_select(&mut self) -> (r: Result<Query, ParseError>)
        requires
            0 <= old(self)@.1 < old(self)@.0.len() <= usize::MAX,
        ensures
            final(self)@.0 == old(self)@.0,
            match r {
                Ok(q) => select_at(old(self)@.0, old(self)@.1) == Ok::<_, ParseError>((q@, final(self)@.1)),
                Err(e) => select_at(old(self)@.0, old(self)@.1) == Err::<(QueryModel, int), _>(e),
            },
    {
        self.position += 1;  // past SELECT
        let columns = self.parse_columns();
        if let Err(e) = self.expect(&Token::From, ParseError::ExpectedFrom) {
            return Err(e);
        }
        let table = match self.parse_identifier() {
            Ok(t) => t,
            Err(e) => return Err(e),
        };
        let condition = match self.parse_condition() {
            Ok(c) => c,
            Err(e) => return Err(e),
        };
        Ok(Query::Select { columns, table, condition })
    }

    fn parse_insert(&mut self) -> (r: Result<Query, ParseError>)
        requires
            0 <= old(self)@.1 < old(self)@.0.len() <= usize::MAX,
        ensures
            final(self)@.0 == old(self)@.0,
            match r {
                Ok(q) => insert_at(old(self)@.0, old(self)@.1) == Ok::<_, ParseError>((q@, final(self)@.1)),
                Err(e) => insert_at(old(self)@.0, old(self)@.1) == Err::<(QueryModel, int), _>(e),
            },
    {
        self.position += 1;  // past INSERT
        if let Err(e) = self.expect(&Token::Into, ParseError::ExpectedInto) {
            return Err(e);
        }
        let table = match self.parse_identifier() {
            Ok(t) => t,
            Err(e) => return Err(e),
        };
        let columns = self.parse_columns();
        if let Err(e) = self.expect(&Token::Values, ParseError::ExpectedValues) {
            return Err(e);
        }
        let values = self.parse_values();
        Ok(Query::Insert { table, columns, values })
    }

    fn parse_update(&mut self) -> (r: Result<Query, ParseError>)
        requires
            0 <= old(self)@.1 < old(self)@.0.len() <= usize::MAX,
        ensures
            final(self)@.0 == old(self)@.0,
            match r {
                Ok(q) => update_at(old(self)@.0, old(self)@.1) == Ok::<_, ParseError>((q@, final(self)@.1)),
                Err(e) => update_at(old(self)@.0, old(self)@.1) == Err::<(QueryModel, int), _>(e),
            },
    {
        self.position += 1;  // past UPDATE
        let table = match self.parse_identifier() {
            Ok(t) => t,
            Err(e) => return Err(e),
        };
        if let Err(e) = self.expect(&Token::SetKeyword, ParseError::ExpectedSet) {
            return Err(e);
        }
        let assignments = match self.parse_assignments() {
            Ok(a) => a,
            Err(e) => return Err(e),
        };
        let condition = match self.parse_condition() {
            Ok(c) => c,
            Err(e) => return Err(e),
        };
        Ok(Query::Update { table, assignments, condition })
    }

    fn parse_delete(&mut self) -> (r: Result<Query, ParseError>)
        requires
            0 <= old(self)@.1 < old(self)@.0.len() <= usize::MAX,
        ensures
            final(self)@.0 == old(self)@.0,
            match r {
                Ok(q) => delete_at(old(self)@.0, old(self)@.1) == Ok::<_, ParseError>((q@, final(self)@.1)),
                Err(e) => delete_at(old(self)@.0, old(self)@.1) == Err::<(QueryModel, int), _>(e),
            },
    {
        self.position += 1;  // past DELETE
        if let Err(e) = self.expect(&Token::From, ParseError::ExpectedFrom) {
            return Err(e);
        }
        let table = match self.parse_identifier() {
            Ok(t) => t,
            Err(e) => return Err(e),
        };
        let condition = match self.parse_condition() {
            Ok(c) => c,
            Err(e) => return Err(e),
        };
        Ok(Query::Delete { table, condition })
    }

    fn parse_columns(&mut self) -> (r: Vec<String>)
        ensures
            final(self)@.0 == old(self)@.0,
            names_from(old(self)@.0, old(self)@.1) == (strings_view(r@), final(self)@.1),
    {
        let ghost ts = self@.0;
        let ghost start = self@.1;
        let mut columns: Vec<String> = Vec::new();
        while self.position < self.tokens.len()
            invariant_except_break
                names_from(ts, start) == (
                    strings_view(columns@) + names_from(ts, self@.1).0,
                    names_from(ts, self@.1).1,
                ),
            invariant
                self@.0 == ts,
                ts == old(self)@.0,
                start == old(self)@.1,
            ensures
                names_from(ts, start) == (strings_view(columns@), self@.1),
            decreases self.tokens.len() - self.position,
        {
            let i = self.position;
            let ghost before = strings_view(columns@);
            let col = match &self.tokens[i] {
                Token::Identifier(col) => col.clone(),
                _ => break,
            };
            columns.push(col);
            assert(strings_view(columns@) =~= before + seq![ts[i as int]->Identifier_0]);
            self.position = i + 1;
            if self.position < self.tokens.len() && matches!(self.tokens[self.position], Token::Comma) {
                self.position += 1;  // past ','
                assert(before + names_from(ts, i as int).0 =~= strings_view(columns@) + names_from(
                    ts,
                    self@.1,
                ).0);
            } else {
                break;
            }
        }
        columns
    }

    fn parse_values(&mut self) -> (r: Vec<String>)
        ensures
            final(self)@.0 == old(self)@.0,
            literals_from(old(self)@.0, old(self)@.1) == (strings_view(r@), final(self)@.1),
    {
        let ghost ts = self@.0;
        let ghost start = self@.1;
        let mut values: Vec<String> = Vec::new();
        while self.position < self.tokens.len()
            invariant_except_break
                literals_from(ts, start) == (
                    strings_view(values@) + literals_from(ts, self@.1).0,
                    literals_from(ts, self@.1).1,
                ),
            invariant
                self@.0 == ts,
                ts == old(self)@.0,
                start == old(self)@.1,
            ensures
                literals_from(ts, start) == (strings_view(values@), self@.1),
            decreases self.tokens.len() - self.position,
        {
            let i = self.position;
            let ghost before = strings_view(values@);
            let val = match &self.tokens[i] {
                Token::Literal(val) => val.clone(),
                _ => break,
            };
            values.push(val);
            assert(strings_view(values@) =~= before + seq![ts[i as int]->Literal_0]);
            self.position = i + 1;
            if self.position < self.tokens.len() && matches!(self.tokens[self.position], Token::Comma) {
                self.position += 1;  // past ','
                assert(before + literals_from(ts, i as int).0 =~= strings_view(values@)
                    + literals_from(ts, self@.1).0);
            } else {
                break;
            }
        }
        values
    }

    fn parse_assignments(&mut self) -> (r: Result<Vec<(String, String)>, ParseError>)
        ensures
            final(self)@.0 == old(self)@.0,
            match r {
                Ok(a) => assignments_from(old(self)@.0, old(self)@.1) == Ok::<_, ParseError>(
                    (pairs_view(a@), final(self)@.1),
                ),
                Err(e) => assignments_from(old(self)@.0, old(self)@.1) == Err::<
                    (Seq<(Seq<char>, Seq<char>)>, int),
                    _,
                >(e),
            },
    {
        let ghost ts = self@.0;
        let ghost start = self@.1;
        let mut assignments: Vec<(String, String)> = Vec::new();
        while self.position < self.tokens.len()
            invariant_except_break
                assignments_from(ts, start) == prefixed(
                    pairs_view(assignments@),
                    assignments_from(ts, self@.1),
                ),
            invariant
                self@.0 == ts,
                ts == old(self)@.0,
                start == old(self)@.1,
            ensures
                assignments_from(ts, start) == Ok::<_, ParseError>(
                    (pairs_view(assignments@), self@.1),
                ),
            decreases self.tokens.len() - self.position,
        {
            let i = self.position;
            let ghost before = pairs_view(assignments@);
            let col = match &self.tokens[i] {
                Token::Identifier(col) => col.clone(),
                _ => break,
            };
            if !(i + 1 < self.tokens.len() && matches!(self.tokens[i + 1], Token::Equals)) {
                return Err(ParseError::ExpectedEquals);
            }
            let val = if i + 2 < self.tokens.len() {
                match &self.tokens[i + 2] {
                    Token::Literal(val) => val.clone(),
                    _ => return Err(ParseError::ExpectedLiteral),
                }
            } else {
                return Err(ParseError::ExpectedLiteral);
            };
            assignments.push((col, val));
            assert(pairs_view(assignments@) =~= before + seq![
                (ts[i as int]->Identifier_0, ts[i + 2]->Literal_0),
            ]);
            self.position = i + 3;
            if self.position < self.tokens.len() && matches!(self.tokens[self.position], Token::Comma) {
                self.position += 1;  // past ','
                assert(forall|x: Seq<(Seq<char>, Seq<char>)>|
                    #![auto]
                    before + (seq![(ts[i as int]->Identifier_0, ts[i + 2]->Literal_0)] + x)
                        =~= pairs_view(assignments@) + x);
            } else {
                break;
            }
        }
        Ok(assignments)
    }

    fn parse_identifier(&mut self) -> (r: Result<String, ParseError>)
        ensures
            final(self)@.0 == old(self)@.0,
            match r {
                Ok(s) => identifier_at(old(self)@.0, old(self)@.1) == Ok::<_, ParseError>(
                    (s@, final(self)@.1),
                ),
                Err(e) => identifier_at(old(self)@.0, old(self)@.1) == Err::<(Seq<char>, int), _>(
                    e,
                ),
            },
    {
        if self.position < self.tokens.len() {
            if let Token::Identifier(ident) = &self.tokens[self.position] {
                let ident = ident.clone();
                self.position += 1;
                return Ok(ident);
            }
        }
        Err(ParseError::ExpectedIdentifier)
    }

    /// Takes the keyword or punctuation token `t` at the cursor, or fails with `err`.
    fn expect(&mut self, t: &Token, err: ParseError) -> (r: Result<(), ParseError>)
        requires
            !(t is Identifier),
            !(t is Literal),
        ensures
            final(self)@.0 == old(self)@.0,
            match r {
                Ok(_) => expect_at(old(self)@.0, old(self)@.1, t@, err) == Ok::<_, ParseError>(
                    final(self)@.1,
                ),
                Err(e) => expect_at(old(self)@.0, old(self)@.1, t@, err) == Err::<int, _>(e),
            },
    {
        if self.position < self.tokens.len() && is_token(&self.tokens[self.position], t) {
            self.position += 1;
            Ok(())
        } else {
            Err(err)
        }
    }

    fn parse_condition(&mut self) -> (r: Result<Option<String>, ParseError>)
        ensures
            final(self)@.0 == old(self)@.0,
            match r {
                Ok(c) => condition_at(old(self)@.0, old(self)@.1) == Ok::<_, ParseError>(
                    (option_view(c), final(self)@.1),
                ),
                Err(e) => condition_at(old(self)@.0, old(self)@.1) == Err::<
                    (Option<Seq<char>>, int),
                    _,
                >(e),
            },
    {
        if self.position < self.tokens.len() && matches!(self.tokens[self.position], Token::Where) {
            self.position += 1;  // past WHERE
            match self.parse_identifier() {
                Ok(c) => Ok(Some(c)),
                Err(e) => Err(e),
            }
        } else {
            Ok(None)
        }
    }
}

} // verus!
