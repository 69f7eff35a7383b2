//! The property `-moz-box-orient`: the axis along which a box lays out its
//! children. Its value is one of four keywords, its initial value is
//! `horizontal`, and its computed value is the specified value.

use vstd::prelude::*;
use crate::css::{next_as_stream, pending, pending_tokens};
use crate::keyword::{
    first_token_match, rows_of, token_clash_at, variant_clash_at, KeywordEntry, KeywordEnum,
    KeywordTable, KeywordValue, Row,
};
use crate::text::{eq_ignore_ascii_case, fold, same_ignoring_case};
use crate::token::{rest, Token, TokenModel, TokenStream};
use crate::value::{agrees, Expected, ParseError, ParseFailure, ParserContext};

verus! {

/// The keywords of the property.
#[derive(Clone, Copy, Debug, PartialEq, Eq, Structural)]
pub enum BoxOrientKeyword {
    InlineAxis,
    BlockAxis,
    Horizontal,
    Vertical,
}

/// The token of a keyword, as it is written in style text.
pub open spec fn token_text(k: BoxOrientKeyword) -> Seq<char> {
    match k {
        BoxOrientKeyword::InlineAxis => "inline-axis"@,
        BoxOrientKeyword::BlockAxis => "block-axis"@,
        BoxOrientKeyword::Horizontal => "horizontal"@,
        BoxOrientKeyword::Vertical => "vertical"@,
    }
}

/// The keyword that an identifier stands for: the first, in declaration
/// order, whose token matches it without regard to case.
pub open spec fn keyword_of_ident(ident: Seq<char>) -> Option<BoxOrientKeyword> {
    if same_ignoring_case(ident, token_text(BoxOrientKeyword::InlineAxis)) {
        Some(BoxOrientKeyword::InlineAxis)
    } else if same_ignoring_case(ident, token_text(BoxOrientKeyword::BlockAxis)) {
        Some(BoxOrientKeyword::BlockAxis)
    } else if same_ignoring_case(ident, token_text(BoxOrientKeyword::Horizontal)) {
        Some(BoxOrientKeyword::Horizontal)
    } else if same_ignoring_case(ident, token_text(BoxOrientKeyword::Vertical)) {
        Some(BoxOrientKeyword::Vertical)
    } else {
        None
    }
}

/// What one token parses to: its keyword where it is an identifier that
/// names one; the identifier is reported where it names none, and a token
/// of another kind is unexpected.
pub open spec fn parse_token(t: TokenModel) -> Result<BoxOrientKeyword, ParseFailure> {
    match t {
        TokenModel::Ident(s) => match keyword_of_ident(s) {
            Some(k) => Ok(k),
            None => Err(ParseFailure::UnknownKeyword(s)),
        },
        _ => Err(ParseFailure::UnexpectedToken(Expected::Keyword)),
    }
}

/// What a stream parses to: what its first token parses to.
pub open spec fn parse_tokens(input: Seq<TokenModel>) -> Result<BoxOrientKeyword, ParseFailure> {
    if input.len() == 0 {
        Err(ParseFailure::EndOfInput(Expected::Keyword))
    } else {
        parse_token(input[0])
    }
}

/// The initial value of the property.
#[inline]
pub fn get_initial_value() -> (r: BoxOrientKeyword)
    ensures
        r == BoxOrientKeyword::Horizontal,
{
    BoxOrientKeyword::Horizontal
}

/// Parses the value of the property from the tokenizer's input: consumes
/// one token, which must be one of the four keywords in any letter case.
#[inline]
pub fn parse(_context: &ParserContext, input: &mut cssparser::Parser) -> (r: Result<
    BoxOrientKeyword,
    ParseError,
>)
    ensures
        agrees(r, parse_tokens(pending_tokens(*old(input)))),
        pending(*final(input)) == rest(pending(*old(input))),
{
    BoxOrientKeyword::parse(input)
}

impl BoxOrientKeyword {
    /// The keyword that an identifier stands for, if any.
    pub fn from_ident(ident: &str) -> (r: Option<BoxOrientKeyword>)
        ensures
            r == keyword_of_ident(ident@),
    {
        if eq_ignore_ascii_case(ident, "inline-axis") {
            Some(BoxOrientKeyword::InlineAxis)
        } else if eq_ignore_ascii_case(ident, "block-axis") {
            Some(BoxOrientKeyword::BlockAxis)
        } else if eq_ignore_ascii_case(ident, "horizontal") {
            Some(BoxOrientKeyword::Horizontal)
        } else if eq_ignore_ascii_case(ident, "vertical") {
            Some(BoxOrientKeyword::Vertical)
        } else {
            None
        }
    }

    /// Parses one keyword from the tokenizer's input, consuming one token.
    #[inline]
    pub fn parse(input: &mut cssparser::Parser) -> (r: Result<BoxOrientKeyword, ParseError>)
        ensures
            agrees(r, parse_tokens(pending_tokens(*old(input)))),
            pending(*final(input)) == rest(pending(*old(input))),
    {
        let mut stream: TokenStream = next_as_stream(input);
        BoxOrientKeyword::parse_stream(&mut stream)
    }

    /// Parses one keyword from the stream, consuming one token.
    pub fn parse_stream(input: &mut TokenStream) -> (r: Result<BoxOrientKeyword, ParseError>)
        ensures
            agrees(r, parse_tokens(old(input)@)),
            final(input)@ == rest(old(input)@),
    {
        match input.next() {
            None => Err(ParseError::EndOfInput(Expected::Keyword)),
            Some(Token::Ident(s)) => match BoxOrientKeyword::from_ident(s.as_str()) {
                Some(k) => Ok(k),
                None => Err(ParseError::UnknownKeyword(s)),
            },
            Some(_) => Err(ParseError::UnexpectedToken(Expected::Keyword)),
        }
    }

    /// The text of the keyword.
    pub fn to_css(&self) -> (r: String)
        ensures
            r@ == token_text(*self),
    {
        match self {
            BoxOrientKeyword::InlineAxis => "inline-axis".to_owned(),
            BoxOrientKeyword::BlockAxis => "block-axis".to_owned(),
            BoxOrientKeyword::Horizontal => "horizontal".to_owned(),
            BoxOrientKeyword::Vertical => "vertical".to_owned(),
        }
    }
}

impl BoxOrientKeyword {
    /// The number of the keyword in the keyword table of the property.
    pub open spec fn variant_of(self) -> u32 {
        match self {
            BoxOrientKeyword::InlineAxis => 0,
            BoxOrientKeyword::BlockAxis => 1,
            BoxOrientKeyword::Horizontal => 2,
            BoxOrientKeyword::Vertical => 3,
        }
    }

    /// The number of the keyword in the keyword table of the property.
    pub fn variant(self) -> (r: u32)
        ensures
            r == self.variant_of(),
    {
        match self {
            BoxOrientKeyword::InlineAxis => 0,
            BoxOrientKeyword::BlockAxis => 1,
            BoxOrientKeyword::Horizontal => 2,
            BoxOrientKeyword::Vertical => 3,
        }
    }

    /// The keyword with the given number, if there is one.
    pub fn from_variant(variant: u32) -> (r: Option<BoxOrientKeyword>)
        ensures
            r == keyword_numbered(variant),
    {
        if variant == 0 {
            Some(BoxOrientKeyword::InlineAxis)
        } else if variant == 1 {
            Some(BoxOrientKeyword::BlockAxis)
        } else if variant == 2 {
            Some(BoxOrientKeyword::Horizontal)
        } else if variant == 3 {
            Some(BoxOrientKeyword::Vertical)
        } else {
            None
        }
    }
}

/// The keyword with the given number, if there is one.
pub open spec fn keyword_numbered(variant: u32) -> Option<BoxOrientKeyword> {
    if variant == 0 {
        Some(BoxOrientKeyword::InlineAxis)
    } else if variant == 1 {
        Some(BoxOrientKeyword::BlockAxis)
    } else if variant == 2 {
        Some(BoxOrientKeyword::Horizontal)
    } else if variant == 3 {
        Some(BoxOrientKeyword::Vertical)
    } else {
        None
    }
}

/// The row of a keyword in the keyword table.
pub open spec fn row_of(k: BoxOrientKeyword) -> Row {
    Row { token: token_text(k), variant: k.variant_of() }
}

/// The keyword table of the property: the four keywords in declaration
/// order, `horizontal` as the initial value, and no passthrough value.
pub open spec fn table() -> KeywordTable {
    KeywordTable {
        rows: seq![
            row_of(BoxOrientKeyword::InlineAxis),
            row_of(BoxOrientKeyword::BlockAxis),
            row_of(BoxOrientKeyword::Horizontal),
            row_of(BoxOrientKeyword::Vertical),
        ],
        initial: 2,
        inexhaustive: false,
    }
}

/// No two of the four tokens are the same, even with case ignored.
pub proof fn lemma_tokens_differ(a: BoxOrientKeyword, b: BoxOrientKeyword)
    requires
        a != b,
    ensures
        !same_ignoring_case(token_text(a), token_text(b)),
{
    reveal_strlit("inline-axis");
    reveal_strlit("block-axis");
    reveal_strlit("horizontal");
    reveal_strlit("vertical");
    let fa = fold(token_text(a));
    let fb = fold(token_text(b));
    if fa.len() == fb.len() {
        assert(fa[0] != fb[0]);
    }
}

/// Every keyword parses from its own text, and from no other keyword's text.
pub proof fn law_keyword_round_trip(k: BoxOrientKeyword)
    ensures
        keyword_of_ident(token_text(k)) == Some(k),
        parse_token(TokenModel::Ident(token_text(k))) == Result::<
            BoxOrientKeyword,
            ParseFailure,
        >::Ok(k),
{
    if k != BoxOrientKeyword::InlineAxis {
        lemma_tokens_differ(k, BoxOrientKeyword::InlineAxis);
    }
    if k != BoxOrientKeyword::BlockAxis {
        lemma_tokens_differ(k, BoxOrientKeyword::BlockAxis);
    }
    if k != BoxOrientKeyword::Horizontal {
        lemma_tokens_differ(k, BoxOrientKeyword::Horizontal);
    }
}

/// Whatever text parses to a keyword differs from the keyword's own text
/// at most in the case of its letters.
pub proof fn law_parsed_text_matches(ident: Seq<char>)
    ensures
        keyword_of_ident(ident) matches Some(k) ==> same_ignoring_case(ident, token_text(k)),
{
}

/// Two identifiers that differ only in letter case parse alike.
pub proof fn law_keyword_ignores_case(a: Seq<char>, b: Seq<char>)
    requires
        same_ignoring_case(a, b),
    ensures
        keyword_of_ident(a) == keyword_of_ident(b),
{
}

/// The keyword at each place of the table.
spec fn keyword_at(i: int) -> BoxOrientKeyword {
    if i == 0 {
        BoxOrientKeyword::InlineAxis
    } else if i == 1 {
        BoxOrientKeyword::BlockAxis
    } else if i == 2 {
        BoxOrientKeyword::Horizontal
    } else {
        BoxOrientKeyword::Vertical
    }
}

/// The keyword table of the property is well formed.
pub proof fn lemma_table_well_formed()
    ensures
        table().well_formed(),
{
    let t = table();
    assert forall|j: int| 0 <= j < t.rows.len() implies !token_clash_at(t.rows, j) by {
        assert forall|i: int| 0 <= i < j implies !same_ignoring_case(
            #[trigger] t.rows[i].token,
            t.rows[j].token,
        ) by {
            assert(t.rows[i] == row_of(keyword_at(i)));
            assert(t.rows[j] == row_of(keyword_at(j)));
            lemma_tokens_differ(keyword_at(i), keyword_at(j));
        }
    }
    assert forall|j: int| 0 <= j < t.rows.len() implies !variant_clash_at(t.rows, j) by {
        assert forall|i: int| 0 <= i < j implies (#[trigger] t.rows[i]).variant
            != t.rows[j].variant by {
            assert(t.rows[i] == row_of(keyword_at(i)));
            assert(t.rows[j] == row_of(keyword_at(j)));
        }
    }
    assert(t.rows[2].variant == t.initial);
}

/// The keyword table parses an identifier to the number of the keyword
/// that the identifier stands for.
pub proof fn law_table_agrees(ident: Seq<char>)
    ensures
        table().parse(ident) == match keyword_of_ident(ident) {
            Some(k) => Some(KeywordValue::Variant(k.variant_of())),
            None => None,
        },
{
    reveal_with_fuel(first_token_match, 5);
    let t = table();
    assert(t.rows[0] == row_of(BoxOrientKeyword::InlineAxis));
    assert(t.rows[1] == row_of(BoxOrientKeyword::BlockAxis));
    assert(t.rows[2] == row_of(BoxOrientKeyword::Horizontal));
    assert(t.rows[3] == row_of(BoxOrientKeyword::Vertical));
}

/// The keyword table of the property, compiled.
pub fn keyword_enum() -> (r: KeywordEnum)
    ensures
        r@ == table(),
{
    let mut entries: Vec<KeywordEntry> = Vec::new();
    entries.push(KeywordEntry { token: BoxOrientKeyword::InlineAxis.to_css(), variant: 0 });
    entries.push(KeywordEntry { token: BoxOrientKeyword::BlockAxis.to_css(), variant: 1 });
    entries.push(KeywordEntry { token: BoxOrientKeyword::Horizontal.to_css(), variant: 2 });
    entries.push(KeywordEntry { token: BoxOrientKeyword::Vertical.to_css(), variant: 3 });
    proof {
        assert(rows_of(entries@) =~= table().rows);
        lemma_table_well_formed();
    }
    match KeywordEnum::compile(entries, 2, false) {
        Ok(k) => k,
        Err(_) => {
            proof {
                assert(false);
            }
            unreached()
        },
    }
}

} // verus!
