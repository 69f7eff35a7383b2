//! Keyword enums: an ordered table of tokens and variants, compiled into a
//! case-insensitive parser and a serializer that are inverse to each other.

use vstd::prelude::*;
use crate::text::{eq_ignore_ascii_case, same_ignoring_case};
use crate::token::{rest, Token, TokenModel, TokenStream};
use crate::value::{agrees, Expected, ParseError, ParseFailure};

verus! {

/// One row of a keyword table as a mathematical value.
pub struct Row {
    pub token: Seq<char>,
    pub variant: u32,
}

/// The mathematical model of a keyword enum: its rows in declaration order,
/// the variant that is the initial value, and whether the backend may report
/// values that no token stands for.
pub struct KeywordTable {
    pub rows: Seq<Row>,
    pub initial: u32,
    pub inexhaustive: bool,
}

/// A value of a keyword property.
#[derive(Clone, Copy, Debug, PartialEq, Eq, Structural)]
pub enum KeywordValue {
    /// A declared variant.
    Variant(u32),
    /// A value that only the backend can report; no token produces it.
    Passthrough,
}

/// Index of the first row at or after `from` whose token matches `ident`
/// without regard to case.
pub open spec fn first_token_match(rows: Seq<Row>, ident: Seq<char>, from: int) -> Option<int>
    decreases rows.len() - from,
{
    if from < 0 || from >= rows.len() {
        None
    } else if same_ignoring_case(rows[from].token, ident) {
        Some(from)
    } else {
        first_token_match(rows, ident, from + 1)
    }
}

/// Index of the first row at or after `from` that holds `variant`.
pub open spec fn first_variant_match(rows: Seq<Row>, variant: u32, from: int) -> Option<int>
    decreases rows.len() - from,
{
    if from < 0 || from >= rows.len() {
        None
    } else if rows[from].variant == variant {
        Some(from)
    } else {
        first_variant_match(rows, variant, from + 1)
    }
}

/// Row `j` repeats the token of an earlier row, case ignored.
pub open spec fn token_clash_at(rows: Seq<Row>, j: int) -> bool {
    exists|i: int| 0 <= i < j && same_ignoring_case(#[trigger] rows[i].token, rows[j].token)
}

/// Row `j` repeats the variant of an earlier row.
pub open spec fn variant_clash_at(rows: Seq<Row>, j: int) -> bool {
    exists|i: int| 0 <= i < j && (#[trigger] rows[i]).variant == rows[j].variant
}

impl KeywordTable {
    /// No two rows share a token, case ignored.
    pub open spec fn tokens_distinct(self) -> bool {
        forall|j: int| 0 <= j < self.rows.len() ==> !token_clash_at(self.rows, j)
    }

    /// No two rows share a variant.
    pub open spec fn variants_distinct(self) -> bool {
        forall|j: int| 0 <= j < self.rows.len() ==> !variant_clash_at(self.rows, j)
    }

    /// Some row holds `variant`.
    pub open spec fn declares(self, variant: u32) -> bool {
        exists|i: int| 0 <= i < self.rows.len() && (#[trigger] self.rows[i]).variant == variant
    }

    /// The invariant of a compiled keyword enum.
    pub open spec fn well_formed(self) -> bool {
        &&& self.tokens_distinct()
        &&& self.variants_distinct()
        &&& self.declares(self.initial)
    }

    /// What parsing `ident` yields: the variant of the first matching row.
    pub open spec fn parse(self, ident: Seq<char>) -> Option<KeywordValue> {
        match first_token_match(self.rows, ident, 0) {
            Some(i) => Some(KeywordValue::Variant(self.rows[i].variant)),
            None => None,
        }
    }

    /// The text of a value: the registered spelling of the first row that
    /// holds the variant. The passthrough value has no text.
    pub open spec fn text_of(self, value: KeywordValue) -> Option<Seq<char>> {
        match value {
            KeywordValue::Variant(v) => match first_variant_match(self.rows, v, 0) {
                Some(i) => Some(self.rows[i].token),
                None => None,
            },
            KeywordValue::Passthrough => None,
        }
    }

    /// What one token parses to: the variant where it is an identifier
    /// that matches a row; the identifier is reported where it matches
    /// none, and a token of another kind is unexpected.
    pub open spec fn parse_token(self, t: TokenModel) -> Result<KeywordValue, ParseFailure> {
        match t {
            TokenModel::Ident(s) => match self.parse(s) {
                Some(v) => Ok(v),
                None => Err(ParseFailure::UnknownKeyword(s)),
            },
            _ => Err(ParseFailure::UnexpectedToken(Expected::Keyword)),
        }
    }

    /// What a stream parses to: what its first token parses to.
    pub open spec fn parse_tokens(self, input: Seq<TokenModel>) -> Result<
        KeywordValue,
        ParseFailure,
    > {
        if input.len() == 0 {
            Err(ParseFailure::EndOfInput(Expected::Keyword))
        } else {
            self.parse_token(input[0])
        }
    }

    /// The values that a property of this enum may take.
    pub open spec fn is_legal(self, value: KeywordValue) -> bool {
        match value {
            KeywordValue::Variant(v) => self.declares(v),
            KeywordValue::Passthrough => self.inexhaustive,
        }
    }
}

/// The first match is a match, lies at or after `from`, and nothing before it matches.
pub proof fn lemma_first_token_match(rows: Seq<Row>, ident: Seq<char>, from: int)
    requires
        0 <= from,
    ensures
        match first_token_match(rows, ident, from) {
            Some(i) => {
                &&& from <= i < rows.len()
                &&& same_ignoring_case(rows[i].token, ident)
                &&& forall|j: int| from <= j < i ==> !same_ignoring_case(#[trigger] rows[j].token, ident)
            },
            None => forall|j: int|
                from <= j < rows.len() ==> !same_ignoring_case(#[trigger] rows[j].token, ident),
        },
    decreases rows.len() - from,
{
    if from < rows.len() && !same_ignoring_case(rows[from].token, ident) {
        lemma_first_token_match(rows, ident, from + 1);
    }
}

/// The first row with a variant holds it, lies at or after `from`, and none before it does.
pub proof fn lemma_first_variant_match(rows: Seq<Row>, variant: u32, from: int)
    requires
        0 <= from,
    ensures
        match first_variant_match(rows, variant, from) {
            Some(i) => {
                &&& from <= i < rows.len()
                &&& rows[i].variant == variant
                &&& forall|j: int| from <= j < i ==> (#[trigger] rows[j]).variant != variant
            },
            None => forall|j: int| from <= j < rows.len() ==> (#[trigger] rows[j]).variant != variant,
        },
    decreases rows.len() - from,
{
    if from < rows.len() && rows[from].variant != variant {
        lemma_first_variant_match(rows, variant, from + 1);
    }
}

/// In a well-formed table, parsing the registered spelling of a row yields
/// that row's variant, and serializing the variant gives the spelling back
/// exactly as it was registered.
pub proof fn law_token_round_trip(t: KeywordTable, i: int)
    requires
        t.well_formed(),
        0 <= i < t.rows.len(),
    ensures
        t.parse(t.rows[i].token) == Some(KeywordValue::Variant(t.rows[i].variant)),
        t.text_of(t.parse(t.rows[i].token).unwrap()) == Some(t.rows[i].token),
{
    let ident = t.rows[i].token;
    lemma_first_token_match(t.rows, ident, 0);
    let k = first_token_match(t.rows, ident, 0).unwrap();
    if k < i {
        assert(token_clash_at(t.rows, i));
    }
    assert(k == i);
    lemma_first_variant_match(t.rows, t.rows[i].variant, 0);
    let m = first_variant_match(t.rows, t.rows[i].variant, 0).unwrap();
    if m < i {
        assert(variant_clash_at(t.rows, i));
    }
    assert(m == i);
}

/// In a well-formed table, every declared variant has a text, and parsing
/// that text yields the variant again.
pub proof fn law_variant_round_trip(t: KeywordTable, variant: u32)
    requires
        t.well_formed(),
        t.declares(variant),
    ensures
        t.text_of(KeywordValue::Variant(variant)) is Some,
        t.parse(t.text_of(KeywordValue::Variant(variant)).unwrap()) == Some(
            KeywordValue::Variant(variant),
        ),
{
    lemma_first_variant_match(t.rows, variant, 0);
    let m = first_variant_match(t.rows, variant, 0).unwrap();
    law_token_round_trip(t, m);
}

/// A table in which two rows have the same token, case ignored, is not
/// well formed, whatever else it holds.
pub proof fn law_duplicate_token_is_refused(t: KeywordTable, i: int, j: int)
    requires
        0 <= i < j < t.rows.len(),
        same_ignoring_case(t.rows[i].token, t.rows[j].token),
    ensures
        !t.well_formed(),
{
    assert(token_clash_at(t.rows, j));
}

/// Two spellings that differ only in the case of ASCII letters parse alike.
pub proof fn law_parse_ignores_case(t: KeywordTable, a: Seq<char>, b: Seq<char>)
    requires
        same_ignoring_case(a, b),
    ensures
        t.parse(a) == t.parse(b),
{
    lemma_match_ignores_case(t.rows, a, b, 0);
}

/// The first match from any row on is the same for two identifiers that
/// differ only in letter case.
proof fn lemma_match_ignores_case(rows: Seq<Row>, a: Seq<char>, b: Seq<char>, from: int)
    requires
        same_ignoring_case(a, b),
    ensures
        first_token_match(rows, a, from) == first_token_match(rows, b, from),
    decreases rows.len() - from,
{
    if 0 <= from < rows.len() && !same_ignoring_case(rows[from].token, a) {
        lemma_match_ignores_case(rows, a, b, from + 1);
    }
}

/// The passthrough value is legal exactly where the table is inexhaustive,
/// and no text parses to it.
pub proof fn law_passthrough_never_parsed(t: KeywordTable, ident: Seq<char>)
    ensures
        t.is_legal(KeywordValue::Passthrough) == t.inexhaustive,
        t.parse(ident) != Some(KeywordValue::Passthrough),
        t.text_of(KeywordValue::Passthrough) is None,
{
}

/// Whatever parsing yields is a declared variant, hence a legal value.
pub proof fn law_parsed_is_declared(t: KeywordTable, ident: Seq<char>)
    ensures
        t.parse(ident) matches Some(v) ==> t.is_legal(v) && v is Variant,
{
    lemma_first_token_match(t.rows, ident, 0);
}

/// One declared row: the token as it is written in style text, and the
/// variant that it stands for.
#[derive(Clone, Debug)]
pub struct KeywordEntry {
    pub token: String,
    pub variant: u32,
}

impl View for KeywordEntry {
    type V = Row;

    open spec fn view(&self) -> Row {
        Row { token: self.token@, variant: self.variant }
    }
}

/// The rows that a list of entries declares.
pub open spec fn rows_of(entries: Seq<KeywordEntry>) -> Seq<Row> {
    Seq::new(entries.len(), |i: int| entries[i]@)
}

/// Why a keyword table was refused.
#[derive(Clone, Copy, Debug, PartialEq, Eq, Structural)]
pub enum KeywordError {
    /// The row at this index repeats the token of an earlier row, case ignored.
    DuplicateToken(usize),
    /// The row at this index repeats the variant of an earlier row.
    DuplicateVariant(usize),
    /// No row holds the variant named as the initial value.
    UnknownInitial,
}

/// The error that a table is refused with: the first row that repeats a
/// token; where tokens are distinct, the first row that repeats a variant;
/// where both are distinct, an initial variant that no row holds.
pub open spec fn refused_with(t: KeywordTable, e: KeywordError) -> bool {
    match e {
        KeywordError::DuplicateToken(j) => {
            &&& j < t.rows.len()
            &&& token_clash_at(t.rows, j as int)
            &&& forall|k: int| 0 <= k < j ==> !token_clash_at(t.rows, k)
        },
        KeywordError::DuplicateVariant(j) => {
            &&& t.tokens_distinct()
            &&& j < t.rows.len()
            &&& variant_clash_at(t.rows, j as int)
            &&& forall|k: int| 0 <= k < j ==> !variant_clash_at(t.rows, k)
        },
        KeywordError::UnknownInitial => {
            &&& t.tokens_distinct()
            &&& t.variants_distinct()
            &&& !t.declares(t.initial)
        },
    }
}

/// A compiled keyword enum. Every value of this type is well formed.
#[derive(Debug)]
pub struct KeywordEnum {
    entries: Vec<KeywordEntry>,
    initial: u32,
    inexhaustive: bool,
}

impl View for KeywordEnum {
    type V = KeywordTable;

    closed spec fn view(&self) -> KeywordTable {
        KeywordTable {
            rows: rows_of(self.entries@),
            initial: self.initial,
            inexhaustive: self.inexhaustive,
        }
    }
}

impl KeywordEnum {
    #[verifier::type_invariant]
    spec fn holds_well_formed_table(self) -> bool {
        self@.well_formed()
    }

    /// Checks the rows and makes the enum. A table is accepted exactly when
    /// it is well formed; otherwise the error says what is wrong with it.
    pub fn compile(entries: Vec<KeywordEntry>, initial: u32, inexhaustive: bool) -> (r: Result<
        KeywordEnum,
        KeywordError,
    >)
        ensures
            r is Ok <==> (KeywordTable { rows: rows_of(entries@), initial, inexhaustive }).well_formed(),
            match r {
                Ok(k) => k@ == (KeywordTable { rows: rows_of(entries@), initial, inexhaustive }),
                Err(e) => refused_with(
                    (KeywordTable { rows: rows_of(entries@), initial, inexhaustive }),
                    e,
                ),
            },
    {
        let ghost t = KeywordTable { rows: rows_of(entries@), initial, inexhaustive };
        let n: usize = entries.len();
        let mut j: usize = 0;
        while j < n
            invariant
                j <= n,
                n == entries.len(),
                t.rows == rows_of(entries@),
                forall|k: int| 0 <= k < j ==> !token_clash_at(t.rows, k),
            decreases n - j,
        {
            let mut i: usize = 0;
            while i < j
                invariant
                    i <= j < n,
                    n == entries.len(),
                    t.rows == rows_of(entries@),
                    forall|k: int| 0 <= k < j ==> !token_clash_at(t.rows, k),
                    forall|k: int|
                        0 <= k < i ==> !same_ignoring_case(
                            #[trigger] t.rows[k].token,
                            t.rows[j as int].token,
                        ),
                decreases j - i,
            {
                if eq_ignore_ascii_case(entries[i].token.as_str(), entries[j].token.as_str()) {
                    assert(same_ignoring_case(t.rows[i as int].token, t.rows[j as int].token));
                    assert(token_clash_at(t.rows, j as int));
                    return Err(KeywordError::DuplicateToken(j));
                }
                i += 1;
            }
            j += 1;
        }
        assert(t.tokens_distinct());
        let mut j: usize = 0;
        while j < n
            invariant
                j <= n,
                n == entries.len(),
                t.rows == rows_of(entries@),
                t.tokens_distinct(),
                forall|k: int| 0 <= k < j ==> !variant_clash_at(t.rows, k),
            decreases n - j,
        {
            let mut i: usize = 0;
            while i < j
                invariant
                    i <= j < n,
                    n == entries.len(),
                    t.rows == rows_of(entries@),
                    t.tokens_distinct(),
                    forall|k: int| 0 <= k < j ==> !variant_clash_at(t.rows, k),
                    forall|k: int|
                        0 <= k < i ==> (#[trigger] t.rows[k]).variant != t.rows[j as int].variant,
                decreases j - i,
            {
                if entries[i].variant == entries[j].variant {
                    assert(t.rows[i as int].variant == t.rows[j as int].variant);
                    assert(variant_clash_at(t.rows, j as int));
                    return Err(KeywordError::DuplicateVariant(j));
                }
                i += 1;
            }
            j += 1;
        }
        assert(t.variants_distinct());
        let mut i: usize = 0;
        let mut found = false;
        while i < n && !found
            invariant
                i <= n,
                n == entries.len(),
                t.rows == rows_of(entries@),
                t.initial == initial,
                found ==> t.declares(initial),
                !found ==> forall|k: int| 0 <= k < i ==> (#[trigger] t.rows[k]).variant != initial,
            decreases n - i + (if found { 0int } else { 1int }),
        {
            if entries[i].variant == initial {
                assert(t.rows[i as int].variant == initial);
                found = true;
            } else {
                i += 1;
            }
        }
        if !found {
            return Err(KeywordError::UnknownInitial);
        }
        Ok(KeywordEnum { entries, initial, inexhaustive })
    }

    /// Parses one identifier: the variant of the row whose token matches it,
    /// case ignored, or nothing where no row matches.
    pub fn parse_ident(&self, ident: &str) -> (r: Option<KeywordValue>)
        ensures
            self@.well_formed(),
            r == self@.parse(ident@),
    {
        proof {
            use_type_invariant(self);
        }
        let n: usize = self.entries.len();
        let mut i: usize = 0;
        while i < n
            invariant
                i <= n,
                n == self.entries.len(),
                self@.well_formed(),
                first_token_match(self@.rows, ident@, 0) == first_token_match(
                    self@.rows,
                    ident@,
                    i as int,
                ),
            decreases n - i,
        {
            if eq_ignore_ascii_case(self.entries[i].token.as_str(), ident) {
                return Some(KeywordValue::Variant(self.entries[i].variant));
            }
            i += 1;
        }
        None
    }

    /// Parses the value of a keyword property: consumes one token, which
    /// must be an identifier that matches a row, case ignored.
    pub fn parse(&self, input: &mut TokenStream) -> (r: Result<KeywordValue, ParseError>)
        ensures
            self@.well_formed(),
            agrees(r, self@.parse_tokens(old(input)@)),
            final(input)@ == rest(old(input)@),
    {
        proof {
            use_type_invariant(self);
        }
        match input.next() {
            None => Err(ParseError::EndOfInput(Expected::Keyword)),
            Some(Token::Ident(s)) => match self.parse_ident(s.as_str()) {
                Some(v) => Ok(v),
                None => Err(ParseError::UnknownKeyword(s)),
            },
            Some(_) => Err(ParseError::UnexpectedToken(Expected::Keyword)),
        }
    }

    /// Serializes a value: the token of its variant, spelled as registered.
    /// The passthrough value and undeclared variants have no text.
    pub fn to_text(&self, value: KeywordValue) -> (r: Option<String>)
        ensures
            self@.well_formed(),
            match r {
                Some(s) => self@.text_of(value) == Some(s@),
                None => self@.text_of(value) is None,
            },
    {
        proof {
            use_type_invariant(self);
        }
        match value {
            KeywordValue::Passthrough => None,
            KeywordValue::Variant(v) => {
                let n: usize = self.entries.len();
                let mut i: usize = 0;
                while i < n
                    invariant
                        i <= n,
                        n == self.entries.len(),
                        self@.well_formed(),
                        value == KeywordValue::Variant(v),
                        first_variant_match(self@.rows, v, 0) == first_variant_match(
                            self@.rows,
                            v,
                            i as int,
                        ),
                    decreases n - i,
                {
                    if self.entries[i].variant == v {
                        return Some(self.entries[i].token.clone());
                    }
                    i += 1;
                }
                None
            },
        }
    }

    /// The initial value, which is one of the declared variants.
    pub fn initial_value(&self) -> (r: KeywordValue)
        ensures
            self@.well_formed(),
            r == KeywordValue::Variant(self@.initial),
            self@.is_legal(r),
    {
        proof {
            use_type_invariant(self);
        }
        KeywordValue::Variant(self.initial)
    }

    /// Whether the backend may report values that no token stands for.
    pub fn is_inexhaustive(&self) -> (r: bool)
        ensures
            r == self@.inexhaustive,
    {
        self.inexhaustive
    }

    /// The number of rows.
    pub fn len(&self) -> (r: usize)
        ensures
            self@.well_formed(),
            r == self@.rows.len(),
    {
        proof {
            use_type_invariant(self);
        }
        self.entries.len()
    }

    /// The row at `index`, in declaration order.
    pub fn entry(&self, index: usize) -> (r: &KeywordEntry)
        requires
            index < self@.rows.len(),
        ensures
            r@ == self@.rows[index as int],
    {
        &self.entries[index]
    }

    /// Whether `value` may be the value of a property of this enum.
    pub fn is_legal(&self, value: KeywordValue) -> (r: bool)
        ensures
            r == self@.is_legal(value),
    {
        match value {
            KeywordValue::Passthrough => self.inexhaustive,
            KeywordValue::Variant(v) => {
                let n: usize = self.entries.len();
                let mut i: usize = 0;
                while i < n
                    invariant
                        i <= n,
                        n == self.entries.len(),
                        value == KeywordValue::Variant(v),
                        forall|k: int| 0 <= k < i ==> (#[trigger] self@.rows[k]).variant != v,
                    decreases n - i,
                {
                    if self.entries[i].variant == v {
                        assert(self@.rows[i as int].variant == v);
                        return true;
                    }
                    i += 1;
                }
                false
            },
        }
    }
}

} // verus!
