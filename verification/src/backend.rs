//! Binding of keyword values to the identifiers of a backend whose storage
//! is owned elsewhere: each variant gets one identifier, derived from a
//! prefix and the variant's token, and each identifier leads back to one
//! variant.

use vstd::prelude::*;
use crate::keyword::{variant_clash_at, KeywordEnum, KeywordTable, KeywordValue, Row};
use crate::text::{chars_of, string_from_chars, text_eq};

verus! {

/// One ASCII small letter becomes its capital; every other character is kept.
pub open spec fn ascii_upper(c: char) -> char {
    if 'a' <= c && c <= 'z' {
        ((c as u32) - 32) as char
    } else {
        c
    }
}

/// The token in the case of constants: letters capital, hyphens turned
/// into underscores.
pub open spec fn constant_case(token: Seq<char>) -> Seq<char> {
    Seq::new(
        token.len(),
        |i: int|
            if token[i] == '-' {
                '_'
            } else {
                ascii_upper(token[i])
            },
    )
}

/// What the first `n` characters of a token give in camel case: hyphens
/// are dropped, and the character at the start and each one after a hyphen
/// is made capital.
pub open spec fn camel_prefix(token: Seq<char>, n: int) -> Seq<char>
    decreases n,
{
    if n <= 0 {
        Seq::empty()
    } else {
        let before = camel_prefix(token, n - 1);
        let c = token[n - 1];
        if c == '-' {
            before
        } else if n == 1 || token[n - 2] == '-' {
            before.push(ascii_upper(c))
        } else {
            before.push(c)
        }
    }
}

/// The token in camel case.
pub open spec fn camel_case(token: Seq<char>) -> Seq<char> {
    camel_prefix(token, token.len() as int)
}

/// The prefix from which the identifiers of a property are derived.
pub enum PrefixModel {
    /// The name of an enum; identifiers are its members, in camel case.
    Enum(Seq<char>),
    /// The stem of a family of constants, in constant case.
    Constant(Seq<char>),
}

/// The identifier that the backend has for the variant with this token.
pub open spec fn backend_identifier(prefix: PrefixModel, token: Seq<char>) -> Seq<char> {
    match prefix {
        PrefixModel::Enum(p) => p + seq![':', ':'] + camel_case(token),
        PrefixModel::Constant(p) => p + seq!['_'] + constant_case(token),
    }
}

/// The prefix from which the identifiers of a property are derived.
#[derive(Clone, Debug, PartialEq, Eq)]
pub enum Prefix {
    /// The name of an enum; identifiers are its members, in camel case.
    Enum(String),
    /// The stem of a family of constants, in constant case.
    Constant(String),
}

impl View for Prefix {
    type V = PrefixModel;

    open spec fn view(&self) -> PrefixModel {
        match self {
            Prefix::Enum(p) => PrefixModel::Enum(p@),
            Prefix::Constant(p) => PrefixModel::Constant(p@),
        }
    }
}

/// Makes one ASCII small letter capital.
fn to_upper(c: char) -> (r: char)
    ensures
        r == ascii_upper(c),
{
    if 'a' <= c && c <= 'z' {
        let n: u8 = (c as u8) - 32;
        n as char
    } else {
        c
    }
}

/// Appends every character of `piece` to `out`.
fn push_all(out: &mut Vec<char>, piece: &Vec<char>)
    ensures
        final(out)@ == old(out)@ + piece@,
{
    let mut i: usize = 0;
    while i < piece.len()
        invariant
            i <= piece.len(),
            out@ == old(out)@ + piece@.take(i as int),
        decreases piece.len() - i,
    {
        out.push(piece[i]);
        assert(out@ =~= old(out)@ + piece@.take(i + 1));
        i += 1;
    }
    assert(piece@.take(piece.len() as int) =~= piece@);
}

impl Prefix {
    /// Derives the identifier of the variant with the given token.
    pub fn identifier(&self, token: &str) -> (r: String)
        ensures
            r@ == backend_identifier(self@, token@),
    {
        let t: Vec<char> = chars_of(token);
        let mut out: Vec<char> = Vec::new();
        match self {
            Prefix::Enum(p) => {
                let stem: Vec<char> = chars_of(p.as_str());
                push_all(&mut out, &stem);
                out.push(':');
                out.push(':');
                let ghost head = out@;
                assert(head =~= p@ + seq![':', ':']);
                let mut i: usize = 0;
                while i < t.len()
                    invariant
                        i <= t.len(),
                        out@ == head + camel_prefix(t@, i as int),
                    decreases t.len() - i,
                {
                    let c: char = t[i];
                    if c != '-' {
                        if i == 0 || t[i - 1] == '-' {
                            out.push(to_upper(c));
                        } else {
                            out.push(c);
                        }
                    }
                    assert(out@ =~= head + camel_prefix(t@, i + 1));
                    i += 1;
                }
            },
            Prefix::Constant(p) => {
                let stem: Vec<char> = chars_of(p.as_str());
                push_all(&mut out, &stem);
                out.push('_');
                let ghost head = out@;
                assert(head =~= p@ + seq!['_']);
                let mut i: usize = 0;
                while i < t.len()
                    invariant
                        i <= t.len(),
                        out@ == head + constant_case(t@).take(i as int),
                    decreases t.len() - i,
                {
                    let c: char = t[i];
                    if c == '-' {
                        out.push('_');
                    } else {
                        out.push(to_upper(c));
                    }
                    assert(out@ =~= head + constant_case(t@).take(i + 1));
                    i += 1;
                }
                assert(constant_case(t@).take(t.len() as int) =~= constant_case(t@));
            },
        }
        string_from_chars(&out)
    }
}

/// The binding record of a property, as a mathematical value.
pub struct BindingModel {
    pub field_name: Seq<char>,
    pub prefix: Option<PrefixModel>,
    pub inexhaustive: bool,
}

/// The binding record of a property that targets the bound backend: the
/// storage field, the prefix of its identifiers where it has any, and
/// whether the backend may report values beyond the declared ones.
#[derive(Clone, Debug, PartialEq, Eq)]
pub struct BackendBinding {
    pub field_name: String,
    pub prefix: Option<Prefix>,
    pub inexhaustive: bool,
}

impl View for BackendBinding {
    type V = BindingModel;

    open spec fn view(&self) -> BindingModel {
        BindingModel {
            field_name: self.field_name@,
            prefix: match self.prefix {
                Some(p) => Some(p@),
                None => None,
            },
            inexhaustive: self.inexhaustive,
        }
    }
}

/// One pair of a backend identifier and the variant it stands for.
pub struct Link {
    pub identifier: Seq<char>,
    pub variant: u32,
}

/// The mathematical model of a backend map.
pub struct BackendTable {
    pub field_name: Seq<char>,
    pub links: Seq<Link>,
    pub inexhaustive: bool,
}

/// The links that a keyword table has under a prefix, row by row.
pub open spec fn links_of(rows: Seq<Row>, prefix: PrefixModel) -> Seq<Link> {
    Seq::new(
        rows.len(),
        |i: int|
            Link { identifier: backend_identifier(prefix, rows[i].token), variant: rows[i].variant },
    )
}

/// Link `j` has the identifier of an earlier link.
pub open spec fn identifier_clash_at(links: Seq<Link>, j: int) -> bool {
    exists|i: int| 0 <= i < j && (#[trigger] links[i]).identifier == links[j].identifier
}

/// Index of the first link at or after `from` with this identifier.
pub open spec fn first_identifier_match(links: Seq<Link>, identifier: Seq<char>, from: int) -> Option<
    int,
>
    decreases links.len() - from,
{
    if from < 0 || from >= links.len() {
        None
    } else if links[from].identifier == identifier {
        Some(from)
    } else {
        first_identifier_match(links, identifier, from + 1)
    }
}

/// Index of the first link at or after `from` with this variant.
pub open spec fn first_link_of(links: Seq<Link>, variant: u32, from: int) -> Option<int>
    decreases links.len() - from,
{
    if from < 0 || from >= links.len() {
        None
    } else if links[from].variant == variant {
        Some(from)
    } else {
        first_link_of(links, variant, from + 1)
    }
}

impl BackendTable {
    /// No two links share an identifier.
    pub open spec fn identifiers_distinct(self) -> bool {
        forall|j: int| 0 <= j < self.links.len() ==> !identifier_clash_at(self.links, j)
    }

    /// No two links share a variant.
    pub open spec fn variants_distinct(self) -> bool {
        forall|i: int, j: int|
            0 <= i < j < self.links.len() ==> (#[trigger] self.links[i]).variant != (
            #[trigger] self.links[j]).variant
    }

    /// The map is one to one.
    pub open spec fn well_formed(self) -> bool {
        self.identifiers_distinct() && self.variants_distinct()
    }

    /// Some link holds `variant`.
    pub open spec fn binds(self, variant: u32) -> bool {
        exists|i: int| 0 <= i < self.links.len() && (#[trigger] self.links[i]).variant == variant
    }

    /// The identifier of a value. The passthrough value has none.
    pub open spec fn identifier_of(self, value: KeywordValue) -> Option<Seq<char>> {
        match value {
            KeywordValue::Variant(v) => match first_link_of(self.links, v, 0) {
                Some(i) => Some(self.links[i].identifier),
                None => None,
            },
            KeywordValue::Passthrough => None,
        }
    }

    /// The value that the backend reports by an identifier: the variant
    /// that it is linked to; else the passthrough value, where the map is
    /// inexhaustive; else none.
    pub open spec fn value_of(self, identifier: Seq<char>) -> Option<KeywordValue> {
        match first_identifier_match(self.links, identifier, 0) {
            Some(i) => Some(KeywordValue::Variant(self.links[i].variant)),
            None => if self.inexhaustive {
                Some(KeywordValue::Passthrough)
            } else {
                None
            },
        }
    }
}

/// The first link with an identifier has it, and none before it does.
pub proof fn lemma_first_identifier_match(links: Seq<Link>, identifier: Seq<char>, from: int)
    requires
        0 <= from,
    ensures
        match first_identifier_match(links, identifier, from) {
            Some(i) => {
                &&& from <= i < links.len()
                &&& links[i].identifier == identifier
                &&& forall|j: int| from <= j < i ==> (#[trigger] links[j]).identifier != identifier
            },
            None => forall|j: int|
                from <= j < links.len() ==> (#[trigger] links[j]).identifier != identifier,
        },
    decreases links.len() - from,
{
    if from < links.len() && links[from].identifier != identifier {
        lemma_first_identifier_match(links, identifier, from + 1);
    }
}

/// The first link with a variant has it, and none before it does.
pub proof fn lemma_first_link_of(links: Seq<Link>, variant: u32, from: int)
    requires
        0 <= from,
    ensures
        match first_link_of(links, variant, from) {
            Some(i) => {
                &&& from <= i < links.len()
                &&& links[i].variant == variant
                &&& forall|j: int| from <= j < i ==> (#[trigger] links[j]).variant != variant
            },
            None => forall|j: int| from <= j < links.len() ==> (#[trigger] links[j]).variant != variant,
        },
    decreases links.len() - from,
{
    if from < links.len() && links[from].variant != variant {
        lemma_first_link_of(links, variant, from + 1);
    }
}

/// In a one-to-one map, every bound variant has an identifier, and the
/// backend reports exactly that variant by it.
pub proof fn law_variant_to_backend_and_back(t: BackendTable, variant: u32)
    requires
        t.well_formed(),
        t.binds(variant),
    ensures
        t.identifier_of(KeywordValue::Variant(variant)) is Some,
        t.value_of(t.identifier_of(KeywordValue::Variant(variant)).unwrap()) == Some(
            KeywordValue::Variant(variant),
        ),
{
    lemma_first_link_of(t.links, variant, 0);
    let i = first_link_of(t.links, variant, 0).unwrap();
    let identifier = t.links[i].identifier;
    lemma_first_identifier_match(t.links, identifier, 0);
    let k = first_identifier_match(t.links, identifier, 0).unwrap();
    if k < i {
        assert(identifier_clash_at(t.links, i));
    }
}

/// In a one-to-one map, an identifier that the backend reports a variant
/// by is the identifier of that variant.
pub proof fn law_backend_to_variant_and_back(t: BackendTable, identifier: Seq<char>)
    requires
        t.well_formed(),
        t.value_of(identifier) is Some,
        t.value_of(identifier).unwrap() is Variant,
    ensures
        t.identifier_of(t.value_of(identifier).unwrap()) == Some(identifier),
{
    lemma_first_identifier_match(t.links, identifier, 0);
    let i = first_identifier_match(t.links, identifier, 0).unwrap();
    let variant = t.links[i].variant;
    lemma_first_link_of(t.links, variant, 0);
    let k = first_link_of(t.links, variant, 0).unwrap();
    assert(k == i);
}

/// The passthrough value comes only from the backend, and only by an
/// identifier that no variant has, in a map that is inexhaustive.
pub proof fn law_passthrough_from_backend(t: BackendTable, identifier: Seq<char>)
    ensures
        t.value_of(identifier) == Some(KeywordValue::Passthrough) <==> t.inexhaustive && (forall|
            j: int,
        | 0 <= j < t.links.len() ==> (#[trigger] t.links[j]).identifier != identifier),
        t.identifier_of(KeywordValue::Passthrough) is None,
{
    lemma_first_identifier_match(t.links, identifier, 0);
}

/// Why a keyword enum could not be bound to the backend.
#[derive(Clone, Copy, Debug, PartialEq, Eq, Structural)]
pub enum BindingError {
    /// The binding record names no prefix, so no variant has an identifier.
    MissingPrefix,
    /// The row at this index gets the identifier of an earlier row.
    Collision(usize),
}

/// The error that a binding is refused with: a missing prefix, or the
/// first row whose identifier an earlier row has too.
pub open spec fn binding_refused_with(
    rows: Seq<Row>,
    prefix: Option<PrefixModel>,
    e: BindingError,
) -> bool {
    match e {
        BindingError::MissingPrefix => prefix is None,
        BindingError::Collision(j) => {
            &&& prefix is Some
            &&& j < rows.len()
            &&& identifier_clash_at(links_of(rows, prefix.unwrap()), j as int)
            &&& forall|k: int|
                0 <= k < j ==> !identifier_clash_at(links_of(rows, prefix.unwrap()), k)
        },
    }
}

/// The table that binding gives where it succeeds.
pub open spec fn bound_table(table: KeywordTable, binding: BindingModel) -> BackendTable {
    BackendTable {
        field_name: binding.field_name,
        links: links_of(table.rows, binding.prefix.unwrap()),
        inexhaustive: table.inexhaustive,
    }
}

/// A binding can be made: there is a prefix, and no two rows get the same identifier.
pub open spec fn bindable(table: KeywordTable, binding: BindingModel) -> bool {
    binding.prefix is Some && bound_table(table, binding).identifiers_distinct()
}

#[derive(Debug)]
struct BackendLink {
    identifier: String,
    variant: u32,
}

/// The links of a list as mathematical values.
spec fn link_models(links: Seq<BackendLink>) -> Seq<Link> {
    Seq::new(links.len(), |i: int| Link { identifier: links[i].identifier@, variant: links[i].variant })
}

/// A one-to-one map between the variants of a keyword enum and the
/// identifiers of the backend.
#[derive(Debug)]
pub struct BackendMap {
    field_name: String,
    links: Vec<BackendLink>,
    inexhaustive: bool,
}

impl View for BackendMap {
    type V = BackendTable;

    closed spec fn view(&self) -> BackendTable {
        BackendTable {
            field_name: self.field_name@,
            links: link_models(self.links@),
            inexhaustive: self.inexhaustive,
        }
    }
}

impl BackendMap {
    #[verifier::type_invariant]
    spec fn one_to_one(self) -> bool {
        self@.well_formed()
    }

    /// Binds the variants of a keyword enum to the backend. The binding
    /// succeeds exactly where there is a prefix and every variant gets an
    /// identifier of its own.
    pub fn bind(keywords: &KeywordEnum, binding: &BackendBinding) -> (r: Result<
        BackendMap,
        BindingError,
    >)
        ensures
            r is Ok <==> bindable(keywords@, binding@),
            match r {
                Ok(m) => m@ == bound_table(keywords@, binding@) && m@.well_formed(),
                Err(e) => binding_refused_with(keywords@.rows, binding@.prefix, e),
            },
    {
        let prefix: &Prefix = match &binding.prefix {
            None => {
                return Err(BindingError::MissingPrefix);
            },
            Some(p) => p,
        };
        let n: usize = keywords.len();
        let ghost rows = keywords@.rows;
        let ghost target = links_of(rows, prefix@);
        let mut links: Vec<BackendLink> = Vec::new();
        let mut j: usize = 0;
        while j < n
            invariant
                j <= n,
                n == rows.len(),
                rows == keywords@.rows,
                binding@.prefix == Some(prefix@),
                target == links_of(rows, prefix@),
                target.len() == n,
                links.len() == j,
                link_models(links@) == target.take(j as int),
                forall|k: int| 0 <= k < j ==> !identifier_clash_at(target, k),
            decreases n - j,
        {
            let entry = keywords.entry(j);
            let identifier: String = prefix.identifier(entry.token.as_str());
            assert(identifier@ == target[j as int].identifier);
            let mut i: usize = 0;
            while i < j
                invariant
                    i <= j < n,
                    n == rows.len(),
                    rows == keywords@.rows,
                    binding@.prefix == Some(prefix@),
                    target == links_of(rows, prefix@),
                    target.len() == n,
                    links.len() == j,
                    link_models(links@) == target.take(j as int),
                    identifier@ == target[j as int].identifier,
                    forall|k: int| 0 <= k < j ==> !identifier_clash_at(target, k),
                    forall|k: int|
                        0 <= k < i ==> (#[trigger] target[k]).identifier != target[j as int].identifier,
                decreases j - i,
            {
                assert(link_models(links@)[i as int] == target[i as int]);
                if text_eq(links[i].identifier.as_str(), identifier.as_str()) {
                    assert(identifier_clash_at(target, j as int));
                    assert(bound_table(keywords@, binding@).links == target);
                    return Err(BindingError::Collision(j));
                }
                i += 1;
            }
            links.push(BackendLink { identifier, variant: entry.variant });
            assert(link_models(links@) =~= target.take(j + 1));
            j += 1;
        }
        assert(target.take(n as int) =~= target);
        let field_name: String = binding.field_name.clone();
        let inexhaustive: bool = keywords.is_inexhaustive();
        proof {
            let t = bound_table(keywords@, binding@);
            assert(t.links == target);
            assert(t.variants_distinct()) by {
                assert forall|i: int, j: int| 0 <= i < j < t.links.len() implies (
                #[trigger] t.links[i]).variant != (#[trigger] t.links[j]).variant by {
                    if rows[i].variant == rows[j].variant {
                        assert(variant_clash_at(rows, j));
                    }
                }
            }
            assert(t.identifiers_distinct());
        }
        Ok(BackendMap { field_name, links, inexhaustive })
    }

    /// The identifier by which the backend knows a value, if it has one.
    pub fn to_backend(&self, value: KeywordValue) -> (r: Option<String>)
        ensures
            self@.well_formed(),
            match r {
                Some(s) => self@.identifier_of(value) == Some(s@),
                None => self@.identifier_of(value) is None,
            },
    {
        proof {
            use_type_invariant(self);
        }
        match value {
            KeywordValue::Passthrough => None,
            KeywordValue::Variant(v) => {
                let n: usize = self.links.len();
                let mut i: usize = 0;
                while i < n
                    invariant
                        i <= n,
                        n == self.links.len(),
                        self@.well_formed(),
                        value == KeywordValue::Variant(v),
                        first_link_of(self@.links, v, 0) == first_link_of(self@.links, v, i as int),
                    decreases n - i,
                {
                    if self.links[i].variant == v {
                        return Some(self.links[i].identifier.clone());
                    }
                    i += 1;
                }
                None
            },
        }
    }

    /// The value that the backend reports by an identifier.
    pub fn from_backend(&self, identifier: &str) -> (r: Option<KeywordValue>)
        ensures
            self@.well_formed(),
            r == self@.value_of(identifier@),
    {
        proof {
            use_type_invariant(self);
        }
        let n: usize = self.links.len();
        let mut i: usize = 0;
        while i < n
            invariant
                i <= n,
                n == self.links.len(),
                self@.well_formed(),
                first_identifier_match(self@.links, identifier@, 0) == first_identifier_match(
                    self@.links,
                    identifier@,
                    i as int,
                ),
            decreases n - i,
        {
            if text_eq(self.links[i].identifier.as_str(), identifier) {
                return Some(KeywordValue::Variant(self.links[i].variant));
            }
            i += 1;
        }
        if self.inexhaustive {
            Some(KeywordValue::Passthrough)
        } else {
            None
        }
    }

    /// The name of the storage field that the property is bound to.
    pub fn field_name(&self) -> (r: &str)
        ensures
            r@ == self@.field_name,
    {
        self.field_name.as_str()
    }
}

} // verus!
