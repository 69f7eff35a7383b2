//! The registry: a set of descriptors, validated as a whole and compiled
//! into units that are found by their canonical names and by their
//! aliases. Either every descriptor is accepted, or no registry is made.

use vstd::prelude::*;
use vstd::string::StringExecFns;
use crate::css::{next_as_stream, pending, pending_tokens};
use crate::descriptor::{texts_of, DescriptorModel, PropertyDescriptor};
use crate::longhand::{
    law_compiled_is_well_formed, Longhand, LonghandModel, SchemaError, SerializeError,
};
use crate::text::text_eq;
use crate::token::{rest, TokenModel, TokenStream};
use crate::value::{ParseError, ParseFailure, ParserContext, SpecifiedValue};

verus! {

/// The spellings of a property: its canonical name, then its aliases.
pub open spec fn spellings(name: Seq<char>, aliases: Seq<Seq<char>>) -> Seq<Seq<char>> {
    seq![name] + aliases
}

/// The spellings that a descriptor declares.
pub open spec fn declared_spellings(d: DescriptorModel) -> Seq<Seq<char>> {
    spellings(d.name, d.aliases)
}

/// Spelling `k` of descriptor `i` is taken: an earlier descriptor declares
/// it, or it stands earlier among the spellings of descriptor `i` itself.
pub open spec fn taken(ds: Seq<DescriptorModel>, i: int, k: int) -> bool {
    let s = declared_spellings(ds[i])[k];
    ||| exists|j: int| 0 <= j < i && #[trigger] declared_spellings(ds[j]).contains(s)
    ||| declared_spellings(ds[i]).take(k).contains(s)
}

/// No spelling of descriptor `i` is taken.
pub open spec fn names_free(ds: Seq<DescriptorModel>, i: int) -> bool {
    forall|k: int| 0 <= k < declared_spellings(ds[i]).len() ==> !taken(ds, i, k)
}

/// Descriptor `i` is accepted: its spellings are free and it is valid.
pub open spec fn accepted(ds: Seq<DescriptorModel>, i: int) -> bool {
    names_free(ds, i) && ds[i].valid()
}

/// Every descriptor of the set is accepted.
pub open spec fn all_accepted(ds: Seq<DescriptorModel>) -> bool {
    forall|i: int| 0 <= i < ds.len() ==> accepted(ds, i)
}

/// The error that descriptor `i` is refused with. Its canonical name is
/// looked at first, then its aliases in order, then the descriptor itself.
pub open spec fn refused_at(ds: Seq<DescriptorModel>, i: int, e: SchemaError) -> bool {
    match e {
        SchemaError::DuplicateName => taken(ds, i, 0),
        SchemaError::AliasConflict(a) => {
            &&& a < ds[i].aliases.len()
            &&& taken(ds, i, a + 1)
            &&& forall|k: int| 0 <= k <= a ==> !taken(ds, i, k)
        },
        _ => names_free(ds, i) && ds[i].refused_with(e),
    }
}

/// The units that a set of accepted descriptors compiles to.
pub open spec fn compiled_units(ds: Seq<DescriptorModel>) -> Seq<LonghandModel> {
    Seq::new(ds.len(), |i: int| ds[i].compiled())
}

/// The descriptors of a list as mathematical values.
pub open spec fn descriptor_models(ds: Seq<PropertyDescriptor>) -> Seq<DescriptorModel> {
    Seq::new(ds.len(), |i: int| ds[i]@)
}

/// Index of the first unit at or after `from` that has `name` among its spellings.
pub open spec fn first_answering(units: Seq<LonghandModel>, name: Seq<char>, from: int) -> Option<
    int,
>
    decreases units.len() - from,
{
    if from < 0 || from >= units.len() {
        None
    } else if spellings(units[from].name, units[from].aliases).contains(name) {
        Some(from)
    } else {
        first_answering(units, name, from + 1)
    }
}

/// The mathematical model of a registry: its units in declaration order.
pub struct RegistryModel {
    pub units: Seq<LonghandModel>,
}

impl RegistryModel {
    /// No spelling is declared twice, be it as a canonical name or as an alias.
    pub open spec fn spellings_unique(self) -> bool {
        forall|i: int, k: int, j: int, m: int|
            0 <= i < self.units.len() && 0 <= j < self.units.len() && 0 <= k < spellings(
                self.units[i].name,
                self.units[i].aliases,
            ).len() && 0 <= m < spellings(self.units[j].name, self.units[j].aliases).len() && (i != j
                || k != m) ==> #[trigger] spellings(self.units[i].name, self.units[i].aliases)[k]
                != #[trigger] spellings(self.units[j].name, self.units[j].aliases)[m]
    }

    /// The invariant of a registry.
    pub open spec fn well_formed(self) -> bool {
        &&& self.spellings_unique()
        &&& forall|i: int| 0 <= i < self.units.len() ==> (#[trigger] self.units[i]).shape.well_formed()
    }

    /// The unit that a name or an alias denotes.
    pub open spec fn resolve(self, name: Seq<char>) -> Option<int> {
        first_answering(self.units, name, 0)
    }

    /// What a declaration parses to: the value that the unit of the name
    /// makes of the input, where the name denotes a unit.
    pub open spec fn parse(self, name: Seq<char>, input: Seq<TokenModel>) -> Option<
        Result<SpecifiedValue, ParseFailure>,
    > {
        match self.resolve(name) {
            Some(i) => Some(self.units[i].shape.parse(input)),
            None => None,
        }
    }
}

/// The units of a list as mathematical values.
pub open spec fn unit_models(units: Seq<Longhand>) -> Seq<LonghandModel> {
    Seq::new(units.len(), |i: int| units[i]@)
}

/// Whether `candidate` is the canonical name or one of the first
/// `count` aliases.
fn among_spellings(name: &str, aliases: &Vec<String>, count: usize, candidate: &str) -> (r: bool)
    requires
        count <= aliases.len(),
    ensures
        r == spellings(name@, texts_of(aliases@)).take(count + 1).contains(candidate@),
{
    let ghost all = spellings(name@, texts_of(aliases@));
    if text_eq(name, candidate) {
        assert(all.take(count + 1)[0] == candidate@);
        return true;
    }
    let mut a: usize = 0;
    while a < count
        invariant
            a <= count <= aliases.len(),
            all == spellings(name@, texts_of(aliases@)),
            all[0] != candidate@,
            forall|m: int| 1 <= m <= a ==> all[m] != candidate@,
        decreases count - a,
    {
        assert(all[a + 1] == aliases@[a as int]@);
        if text_eq(aliases[a].as_str(), candidate) {
            assert(all.take(count + 1)[a + 1] == candidate@);
            return true;
        }
        a += 1;
    }
    let ghost head = all.take(count + 1);
    assert forall|m: int| 0 <= m < head.len() implies #[trigger] head[m] != candidate@ by {
        assert(head[m] == all[m]);
    }
    false
}

/// Whether the unit has `candidate` among its spellings.
fn unit_declares(unit: &Longhand, candidate: &str) -> (r: bool)
    ensures
        r == spellings(unit@.name, unit@.aliases).contains(candidate@),
{
    let ghost all = spellings(unit@.name, unit@.aliases);
    if text_eq(unit.name(), candidate) {
        assert(all[0] == candidate@);
        return true;
    }
    let count: usize = unit.alias_count();
    let mut a: usize = 0;
    while a < count
        invariant
            a <= count,
            count == unit@.aliases.len(),
            all == spellings(unit@.name, unit@.aliases),
            all[0] != candidate@,
            forall|m: int| 1 <= m <= a ==> all[m] != candidate@,
        decreases count - a,
    {
        assert(all[a + 1] == unit@.aliases[a as int]);
        if text_eq(unit.alias(a), candidate) {
            assert(all[a + 1] == candidate@);
            return true;
        }
        a += 1;
    }
    false
}

/// Whether some unit of the list has `candidate` among its spellings.
fn declared_among(units: &Vec<Longhand>, candidate: &str) -> (r: bool)
    ensures
        r == exists|j: int|
            0 <= j < units.len() && spellings(
                (#[trigger] unit_models(units@)[j]).name,
                unit_models(units@)[j].aliases,
            ).contains(candidate@),
{
    let mut j: usize = 0;
    while j < units.len()
        invariant
            j <= units.len(),
            forall|i: int|
                0 <= i < j ==> !spellings(
                    (#[trigger] unit_models(units@)[i]).name,
                    unit_models(units@)[i].aliases,
                ).contains(candidate@),
        decreases units.len() - j,
    {
        if unit_declares(&units[j], candidate) {
            assert(unit_models(units@)[j as int] == units[j as int]@);
            return true;
        }
        assert(unit_models(units@)[j as int] == units[j as int]@);
        j += 1;
    }
    false
}

/// The units carry the spellings of the first descriptors of `ds`.
spec fn same_spellings(units: Seq<Longhand>, ds: Seq<DescriptorModel>) -> bool {
    &&& units.len() <= ds.len()
    &&& forall|j: int|
        0 <= j < units.len() ==> spellings(
            (#[trigger] unit_models(units)[j]).name,
            unit_models(units)[j].aliases,
        ) == declared_spellings(ds[j])
}

/// Looks for a spelling of the descriptor that is taken already.
fn check_spellings(units: &Vec<Longhand>, d: &PropertyDescriptor, Ghost(ds): Ghost<
    Seq<DescriptorModel>,
>) -> (r: Option<SchemaError>)
    requires
        units.len() < ds.len(),
        ds[units.len() as int] == d@,
        same_spellings(units@, ds),
    ensures
        match r {
            None => names_free(ds, units.len() as int),
            Some(e) => {
                &&& e is DuplicateName || e is AliasConflict
                &&& refused_at(ds, units.len() as int, e)
                &&& !names_free(ds, units.len() as int)
            },
        },
{
    let ghost i = units.len() as int;
    let ghost own = declared_spellings(ds[i]);
    assert(own =~= spellings(d.name@, texts_of(d.aliases@)));
    assert(own.take(0) =~= Seq::<Seq<char>>::empty());
    if declared_among(units, d.name.as_str()) {
        assert(taken(ds, i, 0)) by {
            let j = choose|j: int|
                0 <= j < units.len() && spellings(
                    (#[trigger] unit_models(units@)[j]).name,
                    unit_models(units@)[j].aliases,
                ).contains(d.name@);
            assert(declared_spellings(ds[j]).contains(own[0]));
        }
        return Some(SchemaError::DuplicateName);
    }
    assert(!taken(ds, i, 0)) by {
        assert forall|j: int| 0 <= j < i implies !(#[trigger] declared_spellings(ds[j])).contains(
            own[0],
        ) by {
            let u = unit_models(units@)[j];
            assert(spellings(u.name, u.aliases) == declared_spellings(ds[j]));
        }
    }
    let count: usize = d.aliases.len();
    let mut a: usize = 0;
    while a < count
        invariant
            a <= count,
            count == d.aliases.len(),
            i == units.len(),
            units.len() < ds.len(),
            ds[i] == d@,
            same_spellings(units@, ds),
            own == declared_spellings(ds[i]),
            own == spellings(d.name@, texts_of(d.aliases@)),
            forall|k: int| 0 <= k <= a ==> !taken(ds, i, k),
        decreases count - a,
    {
        let candidate: &str = d.aliases[a].as_str();
        assert(own[a + 1] == candidate@);
        if declared_among(units, candidate) || among_spellings(
            d.name.as_str(),
            &d.aliases,
            a,
            candidate,
        ) {
            assert(taken(ds, i, a + 1)) by {
                if !own.take(a + 1).contains(candidate@) {
                    let j = choose|j: int|
                        0 <= j < units.len() && spellings(
                            (#[trigger] unit_models(units@)[j]).name,
                            unit_models(units@)[j].aliases,
                        ).contains(candidate@);
                    assert(declared_spellings(ds[j]).contains(own[a + 1]));
                }
            }
            return Some(SchemaError::AliasConflict(a));
        }
        assert(!taken(ds, i, a + 1)) by {
            assert forall|j: int| 0 <= j < i implies !(#[trigger] declared_spellings(
                ds[j],
            )).contains(own[a + 1]) by {
                let u = unit_models(units@)[j];
                assert(spellings(u.name, u.aliases) == declared_spellings(ds[j]));
            }
        }
        a += 1;
    }
    None
}

/// A set of descriptors of which every one is accepted compiles to a
/// well-formed registry: no spelling is declared twice, and every unit
/// is well formed.
pub proof fn law_accepted_set_is_well_formed(ds: Seq<DescriptorModel>)
    requires
        all_accepted(ds),
    ensures
        (RegistryModel { units: compiled_units(ds) }).well_formed(),
{
    let r = RegistryModel { units: compiled_units(ds) };
    assert forall|i: int| 0 <= i < r.units.len() implies (#[trigger] r.units[i]).shape.well_formed() by {
        assert(accepted(ds, i));
        law_compiled_is_well_formed(ds[i]);
    }
    assert forall|i: int, k: int, j: int, m: int|
        0 <= i < r.units.len() && 0 <= j < r.units.len() && 0 <= k < spellings(
            r.units[i].name,
            r.units[i].aliases,
        ).len() && 0 <= m < spellings(r.units[j].name, r.units[j].aliases).len() && (i != j || k
            != m) implies #[trigger] spellings(r.units[i].name, r.units[i].aliases)[k]
        != #[trigger] spellings(r.units[j].name, r.units[j].aliases)[m] by {
        let si = declared_spellings(ds[i]);
        let sj = declared_spellings(ds[j]);
        assert(si == spellings(r.units[i].name, r.units[i].aliases));
        assert(sj == spellings(r.units[j].name, r.units[j].aliases));
        if si[k] == sj[m] {
            if j < i {
                assert(sj.contains(si[k]));
                assert(taken(ds, i, k));
                assert(accepted(ds, i));
            } else if i < j {
                assert(si.contains(sj[m]));
                assert(taken(ds, j, m));
                assert(accepted(ds, j));
            } else if m < k {
                assert(si.take(k)[m] == si[k]);
                assert(taken(ds, i, k));
                assert(accepted(ds, i));
            } else {
                assert(si.take(m)[k] == si[m]);
                assert(taken(ds, i, m));
                assert(accepted(ds, i));
            }
        }
    }
}

/// Why no registry was made: the descriptor at `index`, named by its
/// canonical name, and the check that it failed.
#[derive(Debug, PartialEq, Eq)]
pub struct BuildError {
    pub index: usize,
    pub property: String,
    pub error: SchemaError,
}

/// The compiled properties, in declaration order. Once made it is not changed.
#[derive(Debug)]
pub struct Registry {
    units: Vec<Longhand>,
}

impl View for Registry {
    type V = RegistryModel;

    closed spec fn view(&self) -> RegistryModel {
        RegistryModel { units: unit_models(self.units@) }
    }
}

impl Registry {
    #[verifier::type_invariant]
    spec fn holds_well_formed_units(self) -> bool {
        self@.well_formed()
    }

    /// Validates the descriptors in declaration order and compiles them.
    /// A registry is made exactly when every descriptor is accepted. Else
    /// the error names the first descriptor that is refused, and says why.
    pub fn build(descriptors: Vec<PropertyDescriptor>) -> (r: Result<Registry, BuildError>)
        ensures
            r is Ok <==> all_accepted(descriptor_models(descriptors@)),
            match r {
                Ok(registry) => {
                    &&& registry@.units == compiled_units(descriptor_models(descriptors@))
                    &&& registry@.well_formed()
                },
                Err(e) => {
                    &&& e.index < descriptors.len()
                    &&& forall|j: int|
                        0 <= j < e.index ==> accepted(descriptor_models(descriptors@), j)
                    &&& refused_at(descriptor_models(descriptors@), e.index as int, e.error)
                    &&& e.property@ == descriptors[e.index as int].name@
                },
            },
    {
        let ghost ds = descriptor_models(descriptors@);
        let total: usize = descriptors.len();
        let mut remaining: Vec<PropertyDescriptor> = descriptors;
        let mut units: Vec<Longhand> = Vec::new();
        while remaining.len() > 0
            invariant
                units.len() + remaining.len() == total,
                total == ds.len(),
                ds == descriptor_models(descriptors@),
                descriptor_models(remaining@) == ds.skip(units.len() as int),
                unit_models(units@) == compiled_units(ds).take(units.len() as int),
                forall|j: int| 0 <= j < units.len() ==> accepted(ds, j),
            decreases remaining.len(),
        {
            let ghost i = units.len() as int;
            let ghost before = remaining@;
            let d: PropertyDescriptor = remaining.remove(0);
            proof {
                assert(descriptor_models(before)[0] == before[0]@);
                assert(d@ == ds[i]);
                assert forall|k: int| 0 <= k < remaining@.len() implies descriptor_models(
                    remaining@,
                )[k] == ds.skip(i + 1)[k] by {
                    assert(remaining@[k] == before[k + 1]);
                    assert(descriptor_models(before)[k + 1] == before[k + 1]@);
                    assert(ds.skip(i)[k + 1] == ds[i + k + 1]);
                }
                assert(descriptor_models(remaining@) =~= ds.skip(i + 1));
                assert(same_spellings(units@, ds)) by {
                    assert forall|j: int| 0 <= j < units.len() implies spellings(
                        (#[trigger] unit_models(units@)[j]).name,
                        unit_models(units@)[j].aliases,
                    ) == declared_spellings(ds[j]) by {
                        assert(unit_models(units@)[j] == compiled_units(ds).take(i)[j]);
                    }
                }
            }
            match check_spellings(&units, &d, Ghost(ds)) {
                Some(error) => {
                    assert(!accepted(ds, i));
                    return Err(BuildError { index: units.len(), property: d.name, error });
                },
                None => {},
            }
            let property: String = d.name.clone();
            match Longhand::compile(d) {
                Err(error) => {
                    assert(!accepted(ds, i));
                    return Err(BuildError { index: units.len(), property, error });
                },
                Ok(unit) => {
                    units.push(unit);
                    assert(unit_models(units@) =~= compiled_units(ds).take(i + 1));
                },
            }
        }
        proof {
            assert(compiled_units(ds).take(total as int) =~= compiled_units(ds));
            law_accepted_set_is_well_formed(ds);
        }
        Ok(Registry { units })
    }

    /// The number of properties.
    pub fn len(&self) -> (r: usize)
        ensures
            self@.well_formed(),
            r == self@.units.len(),
    {
        proof {
            use_type_invariant(self);
        }
        self.units.len()
    }

    /// The unit at `index`, in declaration order.
    pub fn unit(&self, index: usize) -> (r: &Longhand)
        requires
            index < self@.units.len(),
        ensures
            r@ == self@.units[index as int],
            r@.shape.well_formed(),
    {
        proof {
            use_type_invariant(self);
        }
        &self.units[index]
    }

    /// Finds the property that a canonical name or an alias denotes.
    pub fn resolve(&self, name: &str) -> (r: Option<usize>)
        ensures
            self@.well_formed(),
            match r {
                Some(i) => self@.resolve(name@) == Some(i as int) && i < self@.units.len(),
                None => self@.resolve(name@) is None,
            },
    {
        proof {
            use_type_invariant(self);
        }
        let mut i: usize = 0;
        while i < self.units.len()
            invariant
                i <= self.units.len(),
                self@.well_formed(),
                first_answering(self@.units, name@, 0) == first_answering(
                    self@.units,
                    name@,
                    i as int,
                ),
            decreases self.units.len() - i,
        {
            if unit_declares(&self.units[i], name) {
                return Some(i);
            }
            i += 1;
        }
        None
    }

    /// The canonical name of the property that a name or an alias denotes.
    pub fn canonical_name(&self, name: &str) -> (r: Option<&str>)
        ensures
            match r {
                Some(n) => self@.resolve(name@) is Some && n@ == self@.units[self@.resolve(
                    name@,
                ).unwrap()].name,
                None => self@.resolve(name@) is None,
            },
    {
        match self.resolve(name) {
            Some(i) => Some(self.units[i].name()),
            None => None,
        }
    }

    /// Parses the value of a declaration. The name may be the canonical
    /// name or an alias: the same unit parses the input either way. A name
    /// that denotes no property is refused, and the input is then left as
    /// it was.
    pub fn parse(&self, name: &str, context: &ParserContext, input: &mut TokenStream) -> (r: Result<
        Declaration,
        DeclarationError,
    >)
        ensures
            match r {
                Ok(declaration) => {
                    &&& self@.resolve(name@) == Some(declaration.property as int)
                    &&& self@.parse(name@, old(input)@) == Some(
                        Result::<SpecifiedValue, ParseFailure>::Ok(declaration.value),
                    )
                    &&& final(input)@ == rest(old(input)@)
                },
                Err(DeclarationError::UnknownProperty) => {
                    &&& self@.parse(name@, old(input)@) is None
                    &&& final(input)@ == old(input)@
                },
                Err(DeclarationError::InvalidValue(e)) => {
                    &&& self@.parse(name@, old(input)@) == Some(
                        Result::<SpecifiedValue, ParseFailure>::Err(e@),
                    )
                    &&& final(input)@ == rest(old(input)@)
                },
            },
    {
        let property: usize = match self.resolve(name) {
            None => {
                return Err(DeclarationError::UnknownProperty);
            },
            Some(i) => i,
        };
        match self.units[property].parse(context, input) {
            Ok(value) => Ok(Declaration { property, value }),
            Err(e) => Err(DeclarationError::InvalidValue(e)),
        }
    }

    /// Parses the value of a declaration from the tokenizer's input. Of a
    /// property that is known one token is consumed; else none.
    pub fn parse_css(&self, name: &str, context: &ParserContext, input: &mut cssparser::Parser) -> (r:
        Result<Declaration, DeclarationError>)
        ensures
            match r {
                Ok(declaration) => {
                    &&& self@.resolve(name@) == Some(declaration.property as int)
                    &&& self@.parse(name@, pending_tokens(*old(input))) == Some(
                        Result::<SpecifiedValue, ParseFailure>::Ok(declaration.value),
                    )
                    &&& pending(*final(input)) == rest(pending(*old(input)))
                },
                Err(DeclarationError::UnknownProperty) => {
                    &&& self@.parse(name@, pending_tokens(*old(input))) is None
                    &&& pending(*final(input)) == pending(*old(input))
                },
                Err(DeclarationError::InvalidValue(e)) => {
                    &&& self@.parse(name@, pending_tokens(*old(input))) == Some(
                        Result::<SpecifiedValue, ParseFailure>::Err(e@),
                    )
                    &&& pending(*final(input)) == rest(pending(*old(input)))
                },
            },
    {
        if self.resolve(name).is_none() {
            return Err(DeclarationError::UnknownProperty);
        }
        let mut stream: TokenStream = next_as_stream(input);
        self.parse(name, context, &mut stream)
    }

    /// Appends a declaration to `dest`: the canonical name of the
    /// property, a colon, a space, and the canonical text of the value.
    /// Where the value has no text, `dest` is left as it was.
    pub fn serialize(&self, property: usize, value: SpecifiedValue, dest: &mut String) -> (r: Result<
        (),
        SerializeError,
    >)
        requires
            property < self@.units.len(),
        ensures
            match self@.units[property as int].shape.text_of(value) {
                Some(text) => r is Ok && final(dest)@ == old(dest)@ + declaration_text(
                    self@.units[property as int].name,
                    text,
                ),
                None => r is Err && final(dest)@ == old(dest)@,
            },
    {
        let unit: &Longhand = &self.units[property];
        let mut text: String = String::new();
        match unit.to_text(value, &mut text) {
            Err(e) => Err(e),
            Ok(()) => {
                dest.append(unit.name());
                dest.append(": ");
                dest.append(text.as_str());
                proof {
                    reveal_strlit(": ");
                    assert(": "@ =~= seq![':', ' ']);
                    assert(text@ =~= self@.units[property as int].shape.text_of(value).unwrap());
                    assert(dest@ =~= old(dest)@ + declaration_text(
                        self@.units[property as int].name,
                        text@,
                    ));
                }
                Ok(())
            },
        }
    }
}

/// The text of a declaration.
pub open spec fn declaration_text(name: Seq<char>, value: Seq<char>) -> Seq<char> {
    name + seq![':', ' '] + value
}

/// A parsed declaration: the index of the property in the registry, and
/// the specified value.
#[derive(Clone, Copy, Debug, PartialEq, Eq, Structural)]
pub struct Declaration {
    pub property: usize,
    pub value: SpecifiedValue,
}

/// Why a declaration was not accepted.
#[derive(Debug, PartialEq, Eq)]
pub enum DeclarationError {
    /// The name denotes no property.
    UnknownProperty,
    /// The property is known and refused the value.
    InvalidValue(ParseError),
}

/// The first unit that answers to a name does so, and none before it does.
pub proof fn lemma_first_answering(units: Seq<LonghandModel>, name: Seq<char>, from: int)
    requires
        0 <= from,
    ensures
        match first_answering(units, name, from) {
            Some(i) => {
                &&& from <= i < units.len()
                &&& spellings(units[i].name, units[i].aliases).contains(name)
                &&& forall|j: int|
                    from <= j < i ==> !spellings(
                        (#[trigger] units[j]).name,
                        units[j].aliases,
                    ).contains(name)
            },
            None => forall|j: int|
                from <= j < units.len() ==> !spellings(
                    (#[trigger] units[j]).name,
                    units[j].aliases,
                ).contains(name),
        },
    decreases units.len() - from,
{
    if from < units.len() && !spellings(units[from].name, units[from].aliases).contains(name) {
        lemma_first_answering(units, name, from + 1);
    }
}

/// In a well-formed registry every spelling of a property, canonical name
/// or alias, denotes that property and no other.
pub proof fn law_spelling_resolves(r: RegistryModel, i: int, k: int)
    requires
        r.well_formed(),
        0 <= i < r.units.len(),
        0 <= k < spellings(r.units[i].name, r.units[i].aliases).len(),
    ensures
        r.resolve(spellings(r.units[i].name, r.units[i].aliases)[k]) == Some(i),
{
    let own = spellings(r.units[i].name, r.units[i].aliases);
    let name = own[k];
    lemma_first_answering(r.units, name, 0);
    assert(own.contains(name));
    let j = first_answering(r.units, name, 0).unwrap();
    if j != i {
        let other = spellings(r.units[j].name, r.units[j].aliases);
        let m = choose|m: int| 0 <= m < other.len() && other[m] == name;
        assert(other[m] == own[k]);
    }
}

/// Parsing through an alias is parsing through the canonical name: both
/// denote the same unit, so the same input gives the same outcome.
pub proof fn law_alias_parses_as_canonical(
    r: RegistryModel,
    i: int,
    a: int,
    input: Seq<TokenModel>,
)
    requires
        r.well_formed(),
        0 <= i < r.units.len(),
        0 <= a < r.units[i].aliases.len(),
    ensures
        r.resolve(r.units[i].aliases[a]) == Some(i),
        r.resolve(r.units[i].name) == Some(i),
        r.parse(r.units[i].aliases[a], input) == r.parse(r.units[i].name, input),
{
    let own = spellings(r.units[i].name, r.units[i].aliases);
    assert(own[0] == r.units[i].name);
    assert(own[a + 1] == r.units[i].aliases[a]);
    law_spelling_resolves(r, i, 0);
    law_spelling_resolves(r, i, a + 1);
}

/// In a well-formed registry no canonical name is an alias of any
/// property: what serialization writes is never the spelling of an alias.
pub proof fn law_canonical_name_is_no_alias(r: RegistryModel, i: int, j: int, a: int)
    requires
        r.well_formed(),
        0 <= i < r.units.len(),
        0 <= j < r.units.len(),
        0 <= a < r.units[j].aliases.len(),
    ensures
        r.units[i].name != r.units[j].aliases[a],
{
    let si = spellings(r.units[i].name, r.units[i].aliases);
    let sj = spellings(r.units[j].name, r.units[j].aliases);
    assert(si[0] == r.units[i].name);
    assert(sj[a + 1] == r.units[j].aliases[a]);
}

/// A set in which two descriptors have the same canonical name is refused.
pub proof fn law_duplicate_name_is_refused(ds: Seq<DescriptorModel>, i: int, j: int)
    requires
        0 <= j < i < ds.len(),
        ds[i].name == ds[j].name,
    ensures
        !all_accepted(ds),
{
    assert(declared_spellings(ds[j])[0] == ds[j].name);
    assert(declared_spellings(ds[j]).contains(declared_spellings(ds[i])[0]));
    assert(taken(ds, i, 0));
    assert(!accepted(ds, i));
}

/// A set in which an alias of one descriptor is the canonical name of
/// another, or is an alias of another too, is refused.
pub proof fn law_shared_alias_is_refused(ds: Seq<DescriptorModel>, i: int, a: int, j: int, m: int)
    requires
        0 <= i < ds.len(),
        0 <= j < ds.len(),
        i != j,
        0 <= a < ds[i].aliases.len(),
        0 <= m < declared_spellings(ds[j]).len(),
        ds[i].aliases[a] == declared_spellings(ds[j])[m],
    ensures
        !all_accepted(ds),
{
    let si = declared_spellings(ds[i]);
    let sj = declared_spellings(ds[j]);
    assert(si[a + 1] == ds[i].aliases[a]);
    if j < i {
        assert(sj.contains(si[a + 1]));
        assert(taken(ds, i, a + 1));
        assert(!accepted(ds, i));
    } else {
        assert(si.contains(sj[m]));
        assert(taken(ds, j, m));
        assert(!accepted(ds, j));
    }
}

} // verus!
