//! Style structs: the properties of a registry that share one inheritance
//! flag, gathered under a name in declaration order.

use vstd::prelude::*;
use crate::longhand::LonghandModel;
use crate::registry::Registry;

verus! {

/// The indices, in rising order, of those among the first `n` units whose
/// inheritance flag is `inherited`.
pub open spec fn members_among(units: Seq<LonghandModel>, inherited: bool, n: int) -> Seq<int>
    decreases n,
{
    if n <= 0 {
        Seq::empty()
    } else if units[n - 1].inherited == inherited {
        members_among(units, inherited, n - 1).push(n - 1)
    } else {
        members_among(units, inherited, n - 1)
    }
}

/// The members of the style struct of a flag: the indices of all units
/// with that flag, in declaration order.
pub open spec fn members_of(units: Seq<LonghandModel>, inherited: bool) -> Seq<int> {
    members_among(units, inherited, units.len() as int)
}

/// A style struct as a mathematical value.
pub struct StyleStructModel {
    pub name: Seq<char>,
    pub inherited: bool,
    pub members: Seq<int>,
}

/// A named group of properties that share one inheritance flag.
#[derive(Debug)]
pub struct StyleStruct {
    name: String,
    inherited: bool,
    members: Vec<usize>,
}

/// The indices of a list as mathematical integers.
pub open spec fn indices_of(members: Seq<usize>) -> Seq<int> {
    Seq::new(members.len(), |i: int| members[i] as int)
}

impl View for StyleStruct {
    type V = StyleStructModel;

    closed spec fn view(&self) -> StyleStructModel {
        StyleStructModel {
            name: self.name@,
            inherited: self.inherited,
            members: indices_of(self.members@),
        }
    }
}

/// The members among the first `n` units are indices below `n`, in
/// strictly rising order, and they are exactly the indices below `n` of
/// the units with the flag.
pub proof fn lemma_members_among(units: Seq<LonghandModel>, inherited: bool, n: int)
    requires
        0 <= n <= units.len(),
    ensures
        members_among(units, inherited, n).len() <= n,
        forall|k: int|
            0 <= k < members_among(units, inherited, n).len() ==> 0 <= #[trigger] members_among(
                units,
                inherited,
                n,
            )[k] < n && units[members_among(units, inherited, n)[k]].inherited == inherited,
        forall|k: int, l: int|
            0 <= k < l < members_among(units, inherited, n).len() ==> #[trigger] members_among(
                units,
                inherited,
                n,
            )[k] < #[trigger] members_among(units, inherited, n)[l],
        forall|i: int|
            0 <= i < n && units[i].inherited == inherited ==> #[trigger] members_among(
                units,
                inherited,
                n,
            ).contains(i),
    decreases n,
{
    if n > 0 {
        lemma_members_among(units, inherited, n - 1);
        let before = members_among(units, inherited, n - 1);
        let now = members_among(units, inherited, n);
        if units[n - 1].inherited == inherited {
            assert(now[now.len() - 1] == n - 1);
            assert forall|i: int| 0 <= i < n && units[i].inherited == inherited implies now.contains(
                i,
            ) by {
                if i < n - 1 {
                    assert(before.contains(i));
                    let k = choose|k: int| 0 <= k < before.len() && before[k] == i;
                    assert(now[k] == i);
                } else {
                    assert(now[now.len() - 1] == i);
                }
            }
        }
    }
}

/// Every property of a registry is a member of the style struct of its
/// own flag, and of no other: the two style structs part the registry.
pub proof fn law_structs_part_the_registry(units: Seq<LonghandModel>, i: int)
    requires
        0 <= i < units.len(),
    ensures
        members_of(units, units[i].inherited).contains(i),
        !members_of(units, !units[i].inherited).contains(i),
{
    lemma_members_among(units, units[i].inherited, units.len() as int);
    lemma_members_among(units, !units[i].inherited, units.len() as int);
}

/// The layout of a style struct depends on the inheritance flags alone
/// and on their order: two sets of units with the same flags, one for
/// one, have the same members at the same places.
pub proof fn law_layout_is_determined(a: Seq<LonghandModel>, b: Seq<LonghandModel>, inherited: bool)
    requires
        a.len() == b.len(),
        forall|i: int| 0 <= i < a.len() ==> (#[trigger] a[i]).inherited == (#[trigger] b[i]).inherited,
    ensures
        members_of(a, inherited) == members_of(b, inherited),
{
    lemma_same_flags_same_members(a, b, inherited, a.len() as int);
}

/// Units with the same flags have the same members among their first `n`.
proof fn lemma_same_flags_same_members(
    a: Seq<LonghandModel>,
    b: Seq<LonghandModel>,
    inherited: bool,
    n: int,
)
    requires
        0 <= n <= a.len(),
        a.len() == b.len(),
        forall|i: int| 0 <= i < a.len() ==> (#[trigger] a[i]).inherited == (#[trigger] b[i]).inherited,
    ensures
        members_among(a, inherited, n) == members_among(b, inherited, n),
    decreases n,
{
    if n > 0 {
        lemma_same_flags_same_members(a, b, inherited, n - 1);
        assert(a[n - 1].inherited == b[n - 1].inherited);
    }
}

impl StyleStruct {
    /// Gathers the properties of the registry that have the given flag.
    pub fn aggregate(registry: &Registry, name: &str, inherited: bool) -> (r: StyleStruct)
        ensures
            r@ == (StyleStructModel {
                name: name@,
                inherited,
                members: members_of(registry@.units, inherited),
            }),
    {
        let n: usize = registry.len();
        let mut members: Vec<usize> = Vec::new();
        let mut i: usize = 0;
        while i < n
            invariant
                i <= n,
                n == registry@.units.len(),
                indices_of(members@) == members_among(registry@.units, inherited, i as int),
            decreases n - i,
        {
            if registry.unit(i).is_inherited() == inherited {
                members.push(i);
            }
            assert(indices_of(members@) =~= members_among(registry@.units, inherited, i + 1));
            i += 1;
        }
        StyleStruct { name: name.to_owned(), inherited, members }
    }

    /// The name of the struct.
    pub fn name(&self) -> (r: &str)
        ensures
            r@ == self@.name,
    {
        self.name.as_str()
    }

    /// The flag that its members share.
    pub fn is_inherited(&self) -> (r: bool)
        ensures
            r == self@.inherited,
    {
        self.inherited
    }

    /// The number of members.
    pub fn len(&self) -> (r: usize)
        ensures
            r == self@.members.len(),
    {
        self.members.len()
    }

    /// The index in the registry of the member at `offset`.
    pub fn member(&self, offset: usize) -> (r: usize)
        requires
            offset < self@.members.len(),
        ensures
            r == self@.members[offset as int],
    {
        self.members[offset]
    }

    /// The offset at which a property of the registry stands in the struct.
    pub fn offset_of(&self, property: usize) -> (r: Option<usize>)
        ensures
            match r {
                Some(offset) => offset < self@.members.len() && self@.members[offset as int]
                    == property,
                None => !self@.members.contains(property as int),
            },
    {
        let mut k: usize = 0;
        while k < self.members.len()
            invariant
                k <= self.members.len(),
                forall|l: int| 0 <= l < k ==> self@.members[l] != property,
            decreases self.members.len() - k,
        {
            if self.members[k] == property {
                return Some(k);
            }
            k += 1;
        }
        None
    }
}

} // verus!
