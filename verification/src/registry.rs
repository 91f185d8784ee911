//! The types that are registered for replication, and the packet ids that
//! stand for them on the wire.

use crate::buffer::SendRule;
use vstd::prelude::*;

verus! {

/// Who gets the updates of an attribute group, seen from the peer that the
/// object belongs to.
#[derive(Clone, Copy, Debug, PartialEq, Eq, Structural)]
pub enum SendMethod {
    /// Every connection
    All,
    /// Only the connection of the peer that the object belongs to
    Owner,
    /// Every connection but that of the peer that the object belongs to
    Observer,
}

impl SendMethod {
    /// The rule for an object that belongs to `owner`, or none where
    /// nobody is to get the group.
    pub open spec fn rule_for(self, owner: Option<u32>) -> Option<SendRule> {
        match self {
            SendMethod::All => Some(SendRule::All),
            SendMethod::Owner => match owner {
                Some(peer) => Some(SendRule::Only(peer)),
                None => None,
            },
            SendMethod::Observer => match owner {
                Some(peer) => Some(SendRule::Except(peer)),
                None => Some(SendRule::All),
            },
        }
    }

    /// The rule for an object that belongs to `owner`, or none where
    /// nobody is to get the group.
    pub fn rule(self, owner: Option<u32>) -> (r: Option<SendRule>)
        ensures
            r == self.rule_for(owner),
    {
        match self {
            SendMethod::All => Some(SendRule::All),
            SendMethod::Owner => match owner {
                Some(peer) => Some(SendRule::Only(peer)),
                None => None,
            },
            SendMethod::Observer => match owner {
                Some(peer) => Some(SendRule::Except(peer)),
                None => Some(SendRule::All),
            },
        }
    }
}

/// The order of names: byte by byte, the shorter first where one name
/// begins the other.
pub open spec fn name_less(a: Seq<u8>, b: Seq<u8>) -> bool
    decreases a.len(),
{
    if b.len() == 0 {
        false
    } else if a.len() == 0 {
        true
    } else if a[0] != b[0] {
        a[0] < b[0]
    } else {
        name_less(a.drop_first(), b.drop_first())
    }
}

/// No name comes before itself.
pub proof fn lemma_name_less_irreflexive(a: Seq<u8>)
    ensures
        !name_less(a, a),
    decreases a.len(),
{
    if a.len() > 0 {
        lemma_name_less_irreflexive(a.drop_first());
    }
}

/// The order of names is transitive.
pub proof fn lemma_name_less_transitive(a: Seq<u8>, b: Seq<u8>, c: Seq<u8>)
    requires
        name_less(a, b),
        name_less(b, c),
    ensures
        name_less(a, c),
    decreases a.len(),
{
    if a.len() > 0 && b.len() > 0 && c.len() > 0 && a[0] == b[0] && b[0] == c[0] {
        lemma_name_less_transitive(a.drop_first(), b.drop_first(), c.drop_first());
    }
}

/// Of two different names one comes before the other.
pub proof fn lemma_name_less_total(a: Seq<u8>, b: Seq<u8>)
    ensures
        a == b || name_less(a, b) || name_less(b, a),
    decreases a.len(),
{
    if a.len() == 0 || b.len() == 0 {
        if a.len() == 0 && b.len() == 0 {
            assert(a =~= b);
        }
    } else if a[0] == b[0] {
        lemma_name_less_total(a.drop_first(), b.drop_first());
        if a.drop_first() == b.drop_first() {
            assert(a =~= seq![a[0]] + a.drop_first());
            assert(b =~= seq![b[0]] + b.drop_first());
        }
    }
}

/// How two names compare.
#[derive(Clone, Copy, Debug, PartialEq, Eq, Structural)]
pub enum NameOrder {
    /// The first name comes before the second
    Before,
    /// The names are the same
    Same,
    /// The first name comes after the second
    After,
}

/// Compare two names.
pub fn compare_names(a: &[u8], b: &[u8]) -> (r: NameOrder)
    ensures
        r is Before <==> name_less(a@, b@),
        r is Same <==> a@ == b@,
        r is After <==> name_less(b@, a@),
{
    let mut i: usize = 0;
    proof {
        assert(a@.subrange(0, a@.len() as int) =~= a@);
        assert(b@.subrange(0, b@.len() as int) =~= b@);
    }
    while i < a.len() && i < b.len() && a[i] == b[i]
        invariant
            0 <= i <= a@.len(),
            i <= b@.len(),
            a@.subrange(0, i as int) == b@.subrange(0, i as int),
            name_less(a@, b@) == name_less(
                a@.subrange(i as int, a@.len() as int),
                b@.subrange(i as int, b@.len() as int),
            ),
            name_less(b@, a@) == name_less(
                b@.subrange(i as int, b@.len() as int),
                a@.subrange(i as int, a@.len() as int),
            ),
        decreases a@.len() - i,
    {
        proof {
            let x = a@.subrange(i as int, a@.len() as int);
            let y = b@.subrange(i as int, b@.len() as int);
            assert(x.drop_first() =~= a@.subrange(i + 1, a@.len() as int));
            assert(y.drop_first() =~= b@.subrange(i + 1, b@.len() as int));
            assert(a@.subrange(0, i + 1) =~= a@.subrange(0, i as int).push(a@[i as int]));
            assert(b@.subrange(0, i + 1) =~= b@.subrange(0, i as int).push(b@[i as int]));
        }
        i += 1;
    }
    proof {
        let x = a@.subrange(i as int, a@.len() as int);
        let y = b@.subrange(i as int, b@.len() as int);
        lemma_name_less_irreflexive(a@);
        if i == a@.len() && i == b@.len() {
            assert(a@ =~= a@.subrange(0, i as int));
            assert(b@ =~= b@.subrange(0, i as int));
        } else if i < a@.len() && i < b@.len() {
            assert(x[0] == a@[i as int]);
            assert(y[0] == b@[i as int]);
            assert(a@ != b@);
        } else {
            assert(a@.len() != b@.len());
        }
    }
    if i == a.len() {
        if i == b.len() {
            NameOrder::Same
        } else {
            NameOrder::Before
        }
    } else if i == b.len() {
        NameOrder::After
    } else if a[i] < b[i] {
        NameOrder::Before
    } else {
        NameOrder::After
    }
}

/// Whether the name at `j` is numbered before the name at `i`: it comes
/// before it in the order of names, or it is the same name and was
/// registered earlier.
pub open spec fn numbered_before(names: Seq<Seq<u8>>, j: int, i: int) -> bool {
    name_less(names[j], names[i]) || (names[j] == names[i] && j < i)
}

/// How many of the first `n` names are numbered before the name at `i`.
pub open spec fn count_before(names: Seq<Seq<u8>>, i: int, n: int) -> int
    decreases n,
{
    if n <= 0 {
        0
    } else {
        count_before(names, i, n - 1) + if numbered_before(names, n - 1, i) {
            1int
        } else {
            0int
        }
    }
}

/// The packet id of the name at `i`: its place when the names are sorted,
/// counted from 1. Zero stays free for the end of an entity message.
pub open spec fn packet_id_of(names: Seq<Seq<u8>>, i: int) -> int {
    1 + count_before(names, i, names.len() as int)
}

/// Why types could not be numbered.
#[derive(Clone, Copy, Debug, PartialEq, Eq, Structural)]
pub enum RegistryError {
    /// More than 255 types were registered for one direction
    TooManyTypes,
}

/// The names of the registered types, as the contracts see them.
pub open spec fn names_view(names: Seq<Vec<u8>>) -> Seq<Seq<u8>> {
    names.map_values(|name: Vec<u8>| name@)
}

/// Number the types that were registered for one direction: each gets the
/// place of its name among the sorted names, counted from 1. No more than
/// 255 types can be numbered.
pub fn assign_packet_ids(names: &Vec<Vec<u8>>) -> (r: Result<Vec<u8>, RegistryError>)
    ensures
        names@.len() > 255 ==> r == Err::<Vec<u8>, RegistryError>(RegistryError::TooManyTypes),
        names@.len() <= 255 ==> r is Ok && r->Ok_0@.len() == names@.len() && forall|i: int|
            0 <= i < names@.len() ==> #[trigger] r->Ok_0@[i] as int == packet_id_of(
                names_view(names@),
                i,
            ),
{
    let n = names.len();
    if n > 255 {
        return Err(RegistryError::TooManyTypes);
    }
    let ghost view = names_view(names@);
    let mut ids: Vec<u8> = Vec::new();
    let mut i: usize = 0;
    while i < n
        invariant
            0 <= i <= n,
            n == names@.len(),
            n <= 255,
            view == names_view(names@),
            ids@.len() == i,
            forall|k: int| 0 <= k < i ==> #[trigger] ids@[k] as int == packet_id_of(view, k),
        decreases n - i,
    {
        let mut count: u8 = 0;
        let mut j: usize = 0;
        while j < n
            invariant
                0 <= j <= n,
                i < n,
                n == names@.len(),
                n <= 255,
                view == names_view(names@),
                count as int == count_before(view, i as int, j as int),
                count <= j,
            decreases n - j,
        {
            assert(view[j as int] == names@[j as int]@);
            assert(view[i as int] == names@[i as int]@);
            let order = compare_names(names[j].as_slice(), names[i].as_slice());
            let before = match order {
                NameOrder::Before => true,
                NameOrder::Same => j < i,
                NameOrder::After => false,
            };
            proof {
                lemma_name_less_irreflexive(view[i as int]);
            }
            if before {
                count = count + 1;
            }
            j += 1;
        }
        proof {
            lemma_count_skips_self(view, i as int, n as int);
        }
        ids.push(count + 1);
        i += 1;
    }
    Ok(ids)
}

/// A name is not numbered before itself, so fewer names are numbered
/// before it than there are names.
proof fn lemma_count_skips_self(names: Seq<Seq<u8>>, i: int, n: int)
    requires
        0 <= i < names.len(),
        0 <= n <= names.len(),
    ensures
        0 <= count_before(names, i, n) <= n,
        i < n ==> count_before(names, i, n) < n,
    decreases n,
{
    if n > 0 {
        lemma_count_skips_self(names, i, n - 1);
        lemma_name_less_irreflexive(names[i]);
    }
}

/// Where every name numbered before `i` is also numbered before `j`, no
/// more names are counted for `i` than for `j`; and fewer where some name
/// among those counted is numbered before `j` only.
proof fn lemma_count_monotone(names: Seq<Seq<u8>>, i: int, j: int, n: int, extra: int)
    requires
        0 <= i < names.len(),
        0 <= j < names.len(),
        0 <= n <= names.len(),
        0 <= extra < names.len(),
        forall|k: int|
            0 <= k < names.len() && numbered_before(names, k, i) ==> numbered_before(names, k, j),
        numbered_before(names, extra, j),
        !numbered_before(names, extra, i),
    ensures
        count_before(names, i, n) <= count_before(names, j, n),
        extra < n ==> count_before(names, i, n) < count_before(names, j, n),
    decreases n,
{
    if n > 0 {
        lemma_count_monotone(names, i, j, n - 1, extra);
    }
}

/// The packet ids follow the names: of two registered types, the one that
/// is numbered before the other has the smaller packet id. So no two types
/// share a packet id, every packet id lies between 1 and the number of
/// types, and types with different names are numbered by their names alone,
/// in whatever order they were registered.
pub proof fn lemma_packet_ids_follow_names(names: Seq<Seq<u8>>, i: int, j: int)
    requires
        0 <= i < names.len(),
        0 <= j < names.len(),
    ensures
        1 <= packet_id_of(names, i) <= names.len(),
        numbered_before(names, i, j) ==> packet_id_of(names, i) < packet_id_of(names, j),
        i != j ==> packet_id_of(names, i) != packet_id_of(names, j),
        i != j ==> numbered_before(names, i, j) || numbered_before(names, j, i),
{
    let n = names.len() as int;
    lemma_count_skips_self(names, i, n);
    lemma_name_less_irreflexive(names[i]);
    lemma_name_less_irreflexive(names[j]);
    lemma_name_less_total(names[i], names[j]);
    if numbered_before(names, i, j) {
        lemma_before_implies(names, i, j);
        lemma_count_monotone(names, i, j, n, i);
    }
    if numbered_before(names, j, i) {
        lemma_before_implies(names, j, i);
        lemma_count_monotone(names, j, i, n, j);
    }
}

/// What is numbered before a name is numbered before every name after it.
proof fn lemma_before_implies(names: Seq<Seq<u8>>, i: int, j: int)
    requires
        0 <= i < names.len(),
        0 <= j < names.len(),
        numbered_before(names, i, j),
    ensures
        forall|k: int|
            0 <= k < names.len() && numbered_before(names, k, i) ==> numbered_before(names, k, j),
        !numbered_before(names, i, i),
{
    lemma_name_less_irreflexive(names[i]);
    assert forall|k: int|
        0 <= k < names.len() && numbered_before(names, k, i) implies numbered_before(
        names,
        k,
        j,
    ) by {
        if name_less(names[k], names[i]) && name_less(names[i], names[j]) {
            lemma_name_less_transitive(names[k], names[i], names[j]);
        }
    }
}

/// A type that is to be registered for one direction.
pub struct Registration {
    /// The name of the type, the same on every process
    pub name: Vec<u8>,
    /// Who gets the updates of the type
    pub method: SendMethod,
    /// The attributes that an object needs to have for the type to apply
    pub component_ids: Vec<usize>,
}

/// A type that was registered, with the packet id that stands for it.
#[derive(Clone, Debug)]
pub struct RegisteredBundle {
    /// The byte that stands for the type on the wire
    pub packet_id: u8,
    /// Who gets the updates of the type
    pub method: SendMethod,
    /// The attributes that an object needs to have for the type to apply
    pub component_ids: Vec<usize>,
}

/// The names of a list of registrations.
pub open spec fn registered_names(entries: Seq<Registration>) -> Seq<Seq<u8>> {
    entries.map_values(|entry: Registration| entry.name@)
}

/// Register the types of one direction: each keeps its place in the list
/// and gets its packet id by its name.
pub fn register(entries: Vec<Registration>) -> (r: Result<Vec<RegisteredBundle>, RegistryError>)
    ensures
        entries@.len() > 255 ==> r == Err::<Vec<RegisteredBundle>, RegistryError>(
            RegistryError::TooManyTypes,
        ),
        entries@.len() <= 255 ==> r is Ok && r->Ok_0@.len() == entries@.len() && forall|i: int|
            0 <= i < entries@.len() ==> {
                &&& (#[trigger] r->Ok_0@[i]).packet_id as int == packet_id_of(
                    registered_names(entries@),
                    i,
                )
                &&& r->Ok_0@[i].method == entries@[i].method
                &&& r->Ok_0@[i].component_ids == entries@[i].component_ids
            },
{
    let mut entries = entries;
    let ghost given = entries@;
    let n = entries.len();
    let mut names: Vec<Vec<u8>> = Vec::new();
    let mut i: usize = 0;
    while i < n
        invariant
            0 <= i <= n,
            n == entries@.len(),
            n == given.len(),
            names@.len() == i,
            forall|k: int| 0 <= k < i ==> (#[trigger] names@[k])@ == given[k].name@,
            forall|k: int|
                0 <= k < n ==> (#[trigger] entries@[k]).method == given[k].method && entries@[k].component_ids
                    == given[k].component_ids,
            forall|k: int| i <= k < n ==> #[trigger] entries@[k] == given[k],
        decreases n - i,
    {
        let mut name: Vec<u8> = Vec::new();
        core::mem::swap(&mut name, &mut entries[i].name);
        names.push(name);
        i += 1;
    }
    proof {
        assert(names_view(names@) =~= registered_names(given));
    }
    let ids = match assign_packet_ids(&names) {
        Ok(ids) => ids,
        Err(e) => {
            return Err(e);
        },
    };
    let mut bundles: Vec<RegisteredBundle> = Vec::new();
    let mut i: usize = 0;
    while i < n
        invariant
            0 <= i <= n,
            n == entries@.len(),
            n == given.len(),
            n == ids@.len(),
            bundles@.len() == i,
            forall|k: int|
                0 <= k < n ==> #[trigger] ids@[k] as int == packet_id_of(
                    registered_names(given),
                    k,
                ),
            forall|k: int|
                0 <= k < i ==> {
                    &&& (#[trigger] bundles@[k]).packet_id == ids@[k]
                    &&& bundles@[k].method == given[k].method
                    &&& bundles@[k].component_ids == given[k].component_ids
                },
            forall|k: int|
                i <= k < n ==> (#[trigger] entries@[k]).method == given[k].method && entries@[k].component_ids
                    == given[k].component_ids,
        decreases n - i,
    {
        let mut component_ids: Vec<usize> = Vec::new();
        core::mem::swap(&mut component_ids, &mut entries[i].component_ids);
        bundles.push(RegisteredBundle { packet_id: ids[i], method: entries[i].method, component_ids });
        i += 1;
    }
    Ok(bundles)
}

/// The place of the type that a packet id stands for, if it stands for
/// one: the first in the list with that packet id.
pub fn find_bundle(bundles: &Vec<RegisteredBundle>, packet_id: u8) -> (r: Option<usize>)
    ensures
        r is Some ==> r->Some_0 < bundles@.len() && bundles@[r->Some_0 as int].packet_id
            == packet_id && forall|k: int|
            0 <= k < r->Some_0 ==> (#[trigger] bundles@[k]).packet_id != packet_id,
        r is None ==> forall|k: int|
            0 <= k < bundles@.len() ==> (#[trigger] bundles@[k]).packet_id != packet_id,
{
    let mut i: usize = 0;
    while i < bundles.len()
        invariant
            0 <= i <= bundles@.len(),
            forall|k: int| 0 <= k < i ==> (#[trigger] bundles@[k]).packet_id != packet_id,
        decreases bundles@.len() - i,
    {
        if bundles[i].packet_id == packet_id {
            return Some(i);
        }
        i += 1;
    }
    None
}

} // verus!
