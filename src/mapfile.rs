//! The map file: one entry per global variable, with its address, its type
//! name and the tree of its structure's members.

use vstd::prelude::*;
use crate::mapper::{
    postprocessed, walk, DebugEntry, Encoding, Mapper, MapperModel, MemberModel, StructMember,
    TypedefModel, StructureModel, VariableModel,
};
use crate::table::{find_key, lemma_key_index, lemma_map_table, lookup};
use crate::text::opt_text;

verus! {

/// An entry as plain values; an absent value is `None`, an absent field
/// list is empty.
pub struct EntryModel {
    pub addr: Option<u64>,
    pub fields: Seq<EntryModel>,
    pub name: Option<Seq<char>>,
    pub typ: Option<Seq<char>>,
    pub offset: Option<usize>,
}

/// One entry of the map file: a global, or a member nested in one.
pub struct Entry {
    pub addr: Option<u64>,
    pub fields: Vec<Entry>,
    pub name: Option<String>,
    pub typ: Option<String>,
    pub offset: Option<usize>,
}

/// The plain values that entry `e` holds.
pub open spec fn entry_view(e: Entry) -> EntryModel
    decreases e,
{
    EntryModel {
        addr: e.addr,
        fields: Seq::new(
            e.fields@.len(),
            |i: int|
                if 0 <= i < e.fields@.len() {
                    entry_view(e.fields@[i])
                } else {
                    arbitrary()
                },
        ),
        name: opt_text(e.name),
        typ: opt_text(e.typ),
        offset: e.offset,
    }
}

impl View for Entry {
    type V = EntryModel;

    open spec fn view(&self) -> EntryModel {
        entry_view(*self)
    }
}

/// The models of a sequence of entries.
pub open spec fn entries_view(es: Seq<Entry>) -> Seq<EntryModel> {
    es.map_values(|e: Entry| e@)
}

/// The entry of member `m`: its name, its offset, the name of its base type
/// where `bt` has one, and the entries of its fields.
pub open spec fn member_entry(bt: Seq<(usize, Seq<char>)>, m: MemberModel) -> EntryModel
    decreases m,
{
    EntryModel {
        addr: None,
        fields: Seq::new(
            m.fields.len(),
            |i: int|
                if 0 <= i < m.fields.len() {
                    member_entry(bt, m.fields[i])
                } else {
                    arbitrary()
                },
        ),
        name: Some(m.name),
        typ: lookup(bt, m.type_offset),
        offset: Some(m.member_offset),
    }
}

/// The entry of global `g`: its name, its address, the name of its base
/// type where there is one, and the member entries of its structure where
/// there is one.
pub open spec fn global_entry(m: MapperModel, g: VariableModel) -> EntryModel {
    EntryModel {
        addr: Some(g.address),
        fields: match lookup(m.structs, g.type_offset) {
            Some(s) => s.members.map_values(|x: MemberModel| member_entry(m.base_types, x)),
            None => Seq::empty(),
        },
        name: Some(g.name),
        typ: lookup(m.base_types, g.type_offset),
        offset: None,
    }
}

/// The map file of `m`: one entry per global, in order.
pub open spec fn map_entries(m: MapperModel) -> Seq<EntryModel> {
    m.globals.map_values(|g: VariableModel| global_entry(m, g))
}

/// A global whose type names no structure gets an entry with its address
/// and its name, and no fields.
pub proof fn lemma_global_without_structure(m: MapperModel, i: int)
    requires
        0 <= i < m.globals.len(),
        lookup(m.structs, m.globals[i].type_offset) is None,
    ensures
        map_entries(m)[i].addr == Some(m.globals[i].address),
        map_entries(m)[i].name == Some(m.globals[i].name),
        map_entries(m)[i].fields.len() == 0,
{
}

impl Entry {
    /// An entry with no values and no fields.
    pub fn new() -> (r: Entry)
        ensures
            r@ == (EntryModel {
                addr: None,
                fields: Seq::empty(),
                name: None,
                typ: None,
                offset: None,
            }),
    {
        let r = Entry { addr: None, fields: Vec::new(), name: None, typ: None, offset: None };
        assert(r@.fields =~= Seq::<EntryModel>::empty());
        r
    }
}

/// The name of the base type stored under `offset`.
fn base_type_name(mapper: &Mapper, offset: usize) -> (r: Option<String>)
    requires
        mapper.wf(),
    ensures
        opt_text(r) == lookup(mapper@.base_types, offset),
{
    proof {
        lemma_map_table(mapper.base_types@, |s: String| s@, offset, arbitrary());
    }
    match find_key(&mapper.base_types, offset) {
        Some(j) => {
            proof {
                lemma_key_index(mapper.base_types@, offset, j as int);
            }
            Some(mapper.base_types[j].1.clone())
        },
        None => None,
    }
}

/// `m` after walking each compilation unit of `roots`, in order, from depth 0.
pub open spec fn walk_units(m: MapperModel, roots: Seq<DebugEntry>) -> MapperModel
    decreases roots.len(),
{
    if roots.len() == 0 {
        m
    } else {
        walk(walk_units(m, roots.drop_last()), roots.last(), 0)
    }
}

/// A mapper with empty tables.
pub open spec fn empty_model(encoding: Encoding) -> MapperModel {
    MapperModel {
        encoding,
        typedefs: Seq::<(usize, TypedefModel)>::empty(),
        structs: Seq::<(usize, StructureModel)>::empty(),
        globals: Seq::<VariableModel>::empty(),
        base_types: Seq::<(usize, Seq<char>)>::empty(),
    }
}

/// The map file of a program whose compilation units have the entry trees
/// `roots`: every unit is walked, then typedefs are resolved, structures
/// flattened and globals given their member trees.
pub fn map_units(encoding: Encoding, roots: &Vec<DebugEntry>) -> (r: Mapfile)
    ensures
        entries_view(r.entries@) == map_entries(postprocessed(walk_units(empty_model(encoding), roots@))),
{
    let mut mapper = Mapper::new(encoding);
    assert(mapper@ == empty_model(encoding));
    let mut i: usize = 0;
    while i < roots.len()
        invariant
            i <= roots@.len(),
            mapper.wf(),
            mapper@ == walk_units(empty_model(encoding), roots@.take(i as int)),
        decreases roots@.len() - i,
    {
        assert(roots@.take(i + 1).drop_last() =~= roots@.take(i as int));
        assert(roots@.take(i + 1).last() == roots@[i as int]);
        mapper.process_tree(&roots[i], 0);
        i = i + 1;
    }
    assert(roots@.take(roots@.len() as int) =~= roots@);
    mapper.postprocess();
    Mapfile::new(mapper)
}

/// The map file of a postprocessed mapper.
pub struct Mapfile {
    pub entries: Vec<Entry>,
}

impl Mapfile {
    /// One entry per global of `mapper`, in order.
    pub fn new(mapper: Mapper) -> (r: Mapfile)
        requires
            mapper.wf(),
        ensures
            entries_view(r.entries@) == map_entries(mapper@),
    {
        let mut entries: Vec<Entry> = Vec::new();
        let mut i: usize = 0;
        while i < mapper.globals.len()
            invariant
                i <= mapper.globals@.len(),
                mapper.wf(),
                entries@.len() == i,
                forall|j: int|
                    0 <= j < i ==> #[trigger] entries@[j]@ == global_entry(
                        mapper@,
                        mapper@.globals[j],
                    ),
            decreases mapper.globals@.len() - i,
        {
            let global = &mapper.globals[i];
            let typ = base_type_name(&mapper, global.type_offset);
            let mut fields: Vec<Entry> = Vec::new();
            let ghost expected = global_entry(mapper@, mapper@.globals[i as int]).fields;
            assert(mapper@.globals[i as int] == global@);
            match mapper.resolve_struct(global.type_offset) {
                Some(strct) => {
                    let mut k: usize = 0;
                    while k < strct.members.len()
                        invariant
                            k <= strct.members@.len(),
                            mapper.wf(),
                            fields@.len() == k,
                            forall|j: int|
                                0 <= j < k ==> #[trigger] fields@[j]@ == member_entry(
                                    mapper@.base_types,
                                    strct.members@[j]@,
                                ),
                        decreases strct.members@.len() - k,
                    {
                        fields.push(Self::member_to_entry(&mapper, &strct.members[k]));
                        k = k + 1;
                    }
                    assert(entries_view(fields@) =~= expected);
                },
                None => {
                    assert(entries_view(fields@) =~= expected);
                },
            }
            let entry = Entry {
                addr: Some(global.address),
                fields,
                name: Some(global.name.clone()),
                typ,
                offset: None,
            };
            assert(entry@.fields =~= entries_view(entry.fields@));
            entries.push(entry);
            i = i + 1;
        }
        assert(entries_view(entries@) =~= map_entries(mapper@));
        Mapfile { entries }
    }

    /// The entry of `member` and, recursively, of its fields.
    fn member_to_entry(mapper: &Mapper, member: &StructMember) -> (r: Entry)
        requires
            mapper.wf(),
        ensures
            r@ == member_entry(mapper@.base_types, member@),
        decreases member,
    {
        let mut fields: Vec<Entry> = Vec::new();
        let mut k: usize = 0;
        while k < member.fields.len()
            invariant
                k <= member.fields@.len(),
                mapper.wf(),
                fields@.len() == k,
                forall|j: int|
                    0 <= j < k ==> #[trigger] fields@[j]@ == member_entry(
                        mapper@.base_types,
                        member.fields@[j]@,
                    ),
            decreases member.fields@.len() - k,
        {
            proof {
                vstd::std_specs::vec::axiom_vec_index_decreases(member.fields, k as int);
            }
            fields.push(Self::member_to_entry(mapper, &member.fields[k]));
            k = k + 1;
        }
        let typ = base_type_name(mapper, member.type_offset);
        let r = Entry {
            addr: None,
            fields,
            name: Some(member.name.clone()),
            typ,
            offset: Some(member.member_offset),
        };
        assert(member@.fields.len() == member.fields@.len());
        assert forall|j: int| 0 <= j < member.fields@.len() implies #[trigger] r@.fields[j]
            == member_entry(mapper@.base_types, member@).fields[j] by {
            assert(member@.fields[j] == member.fields@[j]@);
            assert(r@.fields[j] == r.fields@[j]@);
        }
        assert(r@.fields =~= member_entry(mapper@.base_types, member@).fields);
        r
    }
}

} // verus!
