//! Builds the type graph of a program from its debugging information entries:
//! base types, typedefs, structures and global variables, then resolves
//! typedefs and flattens structure members into self-contained trees.

use vstd::prelude::*;
use crate::table::{
    find_key, has_key, insert_entry, insert_key, key_index, keys_unique, lemma_insert, lemma_key_index,
    lemma_map_table, lookup, map_table,
};
use crate::text::{opt_text, text_from_utf8, utf8_text};

verus! {

/// Tag of a structure member entry.
pub const TAG_MEMBER: u16 = 0x0d;

/// Tag of a structure type entry.
pub const TAG_STRUCTURE_TYPE: u16 = 0x13;

/// Tag of a typedef entry.
pub const TAG_TYPEDEF: u16 = 0x16;

/// Tag of a base type entry.
pub const TAG_BASE_TYPE: u16 = 0x24;

/// Tag of a variable entry.
pub const TAG_VARIABLE: u16 = 0x34;

/// Upper bound on the steps of one expression evaluation.
pub const EVALUATION_STEP_LIMIT: u32 = 10000;

/// How the expressions of a compilation unit are encoded.
#[derive(Clone, Copy)]
pub struct Encoding {
    /// Size of a target address, in bytes.
    pub address_size: u8,
    /// Whether offsets are 64-bit.
    pub dwarf64: bool,
    pub version: u16,
}

/// One debugging information entry, with the attributes the mapper reads.
pub struct DebugEntry {
    pub tag: u16,
    /// Offset of the entry in the debug-info section: its identity.
    pub offset: usize,
    /// The name attribute, where it is given as a string.
    pub name: Option<Vec<u8>>,
    /// The type attribute, where it is a debug-info offset.
    pub type_ref: Option<usize>,
    /// The member-location attribute, where it is an expression.
    pub member_location: Option<Vec<u8>>,
    /// The location attribute, where it is an expression.
    pub location: Option<Vec<u8>>,
    pub children: Vec<DebugEntry>,
}

/// The address that a member-location expression yields, evaluated with an
/// initial stack value of zero, where its first piece is a plain address.
pub uninterp spec fn member_offset_of(expr: Seq<u8>, address_size: u8, dwarf64: bool, version: u16) -> Option<u64>;

/// The address that a location expression asks to have relocated, where its
/// evaluation stops for that.
pub uninterp spec fn global_address_of(expr: Seq<u8>, address_size: u8, dwarf64: bool, version: u16) -> Option<u64>;

/// Relies on gimli's `Evaluation` (`new`, `set_initial_value`,
/// `set_max_iterations`, `evaluate`, `result`): the result depends on the
/// expression and the encoding alone. `new` panics on addresses wider than 8
/// bytes, and the step limit makes every evaluation end.
#[verifier::external_body]
fn evaluate_member_offset(expr: &[u8], enc: Encoding) -> (r: Option<u64>)
    requires
        enc.address_size <= 8,
    ensures
        r == member_offset_of(expr@, enc.address_size, enc.dwarf64, enc.version),
{
    let format = if enc.dwarf64 { gimli::Format::Dwarf64 } else { gimli::Format::Dwarf32 };
    let encoding = gimli::Encoding { address_size: enc.address_size, format, version: enc.version };
    let mut eval = gimli::Evaluation::new(gimli::EndianSlice::new(expr, gimli::LittleEndian), encoding);
    eval.set_initial_value(0);
    eval.set_max_iterations(EVALUATION_STEP_LIMIT);
    match eval.evaluate() {
        Ok(gimli::EvaluationResult::Complete) => match eval.result().first() {
            Some(gimli::Piece { location: gimli::Location::Address { address }, .. }) => Some(*address),
            _ => None,
        },
        _ => None,
    }
}

/// Relies on gimli's `Evaluation` (`new`, `set_max_iterations`, `evaluate`):
/// the result depends on the expression and the encoding alone. `new` panics
/// on addresses wider than 8 bytes, and the step limit makes every evaluation
/// end.
#[verifier::external_body]
fn evaluate_global_address(expr: &[u8], enc: Encoding) -> (r: Option<u64>)
    requires
        enc.address_size <= 8,
    ensures
        r == global_address_of(expr@, enc.address_size, enc.dwarf64, enc.version),
{
    let format = if enc.dwarf64 { gimli::Format::Dwarf64 } else { gimli::Format::Dwarf32 };
    let encoding = gimli::Encoding { address_size: enc.address_size, format, version: enc.version };
    let mut eval = gimli::Evaluation::new(gimli::EndianSlice::new(expr, gimli::LittleEndian), encoding);
    eval.set_max_iterations(EVALUATION_STEP_LIMIT);
    match eval.evaluate() {
        Ok(gimli::EvaluationResult::RequiresRelocatedAddress(address)) => Some(address),
        _ => None,
    }
}

/// A structure member as a tree: its nested fields are those of its type.
pub struct MemberModel {
    pub name: Seq<char>,
    pub type_offset: usize,
    pub member_offset: usize,
    pub fields: Seq<MemberModel>,
}

pub struct StructureModel {
    pub name: Option<Seq<char>>,
    pub type_offset: usize,
    pub members: Seq<MemberModel>,
}

pub struct VariableModel {
    pub address: u64,
    pub name: Seq<char>,
    pub type_offset: usize,
    pub fields: Seq<MemberModel>,
}

pub struct TypedefModel {
    pub name: Seq<char>,
    pub type_offset: usize,
}

/// The four collections of a mapper, keyed by debug-info offset, and its
/// globals in the order they were found.
pub struct MapperModel {
    pub encoding: Encoding,
    pub typedefs: Seq<(usize, TypedefModel)>,
    pub structs: Seq<(usize, StructureModel)>,
    pub globals: Seq<VariableModel>,
    pub base_types: Seq<(usize, Seq<char>)>,
}

pub struct StructMember {
    pub name: String,
    pub type_offset: usize,
    pub member_offset: usize,
    pub fields: Vec<StructMember>,
}

/// The tree that member `m` stands for.
pub open spec fn member_view(m: StructMember) -> MemberModel
    decreases m,
{
    MemberModel {
        name: m.name@,
        type_offset: m.type_offset,
        member_offset: m.member_offset,
        fields: Seq::new(
            m.fields@.len(),
            |i: int|
                if 0 <= i < m.fields@.len() {
                    member_view(m.fields@[i])
                } else {
                    arbitrary()
                },
        ),
    }
}

impl View for StructMember {
    type V = MemberModel;

    open spec fn view(&self) -> MemberModel {
        member_view(*self)
    }
}

/// The models of a sequence of members.
pub open spec fn members_view(ms: Seq<StructMember>) -> Seq<MemberModel> {
    ms.map_values(|m: StructMember| m@)
}

pub struct Structure {
    pub name: Option<String>,
    pub type_offset: usize,
    pub members: Vec<StructMember>,
}

impl View for Structure {
    type V = StructureModel;

    open spec fn view(&self) -> StructureModel {
        StructureModel {
            name: opt_text(self.name),
            type_offset: self.type_offset,
            members: members_view(self.members@),
        }
    }
}

pub struct Variable {
    pub address: u64,
    pub name: String,
    pub type_offset: usize,
    pub fields: Vec<StructMember>,
}

impl View for Variable {
    type V = VariableModel;

    open spec fn view(&self) -> VariableModel {
        VariableModel {
            address: self.address,
            name: self.name@,
            type_offset: self.type_offset,
            fields: members_view(self.fields@),
        }
    }
}

pub struct Typedef {
    pub name: String,
    pub type_offset: usize,
}

impl View for Typedef {
    type V = TypedefModel;

    open spec fn view(&self) -> TypedefModel {
        TypedefModel { name: self.name@, type_offset: self.type_offset }
    }
}

pub struct Mapper {
    pub encoding: Encoding,
    pub typedefs: Vec<(usize, Typedef)>,
    pub structs: Vec<(usize, Structure)>,
    pub globals: Vec<Variable>,
    pub base_types: Vec<(usize, String)>,
}

impl View for Mapper {
    type V = MapperModel;

    open spec fn view(&self) -> MapperModel {
        MapperModel {
            encoding: self.encoding,
            typedefs: map_table(self.typedefs@, |t: Typedef| t@),
            structs: map_table(self.structs@, |s: Structure| s@),
            globals: self.globals@.map_values(|g: Variable| g@),
            base_types: map_table(self.base_types@, |s: String| s@),
        }
    }
}

/// The text of a name attribute, where it is valid UTF-8.
pub open spec fn text_attr(a: Option<Vec<u8>>) -> Option<Seq<char>> {
    match a {
        Some(b) => utf8_text(b@),
        None => None,
    }
}

/// The member that entry `e` describes, where it has a name, a type and a
/// member location that evaluates to an address.
pub open spec fn member_model(e: DebugEntry, enc: Encoding) -> Option<MemberModel> {
    match (text_attr(e.name), e.type_ref, e.member_location) {
        (Some(name), Some(t), Some(x)) => if enc.address_size <= 8 {
            match member_offset_of(x@, enc.address_size, enc.dwarf64, enc.version) {
                Some(off) => Some(
                    MemberModel {
                        name,
                        type_offset: t,
                        member_offset: off as usize,
                        fields: Seq::empty(),
                    },
                ),
                None => None,
            }
        } else {
            None
        },
        _ => None,
    }
}

/// The members among the children of a structure entry, in order.
pub open spec fn members_model(children: Seq<DebugEntry>, enc: Encoding) -> Seq<MemberModel> {
    children.filter_map(
        |c: DebugEntry|
            if c.tag == TAG_MEMBER {
                member_model(c, enc)
            } else {
                None
            },
    )
}

/// `m` after recording the structure entry `e`.
pub open spec fn record_struct(m: MapperModel, e: DebugEntry) -> MapperModel {
    MapperModel {
        structs: insert_key(
            m.structs,
            e.offset,
            StructureModel {
                name: text_attr(e.name),
                type_offset: e.offset,
                members: members_model(e.children@, m.encoding),
            },
        ),
        ..m
    }
}

/// `m` after recording the typedef entry `e`, where it has a name and a type.
pub open spec fn record_typedef(m: MapperModel, e: DebugEntry) -> MapperModel {
    match (text_attr(e.name), e.type_ref) {
        (Some(name), Some(t)) => MapperModel {
            typedefs: insert_key(m.typedefs, e.offset, TypedefModel { name, type_offset: t }),
            ..m
        },
        _ => m,
    }
}

/// `m` after recording the base-type entry `e`, where it has a name.
pub open spec fn record_base_type(m: MapperModel, e: DebugEntry) -> MapperModel {
    match text_attr(e.name) {
        Some(name) => MapperModel { base_types: insert_key(m.base_types, e.offset, name), ..m },
        None => m,
    }
}

/// `m` after recording the variable entry `e` found at depth `level`: only a
/// global (depth at most 1) with a name, a type and a relocatable address.
pub open spec fn record_variable(m: MapperModel, e: DebugEntry, level: u32) -> MapperModel {
    let enc = m.encoding;
    if level > 1 {
        m
    } else {
        match (text_attr(e.name), e.type_ref, e.location) {
            (Some(name), Some(t), Some(x)) => if enc.address_size <= 8 {
                match global_address_of(x@, enc.address_size, enc.dwarf64, enc.version) {
                    Some(address) => MapperModel {
                        globals: m.globals.push(
                            VariableModel { address, name, type_offset: t, fields: Seq::empty() },
                        ),
                        ..m
                    },
                    None => m,
                }
            } else {
                m
            },
            _ => m,
        }
    }
}

/// The depth of the children of an entry at depth `level`.
pub open spec fn next_level(level: u32) -> u32 {
    if level < u32::MAX {
        (level + 1) as u32
    } else {
        level
    }
}

/// `m` after walking the tree rooted at `e`, found at depth `level`.
pub open spec fn walk(m: MapperModel, e: DebugEntry, level: u32) -> MapperModel
    decreases e, 1int, 0int,
{
    if e.tag == TAG_STRUCTURE_TYPE {
        record_struct(m, e)
    } else if e.tag == TAG_TYPEDEF {
        record_typedef(m, e)
    } else if e.tag == TAG_VARIABLE {
        record_variable(m, e, level)
    } else if e.tag == TAG_BASE_TYPE {
        record_base_type(m, e)
    } else {
        walk_children(m, e, e.children@.len() as int, next_level(level))
    }
}

/// `m` after walking the first `k` children of `e`, each at depth `level`.
pub open spec fn walk_children(m: MapperModel, e: DebugEntry, k: int, level: u32) -> MapperModel
    decreases e, 0int, k,
{
    if k <= 0 || k > e.children@.len() {
        m
    } else {
        walk(walk_children(m, e, k - 1, level), e.children@[k - 1], level)
    }
}


/// `m` after aliasing the typedef `td`, stored under `addr`: a structure it
/// names takes its name and is also stored under `addr`; a base type it
/// names is also stored under `addr`.
pub open spec fn alias_typedef(m: MapperModel, addr: usize, td: TypedefModel) -> MapperModel {
    let m1 = match lookup(m.structs, td.type_offset) {
        Some(s) => {
            let renamed = StructureModel { name: Some(td.name), ..s };
            MapperModel {
                structs: insert_key(insert_key(m.structs, td.type_offset, renamed), addr, renamed),
                ..m
            }
        },
        None => m,
    };
    match lookup(m1.base_types, td.type_offset) {
        Some(b) => MapperModel { base_types: insert_key(m1.base_types, addr, b), ..m1 },
        None => m1,
    }
}

/// `m` after aliasing the typedefs of `tds`, in order.
pub open spec fn alias_typedefs(m: MapperModel, tds: Seq<(usize, TypedefModel)>) -> MapperModel
    decreases tds.len(),
{
    if tds.len() == 0 {
        m
    } else {
        alias_typedef(alias_typedefs(m, tds.drop_last()), tds.last().0, tds.last().1)
    }
}

/// The structure that members of type `t` expand into, when the descent
/// along `path` may go on: `t` names a structure, the path is shorter than
/// the number of structures, and that structure is not already on it.
pub open spec fn expansion(ss: Seq<(usize, StructureModel)>, t: usize, path: Seq<usize>) -> Option<
    StructureModel,
> {
    match lookup(ss, t) {
        Some(s) => if path.len() < ss.len() && !path.contains(s.type_offset) {
            Some(s)
        } else {
            None
        },
        None => None,
    }
}

/// `ms` with the fields of every member filled in from the structures `ss`,
/// recursively. `path` holds the identities of the structures being
/// expanded: a member whose structure is on it, or any member once the path
/// is as long as `ss`, gets no fields. So every cycle is cut at its first
/// repetition, and no tree is deeper than `ss` is long.
pub open spec fn resolve_members(
    ss: Seq<(usize, StructureModel)>,
    ms: Seq<MemberModel>,
    path: Seq<usize>,
) -> Seq<MemberModel>
    decreases ss.len() - path.len(),
{
    ms.map_values(
        |m: MemberModel|
            MemberModel {
                fields: match expansion(ss, m.type_offset, path) {
                    // `expansion` already bounds the path; the bound is
                    // repeated here for the recursion's measure.
                    Some(s) => if path.len() < ss.len() {
                        resolve_members(ss, s.members, path.push(s.type_offset))
                    } else {
                        Seq::empty()
                    },
                    None => Seq::empty(),
                },
                ..m
            },
    )
}

/// Every structure of `ss` with its member trees resolved, starting from a
/// path that holds the structure itself.
pub open spec fn flattened(ss: Seq<(usize, StructureModel)>) -> Seq<(usize, StructureModel)> {
    ss.map_values(
        |p: (usize, StructureModel)|
            (
                p.0,
                StructureModel {
                    members: resolve_members(ss, p.1.members, seq![p.1.type_offset]),
                    ..p.1
                },
            ),
    )
}

/// `g` with the member tree of its structure type, where `ss` has one.
pub open spec fn attach_global(ss: Seq<(usize, StructureModel)>, g: VariableModel) -> VariableModel {
    match lookup(ss, g.type_offset) {
        Some(s) => VariableModel { fields: s.members, ..g },
        None => g,
    }
}

/// `m` after resolving typedefs, flattening structures and attaching member
/// trees to globals.
pub open spec fn postprocessed(m: MapperModel) -> MapperModel {
    let a = alias_typedefs(m, m.typedefs);
    let ss = flattened(a.structs);
    MapperModel {
        structs: ss,
        globals: a.globals.map_values(|g: VariableModel| attach_global(ss, g)),
        ..a
    }
}

/// Two member lists that agree on everything but their fields.
pub open spec fn same_shape(a: Seq<MemberModel>, b: Seq<MemberModel>) -> bool {
    &&& a.len() == b.len()
    &&& forall|i: int|
        0 <= i < a.len() ==> {
            &&& (#[trigger] a[i]).name == b[i].name
            &&& a[i].type_offset == b[i].type_offset
            &&& a[i].member_offset == b[i].member_offset
        }
}

/// Two structure tables with the same keys in the same order, holding
/// structures with the same identities and member lists of the same shape.
pub open spec fn same_tables(s1: Seq<(usize, StructureModel)>, s2: Seq<(usize, StructureModel)>) -> bool {
    &&& s1.len() == s2.len()
    &&& forall|i: int|
        0 <= i < s1.len() ==> {
            &&& (#[trigger] s1[i]).0 == s2[i].0
            &&& s1[i].1.type_offset == s2[i].1.type_offset
            &&& same_shape(s1[i].1.members, s2[i].1.members)
        }
}

/// Resolution reads only the shape of members and structures: not the
/// fields they already have.
proof fn lemma_resolve_reads_shape(
    ss1: Seq<(usize, StructureModel)>,
    ss2: Seq<(usize, StructureModel)>,
    ms1: Seq<MemberModel>,
    ms2: Seq<MemberModel>,
    path: Seq<usize>,
)
    requires
        keys_unique(ss1),
        same_tables(ss1, ss2),
        same_shape(ms1, ms2),
    ensures
        resolve_members(ss1, ms1, path) == resolve_members(ss2, ms2, path),
    decreases ss1.len() - path.len(),
{
    assert(keys_unique(ss2)) by {
        assert forall|a: int, b: int|
            0 <= a < ss2.len() && 0 <= b < ss2.len() && #[trigger] ss2[a].0 == #[trigger] ss2[b].0 implies a
            == b by {
            assert(ss1[a].0 == ss2[a].0);
            assert(ss1[b].0 == ss2[b].0);
        }
    }
    let r1 = resolve_members(ss1, ms1, path);
    let r2 = resolve_members(ss2, ms2, path);
    assert forall|i: int| 0 <= i < ms1.len() implies r1[i] == r2[i] by {
        assert(ms1[i].name == ms2[i].name);
        let t = ms1[i].type_offset;
        if has_key(ss1, t) {
            let j = key_index(ss1, t);
            lemma_key_index(ss1, t, j);
            assert(ss1[j].0 == ss2[j].0);
            lemma_key_index(ss2, t, j);
            if path.len() < ss1.len() && !path.contains(ss1[j].1.type_offset) {
                lemma_resolve_reads_shape(
                    ss1,
                    ss2,
                    ss1[j].1.members,
                    ss2[j].1.members,
                    path.push(ss1[j].1.type_offset),
                );
            }
        } else if has_key(ss2, t) {
            let j = key_index(ss2, t);
            assert(ss1[j].0 == ss2[j].0);
        }
    }
    assert(r1 =~= r2);
}

/// Flattening a structure table that is already flat gives it back
/// unchanged.
pub proof fn lemma_flatten_idempotent(ss: Seq<(usize, StructureModel)>)
    requires
        keys_unique(ss),
    ensures
        flattened(flattened(ss)) == flattened(ss),
{
    let f = flattened(ss);
    assert(same_tables(f, ss)) by {
        assert forall|i: int| 0 <= i < f.len() implies {
            &&& (#[trigger] f[i]).0 == ss[i].0
            &&& f[i].1.type_offset == ss[i].1.type_offset
            &&& same_shape(f[i].1.members, ss[i].1.members)
        } by {
            let ms = ss[i].1.members;
            let r = resolve_members(ss, ms, seq![ss[i].1.type_offset]);
            assert(r.len() == ms.len());
            assert forall|k: int| 0 <= k < r.len() implies {
                &&& (#[trigger] r[k]).name == ms[k].name
                &&& r[k].type_offset == ms[k].type_offset
                &&& r[k].member_offset == ms[k].member_offset
            } by {}
        }
    }
    assert(keys_unique(f)) by {
        assert forall|a: int, b: int|
            0 <= a < f.len() && 0 <= b < f.len() && #[trigger] f[a].0 == #[trigger] f[b].0 implies a
            == b by {
            assert(f[a].0 == ss[a].0);
            assert(f[b].0 == ss[b].0);
        }
    }
    assert forall|i: int| 0 <= i < f.len() implies #[trigger] flattened(f)[i] == f[i] by {
        let path = seq![f[i].1.type_offset];
        lemma_resolve_reads_shape(f, ss, f[i].1.members, ss[i].1.members, path);
    }
    assert(flattened(f) =~= f);
}

/// Every member tree of `ms` is at most `d` levels deep.
pub open spec fn depth_at_most(ms: Seq<MemberModel>, d: nat) -> bool
    decreases d,
{
    ms.len() == 0 || (d > 0 && forall|i: int|
        0 <= i < ms.len() ==> depth_at_most(#[trigger] ms[i].fields, (d - 1) as nat))
}

/// Resolving along a path leaves trees no deeper than the number of
/// structures that are not on the path, plus one.
proof fn lemma_resolve_depth(ss: Seq<(usize, StructureModel)>, ms: Seq<MemberModel>, path: Seq<usize>)
    requires
        path.len() <= ss.len(),
    ensures
        depth_at_most(resolve_members(ss, ms, path), (ss.len() - path.len() + 1) as nat),
    decreases ss.len() - path.len(),
{
    let r = resolve_members(ss, ms, path);
    let d = (ss.len() - path.len() + 1) as nat;
    assert forall|i: int| 0 <= i < r.len() implies depth_at_most(#[trigger] r[i].fields, (d - 1) as nat) by {
        match expansion(ss, ms[i].type_offset, path) {
            Some(s) => {
                if path.len() < ss.len() {
                    lemma_resolve_depth(ss, s.members, path.push(s.type_offset));
                }
            },
            None => {},
        }
    }
}

/// Flattening ends, whatever cycles the member types form, and leaves member
/// trees no deeper than the number of structures in the table.
pub proof fn lemma_flatten_depth(ss: Seq<(usize, StructureModel)>)
    ensures
        forall|i: int|
            0 <= i < ss.len() ==> depth_at_most(
                (#[trigger] flattened(ss)[i]).1.members,
                ss.len() as nat,
            ),
{
    assert forall|i: int| 0 <= i < ss.len() implies depth_at_most(
        (#[trigger] flattened(ss)[i]).1.members,
        ss.len() as nat,
    ) by {
        lemma_resolve_depth(ss, ss[i].1.members, seq![ss[i].1.type_offset]);
    }
}

/// The structure that `flattened` stores under a key.
pub open spec fn flat_structure(ss: Seq<(usize, StructureModel)>, s: StructureModel) -> StructureModel {
    StructureModel { members: resolve_members(ss, s.members, seq![s.type_offset]), ..s }
}

/// What holds after aliasing the first `k` typedefs, for the typedef at
/// position `i`, stored under `t`, over the structure stored under `s`.
pub open spec fn alias_progress(m: MapperModel, i: int, k: int) -> bool {
    let a = alias_typedefs(m, m.typedefs.take(k));
    let t = m.typedefs[i].0;
    let s = m.typedefs[i].1.type_offset;
    &&& keys_unique(a.structs)
    &&& keys_unique(a.base_types)
    &&& has_key(a.structs, s)
    &&& k > i ==> {
        &&& has_key(a.structs, t)
        &&& lookup(a.structs, t)->Some_0.members == lookup(a.structs, s)->Some_0.members
        &&& lookup(a.structs, t)->Some_0.type_offset == lookup(a.structs, s)->Some_0.type_offset
        &&& lookup(a.structs, t)->Some_0.name == Some(m.typedefs[i].1.name)
    }
}

/// The conditions of the aliasing law: distinct keys in every table, the
/// typedef at `i` names a structure, no typedef shares its offset with a
/// structure, and no typedef names the one at `i`.
pub open spec fn alias_conditions(m: MapperModel, i: int) -> bool {
    &&& keys_unique(m.typedefs)
    &&& keys_unique(m.structs)
    &&& keys_unique(m.base_types)
    &&& 0 <= i < m.typedefs.len()
    &&& has_key(m.structs, m.typedefs[i].1.type_offset)
    &&& forall|j: int| 0 <= j < m.typedefs.len() ==> !has_key(m.structs, #[trigger] m.typedefs[j].0)
    &&& forall|j: int|
        0 <= j < m.typedefs.len() ==> (#[trigger] m.typedefs[j]).1.type_offset != m.typedefs[i].0
}

proof fn lemma_alias_progress(m: MapperModel, i: int, k: int)
    requires
        alias_conditions(m, i),
        0 <= k <= m.typedefs.len(),
    ensures
        alias_progress(m, i, k),
    decreases k,
{
    let t = m.typedefs[i].0;
    let s = m.typedefs[i].1.type_offset;
    if k == 0 {
        assert(m.typedefs.take(0) =~= Seq::<(usize, TypedefModel)>::empty());
    } else {
        lemma_alias_progress(m, i, k - 1);
        let tds = m.typedefs.take(k);
        assert(tds.drop_last() =~= m.typedefs.take(k - 1));
        assert(tds.last() == m.typedefs[k - 1]);
        let a = alias_typedefs(m, m.typedefs.take(k - 1));
        let tk = m.typedefs[k - 1].0;
        let td = m.typedefs[k - 1].1;
        let u = td.type_offset;
        assert(!has_key(m.structs, tk));
        assert(tk != s);
        assert(u != t);
        assert(k - 1 != i ==> tk != t);
        let m1 = match lookup(a.structs, u) {
            Some(x) => {
                let renamed = StructureModel { name: Some(td.name), ..x };
                lemma_insert(a.structs, u, renamed);
                lemma_insert(insert_key(a.structs, u, renamed), tk, renamed);
                MapperModel {
                    structs: insert_key(insert_key(a.structs, u, renamed), tk, renamed),
                    ..a
                }
            },
            None => a,
        };
        match lookup(m1.base_types, u) {
            Some(b) => {
                lemma_insert(m1.base_types, tk, b);
            },
            None => {},
        }
        assert(alias_typedefs(m, tds) == alias_typedef(a, tk, td));
        let next = alias_typedef(a, tk, td);
        assert(next.structs == m1.structs);
        if lookup(a.structs, u) is Some {
            let x = lookup(a.structs, u)->Some_0;
            let renamed = StructureModel { name: Some(td.name), ..x };
            let first = insert_key(a.structs, u, renamed);
            assert(has_key(m1.structs, s)) by {
                if u != s {
                    assert(lookup(first, s) == lookup(a.structs, s));
                }
                assert(lookup(m1.structs, s) == lookup(first, s));
            }
            if k - 1 == i {
                assert(u == s);
                assert(lookup(m1.structs, t) == Some(renamed));
                assert(lookup(m1.structs, s) == lookup(first, s));
            } else if k - 1 > i {
                assert(lookup(m1.structs, t) == lookup(first, t));
                assert(lookup(first, t) == lookup(a.structs, t));
                assert(lookup(m1.structs, s) == lookup(first, s));
            }
        }
    }
}

/// After postprocessing, a typedef over a structure reaches by its own
/// offset the same member list that the structure's offset reaches, and
/// carries the typedef's name. Offsets identify one entry each, so no
/// typedef shares its offset with a structure; where another typedef names
/// this one, that later typedef's name takes over.
pub proof fn lemma_typedef_alias(m: MapperModel, i: int)
    requires
        alias_conditions(m, i),
    ensures
        ({
            let p = postprocessed(m);
            let t = m.typedefs[i].0;
            let s = m.typedefs[i].1.type_offset;
            &&& lookup(p.structs, t) is Some
            &&& lookup(p.structs, s) is Some
            &&& lookup(p.structs, t)->Some_0.members == lookup(p.structs, s)->Some_0.members
            &&& lookup(p.structs, t)->Some_0.name == Some(m.typedefs[i].1.name)
        }),
{
    let n = m.typedefs.len() as int;
    lemma_alias_progress(m, i, n);
    assert(m.typedefs.take(n) =~= m.typedefs);
    let a = alias_typedefs(m, m.typedefs);
    let f = |x: StructureModel| flat_structure(a.structs, x);
    assert(flattened(a.structs) =~= map_table(a.structs, f));
    let t = m.typedefs[i].0;
    let s = m.typedefs[i].1.type_offset;
    lemma_map_table(a.structs, f, t, arbitrary());
    lemma_map_table(a.structs, f, s, arbitrary());
}

impl StructMember {
    /// A copy of this member whose fields are `fields`.
    fn with_fields(&self, fields: Vec<StructMember>) -> (r: StructMember)
        ensures
            r@ == (MemberModel { fields: members_view(fields@), ..self@ }),
    {
        let r = StructMember {
            name: self.name.clone(),
            type_offset: self.type_offset,
            member_offset: self.member_offset,
            fields,
        };
        assert forall|k: int| 0 <= k < r.fields@.len() implies r.fields@[k]@ == members_view(
            r.fields@,
        )[k] by {}
        assert(r@.fields =~= members_view(r.fields@));
        r
    }

    /// A copy of the member and its fields.
    pub fn duplicate(&self) -> (r: StructMember)
        ensures
            r@ == self@,
        decreases self,
    {
        let mut fields: Vec<StructMember> = Vec::new();
        let mut i: usize = 0;
        while i < self.fields.len()
            invariant
                i <= self.fields@.len(),
                fields@.len() == i,
                forall|j: int| 0 <= j < i ==> #[trigger] fields@[j]@ == self.fields@[j]@,
            decreases self.fields@.len() - i,
        {
            proof {
                vstd::std_specs::vec::axiom_vec_index_decreases(self.fields, i as int);
            }
            fields.push(self.fields[i].duplicate());
            i = i + 1;
        }
        let r = StructMember {
            name: self.name.clone(),
            type_offset: self.type_offset,
            member_offset: self.member_offset,
            fields,
        };
        assert forall|j: int| 0 <= j < r.fields@.len() implies r.fields@[j]@ == self.fields@[j]@ by {}
        assert(r@.fields =~= self@.fields);
        r
    }
}

/// A copy of every member of `ms`.
fn duplicate_members(ms: &Vec<StructMember>) -> (r: Vec<StructMember>)
    ensures
        members_view(r@) == members_view(ms@),
{
    let mut out: Vec<StructMember> = Vec::new();
    let mut i: usize = 0;
    while i < ms.len()
        invariant
            i <= ms@.len(),
            out@.len() == i,
            forall|j: int| 0 <= j < i ==> #[trigger] out@[j]@ == ms@[j]@,
        decreases ms@.len() - i,
    {
        out.push(ms[i].duplicate());
        i = i + 1;
    }
    assert(members_view(out@) =~= members_view(ms@));
    out
}

fn duplicate_text(s: &Option<String>) -> (r: Option<String>)
    ensures
        r == *s,
{
    match s {
        Some(t) => Some(t.clone()),
        None => None,
    }
}

/// `path` with `x` added at its end.
fn extended(path: &Vec<usize>, x: usize) -> (r: Vec<usize>)
    ensures
        r@ == path@.push(x),
{
    let mut r: Vec<usize> = Vec::new();
    let mut i: usize = 0;
    while i < path.len()
        invariant
            i <= path@.len(),
            r@ == path@.take(i as int),
        decreases path@.len() - i,
    {
        r.push(path[i]);
        assert(path@.take(i + 1) =~= path@.take(i as int).push(path@[i as int]));
        i = i + 1;
    }
    assert(path@.take(path@.len() as int) =~= path@);
    r.push(x);
    r
}

/// Whether `v` holds `x`.
fn contains_offset(v: &Vec<usize>, x: usize) -> (r: bool)
    ensures
        r == v@.contains(x),
{
    let mut i: usize = 0;
    while i < v.len()
        invariant
            i <= v@.len(),
            forall|j: int| 0 <= j < i ==> v@[j] != x,
        decreases v@.len() - i,
    {
        if v[i] == x {
            return true;
        }
        i = i + 1;
    }
    false
}

impl Structure {
    pub fn duplicate(&self) -> (r: Structure)
        ensures
            r@ == self@,
    {
        Structure {
            name: duplicate_text(&self.name),
            type_offset: self.type_offset,
            members: duplicate_members(&self.members),
        }
    }
}

impl Mapper {
    /// The mapper's tables have distinct keys.
    pub open spec fn wf(&self) -> bool {
        keys_unique(self.typedefs@) && keys_unique(self.structs@) && keys_unique(self.base_types@)
    }

    /// An empty mapper for expressions in `encoding`.
    pub fn new(encoding: Encoding) -> (r: Mapper)
        ensures
            r.wf(),
            r@.encoding == encoding,
            r@.typedefs == Seq::<(usize, TypedefModel)>::empty(),
            r@.structs == Seq::<(usize, StructureModel)>::empty(),
            r@.globals == Seq::<VariableModel>::empty(),
            r@.base_types == Seq::<(usize, Seq<char>)>::empty(),
    {
        let r = Mapper {
            encoding,
            typedefs: Vec::new(),
            structs: Vec::new(),
            globals: Vec::new(),
            base_types: Vec::new(),
        };
        assert(r@.typedefs =~= Seq::<(usize, TypedefModel)>::empty());
        assert(r@.structs =~= Seq::<(usize, StructureModel)>::empty());
        assert(r@.globals =~= Seq::<VariableModel>::empty());
        assert(r@.base_types =~= Seq::<(usize, Seq<char>)>::empty());
        r
    }

    /// Walks the tree rooted at `node`, found at depth `level`, and records
    /// the structures, typedefs, base types and globals in it.
    pub fn process_tree(&mut self, node: &DebugEntry, level: u32)
        requires
            old(self).wf(),
        ensures
            final(self).wf(),
            final(self)@ == walk(old(self)@, *node, level),
        decreases node,
    {
        if node.tag == TAG_STRUCTURE_TYPE {
            self.process_struct(node);
        } else if node.tag == TAG_TYPEDEF {
            self.process_typedef(node);
        } else if node.tag == TAG_VARIABLE {
            self.process_variable(node, level);
        } else if node.tag == TAG_BASE_TYPE {
            self.process_type(node);
        } else {
            let next: u32 = if level < u32::MAX {
                level + 1
            } else {
                level
            };
            let ghost start = self@;
            let mut i: usize = 0;
            while i < node.children.len()
                invariant
                    i <= node.children@.len(),
                    next == next_level(level),
                    self.wf(),
                    self@ == walk_children(start, *node, i as int, next),
                decreases node.children@.len() - i,
            {
                proof {
                    vstd::std_specs::vec::axiom_vec_index_decreases(node.children, i as int);
                }
                self.process_tree(&node.children[i], next);
                i = i + 1;
            }
        }
    }

    /// Records a base type under the entry's offset, where it has a name.
    fn process_type(&mut self, node: &DebugEntry)
        requires
            old(self).wf(),
        ensures
            final(self).wf(),
            final(self)@ == record_base_type(old(self)@, *node),
    {
        let name = match &node.name {
            Some(b) => match text_from_utf8(b.as_slice()) {
                Some(s) => s,
                None => return,
            },
            None => return,
        };
        proof {
            lemma_map_table(self.base_types@, |s: String| s@, node.offset, name);
        }
        insert_entry(&mut self.base_types, node.offset, name);
    }

    /// The member that `node` describes, where it has a name, a type and a
    /// member location that evaluates to an address.
    fn process_struct_member(&self, node: &DebugEntry) -> (r: Option<StructMember>)
        ensures
            match r {
                Some(m) => member_model(*node, self.encoding) == Some(m@),
                None => member_model(*node, self.encoding) is None,
            },
    {
        let name = match &node.name {
            Some(b) => match text_from_utf8(b.as_slice()) {
                Some(s) => s,
                None => return None,
            },
            None => return None,
        };
        let type_offset = match node.type_ref {
            Some(t) => t,
            None => return None,
        };
        let member_offset = match &node.member_location {
            Some(expr) => {
                if self.encoding.address_size > 8 {
                    return None;
                }
                match evaluate_member_offset(expr.as_slice(), self.encoding) {
                    Some(off) => off as usize,
                    None => return None,
                }
            },
            None => return None,
        };
        let r = StructMember { name, type_offset, member_offset, fields: Vec::new() };
        assert(r@.fields =~= Seq::<MemberModel>::empty());
        Some(r)
    }

    /// The members among the children of `node`, in order.
    fn process_struct_members(&self, node: &DebugEntry) -> (r: Vec<StructMember>)
        ensures
            members_view(r@) == members_model(node.children@, self.encoding),
    {
        let mut ret: Vec<StructMember> = Vec::new();
        let mut i: usize = 0;
        while i < node.children.len()
            invariant
                i <= node.children@.len(),
                members_view(ret@) == members_model(node.children@.take(i as int), self.encoding),
            decreases node.children@.len() - i,
        {
            let child = &node.children[i];
            let ghost before = node.children@.take(i as int);
            assert(node.children@.take(i + 1).drop_last() =~= before);
            assert(node.children@.take(i + 1).last() == *child);
            if child.tag == TAG_MEMBER {
                match self.process_struct_member(child) {
                    Some(m) => {
                        ret.push(m);
                        assert(members_view(ret@) =~= members_model(before, self.encoding) + seq![
                            m@,
                        ]);
                    },
                    None => {},
                }
            }
            i = i + 1;
        }
        assert(node.children@.take(node.children@.len() as int) =~= node.children@);
        ret
    }

    /// Records a structure and its members under the entry's offset.
    fn process_struct(&mut self, node: &DebugEntry)
        requires
            old(self).wf(),
        ensures
            final(self).wf(),
            final(self)@ == record_struct(old(self)@, *node),
    {
        let name = match &node.name {
            Some(b) => text_from_utf8(b.as_slice()),
            None => None,
        };
        let members = self.process_struct_members(node);
        let s = Structure { name, type_offset: node.offset, members };
        proof {
            lemma_map_table(self.structs@, |s: Structure| s@, node.offset, s);
        }
        insert_entry(&mut self.structs, node.offset, s);
    }

    /// Records a typedef under the entry's offset, where it has a name and a
    /// type.
    fn process_typedef(&mut self, node: &DebugEntry)
        requires
            old(self).wf(),
        ensures
            final(self).wf(),
            final(self)@ == record_typedef(old(self)@, *node),
    {
        let name = match &node.name {
            Some(b) => match text_from_utf8(b.as_slice()) {
                Some(s) => s,
                None => return,
            },
            None => return,
        };
        let type_offset = match node.type_ref {
            Some(t) => t,
            None => return,
        };
        let td = Typedef { name, type_offset };
        proof {
            lemma_map_table(self.typedefs@, |t: Typedef| t@, node.offset, td);
        }
        insert_entry(&mut self.typedefs, node.offset, td);
    }

    /// Records a global variable found at depth `level`, where it lies at
    /// depth at most 1 and has a name, a type and a relocatable address.
    pub fn process_variable(&mut self, node: &DebugEntry, level: u32)
        requires
            old(self).wf(),
        ensures
            final(self).wf(),
            final(self)@ == record_variable(old(self)@, *node, level),
    {
        if level > 1 {
            return;
        }
        let name = match &node.name {
            Some(b) => match text_from_utf8(b.as_slice()) {
                Some(s) => s,
                None => return,
            },
            None => return,
        };
        let type_offset = match node.type_ref {
            Some(t) => t,
            None => return,
        };
        let address = match &node.location {
            Some(expr) => {
                if self.encoding.address_size > 8 {
                    return;
                }
                match evaluate_global_address(expr.as_slice(), self.encoding) {
                    Some(a) => a,
                    None => return,
                }
            },
            None => return,
        };
        let v = Variable { address, name, type_offset, fields: Vec::new() };
        self.globals.push(v);
        assert(v@.fields =~= Seq::<MemberModel>::empty());
        assert(self@.globals =~= old(self)@.globals.push(v@));
    }
}

impl Mapper {
    /// Resolves typedefs onto the structures and base types they name,
    /// flattens every structure's members into trees, and gives every global
    /// of structure type the member tree of its structure.
    pub fn postprocess(&mut self)
        requires
            old(self).wf(),
        ensures
            final(self).wf(),
            final(self)@ == postprocessed(old(self)@),
    {
        let ghost start = self@;
        let mut i: usize = 0;
        while i < self.typedefs.len()
            invariant
                i <= self.typedefs@.len(),
                self.wf(),
                self@.typedefs == start.typedefs,
                self@ == alias_typedefs(start, start.typedefs.take(i as int)),
            decreases self.typedefs@.len() - i,
        {
            let addr = self.typedefs[i].0;
            let target = self.typedefs[i].1.type_offset;
            let ghost td = start.typedefs[i as int];
            let ghost before = self@;
            assert(start.typedefs.take(i + 1).drop_last() =~= start.typedefs.take(i as int));
            assert(td.0 == addr && td.1.type_offset == target);
            match find_key(&self.structs, target) {
                Some(j) => {
                    proof {
                        lemma_key_index(self.structs@, target, j as int);
                        lemma_map_table(self.structs@, |s: Structure| s@, target, self.structs@[j as int].1);
                    }
                    let renamed = Structure {
                        name: Some(self.typedefs[i].1.name.clone()),
                        type_offset: self.structs[j].1.type_offset,
                        members: duplicate_members(&self.structs[j].1.members),
                    };
                    let copy = renamed.duplicate();
                    proof {
                        lemma_map_table(self.structs@, |s: Structure| s@, target, renamed);
                    }
                    insert_entry(&mut self.structs, target, renamed);
                    proof {
                        lemma_map_table(self.structs@, |s: Structure| s@, addr, copy);
                    }
                    insert_entry(&mut self.structs, addr, copy);
                },
                None => {
                    proof {
                        lemma_map_table(self.structs@, |s: Structure| s@, target, arbitrary());
                    }
                },
            }
            let ghost middle = self@;
            match find_key(&self.base_types, target) {
                Some(j) => {
                    proof {
                        lemma_key_index(self.base_types@, target, j as int);
                        lemma_map_table(self.base_types@, |s: String| s@, target, self.base_types@[j as int].1);
                    }
                    let b = self.base_types[j].1.clone();
                    proof {
                        lemma_map_table(self.base_types@, |s: String| s@, addr, b);
                    }
                    insert_entry(&mut self.base_types, addr, b);
                },
                None => {
                    proof {
                        lemma_map_table(self.base_types@, |s: String| s@, target, arbitrary());
                    }
                },
            }
            i = i + 1;
        }
        assert(start.typedefs.take(self.typedefs@.len() as int) =~= start.typedefs);
        self.flatten_structs();
        self.attach_globals();
    }

    /// Replaces every structure's members by their resolved trees.
    pub fn flatten_structs(&mut self)
        requires
            old(self).wf(),
        ensures
            final(self).wf(),
            final(self)@ == (MapperModel { structs: flattened(old(self)@.structs), ..old(self)@ }),
    {
        let ghost ss = self@.structs;
        let mut new_structs: Vec<(usize, Structure)> = Vec::new();
        let mut i: usize = 0;
        while i < self.structs.len()
            invariant
                i <= self.structs@.len(),
                self.wf(),
                ss == self@.structs,
                new_structs@.len() == i,
                forall|j: int|
                    0 <= j < i ==> #[trigger] new_structs@[j].0 == self.structs@[j].0
                        && new_structs@[j].1@ == flattened(ss)[j].1,
            decreases self.structs@.len() - i,
        {
            let key = self.structs[i].0;
            let s = &self.structs[i].1;
            let mut path: Vec<usize> = Vec::new();
            path.push(s.type_offset);
            assert(path@ =~= seq![s.type_offset]);
            let members = self.resolve_members(&s.members, &path);
            let n = Structure { name: duplicate_text(&s.name), type_offset: s.type_offset, members };
            assert(ss[i as int] == (key, s@));
            assert(n@ == flattened(ss)[i as int].1);
            new_structs.push((key, n));
            i = i + 1;
        }
        let ghost old_structs = self.structs@;
        self.structs = new_structs;
        assert(map_table(self.structs@, |s: Structure| s@) =~= flattened(ss));
        assert(keys_unique(self.structs@)) by {
            assert forall|a: int, b: int|
                0 <= a < self.structs@.len() && 0 <= b < self.structs@.len() && #[trigger] self.structs@[a].0
                    == #[trigger] self.structs@[b].0 implies a == b by {
                assert(old_structs[a].0 == self.structs@[a].0);
                assert(old_structs[b].0 == self.structs@[b].0);
            }
        }
    }

    /// The members `ms` with their fields resolved along `path`.
    fn resolve_members(&self, ms: &Vec<StructMember>, path: &Vec<usize>) -> (r: Vec<StructMember>)
        requires
            self.wf(),
        ensures
            members_view(r@) == resolve_members(self@.structs, members_view(ms@), path@),
        decreases self.structs@.len() - path@.len(),
    {
        let ghost ss = self@.structs;
        let ghost entry_path = path@;
        let mut out: Vec<StructMember> = Vec::new();
        let mut i: usize = 0;
        while i < ms.len()
            invariant
                i <= ms@.len(),
                self.wf(),
                ss == self@.structs,
                path@ == entry_path,
                out@.len() == i,
                forall|j: int|
                    0 <= j < i ==> #[trigger] out@[j]@ == resolve_members(ss, members_view(ms@), entry_path)[j],
            decreases ms@.len() - i,
        {
            let m = &ms[i];
            let ghost mv = members_view(ms@)[i as int];
            let ghost expected = resolve_members(ss, members_view(ms@), entry_path)[i as int].fields;
            assert(mv == m@);
            let mut fields: Vec<StructMember> = Vec::new();
            assert(members_view(fields@) =~= Seq::<MemberModel>::empty());
            proof {
                lemma_map_table(self.structs@, |s: Structure| s@, m.type_offset, arbitrary());
            }
            if path.len() < self.structs.len() {
                match find_key(&self.structs, m.type_offset) {
                    Some(j) => {
                        proof {
                            lemma_key_index(self.structs@, m.type_offset, j as int);
                        }
                        let target = &self.structs[j].1;
                        assert(lookup(ss, m.type_offset) == Some(target@));
                        if !contains_offset(path, target.type_offset) {
                            let longer = extended(path, target.type_offset);
                            fields = self.resolve_members(&target.members, &longer);
                            assert(members_view(fields@) == expected);
                        } else {
                            assert(expected == Seq::<MemberModel>::empty());
                        }
                    },
                    None => {
                        assert(expected == Seq::<MemberModel>::empty());
                    },
                }
            } else {
                assert(expected == Seq::<MemberModel>::empty());
            }
            let item = m.with_fields(fields);
            assert(item@ == resolve_members(ss, members_view(ms@), entry_path)[i as int]);
            out.push(item);
            i = i + 1;
        }
        assert(members_view(out@) =~= resolve_members(ss, members_view(ms@), entry_path));
        out
    }

    /// Gives every global of structure type the members of its structure.
    fn attach_globals(&mut self)
        requires
            old(self).wf(),
        ensures
            final(self).wf(),
            final(self)@ == (MapperModel {
                globals: old(self)@.globals.map_values(
                    |g: VariableModel| attach_global(old(self)@.structs, g),
                ),
                ..old(self)@
            }),
    {
        let ghost start = self@;
        let mut i: usize = 0;
        while i < self.globals.len()
            invariant
                i <= self.globals@.len(),
                self.wf(),
                self@.globals.len() == start.globals.len(),
                self@ == (MapperModel { globals: self@.globals, ..start }),
                forall|j: int|
                    0 <= j < self.globals@.len() ==> #[trigger] self@.globals[j] == if j < i {
                        attach_global(start.structs, start.globals[j])
                    } else {
                        start.globals[j]
                    },
            decreases self.globals@.len() - i,
        {
            let t = self.globals[i].type_offset;
            proof {
                lemma_map_table(self.structs@, |s: Structure| s@, t, arbitrary());
            }
            match find_key(&self.structs, t) {
                Some(j) => {
                    proof {
                        lemma_key_index(self.structs@, t, j as int);
                    }
                    let fields = duplicate_members(&self.structs[j].1.members);
                    let g = Variable {
                        address: self.globals[i].address,
                        name: self.globals[i].name.clone(),
                        type_offset: t,
                        fields,
                    };
                    let ghost gv = self@.globals;
                    assert(lookup(start.structs, t) == Some(self.structs@[j as int].1@));
                    assert(self@.globals[i as int] == start.globals[i as int]);
                    assert(self@.globals[i as int] == self.globals@[i as int]@);
                    assert(g@ == attach_global(start.structs, start.globals[i as int]));
                    self.globals.set(i, g);
                    assert(self@.globals =~= gv.update(i as int, g@));
                },
                None => {},
            }
            i = i + 1;
        }
        assert(self@.globals =~= start.globals.map_values(
            |g: VariableModel| attach_global(start.structs, g),
        ));
    }

    /// The structure stored under `offset`.
    pub fn resolve_struct(&self, offset: usize) -> (r: Option<Structure>)
        requires
            self.wf(),
        ensures
            match r {
                Some(s) => lookup(self@.structs, offset) == Some(s@),
                None => lookup(self@.structs, offset) is None,
            },
    {
        proof {
            lemma_map_table(self.structs@, |s: Structure| s@, offset, arbitrary());
        }
        match find_key(&self.structs, offset) {
            Some(j) => {
                proof {
                    lemma_key_index(self.structs@, offset, j as int);
                }
                Some(self.structs[j].1.duplicate())
            },
            None => None,
        }
    }
}

} // verus!
