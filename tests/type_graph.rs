use cartographer::mapfile::{map_units, Entry, Mapfile};
use cartographer::mapper::{
    DebugEntry, Encoding, Mapper, StructMember, TAG_BASE_TYPE, TAG_MEMBER, TAG_STRUCTURE_TYPE,
    TAG_TYPEDEF, TAG_VARIABLE,
};

const TAG_COMPILE_UNIT: u16 = 0x11;
const TAG_SUBPROGRAM: u16 = 0x2e;

fn enc() -> Encoding {
    Encoding { address_size: 8, dwarf64: false, version: 4 }
}

fn entry(tag: u16, offset: usize) -> DebugEntry {
    DebugEntry {
        tag,
        offset,
        name: None,
        type_ref: None,
        member_location: None,
        location: None,
        children: vec![],
    }
}

fn named(tag: u16, offset: usize, name: &str) -> DebugEntry {
    let mut e = entry(tag, offset);
    e.name = Some(name.as_bytes().to_vec());
    e
}

fn base_type(offset: usize, name: &str) -> DebugEntry {
    named(TAG_BASE_TYPE, offset, name)
}

/// A member at byte offset `at` (DW_OP_plus_uconst with a one-byte operand).
fn member(offset: usize, name: &str, ty: usize, at: u8) -> DebugEntry {
    let mut e = named(TAG_MEMBER, offset, name);
    e.type_ref = Some(ty);
    e.member_location = Some(vec![0x23, at]);
    e
}

fn structure(offset: usize, name: Option<&str>, members: Vec<DebugEntry>) -> DebugEntry {
    let mut e = entry(TAG_STRUCTURE_TYPE, offset);
    e.name = name.map(|n| n.as_bytes().to_vec());
    e.children = members;
    e
}

fn typedef(offset: usize, name: &str, ty: usize) -> DebugEntry {
    let mut e = named(TAG_TYPEDEF, offset, name);
    e.type_ref = Some(ty);
    e
}

/// A variable at a relocatable address (DW_OP_addr with an 8-byte operand).
fn variable(offset: usize, name: &str, ty: usize, addr: u64) -> DebugEntry {
    let mut e = named(TAG_VARIABLE, offset, name);
    e.type_ref = Some(ty);
    let mut expr = vec![0x03];
    expr.extend_from_slice(&addr.to_le_bytes());
    e.location = Some(expr);
    e
}

fn unit(children: Vec<DebugEntry>) -> DebugEntry {
    let mut e = entry(TAG_COMPILE_UNIT, 0);
    e.children = children;
    e
}

fn mapped(root: &DebugEntry) -> Mapper {
    let mut m = Mapper::new(enc());
    m.process_tree(root, 0);
    m.postprocess();
    m
}

fn names(ms: &[StructMember]) -> Vec<String> {
    ms.iter().map(|m| m.name.clone()).collect()
}

#[test]
fn global_of_struct_type_projects_to_entry() {
    let root = unit(vec![
        base_type(10, "int"),
        structure(20, Some("point"), vec![member(21, "x", 10, 0)]),
        variable(30, "g", 20, 0x1000),
    ]);
    let mapfile = Mapfile::new(mapped(&root));
    assert_eq!(mapfile.entries.len(), 1);
    let g: &Entry = &mapfile.entries[0];
    assert_eq!(g.name.as_deref(), Some("g"));
    assert_eq!(g.addr, Some(4096));
    assert_eq!(g.typ, None);
    assert_eq!(g.offset, None);
    assert_eq!(g.fields.len(), 1);
    let x = &g.fields[0];
    assert_eq!(x.name.as_deref(), Some("x"));
    assert_eq!(x.typ.as_deref(), Some("int"));
    assert_eq!(x.offset, Some(0));
    assert_eq!(x.addr, None);
    assert!(x.fields.is_empty());
}

#[test]
fn member_offsets_come_from_their_expressions() {
    let root = unit(vec![
        base_type(10, "int"),
        structure(20, None, vec![member(21, "a", 10, 0), member(22, "b", 10, 4), member(23, "c", 10, 12)]),
    ]);
    let m = mapped(&root);
    let s = m.resolve_struct(20).unwrap();
    let offsets: Vec<usize> = s.members.iter().map(|x| x.member_offset).collect();
    assert_eq!(offsets, vec![0, 4, 12]);
    assert_eq!(s.name, None);
}

#[test]
fn mutual_references_are_cut_at_the_first_repeat() {
    let root = unit(vec![
        structure(100, Some("A"), vec![member(101, "b", 200, 0)]),
        structure(200, Some("B"), vec![member(201, "a", 100, 0)]),
    ]);
    let m = mapped(&root);
    let a = m.resolve_struct(100).unwrap();
    assert_eq!(names(&a.members), vec!["b"]);
    assert_eq!(names(&a.members[0].fields), vec!["a"]);
    assert!(a.members[0].fields[0].fields.is_empty());
    let b = m.resolve_struct(200).unwrap();
    assert_eq!(names(&b.members[0].fields), vec!["b"]);
    assert!(b.members[0].fields[0].fields.is_empty());
}

#[test]
fn self_reference_gets_no_fields() {
    let root = unit(vec![structure(100, Some("node"), vec![member(101, "next", 100, 8)])]);
    let m = mapped(&root);
    let s = m.resolve_struct(100).unwrap();
    assert_eq!(s.members.len(), 1);
    assert!(s.members[0].fields.is_empty());
}

#[test]
fn flattening_again_changes_nothing() {
    let root = unit(vec![
        base_type(10, "int"),
        structure(20, Some("inner"), vec![member(21, "x", 10, 0), member(22, "y", 10, 4)]),
        structure(30, Some("outer"), vec![member(31, "i", 20, 0), member(32, "j", 20, 8)]),
        structure(40, Some("loop"), vec![member(41, "o", 30, 0), member(42, "me", 40, 16)]),
    ]);
    let mut m = mapped(&root);
    let once: Vec<String> = [20usize, 30, 40].iter().map(|k| shape(&m.resolve_struct(*k).unwrap().members)).collect();
    m.flatten_structs();
    let twice: Vec<String> = [20usize, 30, 40].iter().map(|k| shape(&m.resolve_struct(*k).unwrap().members)).collect();
    assert_eq!(once, twice);
    let outer = m.resolve_struct(30).unwrap();
    assert_eq!(names(&outer.members[1].fields), vec!["x", "y"]);
}

fn shape(ms: &[StructMember]) -> String {
    ms.iter()
        .map(|m| format!("{}:{}@{}[{}]", m.name, m.type_offset, m.member_offset, shape(&m.fields)))
        .collect::<Vec<String>>()
        .join(",")
}

#[test]
fn typedef_over_struct_aliases_it() {
    let root = unit(vec![
        base_type(10, "int"),
        structure(20, None, vec![member(21, "x", 10, 0)]),
        typedef(30, "point_t", 20),
        variable(40, "p", 30, 0x2000),
    ]);
    let m = mapped(&root);
    let by_typedef = m.resolve_struct(30).unwrap();
    let by_struct = m.resolve_struct(20).unwrap();
    assert_eq!(by_typedef.name.as_deref(), Some("point_t"));
    assert_eq!(by_struct.name.as_deref(), Some("point_t"));
    assert_eq!(shape(&by_typedef.members), shape(&by_struct.members));
    assert_eq!(names(&m.globals[0].fields), vec!["x"]);
    let mapfile = Mapfile::new(m);
    assert_eq!(mapfile.entries[0].fields[0].name.as_deref(), Some("x"));
}

#[test]
fn typedef_over_base_type_names_it() {
    let root = unit(vec![
        base_type(10, "unsigned int"),
        typedef(11, "uint32_t", 10),
        variable(12, "counter", 11, 0x10),
    ]);
    let mapfile = Mapfile::new(mapped(&root));
    assert_eq!(mapfile.entries[0].typ.as_deref(), Some("unsigned int"));
    assert!(mapfile.entries[0].fields.is_empty());
}

#[test]
fn global_without_struct_type_has_no_fields() {
    let root = unit(vec![base_type(10, "int"), variable(30, "n", 10, 0x3000), variable(31, "q", 999, 0x3004)]);
    let mapfile = Mapfile::new(mapped(&root));
    assert_eq!(mapfile.entries.len(), 2);
    assert_eq!(mapfile.entries[0].addr, Some(0x3000));
    assert_eq!(mapfile.entries[0].typ.as_deref(), Some("int"));
    assert!(mapfile.entries[0].fields.is_empty());
    assert_eq!(mapfile.entries[1].name.as_deref(), Some("q"));
    assert_eq!(mapfile.entries[1].addr, Some(0x3004));
    assert_eq!(mapfile.entries[1].typ, None);
    assert!(mapfile.entries[1].fields.is_empty());
}

#[test]
fn locals_are_not_globals() {
    let mut func = entry(TAG_SUBPROGRAM, 50);
    func.children = vec![variable(51, "local", 10, 0x9000)];
    let root = unit(vec![base_type(10, "int"), func, variable(60, "g", 10, 0x100)]);
    let m = mapped(&root);
    assert_eq!(m.globals.len(), 1);
    assert_eq!(m.globals[0].name, "g");
    assert_eq!(m.globals[0].address, 0x100);
}

#[test]
fn incomplete_members_are_skipped() {
    let mut no_location = named(TAG_MEMBER, 22, "nl");
    no_location.type_ref = Some(10);
    let mut in_register = member(23, "reg", 10, 0);
    in_register.member_location = Some(vec![0x50]);
    let mut bad_name = member(24, "x", 10, 0);
    bad_name.name = Some(vec![0xff, 0xfe]);
    let not_a_member = base_type(25, "char");
    let root = unit(vec![
        base_type(10, "int"),
        structure(20, Some("s"), vec![member(21, "ok", 10, 2), no_location, in_register, bad_name, not_a_member]),
    ]);
    let m = mapped(&root);
    let s = m.resolve_struct(20).unwrap();
    assert_eq!(names(&s.members), vec!["ok"]);
    assert_eq!(s.members[0].member_offset, 2);
}

#[test]
fn variables_without_relocatable_address_are_skipped() {
    let mut in_register = variable(31, "r", 10, 0);
    in_register.location = Some(vec![0x50]);
    let mut untyped = variable(32, "u", 10, 0x40);
    untyped.type_ref = None;
    let root = unit(vec![base_type(10, "int"), in_register, untyped, variable(33, "ok", 10, 0x44)]);
    let m = mapped(&root);
    assert_eq!(m.globals.len(), 1);
    assert_eq!(m.globals[0].name, "ok");
}

#[test]
fn wide_addresses_are_not_evaluated() {
    let root = unit(vec![
        base_type(10, "int"),
        structure(20, Some("s"), vec![member(21, "x", 10, 4)]),
        variable(30, "g", 20, 0x10),
    ]);
    let mut m = Mapper::new(Encoding { address_size: 16, dwarf64: false, version: 4 });
    m.process_tree(&root, 0);
    m.postprocess();
    assert!(m.globals.is_empty());
    assert!(m.resolve_struct(20).unwrap().members.is_empty());
}

#[test]
fn later_definition_at_same_offset_replaces_earlier() {
    let root = unit(vec![base_type(10, "int"), base_type(10, "long")]);
    let m = mapped(&root);
    assert_eq!(m.base_types.len(), 1);
    assert_eq!(m.base_types[0].1, "long");
}

#[test]
fn empty_entry_has_nothing() {
    let e = Entry::new();
    assert!(e.addr.is_none() && e.name.is_none() && e.typ.is_none() && e.offset.is_none());
    assert!(e.fields.is_empty());
}

#[test]
fn four_byte_addresses_are_read() {
    let mut v = named(TAG_VARIABLE, 30, "g");
    v.type_ref = Some(10);
    v.location = Some(vec![0x03, 0x78, 0x56, 0x34, 0x12]);
    let root = unit(vec![base_type(10, "int"), v]);
    let mut m = Mapper::new(Encoding { address_size: 4, dwarf64: false, version: 4 });
    m.process_tree(&root, 0);
    m.postprocess();
    assert_eq!(m.globals[0].address, 0x1234_5678);
}

#[test]
fn units_are_walked_in_order() {
    let first = unit(vec![base_type(10, "int"), variable(11, "a", 10, 0x10)]);
    let mut second = unit(vec![
        structure(50, Some("pair"), vec![member(51, "lo", 10, 0), member(52, "hi", 10, 4)]),
        variable(53, "b", 50, 0x20),
    ]);
    second.offset = 40;
    let mapfile = map_units(enc(), &vec![first, second]);
    assert_eq!(mapfile.entries.len(), 2);
    assert_eq!(mapfile.entries[0].name.as_deref(), Some("a"));
    assert_eq!(mapfile.entries[0].typ.as_deref(), Some("int"));
    assert_eq!(mapfile.entries[1].name.as_deref(), Some("b"));
    assert_eq!(mapfile.entries[1].addr, Some(0x20));
    let offsets: Vec<Option<usize>> = mapfile.entries[1].fields.iter().map(|f| f.offset).collect();
    assert_eq!(offsets, vec![Some(0), Some(4)]);
    assert_eq!(mapfile.entries[1].fields[1].typ.as_deref(), Some("int"));
}

#[test]
fn each_typedef_offset_keeps_its_own_name() {
    let root = unit(vec![
        base_type(10, "int"),
        structure(20, Some("s"), vec![member(21, "x", 10, 0)]),
        typedef(30, "first_t", 20),
        typedef(31, "second_t", 20),
    ]);
    let m = mapped(&root);
    assert_eq!(m.resolve_struct(30).unwrap().name.as_deref(), Some("first_t"));
    assert_eq!(m.resolve_struct(31).unwrap().name.as_deref(), Some("second_t"));
    assert_eq!(m.resolve_struct(20).unwrap().name.as_deref(), Some("second_t"));
    assert_eq!(names(&m.resolve_struct(31).unwrap().members), vec!["x"]);
}

#[test]
fn struct_with_undecodable_name_is_kept_unnamed() {
    let mut s = structure(20, None, vec![member(21, "x", 10, 0)]);
    s.name = Some(vec![0xc3, 0x28]);
    let root = unit(vec![base_type(10, "int"), s]);
    let m = mapped(&root);
    let got = m.resolve_struct(20).unwrap();
    assert_eq!(got.name, None);
    assert_eq!(names(&got.members), vec!["x"]);
}
