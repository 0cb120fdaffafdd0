//! Enigma Virtual Box VFS record reader.
use vstd::prelude::*;
use crate::bytes::{
    read_u16_le, read_u32_le, spec_u16_le, spec_u32_le, str_eq, string_from_utf16_lossy,
    string_push_str, utf16_lossy,
};
use crate::pe::EnigmaError;

verus! {

pub const NODE_TYPE_FILE: u8 = 2;

pub const NODE_TYPE_FOLDER: u8 = 3;

/// Kind of a VFS entry.
#[derive(Debug, Clone, Copy, PartialEq, Eq, Structural)]
pub enum VfsEntryKind {
    File,
    Folder,
}

/// A file of the virtual file system.
#[derive(Debug)]
pub struct VfsEntry {
    pub path: String,
    pub kind: VfsEntryKind,
    pub offset: u64,
    pub stored_size: u32,
    pub original_size: u32,
}

/// The model of a [`VfsEntry`].
pub struct EntrySpec {
    pub path: Seq<char>,
    pub offset: u64,
    pub stored_size: u32,
    pub original_size: u32,
}

impl VfsEntry {
    pub open spec fn is_entry(&self, e: EntrySpec) -> bool {
        &&& self.path@ == e.path
        &&& self.kind == VfsEntryKind::File
        &&& self.offset == e.offset
        &&& self.stored_size == e.stored_size
        &&& self.original_size == e.original_size
    }
}

/// One record of the flat node list, in file order.
struct FlatNode {
    name: String,
    node_type: u8,
    objects_count: u32,
    offset: u64,
    stored_size: u32,
    original_size: u32,
}

/// The model of a flat node.
pub struct FlatSpec {
    pub name: Seq<char>,
    pub node_type: u8,
    pub objects_count: u32,
    pub offset: u64,
    pub stored_size: u32,
    pub original_size: u32,
}

impl FlatNode {
    spec fn is_node(&self, f: FlatSpec) -> bool {
        &&& self.name@ == f.name
        &&& self.node_type == f.node_type
        &&& self.objects_count == f.objects_count
        &&& self.offset == f.offset
        &&& self.stored_size == f.stored_size
        &&& self.original_size == f.original_size
    }
}

/// UTF-16LE name units from `p` up to a zero unit, and the position after
/// the terminator; `None` when the data ends first.
pub open spec fn spec_name_units(data: Seq<u8>, p: int) -> Option<(Seq<u16>, int)>
    decreases data.len() - p,
{
    if p < 0 || p + 2 > data.len() {
        None
    } else if data[p] == 0 && data[p + 1] == 0 {
        Some((Seq::empty(), p + 2))
    } else {
        match spec_name_units(data, p + 2) {
            None => None,
            Some((u, q)) => Some((seq![spec_u16_le(data, p)] + u, q)),
        }
    }
}

pub proof fn lemma_name_units(data: Seq<u8>, p: int)
    ensures
        spec_name_units(data, p) matches Some((_, q)) ==> p + 2 <= q <= data.len(),
    decreases data.len() - p,
{
    if p >= 0 && p + 2 <= data.len() && !(data[p] == 0 && data[p + 1] == 0) {
        lemma_name_units(data, p + 2);
    }
}

/// Records from `pos` on, with `abs` the data offset of the next stored
/// file.  Reading stops at the end of the data, at a truncated header or
/// name, or at an unknown node type; a truncated file or folder record is
/// an error.  The second component is the data offset reached.
pub open spec fn spec_nodes_from(data: Seq<u8>, pos: int, abs: int) -> (
    Result<Seq<FlatSpec>, EnigmaError>,
    int,
)
    decreases data.len() - pos,
{
    if pos < 0 || pos + 16 > data.len() {
        (Ok(Seq::empty()), abs)
    } else {
        let count = spec_u32_le(data, pos + 12);
        match spec_name_units(data, pos + 16) {
            None => (Ok(Seq::empty()), abs),
            Some((units, q)) => {
                proof {
                    lemma_name_units(data, pos + 16);
                }
                if q + 1 > data.len() {
                    (Ok(Seq::empty()), abs)
                } else if data[q] == NODE_TYPE_FILE {
                    if q + 54 > data.len() {
                        (Err(EnigmaError::UnexpectedEof), abs)
                    } else {
                        let stored = spec_u32_le(data, q + 50);
                        let node = FlatSpec {
                            name: utf16_lossy(units),
                            node_type: NODE_TYPE_FILE,
                            objects_count: count,
                            offset: abs as u64,
                            stored_size: stored,
                            original_size: spec_u32_le(data, q + 3),
                        };
                        let (rest, end) = spec_nodes_from(data, q + 54, abs + stored);
                        (
                            match rest {
                                Ok(r) => Ok(seq![node] + r),
                                Err(e) => Err(e),
                            },
                            end,
                        )
                    }
                } else if data[q] == NODE_TYPE_FOLDER {
                    if q + 26 > data.len() {
                        (Err(EnigmaError::UnexpectedEof), abs)
                    } else {
                        let node = FlatSpec {
                            name: utf16_lossy(units),
                            node_type: NODE_TYPE_FOLDER,
                            objects_count: count,
                            offset: 0,
                            stored_size: 0,
                            original_size: 0,
                        };
                        let (rest, end) = spec_nodes_from(data, q + 26, abs);
                        (
                            match rest {
                                Ok(r) => Ok(seq![node] + r),
                                Err(e) => Err(e),
                            },
                            end,
                        )
                    }
                } else {
                    (Ok(Seq::empty()), abs)
                }
            },
        }
    }
}

pub proof fn lemma_nodes_from_mono(data: Seq<u8>, pos: int, abs: int)
    ensures
        spec_nodes_from(data, pos, abs).1 >= abs,
    decreases data.len() - pos,
{
    if pos >= 0 && pos + 16 <= data.len() {
        lemma_name_units(data, pos + 16);
        if let Some((units, q)) = spec_name_units(data, pos + 16) {
            if q + 54 <= data.len() && data[q] == NODE_TYPE_FILE {
                lemma_nodes_from_mono(data, q + 54, abs + spec_u32_le(data, q + 50));
            }
            if q + 26 <= data.len() && data[q] == NODE_TYPE_FOLDER {
                lemma_nodes_from_mono(data, q + 26, abs);
            }
        }
    }
}

pub open spec fn evb_magic_ok(data: Seq<u8>) -> bool {
    data[0] == 0x45 && data[1] == 0x56 && data[2] == 0x42 && data[3] == 0
}

/// All records of a VFS: the 64-byte pack header (starting with `EVB\0`),
/// the main node, then the records, the first of which starts one byte
/// before the end of the main node.
pub open spec fn spec_read_all(data: Seq<u8>) -> (Result<Seq<FlatSpec>, EnigmaError>, int) {
    if data.len() < 64 {
        (Err(EnigmaError::UnexpectedEof), 0)
    } else if !evb_magic_ok(data) {
        (Err(EnigmaError::InvalidMagic), 0)
    } else if data.len() < 80 {
        (Err(EnigmaError::UnexpectedEof), 0)
    } else {
        let abs = 80 + spec_u32_le(data, 64) - 12;
        let main = FlatSpec {
            name: Seq::empty(),
            node_type: 0,
            objects_count: spec_u32_le(data, 76),
            offset: 0,
            stored_size: 0,
            original_size: 0,
        };
        let (rest, end) = spec_nodes_from(data, 79, abs);
        (
            match rest {
                Ok(r) => Ok(seq![main] + r),
                Err(e) => Err(e),
            },
            end,
        )
    }
}

/// `Ok(prefix + rest)`, or the error of `rest`.
pub open spec fn combine(prefix: Seq<FlatSpec>, rest: Result<Seq<FlatSpec>, EnigmaError>) -> Result<
    Seq<FlatSpec>,
    EnigmaError,
> {
    match rest {
        Ok(r) => Ok(prefix + r),
        Err(e) => Err(e),
    }
}

pub proof fn lemma_combine_push(prefix: Seq<FlatSpec>, f: FlatSpec, rest: Result<Seq<FlatSpec>, EnigmaError>)
    ensures
        combine(prefix, match rest {
            Ok(r) => Ok(seq![f] + r),
            Err(e) => Err(e),
        }) == combine(prefix.push(f), rest),
{
    if let Ok(r) = rest {
        assert(prefix + (seq![f] + r) =~= prefix.push(f) + r);
    }
}

/// The data offsets of the stored files fit in 64 bits.
pub open spec fn vfs_offsets_fit(data: Seq<u8>) -> bool {
    spec_read_all(data).1 <= u64::MAX
}

/// Folder name as shown in paths: the default folder has an empty name.
pub open spec fn norm_name(n: Seq<char>) -> Seq<char> {
    if n == "%DEFAULT FOLDER%"@ {
        Seq::empty()
    } else {
        n
    }
}

/// `prefix/name`, or `name` alone under the root.
pub open spec fn join_path(prefix: Seq<char>, name: Seq<char>) -> Seq<char> {
    if prefix.len() == 0 {
        name
    } else {
        prefix + "/"@ + name
    }
}

/// Walk `count` children starting at node `idx` under the path `prefix`:
/// files are listed, folders are entered with their own child count.
/// Returns the entries and the index after the last node visited.
pub open spec fn spec_walk(nodes: Seq<FlatSpec>, idx: int, count: int, prefix: Seq<char>) -> (
    Seq<EntrySpec>,
    int,
)
    decreases nodes.len() - idx,
{
    if count <= 0 || idx < 0 || idx >= nodes.len() {
        (Seq::empty(), idx)
    } else {
        let node = nodes[idx];
        let path = join_path(prefix, norm_name(node.name));
        let (e1, i1) = if node.node_type == NODE_TYPE_FILE {
            (
                seq![
                    EntrySpec {
                        path,
                        offset: node.offset,
                        stored_size: node.stored_size,
                        original_size: node.original_size,
                    },
                ],
                idx + 1,
            )
        } else if node.node_type == NODE_TYPE_FOLDER {
            spec_walk(nodes, idx + 1, node.objects_count as int, path)
        } else {
            (Seq::empty(), idx + 1)
        };
        let i1c = if idx < i1 <= nodes.len() {
            i1
        } else {
            idx + 1
        };
        let (e2, i2) = spec_walk(nodes, i1c, count - 1, prefix);
        (e1 + e2, i2)
    }
}

pub proof fn lemma_walk_bounds(nodes: Seq<FlatSpec>, idx: int, count: int, prefix: Seq<char>)
    requires
        0 <= idx <= nodes.len(),
    ensures
        idx <= spec_walk(nodes, idx, count, prefix).1 <= nodes.len(),
        count > 0 && idx < nodes.len() ==> idx < spec_walk(nodes, idx, count, prefix).1,
    decreases nodes.len() - idx,
{
    if count > 0 && idx < nodes.len() {
        let node = nodes[idx];
        let path = join_path(prefix, norm_name(node.name));
        if node.node_type == NODE_TYPE_FOLDER {
            lemma_walk_bounds(nodes, idx + 1, node.objects_count as int, path);
        }
        let i1 = if node.node_type == NODE_TYPE_FILE {
            idx + 1
        } else if node.node_type == NODE_TYPE_FOLDER {
            spec_walk(nodes, idx + 1, node.objects_count as int, path).1
        } else {
            idx + 1
        };
        let i1c = if idx < i1 <= nodes.len() {
            i1
        } else {
            idx + 1
        };
        lemma_walk_bounds(nodes, i1c, count - 1, prefix);
    }
}

/// The entries of a VFS, in the order of its records.
pub open spec fn spec_vfs_tree(data: Seq<u8>) -> Result<Seq<EntrySpec>, EnigmaError> {
    match spec_read_all(data).0 {
        Err(e) => Err(e),
        Ok(nodes) => if nodes.len() == 0 {
            Ok(Seq::empty())
        } else {
            Ok(spec_walk(nodes, 1, nodes[0].objects_count as int, Seq::empty()).0)
        },
    }
}

/// Parse the VFS record tree that starts at the `EVB\0` magic.
pub fn parse_vfs_tree(data: &[u8]) -> (r: Result<Vec<VfsEntry>, EnigmaError>)
    requires
        vfs_offsets_fit(data@),
    ensures
        match spec_vfs_tree(data@) {
            Err(e) => r == Err::<Vec<VfsEntry>, EnigmaError>(e),
            Ok(es) => r is Ok && r->Ok_0@.len() == es.len() && forall|i: int|
                0 <= i < es.len() ==> (#[trigger] r->Ok_0@[i]).is_entry(es[i]),
        },
{
    let flat = match read_all_nodes(data) {
        Ok(n) => n,
        Err(e) => return Err(e),
    };
    let ghost nodes = spec_read_all(data@).0->Ok_0;
    if flat.len() == 0 {
        return Ok(Vec::new());
    }
    let mut entries: Vec<VfsEntry> = Vec::new();
    let count = flat[0].objects_count as usize;
    let prefix = String::new();
    proof {
        lemma_walk_bounds(nodes, 1, count as int, Seq::empty());
    }
    let _ = walk_children(&flat, 1, count, prefix.as_str(), &mut entries, Ghost(nodes));
    let ghost es = spec_walk(nodes, 1, nodes[0].objects_count as int, Seq::empty()).0;
    assert forall|i: int| 0 <= i < es.len() implies (#[trigger] entries@[i]).is_entry(es[i]) by {
        assert(entries@[0 + i] == entries@[i]);
    }
    Ok(entries)
}

/// Read the `n` bytes at `pos`: the reader's position moves past them.
fn read_exact(data: &[u8], pos: &mut usize, n: usize) -> (ok: bool)
    requires
        *old(pos) <= data@.len(),
    ensures
        ok == (*old(pos) + n <= data@.len()),
        ok ==> *final(pos) == *old(pos) + n,
        !ok ==> *final(pos) == data@.len(),
{
    if n <= data.len() - *pos {
        *pos = *pos + n;
        true
    } else {
        *pos = data.len();
        false
    }
}

/// Read a record header: returns the object count of the record.
fn read_header_node(data: &[u8], pos: &mut usize) -> (r: Option<u32>)
    requires
        *old(pos) <= data@.len(),
    ensures
        *final(pos) <= data@.len(),
        *old(pos) + 16 <= data@.len() ==> r == Some(spec_u32_le(data@, *old(pos) + 12)) && *final(pos)
            == *old(pos) + 16,
        *old(pos) + 16 > data@.len() ==> r is None,
{
    let start = *pos;
    if !read_exact(data, pos, 16) {
        return None;
    }
    Some(read_u32_le(data, start + 12))
}

/// Read the 53-byte tail of a file record: its original and stored sizes.
fn read_optional_file_node(data: &[u8], pos: &mut usize) -> (r: Option<(u32, u32)>)
    requires
        *old(pos) <= data@.len(),
    ensures
        *old(pos) + 53 <= data@.len() ==> r == Some((spec_u32_le(data@, *old(pos) + 2), spec_u32_le(data@, *old(pos) + 49)))
            && *final(pos) == *old(pos) + 53,
        *old(pos) + 53 > data@.len() ==> r is None && *final(pos) == data@.len(),
{
    let start = *pos;
    if !read_exact(data, pos, 53) {
        return None;
    }
    Some((read_u32_le(data, start + 2), read_u32_le(data, start + 49)))
}

/// Read a record name (UTF-16LE up to a zero unit) and the node type byte.
fn read_named_node(data: &[u8], pos: &mut usize) -> (r: Option<(String, u8)>)
    requires
        *old(pos) <= data@.len(),
    ensures
        *final(pos) <= data@.len(),
        match spec_name_units(data@, *old(pos) as int) {
            None => r is None,
            Some((units, q)) => if q + 1 > data@.len() {
                r is None
            } else {
                r matches Some((name, t)) && name@ == utf16_lossy(units) && t == data@[q] && *final(pos)
                    == q + 1
            },
        },
{
    let start = *pos;
    let mut units: Vec<u16> = Vec::new();
    proof {
        lemma_name_units(data@, start as int);
    }
    loop
        invariant_except_break
            spec_name_units(data@, start as int) == match spec_name_units(data@, *pos as int) {
                None => None,
                Some((u, q)) => Some((units@ + u, q)),
            },
        invariant
            *pos <= data@.len(),
            start <= *pos,
            start == *old(pos),
        ensures
            spec_name_units(data@, start as int) == Some((units@, *pos as int)),
        decreases data@.len() - *pos,
    {
        let p = *pos;
        if !read_exact(data, pos, 2) {
            assert(spec_name_units(data@, p as int) is None);
            assert(spec_name_units(data@, start as int) is None);
            return None;
        }
        if data[p] == 0 && data[p + 1] == 0 {
            assert(units@ + Seq::<u16>::empty() =~= units@);
            break;
        }
        let ghost before = units@;
        units.push(read_u16_le(data, p));
        proof {
            if let Some((u, q)) = spec_name_units(data@, *pos as int) {
                assert(before + (seq![spec_u16_le(data@, p as int)] + u) =~= units@ + u);
            }
        }
    }
    let name = string_from_utf16_lossy(units.as_slice());
    let t = *pos;
    if !read_exact(data, pos, 1) {
        return None;
    }
    Some((name, data[t]))
}

/// Read every record of the VFS.
fn read_all_nodes(data: &[u8]) -> (r: Result<Vec<FlatNode>, EnigmaError>)
    requires
        vfs_offsets_fit(data@),
    ensures
        match spec_read_all(data@).0 {
            Err(e) => r == Err::<Vec<FlatNode>, EnigmaError>(e),
            Ok(ns) => r is Ok && r->Ok_0@.len() == ns.len() && forall|i: int|
                0 <= i < ns.len() ==> (#[trigger] r->Ok_0@[i]).is_node(ns[i]),
        },
{
    let mut pos: usize = 0;
    if !read_exact(data, &mut pos, 64) {
        return Err(EnigmaError::UnexpectedEof);
    }
    if !(data[0] == 0x45 && data[1] == 0x56 && data[2] == 0x42 && data[3] == 0) {
        return Err(EnigmaError::InvalidMagic);
    }
    if !read_exact(data, &mut pos, 16) {
        return Err(EnigmaError::UnexpectedEof);
    }
    let main_size = read_u32_le(data, 64);
    let main_count = read_u32_le(data, 76);
    let mut abs_offset: u64 = pos as u64 + main_size as u64 - 12;
    pos = pos - 1;
    let mut nodes: Vec<FlatNode> = Vec::new();
    nodes.push(
        FlatNode {
            name: String::new(),
            node_type: 0,
            objects_count: main_count,
            offset: 0,
            stored_size: 0,
            original_size: 0,
        },
    );
    let ghost total = spec_read_all(data@);
    let ghost mut model: Seq<FlatSpec> = seq![
        FlatSpec {
            name: Seq::empty(),
            node_type: 0,
            objects_count: main_count,
            offset: 0,
            stored_size: 0,
            original_size: 0,
        },
    ];
    proof {
        lemma_nodes_from_mono(data@, 79, abs_offset as int);
    }
    loop
        invariant_except_break
            total.0 == combine(model, spec_nodes_from(data@, pos as int, abs_offset as int).0),
            spec_nodes_from(data@, pos as int, abs_offset as int).1 == total.1,
        invariant
            pos <= data@.len(),
            total == spec_read_all(data@),
            total.1 <= u64::MAX,
            nodes@.len() == model.len(),
            forall|i: int| 0 <= i < model.len() ==> (#[trigger] nodes@[i]).is_node(model[i]),
        ensures
            total.0 == Ok::<Seq<FlatSpec>, EnigmaError>(model),
        decreases data@.len() - pos,
    {
        let ghost p0 = pos;
        let count = match read_header_node(data, &mut pos) {
            Some(c) => c,
            None => {
                assert(model + Seq::<FlatSpec>::empty() =~= model);
                break;
            },
        };
        proof {
            lemma_name_units(data@, pos as int);
        }
        let (name, node_type) = match read_named_node(data, &mut pos) {
            Some(v) => v,
            None => {
                assert(model + Seq::<FlatSpec>::empty() =~= model);
                break;
            },
        };
        if node_type == NODE_TYPE_FILE {
            let (original_size, stored_size) = match read_optional_file_node(data, &mut pos) {
                Some(sizes) => sizes,
                None => return Err(EnigmaError::UnexpectedEof),
            };
            let offset = abs_offset;
            proof {
                lemma_nodes_from_mono(data@, pos as int, abs_offset + stored_size);
            }
            abs_offset = abs_offset + stored_size as u64;
            let node = FlatNode {
                name,
                node_type: NODE_TYPE_FILE,
                objects_count: count,
                offset,
                stored_size,
                original_size,
            };
            proof {
                let f = FlatSpec {
                    name: node.name@,
                    node_type: NODE_TYPE_FILE,
                    objects_count: count,
                    offset,
                    stored_size,
                    original_size,
                };
                lemma_combine_push(model, f, spec_nodes_from(data@, pos as int, abs_offset as int).0);
                model = model.push(f);
            }
            nodes.push(node);
        } else if node_type == NODE_TYPE_FOLDER {
            if !read_exact(data, &mut pos, 25) {
                return Err(EnigmaError::UnexpectedEof);
            }
            let node = FlatNode {
                name,
                node_type: NODE_TYPE_FOLDER,
                objects_count: count,
                offset: 0,
                stored_size: 0,
                original_size: 0,
            };
            proof {
                let f = FlatSpec {
                    name: node.name@,
                    node_type: NODE_TYPE_FOLDER,
                    objects_count: count,
                    offset: 0,
                    stored_size: 0,
                    original_size: 0,
                };
                lemma_combine_push(model, f, spec_nodes_from(data@, pos as int, abs_offset as int).0);
                model = model.push(f);
            }
            nodes.push(node);
        } else {
            assert(model + Seq::<FlatSpec>::empty() =~= model);
            break;
        }
    }
    Ok(nodes)
}

/// Folder name as shown in paths.
fn normalize_folder_name(name: &str) -> (r: String)
    ensures
        r@ == norm_name(name@),
{
    if str_eq(name, "%DEFAULT FOLDER%") {
        String::new()
    } else {
        name.to_owned()
    }
}

/// Walk `count` children from node `idx` under `prefix`, appending the
/// files found to `entries`; returns the index after the last node visited.
fn walk_children(
    nodes: &Vec<FlatNode>,
    idx: usize,
    count: usize,
    prefix: &str,
    entries: &mut Vec<VfsEntry>,
    Ghost(model): Ghost<Seq<FlatSpec>>,
) -> (next: usize)
    requires
        idx <= nodes@.len(),
        nodes@.len() == model.len(),
        forall|i: int| 0 <= i < model.len() ==> (#[trigger] nodes@[i]).is_node(model[i]),
    ensures
        next == spec_walk(model, idx as int, count as int, prefix@).1,
        final(entries)@.len() == old(entries)@.len() + spec_walk(
            model,
            idx as int,
            count as int,
            prefix@,
        ).0.len(),
        forall|i: int| 0 <= i < old(entries)@.len() ==> #[trigger] final(entries)@[i] == old(entries)@[i],
        forall|i: int|
            0 <= i < spec_walk(model, idx as int, count as int, prefix@).0.len() ==> (
            #[trigger] final(entries)@[old(entries)@.len() + i]).is_entry(
                spec_walk(model, idx as int, count as int, prefix@).0[i],
            ),
    decreases nodes@.len() - idx,
{
    let ghost total = spec_walk(model, idx as int, count as int, prefix@);
    let ghost base = entries@.len();
    let ghost old_entries = entries@;
    let ghost mut acc: Seq<EntrySpec> = Seq::empty();
    let mut cur = idx;
    let mut k: usize = 0;
    proof {
        lemma_walk_bounds(model, idx as int, count as int, prefix@);
        assert(total.0 =~= acc + total.0);
    }
    while k < count
        invariant
            idx <= cur <= nodes@.len(),
            nodes@.len() == model.len(),
            forall|i: int| 0 <= i < model.len() ==> (#[trigger] nodes@[i]).is_node(model[i]),
            k <= count,
            total == spec_walk(model, idx as int, count as int, prefix@),
            base == old_entries.len(),
            entries@.len() == base + acc.len(),
            forall|i: int| 0 <= i < base ==> #[trigger] entries@[i] == old_entries[i],
            forall|i: int| 0 <= i < acc.len() ==> (#[trigger] entries@[base + i]).is_entry(acc[i]),
            total.0 == acc + spec_walk(model, cur as int, (count - k) as int, prefix@).0,
            total.1 == spec_walk(model, cur as int, (count - k) as int, prefix@).1,
        ensures
            k >= count || cur >= nodes@.len(),
        decreases count - k,
    {
        if cur >= nodes.len() {
            break;
        }
        let node = &nodes[cur];
        let name = normalize_folder_name(node.name.as_str());
        let mut path: String;
        if prefix.is_empty() {
            path = name;
        } else {
            path = prefix.to_owned();
            string_push_str(&mut path, "/");
            string_push_str(&mut path, name.as_str());
        }
        let ghost rest = spec_walk(model, cur as int, (count - k) as int, prefix@);
        let ghost f = model[cur as int];
        assert(path@ == join_path(prefix@, norm_name(f.name)));
        proof {
            lemma_walk_bounds(model, cur as int + 1, f.objects_count as int, path@);
        }
        let ghost e1: Seq<EntrySpec>;
        let ghost before = entries@;
        let next: usize;
        if node.node_type == NODE_TYPE_FILE {
            let ghost es = EntrySpec {
                path: path@,
                offset: f.offset,
                stored_size: f.stored_size,
                original_size: f.original_size,
            };
            entries.push(
                VfsEntry {
                    path,
                    kind: VfsEntryKind::File,
                    offset: node.offset,
                    stored_size: node.stored_size,
                    original_size: node.original_size,
                },
            );
            proof {
                e1 = seq![es];
            }
            next = cur + 1;
        } else if node.node_type == NODE_TYPE_FOLDER {
            let child_count = node.objects_count as usize;
            next = walk_children(nodes, cur + 1, child_count, path.as_str(), entries, Ghost(model));
            proof {
                e1 = spec_walk(model, cur + 1, f.objects_count as int, path@).0;
            }
        } else {
            next = cur + 1;
            proof {
                e1 = Seq::empty();
            }
        }
        proof {
            lemma_walk_bounds(model, next as int, (count - k - 1) as int, prefix@);
            let e2 = spec_walk(model, next as int, (count - k - 1) as int, prefix@).0;
            assert(rest.0 == e1 + e2);
            assert(total.0 =~= (acc + e1) + e2);
            assert forall|i: int| 0 <= i < acc.len() + e1.len() implies (#[trigger] entries@[base
                + i]).is_entry((acc + e1)[i]) by {
                if i < acc.len() {
                    assert(entries@[base + i] == before[base + i]);
                } else {
                    assert(entries@[base + i] == entries@[before.len() + (i - acc.len())]);
                }
            }
            acc = acc + e1;
        }
        cur = next;
        k = k + 1;
    }
    proof {
        assert(total.0 =~= acc);
    }
    cur
}

/// The position after the name that starts at `p` (see
/// [`spec_name_units`]).
fn skip_name(data: &[u8], p: usize) -> (r: Option<usize>)
    requires
        p <= data@.len(),
    ensures
        match spec_name_units(data@, p as int) {
            None => r is None,
            Some((_, q)) => r == Some(q as usize),
        },
{
    let mut k: usize = p;
    proof {
        lemma_name_units(data@, p as int);
    }
    while k <= data.len() && data.len() - k >= 2
        invariant
            p <= k <= data@.len(),
            (k - p) % 2 == 0,
            spec_name_units(data@, p as int) is None <==> spec_name_units(data@, k as int) is None,
            spec_name_units(data@, k as int) matches Some((_, q)) ==> spec_name_units(data@, p as int) matches Some((_, q2)) && q2 == q,
        decreases data.len() - k,
    {
        if data[k] == 0 && data[k + 1] == 0 {
            return Some(k + 2);
        }
        k = k + 2;
    }
    None
}

/// The data offset reached after all records (see [`spec_read_all`]),
/// computed without overflow.
fn offsets_end(data: &[u8]) -> (r: u128)
    ensures
        r == spec_read_all(data@).1,
{
    if data.len() < 80 || !(data[0] == 0x45 && data[1] == 0x56 && data[2] == 0x42 && data[3] == 0) {
        return 0;
    }
    let mut abs: u128 = 80 + read_u32_le(data, 64) as u128 - 12;
    let mut pos: usize = 79;
    assert(data@.len() == data.len());
    loop
        invariant
            pos <= data@.len(),
            data@.len() == data.len(),
            data@.len() >= 80,
            evb_magic_ok(data@),
            spec_read_all(data@).1 == spec_nodes_from(data@, pos as int, abs as int).1,
            abs <= 0x1_0000_0000 * (pos as int) + 0x1_0000_0000,
        decreases data@.len() - pos,
    {
        if data.len() - pos < 16 {
            return abs;
        }
        proof {
            lemma_name_units(data@, pos + 16);
        }
        let q = match skip_name(data, pos + 16) {
            None => return abs,
            Some(q) => q,
        };
        if q >= data.len() {
            return abs;
        }
        if data[q] == NODE_TYPE_FILE {
            if data.len() - q < 54 {
                return abs;
            }
            let stored = read_u32_le(data, q + 50);
            assert(data@.len() <= 0xffff_ffff_ffff_ffff);
            assert(abs + stored <= 0x1_0000_0000 * ((q + 54) as int) + 0x1_0000_0000) by (nonlinear_arith)
                requires
                    abs <= 0x1_0000_0000 * (pos as int) + 0x1_0000_0000,
                    pos < q + 54,
                    stored <= 0xffff_ffffu32,
            ;
            assert(0x1_0000_0000 * ((q + 54) as int) + 0x1_0000_0000 < 0x1_0000_0000_0000_0000_0000_0000_0000_0000) by (nonlinear_arith)
                requires
                    q + 54 <= data@.len(),
                    data@.len() <= 0xffff_ffff_ffff_ffff,
            ;
            abs = abs + stored as u128;
            pos = q + 54;
        } else if data[q] == NODE_TYPE_FOLDER {
            if data.len() - q < 26 {
                return abs;
            }
            pos = q + 26;
        } else {
            return abs;
        }
    }
}

/// Whether [`vfs_offsets_fit`] holds of `data`.
pub fn vfs_offsets_fit_test(data: &[u8]) -> (r: bool)
    ensures
        r == vfs_offsets_fit(data@),
{
    offsets_end(data) <= 0xffff_ffff_ffff_ffffu128
}

} // verus!
